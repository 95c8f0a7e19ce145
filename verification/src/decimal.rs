//! Unsigned decimal numbers written as ASCII digits.

use vstd::prelude::*;

verus! {

pub open spec fn is_digit(b: u8) -> bool {
    48 <= b <= 57
}

pub open spec fn all_digits(s: Seq<u8>) -> bool {
    forall|i: int| 0 <= i < s.len() ==> is_digit(#[trigger] s[i])
}

/// The number that the digits `s` write, most significant first.
pub open spec fn digits_value(s: Seq<u8>) -> nat
    decreases s.len(),
{
    if s.len() == 0 {
        0
    } else {
        digits_value(s.drop_last()) * 10 + (s.last() - 48) as nat
    }
}

proof fn lemma_digits_value_grows(s: Seq<u8>, k: int)
    requires
        0 <= k <= s.len(),
        all_digits(s),
    ensures
        digits_value(s.subrange(0, k)) <= digits_value(s),
    decreases s.len() - k,
{
    if k < s.len() {
        lemma_digits_value_grows(s.drop_last(), k);
        assert(s.drop_last().subrange(0, k) =~= s.subrange(0, k));
        assert(is_digit(s.last()));
    } else {
        assert(s.subrange(0, k) =~= s);
    }
}

/// What `str::parse::<u8>` accepts: an optional `+`, then one or more
/// digits writing a number no larger than 255.
pub open spec fn parse_u8_spec(s: Seq<u8>) -> Option<u8> {
    let d = if s.len() > 0 && s[0] == 43 {
        s.drop_first()
    } else {
        s
    };
    if d.len() > 0 && all_digits(d) && digits_value(d) <= 255 {
        Some(digits_value(d) as u8)
    } else {
        None
    }
}

/// Reads digits `s[from..]` as a number no larger than `limit`, or `None`
/// when a byte is not a digit or the number is larger.
fn digits_up_to(s: &[u8], from: usize, limit: u64) -> (r: Option<u64>)
    requires
        from <= s@.len(),
        limit < 0x1_0000_0000,
    ensures
        match r {
            Some(v) => all_digits(s@.subrange(from as int, s@.len() as int)) && v == digits_value(
                s@.subrange(from as int, s@.len() as int),
            ) && v <= limit,
            None => !(all_digits(s@.subrange(from as int, s@.len() as int)) && digits_value(
                s@.subrange(from as int, s@.len() as int),
            ) <= limit),
        },
{
    let ghost d = s@.subrange(from as int, s@.len() as int);
    let mut value: u64 = 0;
    let mut i: usize = from;
    assert(d.subrange(0, 0) =~= Seq::<u8>::empty());
    while i < s.len()
        invariant
            from <= i <= s@.len(),
            limit < 0x1_0000_0000,
            d == s@.subrange(from as int, s@.len() as int),
            all_digits(d.subrange(0, i - from)),
            value == digits_value(d.subrange(0, i - from)),
            value <= limit,
        decreases s@.len() - i,
    {
        let b = s[i];
        if b < 48 || b > 57 {
            assert(!is_digit(d[i - from]));
            return None;
        }
        let next = value * 10 + (b - 48) as u64;
        proof {
            let p = d.subrange(0, i - from + 1);
            assert(p.drop_last() =~= d.subrange(0, i - from));
            assert(p.last() == b);
        }
        if next > limit {
            proof {
                if all_digits(d) {
                    lemma_digits_value_grows(d, i - from + 1);
                }
            }
            return None;
        }
        value = next;
        i = i + 1;
    }
    assert(d.subrange(0, i - from) =~= d);
    Some(value)
}

/// Parses a `u8` as `str::parse::<u8>` does.
pub fn parse_u8(s: &[u8]) -> (r: Option<u8>)
    ensures
        r == parse_u8_spec(s@),
{
    let from: usize = if s.len() > 0 && s[0] == 43 {
        1
    } else {
        0
    };
    proof {
        if from == 1 {
            assert(s@.subrange(1, s@.len() as int) =~= s@.drop_first());
        } else {
            assert(s@.subrange(0, s@.len() as int) =~= s@);
        }
    }
    if from == s.len() {
        return None;
    }
    match digits_up_to(s, from, 255) {
        Some(v) => Some(v as u8),
        None => None,
    }
}

/// Digits only, read as a `u32` without overflowing; no digits read as 0.
pub open spec fn parse_u32_spec(s: Seq<u8>) -> Option<u32> {
    if all_digits(s) && digits_value(s) <= u32::MAX {
        Some(digits_value(s) as u32)
    } else {
        None
    }
}

/// Reads ASCII digits as a `u32`, or `None` for any other byte or a value
/// that does not fit.
pub fn parse_u32(s: &[u8]) -> (r: Option<u32>)
    ensures
        r == parse_u32_spec(s@),
{
    proof {
        assert(s@.subrange(0, s@.len() as int) =~= s@);
    }
    match digits_up_to(s, 0, 0xffff_ffff) {
        Some(v) => Some(v as u32),
        None => None,
    }
}


/// What `str::parse::<u32>` accepts: an optional `+`, then one or more
/// digits writing a number that fits a `u32`.
pub open spec fn parse_u32_std_spec(s: Seq<u8>) -> Option<u32> {
    let d = if s.len() > 0 && s[0] == 43 {
        s.drop_first()
    } else {
        s
    };
    if d.len() > 0 && all_digits(d) && digits_value(d) <= u32::MAX {
        Some(digits_value(d) as u32)
    } else {
        None
    }
}

/// Parses a `u32` as `str::parse::<u32>` does.
pub fn parse_u32_std(s: &[u8]) -> (r: Option<u32>)
    ensures
        r == parse_u32_std_spec(s@),
{
    let from: usize = if s.len() > 0 && s[0] == 43 {
        1
    } else {
        0
    };
    proof {
        if from == 1 {
            assert(s@.subrange(1, s@.len() as int) =~= s@.drop_first());
        } else {
            assert(s@.subrange(0, s@.len() as int) =~= s@);
        }
    }
    if from == s.len() {
        return None;
    }
    match digits_up_to(s, from, 0xffff_ffff) {
        Some(v) => Some(v as u32),
        None => None,
    }
}

} // verus!
