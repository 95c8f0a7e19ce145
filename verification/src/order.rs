//! Lexicographic order on integer keys, and sequences kept sorted without
//! repeats.
//!
//! A value that is sorted is given a key, a sequence of integers compared
//! element by element, a shorter key that is a prefix of a longer one coming
//! first. Sorting a collection and removing repeats leaves the unique strictly
//! increasing sequence of its keys.

use vstd::prelude::*;

verus! {

/// `a` comes strictly before `b` in lexicographic order.
pub open spec fn seq_lt(a: Seq<int>, b: Seq<int>) -> bool
    decreases a.len(),
{
    if a.len() == 0 {
        b.len() > 0
    } else if b.len() == 0 {
        false
    } else if a[0] != b[0] {
        a[0] < b[0]
    } else {
        seq_lt(a.drop_first(), b.drop_first())
    }
}

pub proof fn lemma_seq_lt_irreflexive(a: Seq<int>)
    ensures
        !seq_lt(a, a),
    decreases a.len(),
{
    if a.len() > 0 {
        lemma_seq_lt_irreflexive(a.drop_first());
    }
}

pub proof fn lemma_seq_lt_transitive(a: Seq<int>, b: Seq<int>, c: Seq<int>)
    requires
        seq_lt(a, b),
        seq_lt(b, c),
    ensures
        seq_lt(a, c),
    decreases a.len(),
{
    if a.len() > 0 && a[0] == b[0] && b[0] == c[0] {
        lemma_seq_lt_transitive(a.drop_first(), b.drop_first(), c.drop_first());
    }
}

pub proof fn lemma_seq_lt_total(a: Seq<int>, b: Seq<int>)
    ensures
        seq_lt(a, b) || seq_lt(b, a) || a == b,
    decreases a.len(),
{
    if a.len() == 0 && b.len() == 0 {
        assert(a =~= b);
    } else if a.len() > 0 && b.len() > 0 && a[0] == b[0] {
        lemma_seq_lt_total(a.drop_first(), b.drop_first());
        if a.drop_first() == b.drop_first() {
            assert(a =~= seq![a[0]] + a.drop_first());
            assert(b =~= seq![b[0]] + b.drop_first());
        }
    }
}

/// Each key is strictly below every later one.
pub open spec fn strictly_sorted(s: Seq<Seq<int>>) -> bool {
    forall|i: int, j: int| 0 <= i < j < s.len() ==> seq_lt(#[trigger] s[i], #[trigger] s[j])
}

/// The keys that occur in `s`.
pub open spec fn key_set(s: Seq<Seq<int>>) -> Set<Seq<int>> {
    Set::new(|k: Seq<int>| s.contains(k))
}

/// The strictly increasing sequence of the keys in `keys`.
pub open spec fn sorted_set(keys: Set<Seq<int>>) -> Seq<Seq<int>> {
    choose|s: Seq<Seq<int>>| strictly_sorted(s) && key_set(s) == keys
}

/// Two strictly increasing sequences with the same keys are the same.
pub proof fn lemma_sorted_unique(a: Seq<Seq<int>>, b: Seq<Seq<int>>)
    requires
        strictly_sorted(a),
        strictly_sorted(b),
        forall|k: Seq<int>| a.contains(k) <==> b.contains(k),
    ensures
        a == b,
    decreases a.len(),
{
    if a.len() == 0 {
        if b.len() > 0 {
            assert(b.contains(b[0]));
        }
        assert(a =~= b);
    } else {
        assert(a.contains(a[0]));
        assert(b.len() > 0);
        assert(b.contains(b[0]));
        let k = choose|k: int| 0 <= k < b.len() && b[k] == a[0];
        let m = choose|m: int| 0 <= m < a.len() && a[m] == b[0];
        if k != 0 {
            if m == 0 {
                lemma_seq_lt_irreflexive(b[0]);
            } else {
                lemma_seq_lt_transitive(a[0], a[m], b[k]);
                lemma_seq_lt_irreflexive(a[0]);
            }
        }
        assert(a[0] == b[0]);
        let ta = a.drop_first();
        let tb = b.drop_first();
        assert forall|x: Seq<int>| ta.contains(x) <==> tb.contains(x) by {
            if ta.contains(x) {
                let i = choose|i: int| 0 <= i < ta.len() && ta[i] == x;
                assert(a[i + 1] == x);
                assert(a.contains(x));
                let j = choose|j: int| 0 <= j < b.len() && b[j] == x;
                if j == 0 {
                    assert(seq_lt(a[0], a[i + 1]));
                    lemma_seq_lt_irreflexive(x);
                }
                assert(tb[j - 1] == x);
            }
            if tb.contains(x) {
                let j = choose|j: int| 0 <= j < tb.len() && tb[j] == x;
                assert(b[j + 1] == x);
                assert(b.contains(x));
                let i = choose|i: int| 0 <= i < a.len() && a[i] == x;
                if i == 0 {
                    assert(seq_lt(b[0], b[j + 1]));
                    lemma_seq_lt_irreflexive(x);
                }
                assert(ta[i - 1] == x);
            }
        }
        lemma_sorted_unique(ta, tb);
        assert(a =~= seq![a[0]] + ta);
        assert(b =~= seq![b[0]] + tb);
    }
}

/// `t` with `x` put in its place, where `t` is strictly increasing.
pub open spec fn insert_sorted(t: Seq<Seq<int>>, x: Seq<int>) -> Seq<Seq<int>>
    decreases t.len(),
{
    if t.len() == 0 {
        seq![x]
    } else if seq_lt(x, t[0]) {
        seq![x] + t
    } else if x == t[0] {
        t
    } else {
        seq![t[0]] + insert_sorted(t.drop_first(), x)
    }
}

proof fn lemma_insert_sorted(t: Seq<Seq<int>>, x: Seq<int>)
    requires
        strictly_sorted(t),
    ensures
        strictly_sorted(insert_sorted(t, x)),
        forall|y: Seq<int>| #[trigger] insert_sorted(t, x).contains(y) <==> (t.contains(y) || y == x),
    decreases t.len(),
{
    let r = insert_sorted(t, x);
    if t.len() == 0 {
        assert(r =~= seq![x]);
        assert forall|y: Seq<int>| r.contains(y) <==> (t.contains(y) || y == x) by {
            if r.contains(y) {
                assert(r[0] == y);
            }
            if y == x {
                assert(r[0] == x);
            }
        }
    } else if seq_lt(x, t[0]) {
        assert forall|i: int, j: int| 0 <= i < j < r.len() implies seq_lt(#[trigger] r[i], #[trigger] r[j]) by {
            if i == 0 {
                if j > 1 {
                    assert(seq_lt(t[0], t[j - 1]));
                    lemma_seq_lt_transitive(x, t[0], t[j - 1]);
                }
            } else {
                assert(r[i] == t[i - 1] && r[j] == t[j - 1]);
            }
        }
        assert forall|y: Seq<int>| r.contains(y) <==> (t.contains(y) || y == x) by {
            if r.contains(y) {
                let k = choose|k: int| 0 <= k < r.len() && r[k] == y;
                if k > 0 {
                    assert(t[k - 1] == y);
                }
            }
            if t.contains(y) {
                let k = choose|k: int| 0 <= k < t.len() && t[k] == y;
                assert(r[k + 1] == y);
            }
            if y == x {
                assert(r[0] == y);
            }
        }
    } else if x == t[0] {
        assert forall|y: Seq<int>| r.contains(y) <==> (t.contains(y) || y == x) by {
            if y == x {
                assert(t[0] == y);
            }
        }
    } else {
        let rest = t.drop_first();
        assert(strictly_sorted(rest)) by {
            assert forall|i: int, j: int| 0 <= i < j < rest.len() implies seq_lt(#[trigger] rest[i], #[trigger] rest[j]) by {
                assert(rest[i] == t[i + 1] && rest[j] == t[j + 1]);
            }
        }
        lemma_insert_sorted(rest, x);
        let sub = insert_sorted(rest, x);
        lemma_seq_lt_total(x, t[0]);
        assert(seq_lt(t[0], x));
        assert(r == seq![t[0]] + sub);
        assert forall|i: int, j: int| 0 <= i < j < r.len() implies seq_lt(#[trigger] r[i], #[trigger] r[j]) by {
            if i == 0 {
                assert(r[j] == sub[j - 1]);
                assert(sub.contains(sub[j - 1]));
                if sub[j - 1] != x {
                    assert(rest.contains(sub[j - 1]));
                    let k = choose|k: int| 0 <= k < rest.len() && rest[k] == sub[j - 1];
                    assert(t[k + 1] == sub[j - 1]);
                }
            } else {
                assert(r[i] == sub[i - 1] && r[j] == sub[j - 1]);
            }
        }
        assert forall|y: Seq<int>| r.contains(y) <==> (t.contains(y) || y == x) by {
            if r.contains(y) {
                let k = choose|k: int| 0 <= k < r.len() && r[k] == y;
                if k > 0 {
                    assert(sub[k - 1] == y);
                    assert(sub.contains(y));
                    if rest.contains(y) {
                        let m = choose|m: int| 0 <= m < rest.len() && rest[m] == y;
                        assert(t[m + 1] == y);
                    }
                } else {
                    assert(t[0] == y);
                }
            }
            if t.contains(y) {
                let k = choose|k: int| 0 <= k < t.len() && t[k] == y;
                if k == 0 {
                    assert(r[0] == y);
                } else {
                    assert(rest[k - 1] == y);
                    assert(rest.contains(y));
                    assert(sub.contains(y));
                    let m = choose|m: int| 0 <= m < sub.len() && sub[m] == y;
                    assert(r[m + 1] == y);
                }
            }
            if y == x {
                assert(sub.contains(x));
                let m = choose|m: int| 0 <= m < sub.len() && sub[m] == x;
                assert(r[m + 1] == x);
            }
        }
    }
}

/// The keys of any sequence have a strictly increasing arrangement, so
/// `sorted_set` of them is one.
pub proof fn lemma_sorted_set_exists(s: Seq<Seq<int>>)
    ensures
        strictly_sorted(sorted_set(key_set(s))),
        key_set(sorted_set(key_set(s))) == key_set(s),
    decreases s.len(),
{
    let w = sorted_arrangement(s);
    lemma_sorted_arrangement(s);
    assert(strictly_sorted(w) && key_set(w) == key_set(s));
}

/// A strictly increasing arrangement of the keys of `s`.
pub open spec fn sorted_arrangement(s: Seq<Seq<int>>) -> Seq<Seq<int>>
    decreases s.len(),
{
    if s.len() == 0 {
        s
    } else {
        insert_sorted(sorted_arrangement(s.drop_last()), s.last())
    }
}

proof fn lemma_sorted_arrangement(s: Seq<Seq<int>>)
    ensures
        strictly_sorted(sorted_arrangement(s)),
        key_set(sorted_arrangement(s)) == key_set(s),
    decreases s.len(),
{
    if s.len() > 0 {
        lemma_sorted_arrangement(s.drop_last());
        let t = sorted_arrangement(s.drop_last());
        lemma_insert_sorted(t, s.last());
        assert forall|y: Seq<int>| sorted_arrangement(s).contains(y) <==> s.contains(y) by {
            if s.contains(y) {
                let k = choose|k: int| 0 <= k < s.len() && s[k] == y;
                if k < s.len() - 1 {
                    assert(s.drop_last()[k] == y);
                    assert(key_set(s.drop_last()).contains(y));
                }
            }
            if s.drop_last().contains(y) {
                let k = choose|k: int| 0 <= k < s.len() - 1 && s.drop_last()[k] == y;
                assert(s[k] == y);
            }
            if t.contains(y) {
                assert(key_set(t).contains(y));
            }
        }
        assert(key_set(sorted_arrangement(s)) =~= key_set(s));
    } else {
        assert(key_set(sorted_arrangement(s)) =~= key_set(s));
    }
}

/// A strictly increasing sequence is the sorted form of its keys.
pub proof fn lemma_is_sorted_set(s: Seq<Seq<int>>)
    requires
        strictly_sorted(s),
    ensures
        sorted_set(key_set(s)) == s,
{
    let t = sorted_set(key_set(s));
    assert(strictly_sorted(s) && key_set(s) == key_set(s));
    assert(strictly_sorted(t) && key_set(t) == key_set(s));
    assert forall|k: Seq<int>| t.contains(k) <==> s.contains(k) by {
        assert(key_set(t).contains(k) == t.contains(k));
        assert(key_set(s).contains(k) == s.contains(k));
    }
    lemma_sorted_unique(t, s);
}

/// Two keys that agree on their first `i` elements compare as what follows.
pub proof fn lemma_seq_lt_skip(a: Seq<int>, b: Seq<int>, i: int)
    requires
        0 <= i <= a.len(),
        i <= b.len(),
        a.subrange(0, i) == b.subrange(0, i),
    ensures
        seq_lt(a, b) == seq_lt(a.subrange(i, a.len() as int), b.subrange(i, b.len() as int)),
    decreases i,
{
    if i > 0 {
        assert(a[0] == a.subrange(0, i)[0]);
        assert(b[0] == b.subrange(0, i)[0]);
        assert(a.drop_first().subrange(0, i - 1) =~= a.subrange(0, i).drop_first());
        assert(b.drop_first().subrange(0, i - 1) =~= b.subrange(0, i).drop_first());
        lemma_seq_lt_skip(a.drop_first(), b.drop_first(), i - 1);
        assert(a.drop_first().subrange(i - 1, a.len() - 1) =~= a.subrange(i, a.len() as int));
        assert(b.drop_first().subrange(i - 1, b.len() - 1) =~= b.subrange(i, b.len() as int));
    } else {
        assert(a.subrange(0, a.len() as int) =~= a);
        assert(b.subrange(0, b.len() as int) =~= b);
    }
}

/// The key of a byte string: its bytes as integers.
pub open spec fn bytes_key(s: Seq<u8>) -> Seq<int> {
    Seq::new(s.len(), |i: int| s[i] as int)
}

/// Equal byte-string keys come from equal byte strings.
pub proof fn lemma_bytes_key_injective(a: Seq<u8>, b: Seq<u8>)
    requires
        bytes_key(a) == bytes_key(b),
    ensures
        a == b,
{
    assert(a.len() == bytes_key(a).len());
    assert(b.len() == bytes_key(b).len());
    assert forall|i: int| 0 <= i < a.len() implies a[i] == b[i] by {
        assert(bytes_key(a)[i] == a[i] as int);
        assert(bytes_key(b)[i] == b[i] as int);
    }
    assert(a =~= b);
}

/// The key of a pair: the first key, a separator below every byte, and the
/// second key.
pub open spec fn pair_key(first: Seq<u8>, second: Seq<int>) -> Seq<int> {
    bytes_key(first) + (seq![-1int] + second)
}

/// Pairs compare by their first byte strings, then by what follows.
pub proof fn lemma_pair_key_order(x1: Seq<u8>, y1: Seq<int>, x2: Seq<u8>, y2: Seq<int>)
    ensures
        seq_lt(pair_key(x1, y1), pair_key(x2, y2)) == if x1 == x2 {
            seq_lt(y1, y2)
        } else {
            seq_lt(bytes_key(x1), bytes_key(x2))
        },
    decreases x1.len(),
{
    let a = pair_key(x1, y1);
    let b = pair_key(x2, y2);
    if x1.len() == 0 && x2.len() == 0 {
        assert(x1 =~= x2);
        assert(a.drop_first() =~= y1);
        assert(b.drop_first() =~= y2);
    } else if x1.len() == 0 {
        assert(a[0] == -1);
        assert(b[0] == x2[0] as int);
    } else if x2.len() == 0 {
        assert(a[0] == x1[0] as int);
        assert(b[0] == -1);
    } else {
        assert(a[0] == x1[0] as int);
        assert(b[0] == x2[0] as int);
        if x1[0] == x2[0] {
            assert(a.drop_first() =~= pair_key(x1.drop_first(), y1));
            assert(b.drop_first() =~= pair_key(x2.drop_first(), y2));
            assert(bytes_key(x1).drop_first() =~= bytes_key(x1.drop_first()));
            assert(bytes_key(x2).drop_first() =~= bytes_key(x2.drop_first()));
            lemma_pair_key_order(x1.drop_first(), y1, x2.drop_first(), y2);
            if x1.drop_first() == x2.drop_first() {
                assert(x1 =~= seq![x1[0]] + x1.drop_first());
                assert(x2 =~= seq![x2[0]] + x2.drop_first());
            }
            if x1 == x2 {
                assert(x1.drop_first() == x2.drop_first());
            }
        } else {
            assert(x1 != x2);
        }
    }
}

/// Equal pair keys come from equal pairs.
pub proof fn lemma_pair_key_injective(x1: Seq<u8>, y1: Seq<int>, x2: Seq<u8>, y2: Seq<int>)
    requires
        pair_key(x1, y1) == pair_key(x2, y2),
    ensures
        x1 == x2,
        y1 == y2,
{
    lemma_pair_key_order(x1, y1, x2, y2);
    lemma_seq_lt_irreflexive(pair_key(x1, y1));
    if x1 != x2 {
        lemma_pair_key_order(x2, y2, x1, y1);
        lemma_seq_lt_total(bytes_key(x1), bytes_key(x2));
        if bytes_key(x1) == bytes_key(x2) {
            assert(x1.len() == x2.len());
            assert forall|i: int| 0 <= i < x1.len() implies x1[i] == x2[i] by {
                assert(bytes_key(x1)[i] == bytes_key(x2)[i]);
            }
            assert(x1 =~= x2);
        }
    }
    let n = bytes_key(x1).len() + 1;
    assert(y1 =~= pair_key(x1, y1).subrange(n as int, pair_key(x1, y1).len() as int));
    assert(y2 =~= pair_key(x2, y2).subrange(n as int, pair_key(x2, y2).len() as int));
}

/// Compares two byte strings: negative, zero or positive as `a` comes
/// before, equals or comes after `b`.
pub fn compare_bytes(a: &[u8], b: &[u8]) -> (r: i8)
    ensures
        (r < 0) == seq_lt(bytes_key(a@), bytes_key(b@)),
        (r == 0) == (a@ == b@),
        (r > 0) == seq_lt(bytes_key(b@), bytes_key(a@)),
{
    let ghost ka = bytes_key(a@);
    let ghost kb = bytes_key(b@);
    let mut i: usize = 0;
    while i < a.len() && i < b.len()
        invariant
            i <= a@.len(),
            i <= b@.len(),
            ka == bytes_key(a@),
            kb == bytes_key(b@),
            forall|k: int| 0 <= k < i ==> a@[k] == b@[k],
        decreases a@.len() - i,
    {
        if a[i] != b[i] {
            proof {
                assert(ka.subrange(0, i as int) =~= kb.subrange(0, i as int));
                lemma_seq_lt_skip(ka, kb, i as int);
                lemma_seq_lt_skip(kb, ka, i as int);
                assert(ka.subrange(i as int, ka.len() as int)[0] == a@[i as int] as int);
                assert(kb.subrange(i as int, kb.len() as int)[0] == b@[i as int] as int);
                assert(a@[i as int] != b@[i as int]);
            }
            if a[i] < b[i] {
                return -1;
            } else {
                return 1;
            }
        }
        i = i + 1;
    }
    proof {
        assert(ka.subrange(0, i as int) =~= kb.subrange(0, i as int));
        lemma_seq_lt_skip(ka, kb, i as int);
        lemma_seq_lt_skip(kb, ka, i as int);
    }
    if a.len() < b.len() {
        assert(a@ != b@);
        -1
    } else if a.len() > b.len() {
        assert(a@ != b@);
        1
    } else {
        assert(a@ =~= b@);
        assert(ka.subrange(i as int, ka.len() as int).len() == 0);
        0
    }
}

/// A value sorted by an integer key.
pub trait Keyed {
    spec fn key(&self) -> Seq<int>;

    fn key_less(&self, other: &Self) -> (r: bool)
        ensures
            r == seq_lt(self.key(), other.key()),
    ;

    fn key_equal(&self, other: &Self) -> (r: bool)
        ensures
            r == (self.key() == other.key()),
    ;
}

/// The keys of the values in `s`, in order.
pub open spec fn keys<T: Keyed>(s: Seq<T>) -> Seq<Seq<int>> {
    Seq::new(s.len(), |i: int| s[i].key())
}

/// Inserts `x` into the sorted `v` unless a value with its key is there.
pub fn insert_unique<T: Keyed>(v: &mut Vec<T>, x: T)
    requires
        strictly_sorted(keys(old(v)@)),
    ensures
        strictly_sorted(keys(final(v)@)),
        forall|k: Seq<int>|
            keys(final(v)@).contains(k) <==> (keys(old(v)@).contains(k) || k == x.key()),
        forall|i: int|
            0 <= i < final(v)@.len() ==> old(v)@.contains(#[trigger] final(v)@[i]) || final(v)@[i] == x,
{
    let ghost before = keys(v@);
    let mut j: usize = 0;
    while j < v.len() && v[j].key_less(&x)
        invariant
            j <= v@.len(),
            keys(v@) == before,
            strictly_sorted(before),
            forall|i: int| 0 <= i < j ==> seq_lt(#[trigger] before[i], x.key()),
        decreases v@.len() - j,
    {
        j = j + 1;
    }
    if j < v.len() && v[j].key_equal(&x) {
        assert(before[j as int] == x.key());
        return;
    }
    proof {
        if j < before.len() {
            lemma_seq_lt_total(before[j as int], x.key());
        }
    }
    let ghost old_values = v@;
    v.insert(j, x);
    proof {
        assert forall|i: int| 0 <= i < v@.len() implies old_values.contains(#[trigger] v@[i]) || v@[i] == x by {
            if i < j {
                assert(old_values[i] == v@[i]);
            } else if i > j {
                assert(old_values[i - 1] == v@[i]);
            }
        }
        let after = keys(v@);
        assert(after =~= before.insert(j as int, x.key()));
        assert forall|a: int, b: int| 0 <= a < b < after.len() implies seq_lt(
            #[trigger] after[a],
            #[trigger] after[b],
        ) by {
            if b == j {
                assert(seq_lt(before[a], x.key()));
            } else if a == j {
                assert(seq_lt(x.key(), before[j as int]));
                if b - 1 > j {
                    lemma_seq_lt_transitive(x.key(), before[j as int], before[b - 1]);
                }
            } else if a > j {
                assert(after[a] == before[a - 1]);
            } else if b > j {
                assert(after[b] == before[b - 1]);
            }
        }
        assert forall|k: Seq<int>| after.contains(k) <==> (before.contains(k) || k == x.key()) by {
            if after.contains(k) {
                let i = choose|i: int| 0 <= i < after.len() && after[i] == k;
                if i < j {
                    assert(before[i] == k);
                } else if i > j {
                    assert(before[i - 1] == k);
                }
            }
            if before.contains(k) {
                let i = choose|i: int| 0 <= i < before.len() && before[i] == k;
                if i < j {
                    assert(after[i] == k);
                } else {
                    assert(after[i + 1] == k);
                }
            }
            if k == x.key() {
                assert(after[j as int] == k);
            }
        }
    }
}

/// The values of `items` sorted by key, one value for each key.
pub fn sort_unique<T: Keyed>(items: Vec<T>) -> (r: Vec<T>)
    ensures
        keys(r@) == sorted_set(key_set(keys(items@))),
        strictly_sorted(keys(r@)),
        key_set(keys(r@)) == key_set(keys(items@)),
        forall|i: int| 0 <= i < r@.len() ==> items@.contains(#[trigger] r@[i]),
{
    let ghost originals = items@;
    let ghost all = keys(items@);
    let mut rest = items;
    let mut out: Vec<T> = Vec::new();
    assert(rest@ =~= originals.subrange(0, rest@.len() as int));
    while rest.len() > 0
        invariant
            strictly_sorted(keys(out@)),
            rest@.len() <= all.len(),
            all == keys(originals),
            rest@ == originals.subrange(0, rest@.len() as int),
            forall|i: int| 0 <= i < out@.len() ==> originals.contains(#[trigger] out@[i]),
            forall|i: int| 0 <= i < rest@.len() ==> #[trigger] rest@[i].key() == all[i],
            forall|k: Seq<int>|
                keys(out@).contains(k) <==> (exists|i: int|
                    rest@.len() <= i < all.len() && #[trigger] all[i] == k),
        decreases rest@.len(),
    {
        let ghost old_keys = keys(out@);
        let ghost prev_rest = rest@;
        let x = rest.pop().unwrap();
        assert(prev_rest[prev_rest.len() - 1] == x);
        assert(rest@ =~= prev_rest.subrange(0, prev_rest.len() - 1));
        let ghost idx = rest@.len() as int;
        assert(x.key() == all[idx]);
        assert(originals[idx] == x);
        let ghost before_values = out@;
        insert_unique(&mut out, x);
        assert forall|i: int| 0 <= i < out@.len() implies originals.contains(#[trigger] out@[i]) by {
            if before_values.contains(out@[i]) {
                let k = choose|k: int| 0 <= k < before_values.len() && before_values[k] == out@[i];
                assert(originals.contains(before_values[k]));
            }
        }
        assert(rest@ =~= originals.subrange(0, rest@.len() as int));
        assert forall|k: Seq<int>|
            keys(out@).contains(k) <==> (exists|i: int|
                rest@.len() <= i < all.len() && #[trigger] all[i] == k) by {
            if k == all[idx] {
                assert(all[idx] == k);
            }
            if exists|i: int| rest@.len() <= i < all.len() && #[trigger] all[i] == k {
                let i = choose|i: int| rest@.len() <= i < all.len() && #[trigger] all[i] == k;
                if i != idx {
                    assert(old_keys.contains(k));
                }
            }
        }
    }
    proof {
        assert forall|k: Seq<int>| keys(out@).contains(k) <==> all.contains(k) by {
            if all.contains(k) {
                let i = choose|i: int| 0 <= i < all.len() && all[i] == k;
                assert(all[i] == k);
            }
        }
        lemma_is_sorted_set(keys(out@));
        assert(key_set(keys(out@)) =~= key_set(all));
    }
    out
}

} // verus!
