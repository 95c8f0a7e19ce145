//! The port description of a plugin, read from its Turtle text with a small
//! tokenizer: no prefixes are resolved, only the few words that describe a
//! port are recognised.

use vstd::prelude::*;
use vstd::string::StringSliceAdditionalSpecFns;
use crate::bundle::bytes_equal;
use crate::decimal::{parse_u32, parse_u32_spec};

verus! {

/// Most ports a plugin description may list.
pub const MAX_PORTS: usize = 16;

#[derive(Clone, Copy, Debug, PartialEq, Eq, Structural)]
pub enum PortKind {
    AudioInput,
    AudioOutput,
    ControlInput,
    AtomInput,
    Unknown,
}

pub const WORD_PORT: &'static str = "lv2:port";

pub const WORD_A: &'static str = "a";

pub const WORD_INDEX: &'static str = "lv2:index";

pub const WORD_DEFAULT: &'static str = "lv2:default";

pub const WORD_INPUT_PORT: &'static str = "lv2:InputPort";

pub const WORD_OUTPUT_PORT: &'static str = "lv2:OutputPort";

pub const WORD_ATOM_PORT: &'static str = "atom:AtomPort";

pub const WORD_AUDIO_PORT: &'static str = "lv2:AudioPort";

pub const WORD_CONTROL_PORT: &'static str = "lv2:ControlPort";

pub open spec fn open_bracket() -> Seq<u8> {
    seq![91u8]
}

pub open spec fn close_bracket() -> Seq<u8> {
    seq![93u8]
}

pub open spec fn semicolon() -> Seq<u8> {
    seq![59u8]
}

pub open spec fn comma() -> Seq<u8> {
    seq![44u8]
}

/// The kind a port has once `word` is said of it, given the kind so far.
pub open spec fn kind_for_spec(current: PortKind, word: Seq<u8>) -> PortKind {
    if word == WORD_INPUT_PORT.spec_bytes() {
        PortKind::ControlInput
    } else if word == WORD_OUTPUT_PORT.spec_bytes() {
        PortKind::AudioOutput
    } else if word == WORD_ATOM_PORT.spec_bytes() {
        PortKind::AtomInput
    } else if word == WORD_AUDIO_PORT.spec_bytes() && current == PortKind::AudioOutput {
        PortKind::AudioOutput
    } else if word == WORD_AUDIO_PORT.spec_bytes() {
        PortKind::AudioInput
    } else if word == WORD_CONTROL_PORT.spec_bytes() {
        PortKind::ControlInput
    } else {
        current
    }
}

/// The kind a port has once `word` is said of it, given the kind so far.
pub fn kind_for(current: PortKind, word: &[u8]) -> (r: PortKind)
    ensures
        r == kind_for_spec(current, word@),
{
    if bytes_equal(word, WORD_INPUT_PORT.as_bytes()) {
        PortKind::ControlInput
    } else if bytes_equal(word, WORD_OUTPUT_PORT.as_bytes()) {
        PortKind::AudioOutput
    } else if bytes_equal(word, WORD_ATOM_PORT.as_bytes()) {
        PortKind::AtomInput
    } else if bytes_equal(word, WORD_AUDIO_PORT.as_bytes()) {
        if current == PortKind::AudioOutput {
            PortKind::AudioOutput
        } else {
            PortKind::AudioInput
        }
    } else if bytes_equal(word, WORD_CONTROL_PORT.as_bytes()) {
        PortKind::ControlInput
    } else {
        current
    }
}

// ---------------------------------------------------------------------------
// Tokens.

pub open spec fn is_blank(b: u8) -> bool {
    b == 32 || b == 9 || b == 13 || b == 10
}

pub open spec fn is_delimiter(b: u8) -> bool {
    b == 91 || b == 93 || b == 59 || b == 44
}

/// Where a comment starting at `pos` ends: at the next line feed, or at the
/// end.
pub open spec fn comment_end(b: Seq<u8>, pos: int) -> int
    decreases b.len() - pos,
{
    if pos < 0 || pos >= b.len() || b[pos] == 10 {
        pos
    } else {
        comment_end(b, pos + 1)
    }
}

/// Where the next token starts: past blanks and comments.
pub open spec fn skip_blanks(b: Seq<u8>, pos: int) -> int
    decreases b.len() - pos,
{
    if pos < 0 || pos >= b.len() {
        pos
    } else if is_blank(b[pos]) {
        skip_blanks(b, pos + 1)
    } else if b[pos] == 35 {
        proof {
            lemma_comment_end(b, pos + 1);
        }
        if comment_end(b, pos + 1) < b.len() {
            skip_blanks(b, comment_end(b, pos + 1))
        } else {
            b.len() as int
        }
    } else {
        pos
    }
}

/// Where a quoted string whose text starts at `pos` ends: just past its
/// closing quote, a backslash skipping the byte after it; past the end when
/// the last byte is an escaping backslash.
pub open spec fn string_end(b: Seq<u8>, pos: int) -> int
    decreases b.len() - pos,
{
    if pos < 0 || pos >= b.len() {
        pos
    } else if b[pos] == 34 {
        pos + 1
    } else if b[pos] == 92 {
        if pos + 2 > b.len() {
            pos + 2
        } else {
            string_end(b, pos + 2)
        }
    } else {
        string_end(b, pos + 1)
    }
}

/// Where a word starting at `pos` ends: at the next blank or delimiter, or at
/// the end.
pub open spec fn word_end(b: Seq<u8>, pos: int) -> int
    decreases b.len() - pos,
{
    if pos < 0 || pos >= b.len() || is_blank(b[pos]) || is_delimiter(b[pos]) {
        pos
    } else {
        word_end(b, pos + 1)
    }
}

/// The next token at or after `pos`: where it starts and where it ends.
pub open spec fn next_token(b: Seq<u8>, pos: int) -> Option<(int, int)> {
    let start = skip_blanks(b, pos);
    if start < 0 || start >= b.len() {
        None
    } else if is_delimiter(b[start]) {
        Some((start, start + 1))
    } else if b[start] == 34 {
        Some((start, string_end(b, start + 1)))
    } else {
        Some((start, word_end(b, start)))
    }
}

pub proof fn lemma_comment_end(b: Seq<u8>, pos: int)
    requires
        0 <= pos <= b.len(),
    ensures
        pos <= comment_end(b, pos) <= b.len(),
    decreases b.len() - pos,
{
    if pos < b.len() && b[pos] != 10 {
        lemma_comment_end(b, pos + 1);
    }
}

pub proof fn lemma_skip_blanks(b: Seq<u8>, pos: int)
    requires
        0 <= pos <= b.len(),
    ensures
        pos <= skip_blanks(b, pos) <= b.len(),
        skip_blanks(b, pos) < b.len() ==> !is_blank(b[skip_blanks(b, pos)]) && b[skip_blanks(b, pos)] != 35,
    decreases b.len() - pos,
{
    if pos < b.len() {
        if is_blank(b[pos]) {
            lemma_skip_blanks(b, pos + 1);
        } else if b[pos] == 35 {
            lemma_comment_end(b, pos + 1);
            if comment_end(b, pos + 1) < b.len() {
                lemma_skip_blanks(b, comment_end(b, pos + 1));
            }
        }
    }
}

pub proof fn lemma_string_end(b: Seq<u8>, pos: int)
    requires
        0 <= pos <= b.len(),
    ensures
        pos <= string_end(b, pos) <= b.len() + 1,
    decreases b.len() - pos,
{
    if pos < b.len() && b[pos] != 34 {
        if b[pos] == 92 {
            if pos + 2 <= b.len() {
                lemma_string_end(b, pos + 2);
            }
        } else {
            lemma_string_end(b, pos + 1);
        }
    }
}

pub proof fn lemma_word_end(b: Seq<u8>, pos: int)
    requires
        0 <= pos <= b.len(),
    ensures
        pos <= word_end(b, pos) <= b.len(),
    decreases b.len() - pos,
{
    if pos < b.len() && !is_blank(b[pos]) && !is_delimiter(b[pos]) {
        lemma_word_end(b, pos + 1);
    }
}

/// A token found at or after `pos` starts there or later and ends after it
/// starts, at most one byte past the end.
pub proof fn lemma_next_token(b: Seq<u8>, pos: int)
    requires
        0 <= pos <= b.len(),
    ensures
        match next_token(b, pos) {
            Some((s, e)) => pos <= s < e && s < b.len() && e <= b.len() + 1,
            None => skip_blanks(b, pos) == b.len(),
        },
{
    lemma_skip_blanks(b, pos);
    let s = skip_blanks(b, pos);
    if s < b.len() {
        if b[s] == 34 {
            lemma_string_end(b, s + 1);
        } else if !is_delimiter(b[s]) {
            lemma_word_end(b, s + 1);
            assert(word_end(b, s) == word_end(b, s + 1));
        }
    }
}

/// Every token from `pos` on ends within the bytes: no quoted string runs
/// past the end through a final escaping backslash.
pub open spec fn tokens_inside(b: Seq<u8>, pos: int) -> bool
    decreases b.len() + 1 - pos,
{
    if pos < 0 || pos > b.len() {
        false
    } else {
        match next_token(b, pos) {
            None => true,
            Some((s, e)) => {
                proof {
                    lemma_next_token(b, pos);
                }
                e <= b.len() && tokens_inside(b, e)
            },
        }
    }
}

/// Where the next token at or after `pos` ends: `None` when only blanks and
/// comments are left, `Some(None)` when it is a quoted string cut short by a
/// final escaping backslash.
fn token_end(bytes: &[u8], pos: usize) -> (r: Option<Option<usize>>)
    requires
        pos <= bytes@.len(),
    ensures
        match next_token(bytes@, pos as int) {
            None => r is None,
            Some((s, e)) => if e <= bytes@.len() {
                r == Some(Some(e as usize))
            } else {
                r == Some(None::<usize>)
            },
        },
{
    let ghost b = bytes@;
    proof {
        lemma_next_token(b, pos as int);
    }
    let mut p = pos;
    while p < bytes.len()
        invariant
            b == bytes@,
            pos <= p <= b.len(),
            skip_blanks(b, pos as int) == skip_blanks(b, p as int),
        ensures
            pos <= p <= b.len(),
            skip_blanks(b, pos as int) == skip_blanks(b, p as int),
            p < b.len() ==> !is_blank(b[p as int]) && b[p as int] != 35,
        decreases b.len() - p,
    {
        let byte = bytes[p];
        if byte == 32 || byte == 9 || byte == 13 || byte == 10 {
            p = p + 1;
        } else if byte == 35 {
            let ghost hash = p as int;
            proof {
                lemma_comment_end(b, hash + 1);
            }
            p = p + 1;
            while p < bytes.len() && bytes[p] != 10
                invariant
                    b == bytes@,
                    hash < p <= b.len(),
                    comment_end(b, p as int) == comment_end(b, hash + 1),
                decreases b.len() - p,
            {
                p = p + 1;
            }
            proof {
                lemma_skip_blanks(b, p as int);
            }
        } else {
            break;
        }
    }
    proof {
        lemma_skip_blanks(b, p as int);
    }
    if p == bytes.len() {
        return None;
    }
    let start = p;
    let first = bytes[start];
    if first == 91 || first == 93 || first == 59 || first == 44 {
        return Some(Some(start + 1));
    }
    if first == 34 {
        let ghost end = string_end(b, start + 1);
        p = p + 1;
        while p < bytes.len() && bytes[p] != 34
            invariant
                b == bytes@,
                start < p <= b.len(),
                string_end(b, p as int) == end,
                end == string_end(b, start + 1),
                next_token(b, pos as int) == Some((start as int, end)),
            decreases b.len() - p,
        {
            if bytes[p] == 92 {
                if bytes.len() - p < 2 {
                    assert(string_end(b, p as int) == p + 2);
                    return Some(None);
                }
                p = p + 2;
            } else {
                p = p + 1;
            }
        }
        if p < bytes.len() {
            p = p + 1;
        }
        return Some(Some(p));
    }
    while p < bytes.len() && !(bytes[p] == 32 || bytes[p] == 9 || bytes[p] == 13 || bytes[p] == 10
        || bytes[p] == 91 || bytes[p] == 93 || bytes[p] == 59 || bytes[p] == 44)
        invariant
            b == bytes@,
            start <= p <= b.len(),
            word_end(b, start as int) == word_end(b, p as int),
        decreases b.len() - p,
    {
        p = p + 1;
    }
    assert(word_end(b, p as int) == p as int);
    Some(Some(p))
}

/// Every token of `bytes` ends within them: no quoted string is cut short by
/// a final escaping backslash. This is what reading a description asks.
pub fn tokens_end_inside(bytes: &[u8]) -> (r: bool)
    ensures
        r == tokens_inside(bytes@, 0),
{
    let ghost b = bytes@;
    let mut pos: usize = 0;
    while pos <= bytes.len()
        invariant
            b == bytes@,
            pos <= b.len(),
            tokens_inside(b, 0) == tokens_inside(b, pos as int),
        decreases b.len() - pos,
    {
        proof {
            lemma_next_token(b, pos as int);
        }
        match token_end(bytes, pos) {
            None => return true,
            Some(None) => return false,
            Some(Some(e)) => {
                pos = e;
            },
        }
    }
    true
}

/// Reads the tokens of a plugin description one by one.
pub struct Cursor<'a> {
    bytes: &'a [u8],
    position: usize,
}

impl<'a> Cursor<'a> {
    pub closed spec fn spec_bytes(&self) -> Seq<u8> {
        self.bytes@
    }

    pub closed spec fn spec_position(&self) -> int {
        self.position as int
    }

    /// A cursor at the start of `bytes`.
    pub fn new(bytes: &'a [u8]) -> (r: Self)
        ensures
            r.spec_bytes() == bytes@,
            r.spec_position() == 0,
    {
        Cursor { bytes, position: 0 }
    }

    /// The next token, or `None` when only blanks and comments are left.
    pub fn next(&mut self) -> (r: Option<&'a [u8]>)
        requires
            tokens_inside(old(self).spec_bytes(), old(self).spec_position()),
        ensures
            final(self).spec_bytes() == old(self).spec_bytes(),
            tokens_inside(final(self).spec_bytes(), final(self).spec_position()),
            match next_token(old(self).spec_bytes(), old(self).spec_position()) {
                Some((s, e)) => r matches Some(t) && t@ == old(self).spec_bytes().subrange(s, e)
                    && final(self).spec_position() == e,
                None => r is None && final(self).spec_position() == old(self).spec_bytes().len(),
            },
    {
        let ghost b = self.bytes@;
        let ghost start_pos = self.position as int;
        proof {
            lemma_next_token(b, start_pos);
        }
        while self.position < self.bytes.len()
            invariant
                b == self.bytes@,
                start_pos <= self.position <= b.len(),
                skip_blanks(b, start_pos) == skip_blanks(b, self.position as int),
            ensures
                b == self.bytes@,
                start_pos <= self.position <= b.len(),
                skip_blanks(b, start_pos) == skip_blanks(b, self.position as int),
                self.position < b.len() ==> !is_blank(b[self.position as int]) && b[self.position as int] != 35,
            decreases b.len() - self.position,
        {
            let byte = self.bytes[self.position];
            if byte == 32 || byte == 9 || byte == 13 || byte == 10 {
                self.position = self.position + 1;
            } else if byte == 35 {
                let ghost hash = self.position as int;
                proof {
                    lemma_comment_end(b, hash + 1);
                }
                self.position = self.position + 1;
                while self.position < self.bytes.len() && self.bytes[self.position] != 10
                    invariant
                        b == self.bytes@,
                        hash < self.position <= b.len(),
                        comment_end(b, self.position as int) == comment_end(b, hash + 1),
                    decreases b.len() - self.position,
                {
                    self.position = self.position + 1;
                }
                proof {
                    lemma_skip_blanks(b, self.position as int);
                }
            } else {
                break;
            }
        }
        proof {
            lemma_skip_blanks(b, self.position as int);
        }
        if self.position == self.bytes.len() {
            return None;
        }
        let start = self.position;
        let first = self.bytes[start];
        if first == 91 || first == 93 || first == 59 || first == 44 {
            self.position = self.position + 1;
            let (_, rest) = self.bytes.split_at(start);
            let (token, _) = rest.split_at(1);
            assert(token@ =~= b.subrange(start as int, start + 1));
            return Some(token);
        }
        if first == 34 {
            let ghost end = string_end(b, start + 1);
            assert(end <= b.len());
            self.position = self.position + 1;
            while self.position < self.bytes.len() && self.bytes[self.position] != 34
                invariant
                    b == self.bytes@,
                    start < self.position <= b.len(),
                    string_end(b, self.position as int) == end,
                    end <= b.len(),
                decreases b.len() - self.position,
            {
                if self.bytes[self.position] == 92 {
                    assert(self.position + 2 <= b.len());
                    self.position = self.position + 2;
                } else {
                    self.position = self.position + 1;
                }
            }
            if self.position < self.bytes.len() {
                self.position = self.position + 1;
            }
            let (_, rest) = self.bytes.split_at(start);
            let (token, _) = rest.split_at(self.position - start);
            assert(token@ =~= b.subrange(start as int, self.position as int));
            return Some(token);
        }
        while self.position < self.bytes.len() && !(self.bytes[self.position] == 32
            || self.bytes[self.position] == 9 || self.bytes[self.position] == 13
            || self.bytes[self.position] == 10 || self.bytes[self.position] == 91
            || self.bytes[self.position] == 93 || self.bytes[self.position] == 59
            || self.bytes[self.position] == 44)
            invariant
                b == self.bytes@,
                start <= self.position <= b.len(),
                word_end(b, start as int) == word_end(b, self.position as int),
            decreases b.len() - self.position,
        {
            self.position = self.position + 1;
        }
        assert(word_end(b, self.position as int) == self.position as int);
        assert(skip_blanks(b, start_pos) == start);
        assert(next_token(b, start_pos) == Some((start as int, self.position as int)));
        let (_, rest) = self.bytes.split_at(start);
        let (token, _) = rest.split_at(self.position - start);
        assert(token@ =~= b.subrange(start as int, self.position as int));
        Some(token)
    }
}

// ---------------------------------------------------------------------------
// Ports.

/// One port of a plugin: its LV2 index, its kind and the text of its
/// default value, a decimal number.
pub struct PortMetadata {
    pub index: u32,
    pub kind: PortKind,
    pub default: Option<Vec<u8>>,
}

pub struct PortView {
    pub index: u32,
    pub kind: PortKind,
    pub default: Option<Seq<u8>>,
}

impl View for PortMetadata {
    type V = PortView;

    open spec fn view(&self) -> PortView {
        PortView {
            index: self.index,
            kind: self.kind,
            default: match self.default {
                Some(d) => Some(d@),
                None => None,
            },
        }
    }
}

pub open spec fn port_views(ps: Seq<PortMetadata>) -> Seq<PortView> {
    Seq::new(ps.len(), |i: int| ps[i]@)
}

pub open spec fn empty_port() -> PortView {
    PortView { index: 0, kind: PortKind::Unknown, default: None }
}

/// Digits with at most one decimal point.
pub open spec fn is_decimal_text(s: Seq<u8>) -> bool {
    &&& forall|i: int| 0 <= i < s.len() ==> (48 <= #[trigger] s[i] <= 57 || s[i] == 46)
    &&& forall|i: int, j: int| 0 <= i < j < s.len() ==> !(#[trigger] s[i] == 46 && #[trigger] s[j] == 46)
}

pub fn decimal_text(s: &[u8]) -> (r: bool)
    ensures
        r == is_decimal_text(s@),
{
    let mut seen_point = false;
    let mut i: usize = 0;
    while i < s.len()
        invariant
            i <= s@.len(),
            forall|k: int| 0 <= k < i ==> (48 <= #[trigger] s@[k] <= 57 || s@[k] == 46),
            forall|k: int, l: int| 0 <= k < l < i ==> !(#[trigger] s@[k] == 46 && #[trigger] s@[l] == 46),
            seen_point == exists|k: int| 0 <= k < i && #[trigger] s@[k] == 46,
        decreases s@.len() - i,
    {
        let b = s[i];
        if b == 46 {
            if seen_point {
                let ghost k = choose|k: int| 0 <= k < i && #[trigger] s@[k] == 46;
                assert(s@[k] == 46 && s@[i as int] == 46);
                return false;
            }
            seen_point = true;
        } else if b < 48 || b > 57 {
            return false;
        }
        i = i + 1;
    }
    true
}

/// The fields of a port up to its closing bracket, from `pos` on: the
/// position after them, the port, and whether an index was given.
pub open spec fn port_fields(b: Seq<u8>, pos: int, port: PortView, saw_index: bool) -> Result<
    (int, PortView, bool),
    (),
>
    decreases b.len() + 1 - pos,
{
    if pos < 0 || pos > b.len() {
        Err(())
    } else {
        match next_token(b, pos) {
            None => Ok((b.len() as int, port, saw_index)),
            Some((s, e)) => {
                proof {
                    lemma_next_token(b, pos);
                }
                let p = b.subrange(s, e);
                if p == close_bracket() {
                    Ok((e, port, saw_index))
                } else if p == semicolon() || p == comma() {
                    port_fields(b, e, port, saw_index)
                } else if p == WORD_ATOM_PORT.spec_bytes() || p == WORD_AUDIO_PORT.spec_bytes() || p
                    == WORD_CONTROL_PORT.spec_bytes() {
                    port_fields(
                        b,
                        e,
                        PortView { index: port.index, kind: kind_for_spec(port.kind, p), default: port.default },
                        saw_index,
                    )
                } else if e > b.len() {
                    Err(())
                } else {
                    match next_token(b, e) {
                        None => Err(()),
                        Some((s2, e2)) => {
                            proof {
                                lemma_next_token(b, e);
                            }
                            let v = b.subrange(s2, e2);
                            if p == WORD_A.spec_bytes() {
                                port_fields(
                                    b,
                                    e2,
                                    PortView {
                                        index: port.index,
                                        kind: kind_for_spec(port.kind, v),
                                        default: port.default,
                                    },
                                    saw_index,
                                )
                            } else if p == WORD_INDEX.spec_bytes() {
                                match parse_u32_spec(v) {
                                    None => Err(()),
                                    Some(i) => port_fields(
                                        b,
                                        e2,
                                        PortView { index: i, kind: port.kind, default: port.default },
                                        true,
                                    ),
                                }
                            } else if p == WORD_DEFAULT.spec_bytes() {
                                if is_decimal_text(v) {
                                    port_fields(
                                        b,
                                        e2,
                                        PortView { index: port.index, kind: port.kind, default: Some(v) },
                                        saw_index,
                                    )
                                } else {
                                    Err(())
                                }
                            } else {
                                port_fields(b, e2, port, saw_index)
                            }
                        },
                    }
                }
            },
        }
    }
}

pub proof fn lemma_port_fields_advances(b: Seq<u8>, pos: int, port: PortView, saw_index: bool)
    requires
        0 <= pos <= b.len() + 1,
    ensures
        port_fields(b, pos, port, saw_index) matches Ok((q, _, _)) ==> pos <= q <= b.len() + 1,
    decreases b.len() + 1 - pos,
{
    if pos > b.len() {
        return;
    }
    lemma_next_token(b, pos);
    match next_token(b, pos) {
        None => {},
        Some((s, e)) => {
            let p = b.subrange(s, e);
            if p == close_bracket() {
            } else if p == semicolon() || p == comma() {
                lemma_port_fields_advances(b, e, port, saw_index);
            } else if p == WORD_ATOM_PORT.spec_bytes() || p == WORD_AUDIO_PORT.spec_bytes() || p
                == WORD_CONTROL_PORT.spec_bytes() {
                lemma_port_fields_advances(
                    b,
                    e,
                    PortView { index: port.index, kind: kind_for_spec(port.kind, p), default: port.default },
                    saw_index,
                );
            } else if e <= b.len() {
                lemma_next_token(b, e);
                match next_token(b, e) {
                    None => {},
                    Some((s2, e2)) => {
                        let v = b.subrange(s2, e2);
                        if p == WORD_A.spec_bytes() {
                            lemma_port_fields_advances(
                                b,
                                e2,
                                PortView { index: port.index, kind: kind_for_spec(port.kind, v), default: port.default },
                                saw_index,
                            );
                        } else if p == WORD_INDEX.spec_bytes() {
                            match parse_u32_spec(v) {
                                None => {},
                                Some(i) => lemma_port_fields_advances(
                                    b,
                                    e2,
                                    PortView { index: i, kind: port.kind, default: port.default },
                                    true,
                                ),
                            }
                        } else if p == WORD_DEFAULT.spec_bytes() {
                            if is_decimal_text(v) {
                                lemma_port_fields_advances(
                                    b,
                                    e2,
                                    PortView { index: port.index, kind: port.kind, default: Some(v) },
                                    saw_index,
                                );
                            }
                        } else {
                            lemma_port_fields_advances(b, e2, port, saw_index);
                        }
                    },
                }
            }
        },
    }
}

/// A new port opened at `pos`, read up to its closing bracket: refused when
/// `MAX_PORTS` are already listed or the port has no index.
pub open spec fn open_port(b: Seq<u8>, pos: int, count: int) -> Result<(int, PortView), ()> {
    if count == MAX_PORTS {
        Err(())
    } else {
        match port_fields(b, pos, empty_port(), false) {
            Err(_) => Err(()),
            Ok((q, port, saw_index)) => if saw_index {
                Ok((q, port))
            } else {
                Err(())
            },
        }
    }
}

/// The ports described from `pos` on, after `ports`.
pub open spec fn parse_ports(b: Seq<u8>, pos: int, ports: Seq<PortView>) -> Result<Seq<PortView>, ()>
    decreases b.len() + 1 - pos,
{
    if pos < 0 || pos > b.len() {
        Err(())
    } else {
        match next_token(b, pos) {
            None => if ports.len() == 0 {
                Err(())
            } else {
                Ok(ports)
            },
            Some((s, e)) => {
                proof {
                    lemma_next_token(b, pos);
                }
                let t = b.subrange(s, e);
                if t == WORD_PORT.spec_bytes() {
                    if e > b.len() {
                        Err(())
                    } else {
                        proof {
                            lemma_next_token(b, e);
                        }
                        match next_token(b, e) {
                            Some((s2, e2)) => if b.subrange(s2, e2) != open_bracket() || e2 > b.len() {
                                Err(())
                            } else {
                                match open_port(b, e2, ports.len() as int) {
                                    Err(_) => Err(()),
                                    Ok((q, port)) => {
                                        proof {
                                            lemma_port_fields_advances(b, e2, empty_port(), false);
                                        }
                                        parse_ports(b, q, ports.push(port))
                                    },
                                }
                            },
                            None => Err(()),
                        }
                    }
                } else if t == open_bracket() {
                    if e > b.len() {
                        Err(())
                    } else {
                        match open_port(b, e, ports.len() as int) {
                            Err(_) => Err(()),
                            Ok((q, port)) => {
                                proof {
                                    lemma_port_fields_advances(b, e, empty_port(), false);
                                }
                                parse_ports(b, q, ports.push(port))
                            },
                        }
                    }
                } else {
                    parse_ports(b, e, ports)
                }
            },
        }
    }
}

/// The `occurrence`-th port (from 0) of kind `kind`.
pub open spec fn nth_of_kind(ports: Seq<PortView>, kind: PortKind, occurrence: int) -> Option<PortView>
    decreases ports.len(),
{
    if ports.len() == 0 {
        None
    } else if ports[0].kind == kind {
        if occurrence == 0 {
            Some(ports[0])
        } else {
            nth_of_kind(ports.drop_first(), kind, occurrence - 1)
        }
    } else {
        nth_of_kind(ports.drop_first(), kind, occurrence)
    }
}

fn clone_port(p: &PortMetadata) -> (r: PortMetadata)
    ensures
        r@ == p@,
{
    PortMetadata {
        index: p.index,
        kind: p.kind,
        default: match &p.default {
            Some(d) => Some(d.clone()),
            None => None,
        },
    }
}

/// Reads the fields of a port up to its closing bracket.
fn read_port_fields(cursor: &mut Cursor) -> (r: Result<(PortMetadata, bool), ()>)
    requires
        tokens_inside(old(cursor).spec_bytes(), old(cursor).spec_position()),
    ensures
        final(cursor).spec_bytes() == old(cursor).spec_bytes(),
        match r {
            Ok((port, saw)) => {
                &&& port_fields(old(cursor).spec_bytes(), old(cursor).spec_position(), empty_port(), false)
                    == Ok::<(int, PortView, bool), ()>((final(cursor).spec_position(), port@, saw))
                &&& tokens_inside(final(cursor).spec_bytes(), final(cursor).spec_position())
            },
            Err(_) => port_fields(old(cursor).spec_bytes(), old(cursor).spec_position(), empty_port(), false) is Err,
        },
{
    let ghost b = cursor.spec_bytes();
    let ghost start = cursor.spec_position();
    let mut port = PortMetadata { index: 0, kind: PortKind::Unknown, default: None };
    let mut saw_index = false;
    let close: [u8; 1] = [93u8];
    let semi: [u8; 1] = [59u8];
    let comma_token: [u8; 1] = [44u8];
    assert(close@ =~= close_bracket());
    assert(semi@ =~= semicolon());
    assert(comma_token@ =~= comma());
    loop
        invariant
            b == old(cursor).spec_bytes(),
            start == old(cursor).spec_position(),
            cursor.spec_bytes() == b,
            tokens_inside(b, cursor.spec_position()),
            0 <= cursor.spec_position() <= b.len(),
            close@ == close_bracket(),
            semi@ == semicolon(),
            comma_token@ == comma(),
            port_fields(b, start, empty_port(), false) == port_fields(b, cursor.spec_position(), port@, saw_index),
        decreases b.len() + 1 - cursor.spec_position(),
    {
        let ghost pos = cursor.spec_position();
        proof {
            lemma_next_token(b, pos);
        }
        let predicate = match cursor.next() {
            None => {
                return Ok((port, saw_index));
            },
            Some(t) => t,
        };
        if bytes_equal(predicate, &close) {
            return Ok((port, saw_index));
        }
        if bytes_equal(predicate, &semi) || bytes_equal(predicate, &comma_token) {
            continue;
        }
        if bytes_equal(predicate, WORD_ATOM_PORT.as_bytes()) || bytes_equal(predicate, WORD_AUDIO_PORT.as_bytes())
            || bytes_equal(predicate, WORD_CONTROL_PORT.as_bytes()) {
            port.kind = kind_for(port.kind, predicate);
            continue;
        }
        let ghost e = cursor.spec_position();
        proof {
            lemma_next_token(b, e);
        }
        let value = match cursor.next() {
            Some(v) => v,
            None => return Err(()),
        };
        if bytes_equal(predicate, WORD_A.as_bytes()) {
            port.kind = kind_for(port.kind, value);
        } else if bytes_equal(predicate, WORD_INDEX.as_bytes()) {
            match parse_u32(value) {
                Some(i) => {
                    port.index = i;
                    saw_index = true;
                },
                None => return Err(()),
            }
        } else if bytes_equal(predicate, WORD_DEFAULT.as_bytes()) {
            if decimal_text(value) {
                port.default = Some(vstd::slice::slice_to_vec(value));
            } else {
                return Err(());
            }
        }
    }
}

/// The ports of a plugin, in the order described.
pub struct PluginMetadata {
    ports: Vec<PortMetadata>,
}

impl PluginMetadata {
    /// The ports, in the order described.
    pub closed spec fn spec_ports(&self) -> Seq<PortView> {
        port_views(self.ports@)
    }

    /// Reads the ports of a plugin description: each opened by `lv2:port [`
    /// or a bare `[`, with its `a` kinds, `lv2:index` and `lv2:default`.
    /// Refused when a port has no index, an index or default is malformed,
    /// more than `MAX_PORTS` ports are listed, or none is.
    pub fn parse(bytes: &[u8]) -> (r: Result<PluginMetadata, ()>)
        requires
            tokens_inside(bytes@, 0),
        ensures
            match r {
                Ok(m) => parse_ports(bytes@, 0, Seq::empty()) == Ok::<Seq<PortView>, ()>(m.spec_ports()),
                Err(_) => parse_ports(bytes@, 0, Seq::empty()) is Err,
            },
    {
        let ghost b = bytes@;
        let mut ports: Vec<PortMetadata> = Vec::new();
        let mut cursor = Cursor::new(bytes);
        let open: [u8; 1] = [91u8];
        assert(open@ =~= open_bracket());
        assert(port_views(ports@) =~= Seq::<PortView>::empty());
        loop
            invariant
                b == bytes@,
                cursor.spec_bytes() == b,
                tokens_inside(b, cursor.spec_position()),
                0 <= cursor.spec_position() <= b.len(),
                open@ == open_bracket(),
                ports@.len() <= MAX_PORTS,
                parse_ports(b, 0, Seq::empty()) == parse_ports(b, cursor.spec_position(), port_views(ports@)),
            decreases b.len() + 1 - cursor.spec_position(),
        {
            let ghost pos = cursor.spec_position();
            proof {
                lemma_next_token(b, pos);
            }
            let token = match cursor.next() {
                None => {
                    if ports.len() == 0 {
                        return Err(());
                    }
                    return Ok(PluginMetadata { ports });
                },
                Some(t) => t,
            };
            if bytes_equal(token, WORD_PORT.as_bytes()) {
                let ghost e = cursor.spec_position();
                proof {
                    lemma_next_token(b, e);
                }
                match cursor.next() {
                    Some(t) => {
                        if !bytes_equal(t, &open) {
                            return Err(());
                        }
                    },
                    None => return Err(()),
                }
            } else if !bytes_equal(token, &open) {
                continue;
            }
            if ports.len() == MAX_PORTS {
                return Err(());
            }
            let ghost q = cursor.spec_position();
            let (port, saw_index) = match read_port_fields(&mut cursor) {
                Ok(found) => found,
                Err(_) => return Err(()),
            };
            proof {
                lemma_port_fields_advances(b, q, empty_port(), false);
            }
            if !saw_index {
                return Err(());
            }
            let ghost before = port_views(ports@);
            ports.push(port);
            assert(port_views(ports@) =~= before.push(ports@.last()@));
        }
    }

    /// The `occurrence`-th port (counting from 0) of kind `kind`.
    pub fn port(&self, kind: PortKind, occurrence: usize) -> (r: Option<PortMetadata>)
        ensures
            match r {
                Some(p) => nth_of_kind(self.spec_ports(), kind, occurrence as int) == Some(p@),
                None => nth_of_kind(self.spec_ports(), kind, occurrence as int) is None,
            },
    {
        let ghost all = port_views(self.ports@);
        let mut found: usize = 0;
        let mut i: usize = 0;
        assert(all.subrange(0, all.len() as int) =~= all);
        while i < self.ports.len()
            invariant
                i <= self.ports@.len(),
                found <= i,
                all == port_views(self.ports@),
                nth_of_kind(all, kind, occurrence as int) == nth_of_kind(
                    all.subrange(i as int, all.len() as int),
                    kind,
                    occurrence - found,
                ),
            decreases self.ports@.len() - i,
        {
            let ghost rest = all.subrange(i as int, all.len() as int);
            assert(rest.drop_first() =~= all.subrange(i + 1, all.len() as int));
            if self.ports[i].kind == kind {
                if found == occurrence {
                    return Some(clone_port(&self.ports[i]));
                }
                found = found + 1;
            }
            i = i + 1;
        }
        None
    }
}

} // verus!
