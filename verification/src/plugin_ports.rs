//! The ports of a plugin, read from the statements of its Turtle
//! description: each port's LV2 index, its kind and its default value, in
//! the order of their indices.
//!
//! Default values are carried as the bit patterns of their 32-bit floats;
//! `defaults[j]` is the value that the object of statement `j` reads as, or
//! `None` where it is not a number.

use vstd::prelude::*;
use vstd::string::StringSliceAdditionalSpecFns;
use crate::bundle::bytes_equal;
use crate::decimal::{parse_u32_std, parse_u32_std_spec};
use crate::ingen::LV2_PORT;
use crate::metadata::PortKind;
use crate::order::{
    bytes_key, compare_bytes, key_set, keys, lemma_bytes_key_injective, lemma_seq_lt_irreflexive,
    seq_lt, sort_unique, sorted_set, strictly_sorted, Keyed,
};
use crate::le::{
    le_bytes_u16, le_bytes_u32, le_u16, le_u32, lemma_le_u16_roundtrip, lemma_le_u32_roundtrip, push_u16,
    push_u32,
};
use crate::pack::append_bytes;
use crate::rdf::{find_triple, first_match, lemma_first_match_from, Triple, RDF_TYPE};

verus! {

pub const LV2_INDEX: &'static str = "http://lv2plug.in/ns/lv2core#index";

pub const LV2_DEFAULT: &'static str = "http://lv2plug.in/ns/lv2core#default";

pub const LV2_INPUT_PORT: &'static str = "http://lv2plug.in/ns/lv2core#InputPort";

pub const LV2_OUTPUT_PORT: &'static str = "http://lv2plug.in/ns/lv2core#OutputPort";

pub const LV2_AUDIO_PORT: &'static str = "http://lv2plug.in/ns/lv2core#AudioPort";

pub const LV2_CONTROL_PORT: &'static str = "http://lv2plug.in/ns/lv2core#ControlPort";

pub const ATOM_PORT: &'static str = "http://lv2plug.in/ns/ext/atom#AtomPort";

/// Why a plugin description gives no port list.
pub enum PortsError {
    /// The description lists no port, or more than a `u16` counts.
    PortCount,
    /// The port with this subject is of a kind the host does not support.
    UnsupportedPort(Vec<u8>),
    /// The port with this subject has no `lv2:index`.
    NoIndex(Vec<u8>),
    /// The `lv2:index` of the port with this subject is not a `u32`.
    InvalidIndex(Vec<u8>),
    /// The `lv2:default` of the port with this subject is not a number.
    InvalidDefault(Vec<u8>),
}

pub enum PortsFault {
    PortCount,
    UnsupportedPort(Seq<u8>),
    NoIndex(Seq<u8>),
    InvalidIndex(Seq<u8>),
    InvalidDefault(Seq<u8>),
}

impl View for PortsError {
    type V = PortsFault;

    open spec fn view(&self) -> PortsFault {
        match self {
            PortsError::PortCount => PortsFault::PortCount,
            PortsError::UnsupportedPort(s) => PortsFault::UnsupportedPort(s@),
            PortsError::NoIndex(s) => PortsFault::NoIndex(s@),
            PortsError::InvalidIndex(s) => PortsFault::InvalidIndex(s@),
            PortsError::InvalidDefault(s) => PortsFault::InvalidDefault(s@),
        }
    }
}

// ---------------------------------------------------------------------------
// The port subjects.

/// A port's subject, ordered by its bytes.
pub struct PortSubject {
    pub subject: Vec<u8>,
}

impl Keyed for PortSubject {
    open spec fn key(&self) -> Seq<int> {
        bytes_key(self.subject@)
    }

    fn key_less(&self, other: &Self) -> (r: bool) {
        compare_bytes(self.subject.as_slice(), other.subject.as_slice()) < 0
    }

    fn key_equal(&self, other: &Self) -> (r: bool) {
        let same = bytes_equal(self.subject.as_slice(), other.subject.as_slice());
        proof {
            if self.key() == other.key() {
                lemma_bytes_key_injective(self.subject@, other.subject@);
            }
        }
        same
    }
}

/// The keys of the objects of the `lv2:port` statements among the first `n`.
pub open spec fn port_keys_upto(ts: Seq<Triple>, n: int) -> Seq<Seq<int>>
    decreases n,
{
    if n <= 0 {
        Seq::empty()
    } else {
        port_keys_upto(ts, n - 1) + if ts[n - 1].predicate@ == LV2_PORT.spec_bytes() {
            seq![bytes_key(ts[n - 1].object@)]
        } else {
            Seq::empty()
        }
    }
}

pub open spec fn byte_strings_keys(s: Seq<Seq<u8>>) -> Seq<Seq<int>> {
    Seq::new(s.len(), |i: int| bytes_key(s[i]))
}

/// The ports that the description lists, each once, in byte order.
pub open spec fn port_subjects(ts: Seq<Triple>) -> Seq<Seq<u8>> {
    choose|s: Seq<Seq<u8>>| byte_strings_keys(s) == sorted_set(key_set(port_keys_upto(ts, ts.len() as int)))
}

pub open spec fn subject_views(s: Seq<PortSubject>) -> Seq<Seq<u8>> {
    Seq::new(s.len(), |i: int| s[i].subject@)
}

/// The ports that the description lists, each once, in byte order.
pub fn collect_port_subjects(triples: &[Triple]) -> (r: Vec<PortSubject>)
    ensures
        subject_views(r@) == port_subjects(triples@),
        strictly_sorted(keys(r@)),
{
    let mut found: Vec<PortSubject> = Vec::new();
    let mut i: usize = 0;
    while i < triples.len()
        invariant
            i <= triples@.len(),
            keys(found@) == port_keys_upto(triples@, i as int),
        decreases triples@.len() - i,
    {
        if bytes_equal(triples[i].predicate.as_slice(), LV2_PORT.as_bytes()) {
            found.push(PortSubject { subject: triples[i].object.clone() });
        }
        i = i + 1;
        assert(keys(found@) =~= port_keys_upto(triples@, i as int));
    }
    let sorted = sort_unique(found);
    proof {
        let views = subject_views(sorted@);
        assert(byte_strings_keys(views) =~= keys(sorted@));
        let chosen = port_subjects(triples@);
        assert(byte_strings_keys(chosen) == sorted_set(key_set(port_keys_upto(triples@, triples@.len() as int))));
        assert(chosen.len() == views.len()) by {
            assert(byte_strings_keys(chosen).len() == byte_strings_keys(views).len());
        }
        assert forall|k: int| 0 <= k < views.len() implies chosen[k] == views[k] by {
            assert(byte_strings_keys(chosen)[k] == byte_strings_keys(views)[k]);
            lemma_bytes_key_injective(chosen[k], views[k]);
        }
        assert(chosen =~= views);
    }
    sorted
}

// ---------------------------------------------------------------------------
// One port.

/// Some statement gives `subject` the type `class`.
pub open spec fn has_type(ts: Seq<Triple>, subject: Seq<u8>, class: Seq<u8>) -> bool {
    exists|i: int|
        0 <= i < ts.len() && #[trigger] ts[i].subject@ == subject && ts[i].predicate@ == RDF_TYPE.spec_bytes()
            && ts[i].object@ == class
}

/// The kind of the port `subject`, from its types, or `None` where the host
/// supports none of them.
pub open spec fn port_kind(ts: Seq<Triple>, subject: Seq<u8>) -> Option<PortKind> {
    let input = has_type(ts, subject, LV2_INPUT_PORT.spec_bytes());
    let output = has_type(ts, subject, LV2_OUTPUT_PORT.spec_bytes());
    let audio = has_type(ts, subject, LV2_AUDIO_PORT.spec_bytes());
    if has_type(ts, subject, ATOM_PORT.spec_bytes()) && input {
        Some(PortKind::AtomInput)
    } else if audio && input {
        Some(PortKind::AudioInput)
    } else if audio && output {
        Some(PortKind::AudioOutput)
    } else if has_type(ts, subject, LV2_CONTROL_PORT.spec_bytes()) && input {
        Some(PortKind::ControlInput)
    } else {
        None
    }
}

/// One port: its subject, LV2 index, kind, and default value's bits.
pub struct PortRecord {
    pub subject: Vec<u8>,
    pub index: u32,
    pub kind: PortKind,
    pub default: Option<u32>,
}

pub struct PortView {
    pub subject: Seq<u8>,
    pub index: u32,
    pub kind: PortKind,
    pub default: Option<u32>,
}

impl View for PortRecord {
    type V = PortView;

    open spec fn view(&self) -> PortView {
        PortView { subject: self.subject@, index: self.index, kind: self.kind, default: self.default }
    }
}

/// The record of the port `subject`, or why there is none.
pub open spec fn port_record(ts: Seq<Triple>, defaults: Seq<Option<u32>>, subject: Seq<u8>) -> Result<
    PortView,
    PortsFault,
> {
    match port_kind(ts, subject) {
        None => Err(PortsFault::UnsupportedPort(subject)),
        Some(kind) => match first_match(ts, subject, LV2_INDEX.spec_bytes()) {
            None => Err(PortsFault::NoIndex(subject)),
            Some(i) => match parse_u32_std_spec(ts[i].object@) {
                None => Err(PortsFault::InvalidIndex(subject)),
                Some(index) => match first_match(ts, subject, LV2_DEFAULT.spec_bytes()) {
                    None => Ok(PortView { subject, index, kind, default: None }),
                    Some(j) => match defaults[j] {
                        None => Err(PortsFault::InvalidDefault(subject)),
                        Some(bits) => Ok(PortView { subject, index, kind, default: Some(bits) }),
                    },
                },
            },
        },
    }
}

/// `subject` has the type `class`.
fn has_type_exec(triples: &[Triple], subject: &[u8], class: &[u8]) -> (r: bool)
    ensures
        r == has_type(triples@, subject@, class@),
{
    let mut i: usize = 0;
    while i < triples.len()
        invariant
            i <= triples@.len(),
            forall|k: int|
                0 <= k < i ==> !(#[trigger] triples@[k].subject@ == subject@ && triples@[k].predicate@
                    == RDF_TYPE.spec_bytes() && triples@[k].object@ == class@),
        decreases triples@.len() - i,
    {
        let t = &triples[i];
        if bytes_equal(t.subject.as_slice(), subject) && bytes_equal(t.predicate.as_slice(), RDF_TYPE.as_bytes())
            && bytes_equal(t.object.as_slice(), class) {
            return true;
        }
        i = i + 1;
    }
    false
}

fn port_kind_exec(triples: &[Triple], subject: &[u8]) -> (r: Option<PortKind>)
    ensures
        r == port_kind(triples@, subject@),
{
    let input = has_type_exec(triples, subject, LV2_INPUT_PORT.as_bytes());
    let output = has_type_exec(triples, subject, LV2_OUTPUT_PORT.as_bytes());
    let audio = has_type_exec(triples, subject, LV2_AUDIO_PORT.as_bytes());
    if has_type_exec(triples, subject, ATOM_PORT.as_bytes()) && input {
        Some(PortKind::AtomInput)
    } else if audio && input {
        Some(PortKind::AudioInput)
    } else if audio && output {
        Some(PortKind::AudioOutput)
    } else if has_type_exec(triples, subject, LV2_CONTROL_PORT.as_bytes()) && input {
        Some(PortKind::ControlInput)
    } else {
        None
    }
}

/// The record of the port `subject`.
pub fn read_port(triples: &[Triple], defaults: &[Option<u32>], subject: &[u8]) -> (r: Result<
    PortRecord,
    PortsError,
>)
    requires
        defaults@.len() == triples@.len(),
    ensures
        match r {
            Ok(p) => port_record(triples@, defaults@, subject@) == Ok::<PortView, PortsFault>(p@),
            Err(e) => port_record(triples@, defaults@, subject@) == Err::<PortView, PortsFault>(e@),
        },
{
    let kind = match port_kind_exec(triples, subject) {
        Some(kind) => kind,
        None => return Err(PortsError::UnsupportedPort(vstd::slice::slice_to_vec(subject))),
    };
    let i = match find_triple(triples, subject, LV2_INDEX.as_bytes()) {
        Some(i) => i,
        None => return Err(PortsError::NoIndex(vstd::slice::slice_to_vec(subject))),
    };
    proof {
        lemma_first_match_from(triples@, subject@, LV2_INDEX.spec_bytes(), 0);
    }
    let index = match parse_u32_std(triples[i].object.as_slice()) {
        Some(index) => index,
        None => return Err(PortsError::InvalidIndex(vstd::slice::slice_to_vec(subject))),
    };
    let default = match find_triple(triples, subject, LV2_DEFAULT.as_bytes()) {
        None => None,
        Some(j) => {
            proof {
                lemma_first_match_from(triples@, subject@, LV2_DEFAULT.spec_bytes(), 0);
            }
            match defaults[j] {
                None => return Err(PortsError::InvalidDefault(vstd::slice::slice_to_vec(subject))),
                Some(bits) => Some(bits),
            }
        },
    };
    Ok(PortRecord { subject: vstd::slice::slice_to_vec(subject), index, kind, default })
}


// ---------------------------------------------------------------------------
// All ports.

/// The records of the first `n` ports of `subjects`, or the first refusal.
pub open spec fn records_upto(
    ts: Seq<Triple>,
    defaults: Seq<Option<u32>>,
    subjects: Seq<Seq<u8>>,
    n: int,
) -> Result<Seq<PortView>, PortsFault>
    decreases n,
{
    if n <= 0 {
        Ok(Seq::empty())
    } else {
        match records_upto(ts, defaults, subjects, n - 1) {
            Err(e) => Err(e),
            Ok(rs) => match port_record(ts, defaults, subjects[n - 1]) {
                Err(e) => Err(e),
                Ok(p) => Ok(rs.push(p)),
            },
        }
    }
}

proof fn lemma_records_error_stays(
    ts: Seq<Triple>,
    defaults: Seq<Option<u32>>,
    subjects: Seq<Seq<u8>>,
    k: int,
    n: int,
)
    requires
        0 <= k <= n,
        records_upto(ts, defaults, subjects, k) is Err,
    ensures
        records_upto(ts, defaults, subjects, n) == records_upto(ts, defaults, subjects, k),
    decreases n - k,
{
    if n > k {
        lemma_records_error_stays(ts, defaults, subjects, k, n - 1);
    }
}

proof fn lemma_records_follow_subjects(
    ts: Seq<Triple>,
    defaults: Seq<Option<u32>>,
    subjects: Seq<Seq<u8>>,
    n: int,
)
    requires
        0 <= n,
        records_upto(ts, defaults, subjects, n) is Ok,
    ensures
        ({
            let rs = records_upto(ts, defaults, subjects, n)->Ok_0;
            &&& rs.len() == n
            &&& forall|k: int| 0 <= k < n ==> (#[trigger] rs[k]).subject == subjects[k]
        }),
    decreases n,
{
    if n > 0 {
        lemma_records_follow_subjects(ts, defaults, subjects, n - 1);
    }
}

/// The order of ports: by index, then by subject.
pub open spec fn port_key(p: PortView) -> Seq<int> {
    seq![p.index as int] + bytes_key(p.subject)
}

pub open spec fn port_keys(s: Seq<PortView>) -> Seq<Seq<int>> {
    Seq::new(s.len(), |i: int| port_key(s[i]))
}

pub open spec fn port_views(s: Seq<PortRecord>) -> Seq<PortView> {
    Seq::new(s.len(), |i: int| s[i]@)
}

proof fn lemma_port_key_order(a: PortView, b: PortView)
    ensures
        seq_lt(port_key(a), port_key(b)) == if a.index != b.index {
            a.index < b.index
        } else {
            seq_lt(bytes_key(a.subject), bytes_key(b.subject))
        },
{
    assert(port_key(a).drop_first() =~= bytes_key(a.subject));
    assert(port_key(b).drop_first() =~= bytes_key(b.subject));
}

proof fn lemma_port_key_injective(a: PortView, b: PortView)
    requires
        port_key(a) == port_key(b),
    ensures
        a.index == b.index,
        a.subject == b.subject,
{
    assert(port_key(a)[0] == a.index as int);
    assert(port_key(b)[0] == b.index as int);
    assert(port_key(a).drop_first() =~= bytes_key(a.subject));
    assert(port_key(b).drop_first() =~= bytes_key(b.subject));
    lemma_bytes_key_injective(a.subject, b.subject);
}

impl Keyed for PortRecord {
    open spec fn key(&self) -> Seq<int> {
        port_key(self@)
    }

    fn key_less(&self, other: &Self) -> (r: bool) {
        proof {
            lemma_port_key_order(self@, other@);
        }
        if self.index != other.index {
            self.index < other.index
        } else {
            compare_bytes(self.subject.as_slice(), other.subject.as_slice()) < 0
        }
    }

    fn key_equal(&self, other: &Self) -> (r: bool) {
        let same = self.index == other.index && bytes_equal(self.subject.as_slice(), other.subject.as_slice());
        proof {
            if self.key() == other.key() {
                lemma_port_key_injective(self@, other@);
            }
            if same {
                assert(port_key(self@) =~= port_key(other@));
            }
        }
        same
    }
}

/// `recs` ordered by index, ports of one index by subject.
pub open spec fn by_index(recs: Seq<PortView>) -> Seq<PortView> {
    choose|s: Seq<PortView>|
        port_keys(s) == sorted_set(key_set(port_keys(recs))) && forall|i: int|
            0 <= i < s.len() ==> recs.contains(#[trigger] s[i])
}

/// The ports of a plugin description, ordered by index, or why there are
/// none: the description must list between one and 65535 ports, each of a
/// supported kind with a `u32` index and, where it has a default, a number.
pub open spec fn metadata_ports_spec(ts: Seq<Triple>, defaults: Seq<Option<u32>>) -> Result<
    Seq<PortView>,
    PortsFault,
> {
    let subjects = port_subjects(ts);
    if subjects.len() == 0 || subjects.len() > 65535 {
        Err(PortsFault::PortCount)
    } else {
        match records_upto(ts, defaults, subjects, subjects.len() as int) {
            Err(e) => Err(e),
            Ok(recs) => Ok(by_index(recs)),
        }
    }
}

/// Reads the ports of a plugin description from its statements; see
/// [`metadata_ports_spec`].
pub fn metadata_ports(triples: &[Triple], defaults: &[Option<u32>]) -> (r: Result<
    Vec<PortRecord>,
    PortsError,
>)
    requires
        defaults@.len() == triples@.len(),
    ensures
        match r {
            Ok(ports) => metadata_ports_spec(triples@, defaults@) == Ok::<Seq<PortView>, PortsFault>(
                port_views(ports@),
            ),
            Err(e) => metadata_ports_spec(triples@, defaults@) == Err::<Seq<PortView>, PortsFault>(e@),
        },
{
    let subjects = collect_port_subjects(triples);
    let ghost subs = port_subjects(triples@);
    if subjects.len() == 0 || subjects.len() > 65535 {
        return Err(PortsError::PortCount);
    }
    let mut records: Vec<PortRecord> = Vec::new();
    let mut k: usize = 0;
    assert(port_views(records@) =~= Seq::<PortView>::empty());
    while k < subjects.len()
        invariant
            k <= subjects@.len(),
            0 < subjects@.len() <= 65535,
            defaults@.len() == triples@.len(),
            subs == port_subjects(triples@),
            subject_views(subjects@) == subs,
            records_upto(triples@, defaults@, subs, k as int) == Ok::<Seq<PortView>, PortsFault>(
                port_views(records@),
            ),
        decreases subjects@.len() - k,
    {
        assert(subjects@[k as int].subject@ == subs[k as int]);
        match read_port(triples, defaults, subjects[k].subject.as_slice()) {
            Err(e) => {
                proof {
                    lemma_records_error_stays(triples@, defaults@, subs, k + 1, subs.len() as int);
                }
                return Err(e);
            },
            Ok(p) => {
                let ghost before = port_views(records@);
                records.push(p);
                assert(port_views(records@) =~= before.push(p@));
            },
        }
        k = k + 1;
    }
    let ghost recs = port_views(records@);
    let sorted = sort_unique(records);
    proof {
        let views = port_views(sorted@);
        assert(port_keys(views) =~= keys(sorted@));
        assert(port_keys(recs) =~= keys(records@));
        assert forall|i: int| 0 <= i < views.len() implies recs.contains(#[trigger] views[i]) by {
            assert(records@.contains(sorted@[i]));
            let j = choose|j: int| 0 <= j < records@.len() && records@[j] == sorted@[i];
            assert(recs[j] == views[i]);
        }
        let chosen = by_index(recs);
        assert(port_keys(chosen) == sorted_set(key_set(port_keys(recs))) && forall|i: int|
            0 <= i < chosen.len() ==> recs.contains(#[trigger] chosen[i]));
        assert(chosen.len() == views.len()) by {
            assert(port_keys(chosen).len() == port_keys(views).len());
        }
        lemma_records_follow_subjects(triples@, defaults@, subs, subs.len() as int);
        assert(strictly_sorted(keys(subjects@)));
        assert forall|i: int| 0 <= i < views.len() implies chosen[i] == views[i] by {
            assert(port_keys(chosen)[i] == port_keys(views)[i]);
            lemma_port_key_injective(chosen[i], views[i]);
            let a = choose|a: int| 0 <= a < recs.len() && recs[a] == chosen[i];
            let b = choose|b: int| 0 <= b < recs.len() && recs[b] == views[i];
            assert(recs[a].subject == subs[a] && recs[b].subject == subs[b]);
            if a != b {
                assert(subjects@[a].subject@ == subs[a]);
                assert(subjects@[b].subject@ == subs[b]);
                if a < b {
                    assert(seq_lt(keys(subjects@)[a], keys(subjects@)[b]));
                    lemma_seq_lt_irreflexive(keys(subjects@)[a]);
                } else {
                    assert(seq_lt(keys(subjects@)[b], keys(subjects@)[a]));
                    lemma_seq_lt_irreflexive(keys(subjects@)[a]);
                }
            }
        }
        assert(chosen =~= views);
    }
    Ok(sorted)
}

// ---------------------------------------------------------------------------
// The compact port records.

/// The constants of the compact port-record layout that the firmware reads:
/// the magic it begins with, its version, and the byte written for each
/// port kind.
pub struct MetadataFormat {
    pub magic: Vec<u8>,
    pub version: u32,
    pub audio_input: u8,
    pub audio_output: u8,
    pub control_input: u8,
    pub atom_input: u8,
    pub unknown: u8,
}

/// The byte that `format` writes for `kind`.
pub open spec fn kind_code(format: MetadataFormat, kind: PortKind) -> u8 {
    match kind {
        PortKind::AudioInput => format.audio_input,
        PortKind::AudioOutput => format.audio_output,
        PortKind::ControlInput => format.control_input,
        PortKind::AtomInput => format.atom_input,
        PortKind::Unknown => format.unknown,
    }
}

/// One port's record: its kind, whether it has a default, two reserved
/// bytes, its index, and its default's bits (0 where it has none).
pub open spec fn port_record_bytes(format: MetadataFormat, port: PortView) -> Seq<u8> {
    seq![kind_code(format, port.kind), if port.default is Some { 1u8 } else { 0u8 }, 0u8, 0u8]
        + le_bytes_u32(port.index) + le_bytes_u32(
        match port.default {
            Some(bits) => bits,
            None => 0u32,
        },
    )
}

pub open spec fn port_records_bytes(format: MetadataFormat, ports: Seq<PortView>, k: int) -> Seq<u8>
    decreases k,
{
    if k <= 0 {
        Seq::empty()
    } else {
        port_records_bytes(format, ports, k - 1) + port_record_bytes(format, ports[k - 1])
    }
}

/// The compact metadata of `ports`: the magic, the version, the port count
/// as a `u16`, two reserved bytes, then one record per port in the given
/// order.
pub open spec fn metadata_bytes(format: MetadataFormat, ports: Seq<PortView>) -> Seq<u8> {
    format.magic@ + le_bytes_u32(format.version) + le_bytes_u16(ports.len() as u16) + seq![0u8, 0u8]
        + port_records_bytes(format, ports, ports.len() as int)
}

proof fn lemma_port_records_length(format: MetadataFormat, ports: Seq<PortView>, k: int)
    requires
        0 <= k,
    ensures
        port_records_bytes(format, ports, k).len() == 12 * k,
    decreases k,
{
    if k > 0 {
        lemma_port_records_length(format, ports, k - 1);
    }
}

/// The compact metadata of `n` ports takes the magic, eight header bytes,
/// and twelve bytes per port.
pub proof fn lemma_metadata_length(format: MetadataFormat, ports: Seq<PortView>)
    ensures
        metadata_bytes(format, ports).len() == format.magic@.len() + 8 + 12 * ports.len(),
{
    lemma_port_records_length(format, ports, ports.len() as int);
}

proof fn lemma_port_record_at(format: MetadataFormat, ports: Seq<PortView>, n: int, k: int)
    requires
        0 <= k < n,
    ensures
        port_records_bytes(format, ports, n).len() == 12 * n,
        port_records_bytes(format, ports, n).subrange(12 * k, 12 * k + 12) == port_record_bytes(format, ports[k]),
    decreases n,
{
    lemma_port_records_length(format, ports, n);
    lemma_port_records_length(format, ports, n - 1);
    let prev = port_records_bytes(format, ports, n - 1);
    let whole = port_records_bytes(format, ports, n);
    assert(whole == prev + port_record_bytes(format, ports[n - 1]));
    if k == n - 1 {
        assert(whole.subrange(12 * k, 12 * k + 12) =~= port_record_bytes(format, ports[k]));
    } else {
        lemma_port_record_at(format, ports, n - 1, k);
        assert(whole.subrange(12 * k, 12 * k + 12) =~= prev.subrange(12 * k, 12 * k + 12));
    }
}

/// What the compact metadata holds: the format's magic, its version, the
/// port count, two zero bytes; then for port `k`, at twelve bytes per port,
/// the format's byte for the port's kind (the audio-output code for an
/// audio output, and so on), 1 where the port has a default and 0 where it
/// has none, two zero bytes, the port's index, and its default's bits or 0.
pub proof fn lemma_metadata_fields(format: MetadataFormat, ports: Seq<PortView>)
    requires
        ports.len() <= 65535,
    ensures
        ({
            let b = metadata_bytes(format, ports);
            let m = format.magic@.len() as int;
            &&& b.subrange(0, m) == format.magic@
            &&& le_u32(b, m) == format.version
            &&& le_u16(b, m + 4) == ports.len()
            &&& b[m + 6] == 0u8 && b[m + 7] == 0u8
            &&& forall|k: int|
                0 <= k < ports.len() ==> {
                    let o = m + 8 + 12 * k;
                    &&& b[o] == match (#[trigger] ports[k]).kind {
                        PortKind::AudioInput => format.audio_input,
                        PortKind::AudioOutput => format.audio_output,
                        PortKind::ControlInput => format.control_input,
                        PortKind::AtomInput => format.atom_input,
                        PortKind::Unknown => format.unknown,
                    }
                    &&& b[o + 1] == (if ports[k].default is Some { 1u8 } else { 0u8 })
                    &&& b[o + 2] == 0u8 && b[o + 3] == 0u8
                    &&& le_u32(b, o + 4) == ports[k].index
                    &&& le_u32(b, o + 8) == match ports[k].default {
                        Some(bits) => bits,
                        None => 0u32,
                    }
                }
        }),
{
    let b = metadata_bytes(format, ports);
    let m = format.magic@.len() as int;
    let n = ports.len() as int;
    let recs = port_records_bytes(format, ports, n);
    let head = format.magic@ + le_bytes_u32(format.version) + le_bytes_u16(n as u16) + seq![0u8, 0u8];
    lemma_port_records_length(format, ports, n);
    assert(b == head + recs);
    assert(b.subrange(0, m) =~= format.magic@);
    assert(b.subrange(m, m + 4) =~= le_bytes_u32(format.version));
    assert(b.subrange(m + 4, m + 6) =~= le_bytes_u16(n as u16));
    lemma_le_u32_roundtrip(b, m, format.version);
    lemma_le_u16_roundtrip(b, m + 4, n as u16);
    assert(b[m + 6] == head[m + 6]);
    assert(b[m + 7] == head[m + 7]);
    assert forall|k: int|
        0 <= k < ports.len() implies {
            let o = m + 8 + 12 * k;
            &&& b[o] == match (#[trigger] ports[k]).kind {
                PortKind::AudioInput => format.audio_input,
                PortKind::AudioOutput => format.audio_output,
                PortKind::ControlInput => format.control_input,
                PortKind::AtomInput => format.atom_input,
                PortKind::Unknown => format.unknown,
            }
            &&& b[o + 1] == (if ports[k].default is Some { 1u8 } else { 0u8 })
            &&& b[o + 2] == 0u8 && b[o + 3] == 0u8
            &&& le_u32(b, o + 4) == ports[k].index
            &&& le_u32(b, o + 8) == match ports[k].default {
                Some(bits) => bits,
                None => 0u32,
            }
        } by {
        let o = m + 8 + 12 * k;
        let dflt = match ports[k].default {
            Some(bits) => bits,
            None => 0u32,
        };
        lemma_port_record_at(format, ports, n, k);
        let rec = port_record_bytes(format, ports[k]);
        assert(b.subrange(o, o + 12) =~= rec) by {
            assert(b.subrange(o, o + 12) =~= recs.subrange(12 * k, 12 * k + 12));
        }
        assert(b[o] == rec[0]);
        assert(b[o + 1] == rec[1]);
        assert(b[o + 2] == rec[2]);
        assert(b[o + 3] == rec[3]);
        assert(b.subrange(o + 4, o + 8) =~= rec.subrange(4, 8));
        assert(rec.subrange(4, 8) =~= le_bytes_u32(ports[k].index));
        assert(b.subrange(o + 8, o + 12) =~= rec.subrange(8, 12));
        assert(rec.subrange(8, 12) =~= le_bytes_u32(dflt));
        lemma_le_u32_roundtrip(b, o + 4, ports[k].index);
        lemma_le_u32_roundtrip(b, o + 8, dflt);
    }
}

/// The byte that `format` writes for `kind`.
pub fn kind_byte(format: &MetadataFormat, kind: PortKind) -> (r: u8)
    ensures
        r == kind_code(*format, kind),
{
    match kind {
        PortKind::AudioInput => format.audio_input,
        PortKind::AudioOutput => format.audio_output,
        PortKind::ControlInput => format.control_input,
        PortKind::AtomInput => format.atom_input,
        PortKind::Unknown => format.unknown,
    }
}

/// Writes `ports` as compact port records after the metadata header.
pub fn encode_metadata(format: &MetadataFormat, ports: &[PortRecord]) -> (r: Vec<u8>)
    ensures
        r@ == metadata_bytes(*format, port_views(ports@)),
{
    let ghost views = port_views(ports@);
    let mut out: Vec<u8> = Vec::new();
    append_bytes(&mut out, format.magic.as_slice());
    push_u32(&mut out, format.version);
    push_u16(&mut out, ports.len() as u16);
    out.push(0);
    out.push(0);
    let ghost header = out@;
    assert(header =~= format.magic@ + le_bytes_u32(format.version) + le_bytes_u16(views.len() as u16) + seq![0u8, 0u8]);
    let mut k: usize = 0;
    while k < ports.len()
        invariant
            k <= ports@.len(),
            views == port_views(ports@),
            out@ == header + port_records_bytes(*format, views, k as int),
        decreases ports@.len() - k,
    {
        let port = &ports[k];
        let ghost before = out@;
        out.push(kind_byte(format, port.kind));
        out.push(if port.default.is_some() { 1u8 } else { 0u8 });
        out.push(0);
        out.push(0);
        push_u32(&mut out, port.index);
        push_u32(
            &mut out,
            match port.default {
                Some(bits) => bits,
                None => 0u32,
            },
        );
        assert(views[k as int] == port@);
        assert(out@ =~= before + port_record_bytes(*format, views[k as int]));
        k = k + 1;
        assert(out@ =~= header + port_records_bytes(*format, views, k as int));
    }
    out
}

/// Reads the ports of a plugin description and writes them as compact port
/// records: `metadata_ports` followed by `encode_metadata`.
pub fn compile_metadata(format: &MetadataFormat, triples: &[Triple], defaults: &[Option<u32>]) -> (r: Result<
    Vec<u8>,
    PortsError,
>)
    requires
        defaults@.len() == triples@.len(),
    ensures
        match r {
            Ok(bytes) => metadata_ports_spec(triples@, defaults@) matches Ok(ports) && bytes@ == metadata_bytes(
                *format,
                ports,
            ),
            Err(e) => metadata_ports_spec(triples@, defaults@) == Err::<Seq<PortView>, PortsFault>(e@),
        },
{
    match metadata_ports(triples, defaults) {
        Ok(ports) => Ok(encode_metadata(format, ports.as_slice())),
        Err(e) => Err(e),
    }
}

} // verus!
