//! Reading plugin graphs from the documents that describe them: Ingen
//! bundles and MOD pedalboards.

pub mod ingen;
pub mod mod_pedalboard;

use vstd::prelude::*;
use crate::graph::pair_views;
use crate::ingen::{arc_keys, connection_views, lemma_sorted_connections, sorted_arcs, Connection};
use crate::order::{compare_bytes, key_set, keys, lemma_pair_key_injective, lemma_pair_key_order, pair_key, sort_unique, sorted_set, Keyed};

verus! {

/// Why a graph document could not be read into a graph.
pub enum LoadError {
    /// A block is a blank node.
    BlankBlock,
    /// The block with this subject names no plugin.
    MissingPrototype(Vec<u8>),
    /// The `lv2:index` of this port is not a number from 0 to 255.
    InvalidIndex(Vec<u8>),
    /// The `ingen:value` of this port is not a number: the port and the
    /// value.
    InvalidValue(Vec<u8>, Vec<u8>),
    /// The `lv2:index` of this graph output is not a number from 0 to 255.
    InvalidOutputIndex(Vec<u8>),
    /// The block with this instance name is disabled.
    Disabled(Vec<u8>),
    /// The block with this instance name is bypassed.
    Bypassed(Vec<u8>),
    /// The bypass port's value is not a number: the port and the value.
    InvalidBypass(Vec<u8>, Vec<u8>),
    /// The port does not lie under the block: the port and the block.
    ForeignPort(Vec<u8>, Vec<u8>),
    /// The plugin has no port with this symbol: the instance name, the
    /// symbol and the plugin.
    UnknownPort(Vec<u8>, Vec<u8>, Vec<u8>),
    /// The ports of this plugin are not known.
    PluginUnavailable(Vec<u8>),
    /// The MIDI binding of this port lacks a channel or controller number
    /// from 0 to 255, or a numeric minimum or maximum.
    InvalidBinding(Vec<u8>),
}

pub enum LoadFault {
    BlankBlock,
    MissingPrototype(Seq<u8>),
    InvalidIndex(Seq<u8>),
    InvalidValue(Seq<u8>, Seq<u8>),
    InvalidOutputIndex(Seq<u8>),
    Disabled(Seq<u8>),
    Bypassed(Seq<u8>),
    InvalidBypass(Seq<u8>, Seq<u8>),
    ForeignPort(Seq<u8>, Seq<u8>),
    UnknownPort(Seq<u8>, Seq<u8>, Seq<u8>),
    PluginUnavailable(Seq<u8>),
    InvalidBinding(Seq<u8>),
}

impl View for LoadError {
    type V = LoadFault;

    open spec fn view(&self) -> LoadFault {
        match self {
            LoadError::BlankBlock => LoadFault::BlankBlock,
            LoadError::MissingPrototype(s) => LoadFault::MissingPrototype(s@),
            LoadError::InvalidIndex(p) => LoadFault::InvalidIndex(p@),
            LoadError::InvalidValue(p, v) => LoadFault::InvalidValue(p@, v@),
            LoadError::InvalidOutputIndex(s) => LoadFault::InvalidOutputIndex(s@),
            LoadError::Disabled(n) => LoadFault::Disabled(n@),
            LoadError::Bypassed(n) => LoadFault::Bypassed(n@),
            LoadError::InvalidBypass(p, v) => LoadFault::InvalidBypass(p@, v@),
            LoadError::ForeignPort(p, b) => LoadFault::ForeignPort(p@, b@),
            LoadError::UnknownPort(n, s, p) => LoadFault::UnknownPort(n@, s@, p@),
            LoadError::PluginUnavailable(p) => LoadFault::PluginUnavailable(p@),
            LoadError::InvalidBinding(p) => LoadFault::InvalidBinding(p@),
        }
    }
}

/// Sorts the collected connections, each once, as pairs of port subjects.
pub fn sorted_arc_pairs(collected: Vec<Connection>) -> (r: Vec<(Vec<u8>, Vec<u8>)>)
    ensures
        pair_views(r@) == sorted_arcs(connection_views(collected@)),
{
    let ghost cands = connection_views(collected@);
    proof {
        assert(keys(collected@) =~= arc_keys(cands));
    }
    let ghost items = collected@;
    let sorted = sort_unique(collected);
    proof {
        lemma_sorted_connections(items, sorted@);
    }
    let mut out: Vec<(Vec<u8>, Vec<u8>)> = Vec::new();
    let mut i: usize = 0;
    while i < sorted.len()
        invariant
            i <= sorted@.len(),
            pair_views(out@) == connection_views(sorted@).subrange(0, i as int),
        decreases sorted@.len() - i,
    {
        let ghost prev = pair_views(out@);
        let tail = sorted[i].tail.clone();
        let head = sorted[i].head.clone();
        out.push((tail, head));
        assert(pair_views(out@) =~= prev.push((sorted@[i as int].tail@, sorted@[i as int].head@)));
        assert(connection_views(sorted@).subrange(0, i + 1) =~= connection_views(sorted@).subrange(0, i as int).push(
            (sorted@[i as int].tail@, sorted@[i as int].head@),
        ));
        i = i + 1;
        assert(pair_views(out@) =~= connection_views(sorted@).subrange(0, i as int));
    }
    proof {
        assert(connection_views(sorted@).subrange(0, sorted@.len() as int) =~= connection_views(sorted@));
    }
    out
}

/// A graph output: a port subject and the output's index.
pub struct OutputPort {
    pub subject: Vec<u8>,
    pub index: u8,
}

pub open spec fn output_key(o: (Seq<u8>, u8)) -> Seq<int> {
    pair_key(o.0, seq![o.1 as int])
}

pub open spec fn output_keys(os: Seq<(Seq<u8>, u8)>) -> Seq<Seq<int>> {
    Seq::new(os.len(), |i: int| output_key(os[i]))
}

pub open spec fn output_port_views(os: Seq<OutputPort>) -> Seq<(Seq<u8>, u8)> {
    Seq::new(os.len(), |i: int| (os[i].subject@, os[i].index))
}

impl Keyed for OutputPort {
    open spec fn key(&self) -> Seq<int> {
        output_key((self.subject@, self.index))
    }

    fn key_less(&self, other: &Self) -> (r: bool) {
        proof {
            lemma_pair_key_order(self.subject@, seq![self.index as int], other.subject@, seq![other.index as int]);
            reveal_with_fuel(crate::order::seq_lt, 3);
            assert(seq![self.index as int].drop_first() =~= Seq::<int>::empty());
            assert(seq![other.index as int].drop_first() =~= Seq::<int>::empty());
        }
        let c = compare_bytes(self.subject.as_slice(), other.subject.as_slice());
        if c != 0 {
            c < 0
        } else {
            self.index < other.index
        }
    }

    fn key_equal(&self, other: &Self) -> (r: bool) {
        let same = bytes_equal_vec(&self.subject, &other.subject) && self.index == other.index;
        proof {
            if self.key() == other.key() {
                lemma_pair_key_injective(self.subject@, seq![self.index as int], other.subject@, seq![other.index as int]);
                assert(seq![self.index as int][0] == seq![other.index as int][0]);
            }
        }
        same
    }
}

fn bytes_equal_vec(a: &Vec<u8>, b: &Vec<u8>) -> (r: bool)
    ensures
        r == (a@ == b@),
{
    crate::bundle::bytes_equal(a.as_slice(), b.as_slice())
}

/// `os` sorted by subject then index, each once.
pub open spec fn sorted_output_ports(os: Seq<(Seq<u8>, u8)>) -> Seq<(Seq<u8>, u8)> {
    choose|s: Seq<(Seq<u8>, u8)>| output_keys(s) == sorted_set(key_set(output_keys(os)))
}

proof fn lemma_output_key_injective(a: (Seq<u8>, u8), b: (Seq<u8>, u8))
    requires
        output_key(a) == output_key(b),
    ensures
        a == b,
{
    lemma_pair_key_injective(a.0, seq![a.1 as int], b.0, seq![b.1 as int]);
    assert(seq![a.1 as int][0] == seq![b.1 as int][0]);
}

/// Sorts graph outputs, each once.
pub fn sorted_outputs(found: Vec<OutputPort>) -> (r: Vec<(Vec<u8>, u8)>)
    ensures
        crate::graph::indexed_views(r@) == sorted_output_ports(output_port_views(found@)),
{
    let ghost cands = output_port_views(found@);
    proof {
        assert(keys(found@) =~= output_keys(cands));
    }
    let sorted = sort_unique(found);
    let mut out: Vec<(Vec<u8>, u8)> = Vec::new();
    let mut i: usize = 0;
    while i < sorted.len()
        invariant
            i <= sorted@.len(),
            crate::graph::indexed_views(out@) == output_port_views(sorted@).subrange(0, i as int),
        decreases sorted@.len() - i,
    {
        let ghost prev = crate::graph::indexed_views(out@);
        let subject = sorted[i].subject.clone();
        out.push((subject, sorted[i].index));
        assert(crate::graph::indexed_views(out@) =~= prev.push((sorted@[i as int].subject@, sorted@[i as int].index)));
        assert(output_port_views(sorted@).subrange(0, i + 1) =~= output_port_views(sorted@).subrange(0, i as int).push(
            (sorted@[i as int].subject@, sorted@[i as int].index),
        ));
        i = i + 1;
        assert(crate::graph::indexed_views(out@) =~= output_port_views(sorted@).subrange(0, i as int));
    }
    proof {
        assert(output_port_views(sorted@).subrange(0, sorted@.len() as int) =~= output_port_views(sorted@));
        let views = crate::graph::indexed_views(out@);
        assert(output_keys(views) =~= keys(sorted@));
        let chosen = sorted_output_ports(cands);
        assert(output_keys(chosen) == sorted_set(key_set(output_keys(cands))));
        assert(chosen.len() == views.len()) by {
            assert(output_keys(chosen).len() == output_keys(views).len());
        }
        assert forall|i: int| 0 <= i < views.len() implies chosen[i] == views[i] by {
            assert(output_keys(chosen)[i] == output_keys(views)[i]);
            lemma_output_key_injective(chosen[i], views[i]);
        }
        assert(chosen =~= views);
    }
    out
}

} // verus!
