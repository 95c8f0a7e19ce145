//! The decisions the device makes while it wires a plugin graph: which kind
//! of link an edge between two ports makes, which edges and MIDI bindings it
//! accepts, and which outputs feed the left and right channels.

use vstd::prelude::*;

verus! {

/// The kinds of port a plugin instance on the device has.
#[derive(Clone, Copy, Debug, PartialEq, Eq, Structural)]
pub enum HostPortKind {
    AudioInput,
    AudioOutput,
    ControlInput,
    ControlOutput,
    AtomInput,
    AtomOutput,
    CvInput,
    CvOutput,
}

/// How the device joins two ports.
#[derive(Clone, Copy, Debug, PartialEq, Eq, Structural)]
pub enum Link {
    /// The destination reads the source's audio buffer.
    Audio,
    /// The destination reads the source's control value.
    Control,
    /// The destination reads the source's atom sequence.
    Atom,
    /// The destination reads the source's CV buffer.
    Cv,
    /// A control value is spread over a CV buffer once per block.
    ControlToCv,
}

/// The link an edge from a `source` port to a `destination` port makes, or
/// `None` where the two kinds do not go together.
pub open spec fn link_spec(source: HostPortKind, destination: HostPortKind) -> Option<Link> {
    match (source, destination) {
        (HostPortKind::AudioOutput, HostPortKind::AudioInput) => Some(Link::Audio),
        (HostPortKind::ControlOutput, HostPortKind::ControlInput) => Some(Link::Control),
        (HostPortKind::AtomOutput, HostPortKind::AtomInput) => Some(Link::Atom),
        (HostPortKind::CvOutput, HostPortKind::CvInput) => Some(Link::Cv),
        (HostPortKind::ControlOutput, HostPortKind::CvInput) => Some(Link::ControlToCv),
        _ => None,
    }
}

/// The link an edge from a `source` port to a `destination` port makes.
pub fn link_for(source: HostPortKind, destination: HostPortKind) -> (r: Option<Link>)
    ensures
        r == link_spec(source, destination),
{
    match (source, destination) {
        (HostPortKind::AudioOutput, HostPortKind::AudioInput) => Some(Link::Audio),
        (HostPortKind::ControlOutput, HostPortKind::ControlInput) => Some(Link::Control),
        (HostPortKind::AtomOutput, HostPortKind::AtomInput) => Some(Link::Atom),
        (HostPortKind::CvOutput, HostPortKind::CvInput) => Some(Link::Cv),
        (HostPortKind::ControlOutput, HostPortKind::CvInput) => Some(Link::ControlToCv),
        _ => None,
    }
}

/// Every link runs from an output to an input.
pub proof fn lemma_links_run_from_outputs(source: HostPortKind, destination: HostPortKind)
    ensures
        link_spec(source, destination) is Some ==> {
            &&& (source == HostPortKind::AudioOutput || source == HostPortKind::ControlOutput
                || source == HostPortKind::AtomOutput || source == HostPortKind::CvOutput)
            &&& (destination == HostPortKind::AudioInput || destination == HostPortKind::ControlInput
                || destination == HostPortKind::AtomInput || destination == HostPortKind::CvInput)
        },
{
}

/// Why the device refuses an edge.
#[derive(Clone, Copy, Debug, PartialEq, Eq, Structural)]
pub enum EdgeProblem {
    /// An end of the edge names no node.
    NodeOutOfRange,
    /// The edge does not run from an earlier node to a later one.
    NotOrdered,
}

/// Checks that an edge joins two nodes of a graph of `node_count` nodes and
/// runs from the earlier to the later.
pub fn check_edge(source_node: u16, destination_node: u16, node_count: usize) -> (r: Result<(), EdgeProblem>)
    ensures
        r == if source_node >= node_count || destination_node >= node_count {
            Err::<(), EdgeProblem>(EdgeProblem::NodeOutOfRange)
        } else if source_node >= destination_node {
            Err::<(), EdgeProblem>(EdgeProblem::NotOrdered)
        } else {
            Ok::<(), EdgeProblem>(())
        },
{
    if source_node as usize >= node_count || destination_node as usize >= node_count {
        Err(EdgeProblem::NodeOutOfRange)
    } else if source_node >= destination_node {
        Err(EdgeProblem::NotOrdered)
    } else {
        Ok(())
    }
}

/// Why the device refuses a MIDI binding.
#[derive(Clone, Copy, Debug, PartialEq, Eq, Structural)]
pub enum BindingProblem {
    /// The channel is 16 or more.
    Channel,
    /// The controller number is 128 or more.
    Controller,
    /// The binding names no node.
    Node,
    /// The bound port is not a control input of its node.
    Target,
}

/// The decision on a MIDI binding of `controller` on `channel` to `port` of
/// `node`, where `control_inputs[n]` lists the control input ports of node
/// `n`.
pub open spec fn binding_verdict(
    channel: u8,
    controller: u8,
    node: u16,
    port: u8,
    control_inputs: Seq<Seq<u32>>,
) -> Result<(), BindingProblem> {
    if channel >= 16 {
        Err(BindingProblem::Channel)
    } else if controller >= 128 {
        Err(BindingProblem::Controller)
    } else if node >= control_inputs.len() {
        Err(BindingProblem::Node)
    } else if !control_inputs[node as int].contains(port as u32) {
        Err(BindingProblem::Target)
    } else {
        Ok(())
    }
}

pub open spec fn port_lists(v: Seq<Vec<u32>>) -> Seq<Seq<u32>> {
    Seq::new(v.len(), |i: int| v[i]@)
}

/// Checks a MIDI binding against the nodes' control inputs; see
/// [`binding_verdict`].
pub fn check_binding(
    channel: u8,
    controller: u8,
    node: u16,
    port: u8,
    control_inputs: &[Vec<u32>],
) -> (r: Result<(), BindingProblem>)
    ensures
        r == binding_verdict(channel, controller, node, port, port_lists(control_inputs@)),
{
    if channel >= 16 {
        return Err(BindingProblem::Channel);
    }
    if controller >= 128 {
        return Err(BindingProblem::Controller);
    }
    if node as usize >= control_inputs.len() {
        return Err(BindingProblem::Node);
    }
    let ports = &control_inputs[node as usize];
    let ghost target = port as u32;
    assert(port_lists(control_inputs@)[node as int] == ports@);
    let mut i: usize = 0;
    while i < ports.len()
        invariant
            i <= ports@.len(),
            channel < 16,
            controller < 128,
            node < control_inputs@.len(),
            target == port as u32,
            port_lists(control_inputs@)[node as int] == ports@,
            forall|k: int| 0 <= k < i ==> ports@[k] != target,
        decreases ports@.len() - i,
    {
        if ports[i] == port as u32 {
            assert(ports@[i as int] == target);
            return Ok(());
        }
        i = i + 1;
    }
    Err(BindingProblem::Target)
}

/// The node and port that feed the left channel and those that feed the
/// right: the first output, and the second where there is one, else the
/// first again; `None` where the graph declares no output.
pub fn output_channels(outputs: &[(u16, u8)]) -> (r: Option<((usize, u32), (usize, u32))>)
    ensures
        match r {
            None => outputs@.len() == 0,
            Some((left, right)) => {
                &&& outputs@.len() > 0
                &&& left == (outputs@[0].0 as usize, outputs@[0].1 as u32)
                &&& right == if outputs@.len() > 1 {
                    (outputs@[1].0 as usize, outputs@[1].1 as u32)
                } else {
                    left
                }
            },
        },
{
    if outputs.len() == 0 {
        return None;
    }
    let left = (outputs[0].0 as usize, outputs[0].1 as u32);
    let right = if outputs.len() > 1 {
        (outputs[1].0 as usize, outputs[1].1 as u32)
    } else {
        left
    };
    Some((left, right))
}

} // verus!
