use picolv2::connect::{
    check_binding, check_edge, link_for, output_channels, BindingProblem, EdgeProblem, HostPortKind, Link,
};

#[test]
fn links_matching_port_kinds() {
    assert_eq!(link_for(HostPortKind::AudioOutput, HostPortKind::AudioInput), Some(Link::Audio));
    assert_eq!(link_for(HostPortKind::ControlOutput, HostPortKind::ControlInput), Some(Link::Control));
    assert_eq!(link_for(HostPortKind::AtomOutput, HostPortKind::AtomInput), Some(Link::Atom));
    assert_eq!(link_for(HostPortKind::CvOutput, HostPortKind::CvInput), Some(Link::Cv));
    assert_eq!(link_for(HostPortKind::ControlOutput, HostPortKind::CvInput), Some(Link::ControlToCv));
    assert_eq!(link_for(HostPortKind::AudioOutput, HostPortKind::ControlInput), None);
    assert_eq!(link_for(HostPortKind::AudioInput, HostPortKind::AudioOutput), None);
    assert_eq!(link_for(HostPortKind::CvOutput, HostPortKind::ControlInput), None);
}

#[test]
fn checks_edges() {
    assert_eq!(check_edge(0, 1, 2), Ok(()));
    assert_eq!(check_edge(0, 2, 2), Err(EdgeProblem::NodeOutOfRange));
    assert_eq!(check_edge(1, 1, 2), Err(EdgeProblem::NotOrdered));
    assert_eq!(check_edge(1, 0, 2), Err(EdgeProblem::NotOrdered));
}

#[test]
fn checks_midi_bindings() {
    let inputs = vec![vec![2u32, 5], vec![]];
    assert_eq!(check_binding(0, 7, 0, 5, &inputs), Ok(()));
    assert_eq!(check_binding(16, 7, 0, 5, &inputs), Err(BindingProblem::Channel));
    assert_eq!(check_binding(15, 128, 0, 5, &inputs), Err(BindingProblem::Controller));
    assert_eq!(check_binding(15, 127, 2, 5, &inputs), Err(BindingProblem::Node));
    assert_eq!(check_binding(15, 127, 1, 5, &inputs), Err(BindingProblem::Target));
    assert_eq!(check_binding(15, 127, 0, 3, &inputs), Err(BindingProblem::Target));
}

#[test]
fn picks_output_channels() {
    assert_eq!(output_channels(&[]), None);
    assert_eq!(output_channels(&[(1, 4)]), Some(((1, 4), (1, 4))));
    assert_eq!(output_channels(&[(1, 4), (2, 5), (3, 6)]), Some(((1, 4), (2, 5))));
}
