use petricrab::model::{ArcKind, PetriNet};
use petricrab::project::{
    frame, from_project, max_numeric_suffix, to_project, unframe, ProjectArcKind, ProjectError, ProjectNet, ProjectPlace,
    ProjectTransition, VERSION,
};

#[test]
fn save_then_load_roundtrips_places_transitions_and_arcs() {
    let mut net = PetriNet::new();
    let p1 = net.add_place("p1");
    let p2 = net.add_place("p2");
    let t = net.add_transition("t1");
    net.set_tokens(p1, 3);
    net.add_arc_place_to_transition(p1, t, ArcKind::Peek(1)).unwrap();
    net.add_arc_transition_to_place(t, p2, 2).unwrap();

    let project = to_project(&net);
    assert_eq!(project.places.len(), 2);
    assert_eq!(project.places[0].label, "p1");
    assert_eq!(project.places[0].tokens, 3);
    assert_eq!(project.transitions[0].inputs, vec![(0, ProjectArcKind::Peek, 1)]);
    assert_eq!(project.transitions[0].outputs, vec![(1, 2)]);

    let (loaded, places, transitions) = from_project(&project);
    assert_eq!(loaded.place_ids().len(), 2);
    assert_eq!(loaded.transition_ids().len(), 1);
    let lt = transitions[0];
    assert_eq!(loaded.transition_label(lt), "t1");
    assert_eq!(loaded.place_label(places[0]), "p1");
    assert_eq!(loaded.tokens(places[0]), 3);
    assert_eq!(loaded.inputs(lt), &[(places[0], ArcKind::Peek(1))]);
    assert_eq!(loaded.outputs(lt), &[(places[1], 2)]);
}

#[test]
fn load_skips_arcs_to_missing_places_and_repeated_arcs() {
    let project = ProjectNet {
        places: vec![ProjectPlace { label: "a".to_string(), tokens: 0 }],
        transitions: vec![ProjectTransition {
            label: "t".to_string(),
            inputs: vec![(0, ProjectArcKind::Consume, 2), (5, ProjectArcKind::Peek, 1), (0, ProjectArcKind::Inhibit, 1)],
            outputs: vec![(1, 1), (0, 4), (0, 1)],
        }],
    };
    let (net, places, transitions) = from_project(&project);
    assert_eq!(net.inputs(transitions[0]), &[(places[0], ArcKind::Consume(2))]);
    assert_eq!(net.outputs(transitions[0]), &[(places[0], 4)]);
}

#[test]
fn load_resumes_numbering_past_gaps_left_by_deleted_nodes() {
    let places: Vec<String> = ["p1", "p2", "p4"].iter().map(|s| s.to_string()).collect();
    let transitions: Vec<String> = ["t1", "t2", "t4"].iter().map(|s| s.to_string()).collect();
    assert_eq!(max_numeric_suffix(&places, 'p'), 4);
    assert_eq!(max_numeric_suffix(&transitions, 't'), 4);
}

#[test]
fn numbering_ignores_labels_that_are_not_prefix_and_number() {
    let labels: Vec<String> = ["q9", "p", "px", "p+12", "p007", "p-3", ""].iter().map(|s| s.to_string()).collect();
    assert_eq!(max_numeric_suffix(&labels, 'p'), 12);
    assert_eq!(max_numeric_suffix(&Vec::new(), 'p'), 0);
}

#[test]
fn the_header_frames_and_checks_the_archive() {
    let archive = vec![1u8, 2, 3];
    let bytes = frame(&archive);
    assert_eq!(bytes, vec![b'P', b'C', b'R', b'B', VERSION, 1, 2, 3]);
    assert_eq!(unframe(&bytes), Ok(archive));
    assert_eq!(unframe(&vec![b'P', b'C', b'R']), Err(ProjectError::NotAProject));
    assert_eq!(unframe(&vec![b'X', b'C', b'R', b'B', VERSION]), Err(ProjectError::NotAProject));
    assert_eq!(unframe(&vec![b'P', b'C', b'R', b'B', 2, 9]), Err(ProjectError::UnsupportedVersion(2)));
    assert_eq!(ProjectError::UnsupportedVersion(2).message(), "versión de formato no soportada: 2");
    assert_eq!(ProjectError::NotAProject.message(), "no es un archivo de proyecto de petricrab");
}

#[test]
fn arc_kinds_split_into_tag_and_weight() {
    assert_eq!(ProjectArcKind::from_kind(ArcKind::Inhibit(3)), (ProjectArcKind::Inhibit, 3));
    assert_eq!(ProjectArcKind::Consume.to_kind(5), ArcKind::Consume(5));
}
