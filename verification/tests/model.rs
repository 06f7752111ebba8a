use petricrab::model::fire::{enabled_transitions, fire, fire_in, FireError};
use petricrab::model::{ArcError, ArcKind, Marking, PetriNet};

#[test]
fn add_place_and_transition_with_arcs_tracks_tokens_and_marking() {
    let mut net = PetriNet::new();
    let p1 = net.add_place("p1");
    let p2 = net.add_place("p2");
    let t = net.add_transition("t");

    net.add_arc_place_to_transition(p1, t, ArcKind::Consume(2)).unwrap();
    net.add_arc_transition_to_place(t, p2, 1).unwrap();

    net.set_tokens(p1, 5);
    assert_eq!(net.tokens(p1), 5);
    assert_eq!(net.tokens(p2), 0);

    let marking = net.marking();
    assert_eq!(marking.get(&p1), Some(&5));
    assert_eq!(marking.get(&p2), Some(&0));
}

#[test]
fn duplicate_arc_is_rejected() {
    let mut net = PetriNet::new();
    let p = net.add_place("p");
    let t = net.add_transition("t");

    net.add_arc_place_to_transition(p, t, ArcKind::Consume(1)).unwrap();
    let result = net.add_arc_place_to_transition(p, t, ArcKind::Consume(1));
    assert_eq!(result, Err(ArcError::ArcAlreadyExists));
}

#[test]
fn remove_place_clears_dangling_arcs() {
    let mut net = PetriNet::new();
    let p = net.add_place("p");
    let t = net.add_transition("t");
    net.add_arc_place_to_transition(p, t, ArcKind::Consume(1)).unwrap();

    net.remove_place(p);

    assert!(net.inputs(t).is_empty());
}

#[test]
fn remove_arc_deletes_only_matching_arc() {
    let mut net = PetriNet::new();
    let p1 = net.add_place("p1");
    let p2 = net.add_place("p2");
    let t = net.add_transition("t");
    net.add_arc_place_to_transition(p1, t, ArcKind::Consume(1)).unwrap();
    net.add_arc_place_to_transition(p2, t, ArcKind::Consume(1)).unwrap();
    net.add_arc_transition_to_place(t, p1, 1).unwrap();

    net.remove_arc_place_to_transition(p1, t);
    net.remove_arc_transition_to_place(t, p2);

    assert_eq!(net.inputs(t), &[(p2, ArcKind::Consume(1))]);
    assert_eq!(net.outputs(t), &[(p1, 1)]);
}

#[test]
fn set_marking_restores_token_counts() {
    let mut net = PetriNet::new();
    let p1 = net.add_place("p1");
    let p2 = net.add_place("p2");

    let mut m = Marking::new();
    m.insert(p1, 3);
    m.insert(p2, 7);
    net.set_marking(&m);

    assert_eq!(net.tokens(p1), 3);
    assert_eq!(net.tokens(p2), 7);
}

#[test]
fn arcs_to_unknown_nodes_are_rejected() {
    let mut net = PetriNet::new();
    let p = net.add_place("p");
    let t = net.add_transition("t");
    let gone = net.add_place("gone");
    net.remove_place(gone);
    assert_eq!(net.add_arc_place_to_transition(gone, t, ArcKind::Peek(1)), Err(ArcError::UnknownPlace));
    assert_eq!(net.add_arc_transition_to_place(t, gone, 1), Err(ArcError::UnknownPlace));
    let t_gone = net.add_transition("t2");
    net.remove_transition(t_gone);
    assert_eq!(net.add_arc_place_to_transition(p, t_gone, ArcKind::Peek(1)), Err(ArcError::UnknownTransition));
    assert_eq!(net.add_arc_transition_to_place(t_gone, p, 1), Err(ArcError::UnknownTransition));
    assert_eq!(net.tokens(gone), 0);
    assert_eq!(net.place_label(gone), "<removed>");
    assert_eq!(net.transition_label(t_gone), "<removed>");
    assert!(net.outputs(t_gone).is_empty());
}

#[test]
fn labels_and_ids_follow_the_nodes() {
    let mut net = PetriNet::new();
    let a = net.add_place("a");
    let b = net.add_place("b");
    let t = net.add_transition("go");
    assert_eq!(net.place_label(a), "a");
    assert_eq!(net.place_label(b), "b");
    assert_eq!(net.transition_label(t), "go");
    assert_eq!(net.place_ids(), vec![a, b]);
    assert_eq!(net.transition_ids(), vec![t]);
    net.remove_place(a);
    assert_eq!(net.place_ids(), vec![b]);
    let c = net.add_place("c");
    assert_ne!(c, a, "a removed key is not handed out again");
    assert_eq!(net.place_ids().len(), 2);
}

#[test]
fn arc_kind_weight_is_the_carried_weight() {
    assert_eq!(ArcKind::Consume(3).weight(), 3);
    assert_eq!(ArcKind::Peek(1).weight(), 1);
    assert_eq!(ArcKind::Inhibit(7).weight(), 7);
}

#[test]
fn marking_insert_replaces_and_reports_previous() {
    let mut net = PetriNet::new();
    let p = net.add_place("p");
    let q = net.add_place("q");
    let mut m = Marking::new();
    assert_eq!(m.insert(q, 1), None);
    assert_eq!(m.insert(p, 2), None);
    assert_eq!(m.insert(q, 4), Some(1));
    assert_eq!(m.len(), 2);
    assert_eq!(m.entries(), &[(p, 2), (q, 4)]);
    assert_eq!(m.get(&q), Some(&4));
}

#[test]
fn transition_disabled_until_enough_tokens() {
    let mut net = PetriNet::new();
    let p = net.add_place("p");
    let t = net.add_transition("t");
    net.add_arc_place_to_transition(p, t, ArcKind::Consume(2)).unwrap();

    assert!(enabled_transitions(&net, &net.marking()).is_empty());

    net.set_tokens(p, 2);
    assert_eq!(enabled_transitions(&net, &net.marking()), vec![t]);
}

#[test]
fn fire_in_does_not_mutate_original_marking() {
    let mut net = PetriNet::new();
    let p_in = net.add_place("in");
    let p_out = net.add_place("out");
    let t = net.add_transition("t");
    net.add_arc_place_to_transition(p_in, t, ArcKind::Consume(1)).unwrap();
    net.add_arc_transition_to_place(t, p_out, 1).unwrap();
    net.set_tokens(p_in, 1);

    let original = net.marking();
    let next = fire_in(&net, &original, t).unwrap();

    assert_eq!(original.get(&p_in), Some(&1));
    assert_eq!(next.get(&p_in), Some(&0));
    assert_eq!(next.get(&p_out), Some(&1));
}

#[test]
fn fire_mutates_net_marking() {
    let mut net = PetriNet::new();
    let p_in = net.add_place("in");
    let p_out = net.add_place("out");
    let t = net.add_transition("t");
    net.add_arc_place_to_transition(p_in, t, ArcKind::Consume(1)).unwrap();
    net.add_arc_transition_to_place(t, p_out, 1).unwrap();
    net.set_tokens(p_in, 1);

    fire(&mut net, t).unwrap();

    assert_eq!(net.tokens(p_in), 0);
    assert_eq!(net.tokens(p_out), 1);
}

#[test]
fn fire_disabled_transition_errors() {
    let mut net = PetriNet::new();
    let p = net.add_place("p");
    let t = net.add_transition("t");
    net.add_arc_place_to_transition(p, t, ArcKind::Consume(1)).unwrap();

    assert_eq!(fire(&mut net, t), Err(FireError::NotEnabled));
}

#[test]
fn peek_arc_requires_tokens_but_does_not_consume() {
    let mut net = PetriNet::new();
    let guard = net.add_place("guard");
    let t = net.add_transition("t");
    net.add_arc_place_to_transition(guard, t, ArcKind::Peek(1)).unwrap();
    net.set_tokens(guard, 1);

    fire(&mut net, t).unwrap();

    assert_eq!(net.tokens(guard), 1);
}

#[test]
fn inhibit_arc_blocks_when_tokens_present() {
    let mut net = PetriNet::new();
    let guard = net.add_place("guard");
    let t = net.add_transition("t");
    net.add_arc_place_to_transition(guard, t, ArcKind::Inhibit(1)).unwrap();

    assert_eq!(enabled_transitions(&net, &net.marking()), vec![t]);

    net.set_tokens(guard, 1);
    assert!(enabled_transitions(&net, &net.marking()).is_empty());
}

#[test]
fn fire_in_adds_entries_only_for_consumed_and_produced_places() {
    let mut net = PetriNet::new();
    let a = net.add_place("a");
    let b = net.add_place("b");
    let c = net.add_place("c");
    let t = net.add_transition("t");
    net.add_arc_place_to_transition(a, t, ArcKind::Consume(2)).unwrap();
    net.add_arc_place_to_transition(b, t, ArcKind::Peek(1)).unwrap();
    net.add_arc_transition_to_place(t, c, 5).unwrap();
    let mut m = Marking::new();
    m.insert(a, 3);
    m.insert(b, 1);
    let next = fire_in(&net, &m, t).unwrap();
    assert_eq!(next.get(&a), Some(&1));
    assert_eq!(next.get(&b), Some(&1));
    assert_eq!(next.get(&c), Some(&5));
    let mut empty = Marking::new();
    empty.insert(a, 3);
    assert_eq!(fire_in(&net, &empty, t), Err(FireError::NotEnabled));
}

#[test]
fn labels_can_be_edited_in_place() {
    let mut net = PetriNet::new();
    let p = net.add_place("p");
    let t = net.add_transition("t");
    net.add_arc_place_to_transition(p, t, ArcKind::Consume(1)).unwrap();
    if let Some(label) = net.place_label_mut(p) {
        label.push_str("_in");
    }
    *net.transition_label_mut(t).unwrap() = String::from("fire");
    assert_eq!(net.place_label(p), "p_in");
    assert_eq!(net.transition_label(t), "fire");
    assert_eq!(net.inputs(t), &[(p, ArcKind::Consume(1))]);
    net.remove_place(p);
    assert!(net.place_label_mut(p).is_none());
}
