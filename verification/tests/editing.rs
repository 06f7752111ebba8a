use petricrab::clipboard::{copy_nodes, paste, ClipNode};
use petricrab::editor::{
    add_token, arc_end_for_kind, compatible, connect, delete_selection, is_reciprocal, liveness_label, lower_output_weight, mode_icon_and_tooltip,
    raise_output_weight, remove_token, set_input_kind, switch_kind, ArcEnd, ArcKindTag, EditMode, NodeId, NoteId, Selection,
};
use petricrab::history::{History, MAX_UNDO_STEPS};
use petricrab::liveness::Liveness;
use petricrab::model::{ArcKind, Marking, PetriNet, PlaceId, TransitionId};
use petricrab::panels::{dead_end_flags, marking_text, state_space, DslState, PersistedState};
use petricrab::analysis::StateEdge;
use petricrab::route::{RouteModal, RouteStatus};
use petricrab::simulate::Simulation;
use petricrab::tutorial::{single_arc_kind, spotlight, step_body, step_title, TutorialState, TutorialTarget, STEP_COUNT};

fn tokens(net: &PetriNet) -> Vec<u32> {
    net.place_ids().iter().map(|&p| net.tokens(p)).collect()
}

/// p (2 tokens) -> t -> q.
fn line() -> (PetriNet, PlaceId, PlaceId, TransitionId) {
    let mut net = PetriNet::new();
    let p = net.add_place("p");
    let q = net.add_place("q");
    let t = net.add_transition("t");
    net.add_arc_place_to_transition(p, t, ArcKind::Consume(1)).unwrap();
    net.add_arc_transition_to_place(t, q, 1).unwrap();
    net.set_tokens(p, 2);
    (net, p, q, t)
}

#[test]
fn editor_undo_redo_roundtrips_a_checkpointed_change() {
    let mut net = PetriNet::new();
    let mut history: History<PetriNet> = History::new();
    history.checkpoint(net.clone());
    let id = net.add_place("p1");
    assert_eq!(net.place_ids().len(), 1);

    net = history.undo(net).unwrap();
    assert_eq!(net.place_ids().len(), 0);

    net = history.redo(net).unwrap();
    assert_eq!(net.place_ids().len(), 1);
    assert_eq!(net.place_label(id), "p1");
}

#[test]
fn history_undo_redo_roundtrips_a_checkpointed_change() {
    let mut net = PetriNet::new();
    let mut history: History<PetriNet> = History::new();
    history.checkpoint(net.clone());
    let id = net.add_place("p1");
    assert_eq!(net.place_ids().len(), 1);

    net = history.undo(net).unwrap();
    assert_eq!(net.place_ids().len(), 0);

    net = history.redo(net).unwrap();
    assert_eq!(net.place_ids().len(), 1);
    assert_eq!(net.place_label(id), "p1");
}

#[test]
fn history_keeps_at_most_the_last_hundred_snapshots() {
    let mut history: History<usize> = History::new();
    for i in 0..(MAX_UNDO_STEPS + 5) {
        history.checkpoint(i);
    }
    assert_eq!(history.undo_len(), MAX_UNDO_STEPS);
    assert_eq!(history.undo(999), Some(MAX_UNDO_STEPS + 4));
    assert_eq!(history.redo_len(), 1);
    history.checkpoint(7);
    assert_eq!(history.redo_len(), 0);
    let mut empty: History<usize> = History::new();
    assert_eq!(empty.undo(1), None);
    assert_eq!(empty.redo(1), None);
}

#[test]
fn simulation_steps_back_and_forward_through_firings() {
    let (mut net, _, _, t) = line();
    let mut sim = Simulation::new();
    sim.toggle(&net);
    assert!(sim.is_open());
    sim.fire_step(&mut net, t);
    sim.fire_step(&mut net, t);
    assert_eq!(tokens(&net), vec![0, 2]);
    assert_eq!(sim.history_len(), 2);

    sim.step_back(&mut net);
    assert_eq!(tokens(&net), vec![1, 1]);
    sim.step_back(&mut net);
    assert_eq!(tokens(&net), vec![2, 0]);
    sim.step_back(&mut net);
    assert_eq!(tokens(&net), vec![2, 0]);

    sim.step_forward(&mut net);
    assert_eq!(tokens(&net), vec![1, 1]);
    assert_eq!(sim.future_len(), 1);

    sim.fire_step(&mut net, t);
    assert_eq!(tokens(&net), vec![0, 2]);
    assert_eq!(sim.future_len(), 0);

    sim.reset(&mut net);
    assert_eq!(tokens(&net), vec![2, 0]);
    assert_eq!(sim.history_len(), 0);
}

#[test]
fn firing_a_disabled_transition_records_the_marking_but_changes_nothing() {
    let (mut net, p, _, t) = line();
    net.set_tokens(p, 0);
    let mut sim = Simulation::new();
    sim.fire_step(&mut net, t);
    assert_eq!(tokens(&net), vec![0, 0]);
    assert_eq!(sim.history_len(), 1);
}

#[test]
fn route_replay_walks_the_recorded_states() {
    let (mut net, p, q, t) = line();
    let m0 = net.marking();
    let mut m1 = Marking::new();
    m1.insert(p, 1);
    m1.insert(q, 1);
    let mut m2 = Marking::new();
    m2.insert(p, 0);
    m2.insert(q, 2);
    let mut route = RouteModal::new(&net, vec![m0, m1, m2], vec![t, t]);

    assert_eq!(route.route_places(), &vec![p, q]);
    assert_eq!(route.route_transitions(), &vec![t]);
    assert_eq!(route.current_transition(), Some(t));
    assert!(route.visited_transitions().is_empty());
    assert_eq!(route.status(&net), RouteStatus::Fire(t));

    route.step_forward();
    route.step_forward();
    route.step_forward();
    assert_eq!(route.step(), 2);
    assert_eq!(route.current_transition(), None);
    assert_eq!(route.focus_transition(), Some(t));
    assert_eq!(route.visited_transitions(), vec![t]);
    assert_eq!(route.status(&net), RouteStatus::Deadlock);

    net.set_marking(route.current_state().unwrap());
    assert_eq!(tokens(&net), vec![0, 2]);
    route.close(&mut net);
    assert_eq!(tokens(&net), vec![2, 0]);

    route.step_back();
    assert_eq!(route.step(), 1);
    route.restart();
    assert_eq!(route.step(), 0);
}

#[test]
fn a_route_that_cannot_go_on_is_stuck_or_finished() {
    let (net, p, q, t) = line();
    let m0 = net.marking();
    let route = RouteModal::new(&net, vec![m0.clone(), m0.clone()], vec![]);
    assert_eq!(route.status(&net), RouteStatus::Stuck);
    let end = RouteModal::new(&net, vec![m0], vec![]);
    assert_eq!(end.status(&net), RouteStatus::Finished);
    let _ = (p, q, t);
}

#[test]
fn editor_rules_for_arcs_and_nodes() {
    let (mut net, p, q, t) = line();
    assert!(compatible(NodeId::Place(p), NodeId::Transition(t)));
    assert!(compatible(NodeId::Transition(t), NodeId::Place(p)));
    assert!(!compatible(NodeId::Place(p), NodeId::Place(q)));
    assert!(!is_reciprocal(&net, p, t));
    assert!(connect(&mut net, NodeId::Transition(t), NodeId::Place(p)));
    assert!(is_reciprocal(&net, p, t));
    assert!(!connect(&mut net, NodeId::Transition(t), NodeId::Place(p)));
    assert!(!connect(&mut net, NodeId::Place(p), NodeId::Place(q)));
    assert_eq!(net.outputs(t), &[(q, 1), (p, 1)]);

    assert_eq!(arc_end_for_kind(ArcKind::Consume(3)), ArcEnd::Arrow);
    assert_eq!(arc_end_for_kind(ArcKind::Peek(1)), ArcEnd::DoubleArrow);
    assert_eq!(arc_end_for_kind(ArcKind::Inhibit(1)), ArcEnd::Circle);
    assert_eq!(ArcKindTag::from_kind(ArcKind::Peek(4)), ArcKindTag::Peek);
    assert_eq!(ArcKindTag::Inhibit.to_kind(2), ArcKind::Inhibit(2));
    assert_eq!(ArcKindTag::Consume.icon(), "arrow-right");
    assert_eq!(ArcKindTag::Peek.tooltip(), "Peek: requiere tokens pero no los consume");
    assert_eq!(mode_icon_and_tooltip(EditMode::Connect), ("cable", "Conectar arco (C)"));
    assert_eq!(liveness_label(Liveness::Total), "live (L4)");
    assert_eq!(liveness_label(Liveness::Dead), "muerta (L0)");
}

#[test]
fn deleting_a_selection_removes_nodes_with_their_arcs() {
    let (mut net, p, q, t) = line();
    delete_selection(&mut net, &Selection::Note(NoteId(3)));
    delete_selection(&mut net, &Selection::default());
    assert_eq!(net.place_ids().len(), 2);

    delete_selection(&mut net, &Selection::ArcOut(t, q));
    assert!(net.outputs(t).is_empty());
    assert_eq!(net.inputs(t).len(), 1);

    delete_selection(&mut net, &Selection::Nodes(vec![NodeId::Place(p)]));
    assert_eq!(net.place_ids(), vec![q]);
    assert!(net.inputs(t).is_empty());

    delete_selection(&mut net, &Selection::Nodes(vec![NodeId::Transition(t), NodeId::Place(q)]));
    assert!(net.place_ids().is_empty());
    assert!(net.transition_ids().is_empty());
}

#[test]
fn clipboard_copy_paste_duplicates_selection_and_its_internal_arc() {
    let mut net = PetriNet::new();
    let p = net.add_place("p");
    let t = net.add_transition("t");
    net.add_arc_place_to_transition(p, t, ArcKind::Consume(1)).unwrap();
    let selection = vec![NodeId::Place(p), NodeId::Transition(t)];

    let clip = copy_nodes(&net, &selection).unwrap();
    let mapping = paste(&mut net, &clip);

    assert_eq!(net.place_ids().len(), 2);
    assert_eq!(net.transition_ids().len(), 2);
    let new_t = *net.transition_ids().iter().find(|&&x| x != t).unwrap();
    assert_eq!(net.inputs(new_t).len(), 1);
    assert_eq!(mapping.len(), 2);
    assert_eq!(mapping[1], (NodeId::Transition(t), NodeId::Transition(new_t)));
}

#[test]
fn editor_copy_paste_duplicates_selection_and_its_internal_arc() {
    let mut net = PetriNet::new();
    let p = net.add_place("p");
    let t = net.add_transition("t");
    net.add_arc_place_to_transition(p, t, ArcKind::Consume(1)).unwrap();
    let selection = Selection::Nodes(vec![NodeId::Place(p), NodeId::Transition(t)]);

    let nodes = match &selection {
        Selection::Nodes(nodes) => nodes.clone(),
        _ => panic!("a node selection"),
    };
    let clip = copy_nodes(&net, &nodes).unwrap();
    let mapping = paste(&mut net, &clip);
    let pasted = Selection::Nodes(mapping.iter().map(|&(_, new)| new).collect());

    assert_eq!(net.place_ids().len(), 2);
    assert_eq!(net.transition_ids().len(), 2);
    let new_t = *net.transition_ids().iter().find(|&&x| x != t).unwrap();
    assert_eq!(net.inputs(new_t).len(), 1);
    let Selection::Nodes(sel) = &pasted else {
        panic!("paste should leave the new nodes selected")
    };
    assert_eq!(sel.len(), 2);
}

#[test]
fn copying_leaves_out_arcs_to_unselected_nodes() {
    let (mut net, p, q, t) = line();
    let clip = copy_nodes(&net, &vec![NodeId::Transition(t), NodeId::Place(p)]).unwrap();
    assert_eq!(clip.arcs_in, vec![(NodeId::Place(p), NodeId::Transition(t), ArcKind::Consume(1))]);
    assert!(clip.arcs_out.is_empty());
    match &clip.nodes[1].1 {
        ClipNode::Place { label, tokens } => {
            assert_eq!(label, "p");
            assert_eq!(*tokens, 2);
        },
        ClipNode::Transition { .. } => panic!("the second copied node is the place"),
    }
    let mapping = paste(&mut net, &clip);
    let new_p = match mapping[1].1 {
        NodeId::Place(x) => x,
        NodeId::Transition(_) => panic!("a place pastes as a place"),
    };
    assert_eq!(net.tokens(new_p), 2);
    assert_ne!(new_p, q);
    assert!(copy_nodes(&net, &vec![]).is_none());
}

#[test]
fn panels_compute_the_text_view_and_the_state_space() {
    let (net, p, q, t) = line();
    let dsl = DslState::new(&net);
    assert_eq!(dsl.source, "[places]\n<p> tokens=2\n<q>\n\n[transitions]\n<t>: @p -> @q\n");
    assert!(dsl.errors.is_empty());

    let space = state_space(&net, &net.marking());
    assert!(space.warning.is_none());
    assert_eq!(space.graph.nodes.len(), 3);
    assert_eq!(space.is_dead_end, vec![false, false, true]);
    assert_eq!(marking_text(&net, &space.graph.nodes[1]), "p 1, q 1");
    let mut empty = Marking::new();
    empty.insert(p, 0);
    assert_eq!(marking_text(&net, &empty), "(vacío)");

    let edges = vec![StateEdge { from: 1, via: t, to: 0 }];
    assert_eq!(dead_end_flags(&edges, 3), vec![true, false, true]);
    let _ = q;

    let persisted = PersistedState::default();
    assert!(persisted.recent.is_empty());
    assert!(!persisted.light_mode);
}

#[test]
fn tutorial_advances_when_the_net_shows_the_step_done() {
    let mut net = PetriNet::new();
    let mut tutorial = TutorialState::new();
    assert_eq!(tutorial.step(), 0);
    assert!(tutorial.update(&net, false));
    assert_eq!(tutorial.step(), 0);
    let p = net.add_place("p");
    assert!(tutorial.update(&net, false));
    assert_eq!(tutorial.step(), 1);
    let t = net.add_transition("t");
    assert!(tutorial.update(&net, false));
    assert_eq!(tutorial.step(), 2);
    net.add_arc_place_to_transition(p, t, ArcKind::Peek(1)).unwrap();
    assert!(tutorial.update(&net, false));
    assert_eq!(tutorial.step(), 3);
    assert_eq!(single_arc_kind(&net), Some(ArcKind::Peek(1)));
    assert!(tutorial.update(&net, false));
    assert_eq!(tutorial.step(), 3);
    net.remove_arc_place_to_transition(p, t);
    net.add_arc_place_to_transition(p, t, ArcKind::Consume(1)).unwrap();
    assert!(tutorial.update(&net, false));
    assert_eq!(tutorial.step(), 4);
    net.set_tokens(p, 1);
    assert!(tutorial.update(&net, false));
    assert_eq!(tutorial.step(), 5);
    assert!(tutorial.update(&net, false));
    assert_eq!(tutorial.step(), 5);
    net.set_tokens(p, 0);
    assert!(tutorial.update(&net, false));
    assert_eq!(tutorial.step(), 6);
    assert!(tutorial.update(&net, false));
    assert!(!tutorial.update(&net, true));

    tutorial.previous(&net);
    assert_eq!(tutorial.step(), 5);
    assert!(tutorial.next(&net));
    assert!(!tutorial.next(&net));
    assert_eq!(STEP_COUNT, 7);
    assert_eq!(step_title(0), "Agregá un place");
    assert!(step_body(6).contains("Propiedades"));
    assert_eq!(spotlight(EditMode::Select, false, 0), TutorialTarget::Toolbar);
    assert_eq!(spotlight(EditMode::AddPlace, false, 0), TutorialTarget::Canvas);
    assert_eq!(spotlight(EditMode::Select, true, 4), TutorialTarget::Dock);
    assert_eq!(spotlight(EditMode::Select, true, 6), TutorialTarget::ViewMenu);
}

#[test]
fn switching_an_input_arc_keeps_its_weight_only_as_consume() {
    assert_eq!(switch_kind(ArcKind::Consume(3), ArcKindTag::Peek), ArcKind::Peek(1));
    assert_eq!(switch_kind(ArcKind::Peek(1), ArcKindTag::Inhibit), ArcKind::Inhibit(1));
    assert_eq!(switch_kind(ArcKind::Inhibit(0), ArcKindTag::Peek), ArcKind::Peek(0));
    assert_eq!(switch_kind(ArcKind::Inhibit(5), ArcKindTag::Consume), ArcKind::Consume(5));

    let mut net = PetriNet::new();
    let p = net.add_place("p");
    let r = net.add_place("r");
    let t = net.add_transition("t");
    net.add_arc_place_to_transition(p, t, ArcKind::Consume(3)).unwrap();
    net.add_arc_place_to_transition(r, t, ArcKind::Consume(1)).unwrap();
    assert!(set_input_kind(&mut net, p, t, ArcKindTag::Inhibit));
    assert_eq!(net.inputs(t), &[(r, ArcKind::Consume(1)), (p, ArcKind::Inhibit(1))]);
    assert!(set_input_kind(&mut net, p, t, ArcKindTag::Consume));
    assert_eq!(net.inputs(t), &[(r, ArcKind::Consume(1)), (p, ArcKind::Consume(1))]);
    let q = net.add_place("q");
    assert!(!set_input_kind(&mut net, q, t, ArcKindTag::Peek));
    assert_eq!(net.inputs(t).len(), 2);
}

#[test]
fn output_weight_goes_up_to_ninety_nine_and_down_to_one() {
    let (mut net, _p, q, t) = line();
    assert!(raise_output_weight(&mut net, t, q));
    assert_eq!(net.outputs(t), &[(q, 2)]);
    assert!(lower_output_weight(&mut net, t, q));
    assert!(lower_output_weight(&mut net, t, q));
    assert_eq!(net.outputs(t), &[(q, 1)]);
    net.remove_arc_transition_to_place(t, q);
    net.add_arc_transition_to_place(t, q, 98).unwrap();
    assert!(raise_output_weight(&mut net, t, q));
    assert!(raise_output_weight(&mut net, t, q));
    assert_eq!(net.outputs(t), &[(q, 99)]);
    let other = net.add_place("other");
    assert!(!raise_output_weight(&mut net, t, other));
    assert!(!lower_output_weight(&mut net, t, other));
    assert_eq!(net.outputs(t), &[(q, 99)]);
}

#[test]
fn tokens_go_up_by_one_and_down_without_going_below_zero() {
    let (mut net, p, q, _t) = line();
    add_token(&mut net, p);
    assert_eq!(tokens(&net), vec![3, 0]);
    remove_token(&mut net, q);
    assert_eq!(tokens(&net), vec![3, 0]);
    remove_token(&mut net, p);
    assert_eq!(tokens(&net), vec![2, 0]);
    net.set_tokens(p, 0);
    assert_eq!(tokens(&net), vec![0, 0]);
}
