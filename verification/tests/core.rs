use std::collections::BTreeSet;

use petricrab::boundedness::{boundedness_report, Boundedness};
use petricrab::coverability::{coverability_graph, fire, is_enabled, ExtendedMarking, ExtendedToken};
use petricrab::deadlock::{deadlocks, deadlocks_covering};
use petricrab::liveness::{can_reach, liveness_of, liveness_report, transitions_in_cycle, Liveness};
use petricrab::marking::Marking;
use petricrab::net::{Arc, ArcKind, PetriNet, PlaceId, TransitionId, Weight};
use petricrab::reversibility::{home_states, is_reversible};

fn two_cycle() -> (PetriNet, PlaceId, PlaceId, TransitionId, TransitionId) {
    let mut net = PetriNet::default();
    let p1 = net.add_place();
    let p2 = net.add_place();

    let mut t1_arcs = Arc::default();
    t1_arcs
        .add_input(p1, ArcKind::Consume(Weight(1)))
        .add_output(p2, Weight(1));
    let t1 = net.add_transition(t1_arcs);

    let mut t2_arcs = Arc::default();
    t2_arcs
        .add_input(p2, ArcKind::Consume(Weight(1)))
        .add_output(p1, Weight(1));
    let t2 = net.add_transition(t2_arcs);
    (net, p1, p2, t1, t2)
}

fn h2o() -> (PetriNet, PlaceId, PlaceId, PlaceId, TransitionId) {
    let mut net = PetriNet::default();
    let h = net.add_place();
    let o = net.add_place();
    let h2o = net.add_place();

    let mut arcs = Arc::default();
    arcs.add_input(h, ArcKind::Consume(Weight(2)))
        .add_input(o, ArcKind::Consume(Weight(1)))
        .add_output(h2o, Weight(1));
    let reaction = net.add_transition(arcs);
    (net, h, o, h2o, reaction)
}

/// p1 branches: t_dead into a dead end (p4), t_start into a p2<->p3 cycle (t2/t3).
fn branching() -> (PetriNet, [TransitionId; 4]) {
    let mut net = PetriNet::default();
    let p1 = net.add_place();
    let p2 = net.add_place();
    let p3 = net.add_place();
    let p4 = net.add_place();

    let mut t_dead_arcs = Arc::default();
    t_dead_arcs
        .add_input(p1, ArcKind::Consume(Weight(1)))
        .add_output(p4, Weight(1));
    let t_dead = net.add_transition(t_dead_arcs);

    let mut t_start_arcs = Arc::default();
    t_start_arcs
        .add_input(p1, ArcKind::Consume(Weight(1)))
        .add_output(p2, Weight(1));
    let t_start = net.add_transition(t_start_arcs);

    let mut t2_arcs = Arc::default();
    t2_arcs
        .add_input(p2, ArcKind::Consume(Weight(1)))
        .add_output(p3, Weight(1));
    let t2 = net.add_transition(t2_arcs);

    let mut t3_arcs = Arc::default();
    t3_arcs
        .add_input(p3, ArcKind::Consume(Weight(1)))
        .add_output(p2, Weight(1));
    let t3 = net.add_transition(t3_arcs);
    (net, [t_dead, t_start, t2, t3])
}

// ---- net ----

#[test]
fn make_h2o() {
    let (net, h, o, h2o, reaction) = h2o();
    let mut marking = net.initial_marking(vec![2, 2, 0]);

    println!("Initial marking: {marking:?}");

    let transition = &net.transition(reaction);
    assert!(transition.is_enabled(&marking));
    assert!(transition.fire(&mut marking));

    println!("Marking after firing: {marking:?}");

    assert_eq!(marking.tokens(h), 0);
    assert_eq!(marking.tokens(o), 1);
    assert_eq!(marking.tokens(h2o), 1);
}

#[test]
fn test_reachable_markings_cycle() {
    let (net, _, _, t1, t2) = two_cycle();
    let m0 = net.initial_marking(vec![1, 0]);
    let m1 = Marking::new(vec![0, 1]);

    let graph = net.reachable_markings(&m0);

    assert_eq!(graph.len(), 2, "should not loop forever on a cycle");
    assert_eq!(graph.get(&m0).unwrap(), &vec![(t1, m1.clone())]);
    assert_eq!(graph.get(&m1).unwrap(), &vec![(t2, m0.clone())]);
}

#[test]
fn test_transition_not_enabled() {
    let mut net = PetriNet::default();
    let p1 = net.add_place();
    let p2 = net.add_place();
    let mut t1_arcs = Arc::default();
    t1_arcs
        .add_input(p1, ArcKind::Consume(Weight(2)))
        .add_output(p2, Weight(1));
    let t1_id = net.add_transition(t1_arcs);

    let mut marking = net.initial_marking(vec![1, 0]);

    let t1 = net.transition(t1_id);
    assert!(!t1.is_enabled(&marking));
    assert!(!t1.fire(&mut marking));
    assert_eq!(marking, Marking::new(vec![1, 0]));
}

#[test]
fn peek_needs_a_token_and_keeps_it() {
    let mut net = PetriNet::default();
    let guard = net.add_place();
    let out = net.add_place();
    let mut arcs = Arc::default();
    arcs.add_input(guard, ArcKind::Peek).add_output(out, Weight(1));
    let t = net.add_transition(arcs);

    let mut empty = net.initial_marking(vec![0, 0]);
    assert!(!net.transition(t).fire(&mut empty));
    let mut m = net.initial_marking(vec![1, 0]);
    assert!(net.transition(t).fire(&mut m));
    assert_eq!(m, Marking::new(vec![1, 1]));
}

#[test]
fn inhibitor_blocks_while_its_place_holds_tokens() {
    let mut net = PetriNet::default();
    let guard = net.add_place();
    let out = net.add_place();
    let mut arcs = Arc::default();
    arcs.add_input(guard, ArcKind::Inhibit).add_output(out, Weight(2));
    let t = net.add_transition(arcs);

    let mut blocked = net.initial_marking(vec![3, 0]);
    assert!(!net.transition(t).is_enabled(&blocked));
    assert!(!net.transition(t).fire(&mut blocked));
    let mut m = net.initial_marking(vec![0, 0]);
    assert!(net.transition(t).fire(&mut m));
    assert_eq!(m, Marking::new(vec![0, 2]));
}

#[test]
fn enabled_transitions_lists_ids_in_order() {
    let (net, _, _, t1, t2) = two_cycle();
    assert_eq!(net.enabled_transitions(&Marking::new(vec![1, 0])), vec![t1]);
    assert_eq!(net.enabled_transitions(&Marking::new(vec![0, 1])), vec![t2]);
    assert_eq!(net.enabled_transitions(&Marking::new(vec![1, 1])), vec![t1, t2]);
    assert_eq!(net.enabled_transitions(&Marking::new(vec![0, 0])), vec![]);
}

#[test]
fn ids_count_places_and_transitions() {
    let (net, p1, p2, t1, t2) = two_cycle();
    assert_eq!(net.place_ids(), vec![p1, p2]);
    assert_eq!(net.transition_ids(), vec![t1, t2]);
    assert_eq!(p1, PlaceId(0));
    assert_eq!(t2, TransitionId(1));
}

#[test]
fn arcs_keep_one_entry_per_place_in_place_order() {
    let mut arcs = Arc::default();
    arcs.add_input(PlaceId(3), ArcKind::Peek)
        .add_input(PlaceId(1), ArcKind::Consume(Weight(2)))
        .add_input(PlaceId(3), ArcKind::Inhibit);
    assert_eq!(arcs.inputs(), &vec![(PlaceId(1), ArcKind::Consume(Weight(2))), (PlaceId(3), ArcKind::Inhibit)]);
    arcs.add_output_inplace(PlaceId(2), Weight(5));
    arcs.add_output_inplace(PlaceId(0), Weight(1));
    assert_eq!(arcs.output(), &vec![(PlaceId(0), Weight(1)), (PlaceId(2), Weight(5))]);
}

#[test]
fn source_and_sink_transitions() {
    let mut arcs = Arc::default();
    arcs.add_output(PlaceId(0), Weight(1));
    let source = petricrab::net::Transition::from_arcs(arcs);
    assert!(source.is_source());
    assert!(!source.is_sink());
    let empty = petricrab::net::Transition::new();
    assert!(empty.is_source() && empty.is_sink());
}

// ---- coverability ----

#[test]
fn check_ord() {
    assert!(ExtendedToken::Finite(1) < ExtendedToken::Finite(2));
    assert!(ExtendedToken::Finite(1) < ExtendedToken::Omega);
    assert!(ExtendedToken::Finite(999) < ExtendedToken::Omega);
    assert!(ExtendedToken::Finite(2) > ExtendedToken::Finite(1));
    assert!(ExtendedToken::Omega > ExtendedToken::Finite(1));
    assert!(ExtendedToken::Omega > ExtendedToken::Finite(1_000_000));
}

#[test]
fn check_ops() {
    assert_eq!(ExtendedToken::Finite(1) + ExtendedToken::Finite(2), ExtendedToken::Finite(3));
    assert_eq!(ExtendedToken::Finite(1) + ExtendedToken::Omega, ExtendedToken::Omega);
    assert_eq!(ExtendedToken::Omega + ExtendedToken::Finite(1), ExtendedToken::Omega);
    assert_eq!(ExtendedToken::Finite(1) - ExtendedToken::Finite(2), ExtendedToken::Finite(0));
    assert_eq!(ExtendedToken::Finite(1) - ExtendedToken::Omega, ExtendedToken::Omega);
    assert_eq!(ExtendedToken::Omega - ExtendedToken::Finite(1), ExtendedToken::Omega);
}

#[test]
fn test_dominates() {
    let a = ExtendedMarking::new(vec![ExtendedToken::Finite(1), ExtendedToken::Omega]);
    let b = ExtendedMarking::new(vec![ExtendedToken::Finite(1), ExtendedToken::Finite(2)]);
    assert!(a.dominates(&b));

    let c = ExtendedMarking::new(vec![ExtendedToken::Finite(2), ExtendedToken::Omega]);
    let d = ExtendedMarking::new(vec![ExtendedToken::Finite(1), ExtendedToken::Finite(2)]);
    assert!(!d.dominates(&c));

    let e = ExtendedMarking::new(vec![ExtendedToken::Omega, ExtendedToken::Omega, ExtendedToken::Finite(3)]);
    let f = ExtendedMarking::new(vec![ExtendedToken::Omega, ExtendedToken::Omega, ExtendedToken::Finite(1)]);
    assert!(e.dominates(&f));
}

#[test]
fn test_fire_keeps_omega_and_produces_output() {
    let h = PlaceId(0);
    let o = PlaceId(1);
    let h2o = PlaceId(2);

    let mut arcs = Arc::default();
    arcs.add_input(h, ArcKind::Consume(Weight(2)))
        .add_input(o, ArcKind::Consume(Weight(1)))
        .add_output(h2o, Weight(1));

    let mut marking = ExtendedMarking::new(vec![ExtendedToken::Omega, ExtendedToken::Finite(2), ExtendedToken::Finite(0)]);

    assert!(is_enabled(&marking, &arcs));
    assert!(fire(&mut marking, &arcs));

    assert_eq!(marking.tokens(h), ExtendedToken::Omega, "omega absorbs consumption");
    assert_eq!(marking.tokens(o), ExtendedToken::Finite(1));
    assert_eq!(marking.tokens(h2o), ExtendedToken::Finite(1), "output must be produced");
}

#[test]
fn test_fire_not_enabled_leaves_marking_untouched() {
    let p1 = PlaceId(0);
    let p2 = PlaceId(1);

    let mut arcs = Arc::default();
    arcs.add_input(p1, ArcKind::Consume(Weight(2))).add_output(p2, Weight(1));

    let mut marking = ExtendedMarking::new(vec![ExtendedToken::Finite(1), ExtendedToken::Finite(0)]);

    assert!(!fire(&mut marking, &arcs));
    assert_eq!(marking.tokens(p1), ExtendedToken::Finite(1));
    assert_eq!(marking.tokens(p2), ExtendedToken::Finite(0));
}

#[test]
fn test_promote_only_strictly_growing_components_become_omega() {
    let ancestor = ExtendedMarking::new(vec![ExtendedToken::Finite(1), ExtendedToken::Finite(3)]);
    let descendant = ExtendedMarking::new(vec![ExtendedToken::Finite(2), ExtendedToken::Finite(3)]);
    assert!(descendant.dominates(&ancestor));

    let promoted = descendant.promote(&ancestor);

    assert_eq!(promoted.tokens(PlaceId(0)), ExtendedToken::Omega, "strictly grew from 1 to 2 -> omega");
    assert_eq!(
        promoted.tokens(PlaceId(1)),
        ExtendedToken::Finite(3),
        "unchanged component stays concrete, not just 'the max'"
    );
}

#[test]
fn test_coverability_graph_terminates_on_unbounded_source() {
    let mut net = PetriNet::default();
    let p1 = net.add_place();

    let mut arcs = Arc::default();
    arcs.add_output(p1, Weight(1));
    net.add_transition(arcs);

    let initial = net.initial_marking(vec![0]);
    let graph = coverability_graph(&net, &initial);

    assert!(
        graph.keys().iter().any(|m| m.tokens(p1) == ExtendedToken::Omega),
        "p1 must be widened to Omega instead of growing without bound"
    );
    assert_eq!(graph.len(), 2, "root [0] plus its widened child [Omega] — nothing else should ever be generated");
}

#[test]
fn test_coverability_graph_bounded_cycle_has_no_omega() {
    let (net, p1, p2, _, _) = two_cycle();
    let initial = net.initial_marking(vec![1, 0]);
    let graph = coverability_graph(&net, &initial);

    assert_eq!(graph.len(), 2, "bounded cycle: only 2 reachable markings");
    assert!(
        graph
            .keys()
            .iter()
            .all(|m| m.tokens(p1) != ExtendedToken::Omega && m.tokens(p2) != ExtendedToken::Omega),
        "a bounded net must never produce Omega"
    );
}

#[test]
fn extended_marking_from_marking_is_finite_everywhere() {
    let m = ExtendedMarking::from_marking(&Marking::new(vec![4, 0]));
    assert_eq!(m.len(), 2);
    assert_eq!(m.tokens(PlaceId(0)), ExtendedToken::Finite(4));
    assert_eq!(m.tokens(PlaceId(1)), ExtendedToken::Finite(0));
}

// ---- boundedness ----

#[test]
fn test_boundedness_report_h2o() {
    let (net, h, o, h2o, _) = h2o();
    let initial = net.initial_marking(vec![2, 2, 0]);
    let report = boundedness_report(&net, &initial);

    assert_eq!(report[h.0], Boundedness::Bounded(2));
    assert_eq!(report[o.0], Boundedness::Bounded(2));
    assert_eq!(report[h2o.0], Boundedness::Bounded(1));
    assert!(!report[h.0].is_safe(), "2 tokens is bounded but not safe");
}

#[test]
fn test_boundedness_report_cycle_is_safe() {
    let (net, p1, p2, _, _) = two_cycle();
    let initial = net.initial_marking(vec![1, 0]);
    let report = boundedness_report(&net, &initial);

    assert_eq!(report[p1.0], Boundedness::Bounded(1));
    assert_eq!(report[p2.0], Boundedness::Bounded(1));
    assert!(report.iter().all(Boundedness::is_safe), "whole net is safe");
}

#[test]
fn test_boundedness_report_source_transition_is_unbounded() {
    let mut net = PetriNet::default();
    let p1 = net.add_place();
    let mut arcs = Arc::default();
    arcs.add_output(p1, Weight(1));
    net.add_transition(arcs);

    let initial = net.initial_marking(vec![0]);
    let report = boundedness_report(&net, &initial);

    assert_eq!(report[p1.0], Boundedness::Unbounded);
    assert!(!report[p1.0].is_safe());
}

#[test]
fn bound_holds_in_every_reachable_marking() {
    let (net, _, _, _, _) = two_cycle();
    let initial = net.initial_marking(vec![3, 0]);
    let report = boundedness_report(&net, &initial);
    let graph = net.reachable_markings(&initial);
    for m in graph.keys() {
        for (p, b) in report.iter().enumerate() {
            match b {
                Boundedness::Bounded(k) => assert!(m.tokens(PlaceId(p)) <= *k),
                Boundedness::Unbounded => panic!("a cycle is bounded"),
            }
        }
    }
    assert_eq!(report, vec![Boundedness::Bounded(3), Boundedness::Bounded(3)]);
}

// ---- liveness ----

#[test]
fn test_can_reach_cycle() {
    let (net, _, _, _, _) = two_cycle();
    let m0 = net.initial_marking(vec![1, 0]);
    let m1 = Marking::new(vec![0, 1]);
    let unreachable = Marking::new(vec![5, 5]);
    let graph = net.reachable_markings(&m0);

    assert!(can_reach(&graph, &m1, &m0), "m1 should reach m0 via t2");
    assert!(can_reach(&graph, &m0, &m0), "self-loop back through the cycle");
    assert!(
        !can_reach(&graph, &m0, &unreachable),
        "must terminate, not stack overflow, when the target is unreachable"
    );
}

#[test]
fn test_transitions_in_cycle_detects_cycle() {
    let (net, _, _, t1, t2) = two_cycle();
    let m0 = net.initial_marking(vec![1, 0]);
    let graph = net.reachable_markings(&m0);

    let in_cycle: BTreeSet<TransitionId> = transitions_in_cycle(&graph).into_iter().collect();

    assert_eq!(in_cycle, BTreeSet::from([t1, t2]));
}

#[test]
fn test_transitions_in_cycle_excludes_dead_end() {
    let mut net = PetriNet::default();
    let p1 = net.add_place();
    let p2 = net.add_place();
    let mut t1_arcs = Arc::default();
    t1_arcs
        .add_input(p1, ArcKind::Consume(Weight(1)))
        .add_output(p2, Weight(1));
    net.add_transition(t1_arcs);

    let m0 = net.initial_marking(vec![1, 0]);
    let graph = net.reachable_markings(&m0);

    let in_cycle = transitions_in_cycle(&graph);

    assert!(in_cycle.is_empty(), "a dead-end transition is not on a cycle");
}

fn starved() -> (PetriNet, TransitionId) {
    let mut net = PetriNet::default();
    let p1 = net.add_place();
    let mut t1_arcs = Arc::default();
    t1_arcs.add_input(p1, ArcKind::Consume(Weight(1)));
    let t1 = net.add_transition(t1_arcs);
    (net, t1)
}

#[test]
fn test_liveness_of_dead() {
    let (net, t1) = starved();
    let m0 = net.initial_marking(vec![0]);
    let graph = net.reachable_markings(&m0);

    let report = liveness_of(&graph, &m0, t1);

    assert_eq!(report.level, Liveness::Dead);
    assert_eq!(report.k, Some(0));
}

#[test]
fn test_liveness_of_potentially_firable_dead_end() {
    let mut net = PetriNet::default();
    let p1 = net.add_place();
    let p2 = net.add_place();
    let mut t1_arcs = Arc::default();
    t1_arcs
        .add_input(p1, ArcKind::Consume(Weight(1)))
        .add_output(p2, Weight(1));
    let t1 = net.add_transition(t1_arcs);

    let m0 = net.initial_marking(vec![1, 0]);
    let graph = net.reachable_markings(&m0);

    let report = liveness_of(&graph, &m0, t1);

    assert_eq!(report.level, Liveness::PotentiallyFirable);
    assert_eq!(
        report.example,
        vec![t1],
        "t1 fires directly from m0, so the shortest witness is a single step"
    );
}

#[test]
fn test_liveness_of_dead_has_no_example() {
    let (net, t1) = starved();
    let m0 = net.initial_marking(vec![0]);
    let graph = net.reachable_markings(&m0);

    assert!(
        liveness_of(&graph, &m0, t1).example.is_empty(),
        "a dead transition has no firing sequence to show"
    );
}

#[test]
fn test_liveness_of_total_on_two_node_cycle() {
    let (net, _, _, t1, t2) = two_cycle();
    let m0 = net.initial_marking(vec![1, 0]);
    let graph = net.reachable_markings(&m0);

    assert_eq!(liveness_of(&graph, &m0, t1).level, Liveness::Total);
    assert_eq!(liveness_of(&graph, &m0, t2).level, Liveness::Total);
}

#[test]
fn test_liveness_of_repeatable_forever_but_not_total() {
    let (net, [_, t_start, t2, _]) = branching();
    let m0 = net.initial_marking(vec![1, 0, 0, 0]);
    let graph = net.reachable_markings(&m0);

    let report = liveness_of(&graph, &m0, t2);

    assert_eq!(report.level, Liveness::RepeatableForever);
    assert_eq!(report.example, vec![t_start, t2], "shortest path from m0 that fires t2: t_start then t2");
}

#[test]
fn test_liveness_report_dead() {
    let (net, t1) = starved();
    let m0 = net.initial_marking(vec![0]);
    let report = liveness_report(&net, &m0);

    assert_eq!(report.len(), 1);
    assert_eq!(report[t1.0].level, Liveness::Dead);
    assert_eq!(report[t1.0].k, Some(0));
}

#[test]
fn test_liveness_report_matches_liveness_of_per_transition() {
    let (net, [t_dead, t_start, t2, t3]) = branching();
    let m0 = net.initial_marking(vec![1, 0, 0, 0]);
    let graph = net.reachable_markings(&m0);
    let report = liveness_report(&net, &m0);

    assert_eq!(report.len(), 4);
    for t in [t_dead, t_start, t2, t3] {
        assert_eq!(
            report[t.0].level,
            liveness_of(&graph, &m0, t).level,
            "liveness_report disagrees with liveness_of for {t:?}"
        );
    }
    assert_eq!(report[t_dead.0].level, Liveness::PotentiallyFirable);
    assert_eq!(report[t_start.0].level, Liveness::PotentiallyFirable);
    assert_eq!(report[t2.0].level, Liveness::RepeatableForever);
    assert_eq!(report[t3.0].level, Liveness::RepeatableForever);
}

#[test]
fn liveness_report_examples_are_shortest_firing_sequences() {
    let (net, [t_dead, t_start, t2, t3]) = branching();
    let m0 = net.initial_marking(vec![1, 0, 0, 0]);
    let report = liveness_report(&net, &m0);
    assert_eq!(report[t_dead.0].example, vec![t_dead]);
    assert_eq!(report[t_start.0].example, vec![t_start]);
    assert_eq!(report[t2.0].example, vec![t_start, t2]);
    assert_eq!(report[t3.0].example, vec![t_start, t2, t3]);
    for r in &report {
        assert_eq!(r.k, None);
    }
}

#[test]
fn liveness_levels_number_zero_to_four() {
    assert_eq!(Liveness::Dead.as_lk(), 0);
    assert_eq!(Liveness::PotentiallyFirable.as_lk(), 1);
    assert_eq!(Liveness::ArbitrarilyRepeatable.as_lk(), 2);
    assert_eq!(Liveness::RepeatableForever.as_lk(), 3);
    assert_eq!(Liveness::Total.as_lk(), 4);
}

// ---- reversibility ----

#[test]
fn test_two_node_cycle_is_reversible_and_every_marking_is_a_home_state() {
    let (net, _, _, _, _) = two_cycle();
    let initial = net.initial_marking(vec![1, 0]);

    assert!(is_reversible(&net, &initial));
    assert_eq!(home_states(&net, &initial).len(), 2, "both markings in a 2-cycle are home states");
}

#[test]
fn test_h2o_is_not_reversible_but_has_a_home_state() {
    let (net, _, _, _, _) = h2o();
    let initial = net.initial_marking(vec![2, 2, 0]);
    let dead_end = Marking::new(vec![0, 1, 1]);

    assert!(!is_reversible(&net, &initial));

    let homes = home_states(&net, &initial);
    assert!(homes.contains(&dead_end), "the dead end is a home state");
    assert!(
        !homes.contains(&initial),
        "M0 is not a home state here — that's exactly why it's not reversible"
    );
}

#[test]
fn reversible_exactly_when_initial_is_home() {
    for (net, m0) in [
        (two_cycle().0, Marking::new(vec![1, 0])),
        (h2o().0, Marking::new(vec![2, 2, 0])),
        (branching().0, Marking::new(vec![1, 0, 0, 0])),
    ] {
        assert_eq!(is_reversible(&net, &m0), home_states(&net, &m0).contains(&m0));
    }
}

// ---- deadlocks ----

#[test]
fn test_deadlocks_finds_dead_end_with_witness_path() {
    let mut net = PetriNet::default();
    let p1 = net.add_place();
    let p2 = net.add_place();
    let p3 = net.add_place();

    let mut t1_arcs = Arc::default();
    t1_arcs
        .add_input(p1, ArcKind::Consume(Weight(1)))
        .add_output(p2, Weight(1));
    let t1 = net.add_transition(t1_arcs);

    let mut t2_arcs = Arc::default();
    t2_arcs
        .add_input(p2, ArcKind::Consume(Weight(1)))
        .add_output(p3, Weight(1));
    let t2 = net.add_transition(t2_arcs);

    let m0 = net.initial_marking(vec![1, 0, 0]);
    let dead_end = Marking::new(vec![0, 0, 1]);

    let found = deadlocks(&net, &m0);

    assert_eq!(found.len(), 1);
    let path = &found.iter().find(|(m, _)| *m == dead_end).unwrap().1;
    assert_eq!(path, &vec![t1, t2]);
}

#[test]
fn test_deadlocks_empty_on_a_cycle() {
    let (net, _, _, _, _) = two_cycle();
    let m0 = net.initial_marking(vec![1, 0]);

    assert!(deadlocks(&net, &m0).is_empty());
}

#[test]
fn test_deadlocks_covering_finds_deadlocks_past_unbounded_growth() {
    let mut net = PetriNet::default();
    let p1 = net.add_place();
    let p2 = net.add_place();

    let mut t_grow_arcs = Arc::default();
    t_grow_arcs
        .add_input(p2, ArcKind::Consume(Weight(1)))
        .add_output(p2, Weight(1))
        .add_output(p1, Weight(1));
    let t_grow = net.add_transition(t_grow_arcs);

    let mut t_drain_arcs = Arc::default();
    t_drain_arcs.add_input(p2, ArcKind::Consume(Weight(1)));
    let t_drain = net.add_transition(t_drain_arcs);

    let m0 = net.initial_marking(vec![0, 1]);

    let found = deadlocks_covering(&net, &m0);

    assert_eq!(found.len(), 2);
    assert!(found.contains(&vec![t_drain]));
    assert!(found.contains(&vec![t_grow, t_drain]));
}

#[test]
fn deadlock_of_h2o_is_reached_by_one_reaction() {
    let (net, _, _, _, reaction) = h2o();
    let m0 = net.initial_marking(vec![2, 2, 0]);
    let found = deadlocks(&net, &m0);
    assert_eq!(found, vec![(Marking::new(vec![0, 1, 1]), vec![reaction])]);
}

#[test]
fn deadlock_witness_takes_the_short_way_round() {
    // p0 -> p3 directly, or p0 -> p1 -> p2 -> p3 the long way; p3 is a dead end.
    let mut net = PetriNet::default();
    let p: Vec<PlaceId> = (0..4).map(|_| net.add_place()).collect();
    let mut step = |from: usize, to: usize| {
        let mut arcs = Arc::default();
        arcs.add_input(p[from], ArcKind::Consume(Weight(1))).add_output(p[to], Weight(1));
        net.add_transition(arcs)
    };
    let long_a = step(0, 1);
    let _long_b = step(1, 2);
    let _long_c = step(2, 3);
    let short = step(0, 3);
    let m0 = net.initial_marking(vec![1, 0, 0, 0]);
    let found = deadlocks(&net, &m0);
    assert_eq!(found.len(), 1);
    assert_eq!(found[0].0, Marking::new(vec![0, 0, 0, 1]));
    assert_eq!(found[0].1, vec![short]);
    let report = liveness_report(&net, &m0);
    assert_eq!(report[long_a.0].example, vec![long_a]);
}

#[test]
fn marking_debug_text_lists_only_marked_places() {
    assert_eq!(Marking::new(vec![2, 0, 1]).debug_text(), "M{p0: 2, p2: 1}");
    assert_eq!(Marking::new(vec![0, 0]).debug_text(), "M{}");
    assert_eq!(Marking::new(vec![0, 12]).debug_text(), "M{p1: 12}");
}

#[test]
fn a_source_transition_is_enabled_in_a_marking_without_its_output_places() {
    let mut arcs = Arc::default();
    arcs.add_output(PlaceId(3), Weight(1));
    let source = petricrab::net::Transition::from_arcs(arcs.clone());
    assert!(source.is_enabled(&Marking::new(vec![])));
    assert!(is_enabled(&ExtendedMarking::new(vec![]), &arcs));
}

#[test]
fn adding_tokens_keeps_a_transition_enabled() {
    let mut arcs = Arc::default();
    arcs.add_input(PlaceId(0), ArcKind::Consume(Weight(2)))
        .add_input(PlaceId(1), ArcKind::Peek)
        .add_output(PlaceId(2), Weight(1));
    let t = petricrab::net::Transition::from_arcs(arcs);
    assert!(t.is_enabled(&Marking::new(vec![2, 1])));
    assert!(t.is_enabled(&Marking::new(vec![5, 3])));
    assert!(!t.is_enabled(&Marking::new(vec![1, 3])));
}

#[test]
fn deadlocks_come_in_the_order_of_markings() {
    let mut net = PetriNet::default();
    let p0 = net.add_place();
    let p1 = net.add_place();
    let p2 = net.add_place();
    let mut to_p1 = Arc::default();
    to_p1.add_input(p0, ArcKind::Consume(Weight(1))).add_output(p1, Weight(1));
    let t1 = net.add_transition(to_p1);
    let mut to_p2 = Arc::default();
    to_p2.add_input(p0, ArcKind::Consume(Weight(1))).add_output(p2, Weight(1));
    let t2 = net.add_transition(to_p2);
    let m0 = net.initial_marking(vec![1, 0, 0]);
    let found = deadlocks(&net, &m0);
    assert_eq!(found.len(), 2);
    assert_eq!(found[0], (Marking::new(vec![0, 0, 1]), vec![t2]));
    assert_eq!(found[1], (Marking::new(vec![0, 1, 0]), vec![t1]));
}

#[test]
fn home_states_come_in_the_order_of_markings() {
    let (net, _, _, _, _) = two_cycle();
    let m0 = net.initial_marking(vec![1, 0]);
    let homes = home_states(&net, &m0);
    assert_eq!(homes, vec![Marking::new(vec![0, 1]), Marking::new(vec![1, 0])]);
}

#[test]
fn arcs_built_from_entries_keep_the_last_entry_per_place() {
    let arcs = Arc::new(
        vec![(PlaceId(2), ArcKind::Peek), (PlaceId(0), ArcKind::Consume(Weight(1))), (PlaceId(2), ArcKind::Inhibit)],
        vec![(PlaceId(1), Weight(3)), (PlaceId(1), Weight(4))],
    );
    assert_eq!(arcs.inputs(), &vec![(PlaceId(0), ArcKind::Consume(Weight(1))), (PlaceId(2), ArcKind::Inhibit)]);
    assert_eq!(arcs.output(), &vec![(PlaceId(1), Weight(4))]);
}
