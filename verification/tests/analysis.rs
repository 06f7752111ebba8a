use petricrab::analysis::{analyze, explore, path_to, replay_path, to_analysis_net, to_model_marking, unbounded_places, ExploreError};
use petricrab::boundedness::Boundedness;
use petricrab::liveness::{liveness_report_covering, Liveness};
use petricrab::model::{ArcKind, Marking, PetriNet, PlaceId, TransitionId};
use petricrab::net::{Arc, ArcKind as CoreArcKind, PetriNet as CoreNet, Weight};
use petricrab::reversibility::is_reversible_covering;

/// p1 (one token) -> t1 -> p2 -> t2 -> p1.
fn cycle() -> (PetriNet, PlaceId, PlaceId, TransitionId, TransitionId) {
    let mut net = PetriNet::new();
    let p1 = net.add_place("p1");
    let p2 = net.add_place("p2");
    let t1 = net.add_transition("t1");
    let t2 = net.add_transition("t2");
    net.add_arc_place_to_transition(p1, t1, ArcKind::Consume(1)).unwrap();
    net.add_arc_transition_to_place(t1, p2, 1).unwrap();
    net.add_arc_place_to_transition(p2, t2, ArcKind::Consume(1)).unwrap();
    net.add_arc_transition_to_place(t2, p1, 1).unwrap();
    net.set_tokens(p1, 1);
    (net, p1, p2, t1, t2)
}

/// p (one token) -> t -> q, then nothing.
fn dead_end() -> (PetriNet, PlaceId, PlaceId, TransitionId) {
    let mut net = PetriNet::new();
    let p = net.add_place("p");
    let q = net.add_place("q");
    let t = net.add_transition("t");
    net.add_arc_place_to_transition(p, t, ArcKind::Consume(1)).unwrap();
    net.add_arc_transition_to_place(t, q, 1).unwrap();
    net.set_tokens(p, 1);
    (net, p, q, t)
}

/// A source transition feeding p forever.
fn source() -> (PetriNet, PlaceId, TransitionId) {
    let mut net = PetriNet::new();
    let p = net.add_place("p");
    let t = net.add_transition("gen");
    net.add_arc_transition_to_place(t, p, 1).unwrap();
    (net, p, t)
}

fn tokens(m: &Marking) -> Vec<(PlaceId, u32)> {
    m.entries().to_vec()
}

#[test]
fn explore_enumerates_the_cycle() {
    let (net, p1, p2, t1, t2) = cycle();
    let graph = match explore(&net, &net.marking()) {
        Ok(g) => g,
        Err(_) => panic!("the cycle is bounded"),
    };
    assert_eq!(graph.nodes.len(), 2);
    assert_eq!(tokens(&graph.nodes[0]), vec![(p1, 1), (p2, 0)]);
    assert_eq!(tokens(&graph.nodes[1]), vec![(p1, 0), (p2, 1)]);
    assert_eq!(graph.edges.len(), 2);
    assert_eq!((graph.edges[0].from, graph.edges[0].via, graph.edges[0].to), (0, t1, 1));
    assert_eq!((graph.edges[1].from, graph.edges[1].via, graph.edges[1].to), (1, t2, 0));
}

#[test]
fn explore_refuses_an_unbounded_net_naming_its_places() {
    let (net, p, _) = source();
    match explore(&net, &net.marking()) {
        Err(ExploreError::Unbounded(places)) => assert_eq!(places, vec![p]),
        _ => panic!("a source transition makes p unbounded"),
    }
    assert_eq!(unbounded_places(&net, &net.marking()), vec![p]);
}

#[test]
fn unbounded_places_is_empty_for_a_bounded_net() {
    let (net, ..) = cycle();
    assert!(unbounded_places(&net, &net.marking()).is_empty());
}

#[test]
fn path_to_finds_the_shortest_route_and_its_states() {
    let (net, p1, p2, t1, _) = cycle();
    let start = net.marking();
    let mut target = Marking::new();
    target.insert(p1, 0);
    target.insert(p2, 1);
    let (states, route) = path_to(&net, &start, &target).unwrap();
    assert_eq!(route, vec![t1]);
    assert_eq!(states.len(), 2);
    assert_eq!(tokens(&states[1]), vec![(p1, 0), (p2, 1)]);

    let (states, route) = path_to(&net, &start, &start).unwrap();
    assert!(route.is_empty());
    assert_eq!(states.len(), 1);

    let mut unreachable = Marking::new();
    unreachable.insert(p1, 1);
    unreachable.insert(p2, 1);
    assert!(path_to(&net, &start, &unreachable).is_none());
}

#[test]
fn replay_path_stops_at_the_first_disabled_transition() {
    let (net, p, q, t) = dead_end();
    let states = replay_path(&net, &net.marking(), &[t, t, t]);
    assert_eq!(states.len(), 2);
    assert_eq!(tokens(&states[0]), vec![(p, 1), (q, 0)]);
    assert_eq!(tokens(&states[1]), vec![(p, 0), (q, 1)]);
}

#[test]
fn to_model_marking_gives_back_the_tokens_of_the_analysis_net() {
    let (net, p1, p2, ..) = cycle();
    let a = to_analysis_net(&net, &net.marking());
    assert_eq!(a.place_map, vec![p1, p2]);
    let back = to_model_marking(&a.place_map, &a.initial);
    assert_eq!(tokens(&back), vec![(p1, 1), (p2, 0)]);
}

#[test]
fn analyze_a_live_reversible_cycle() {
    let (net, p1, p2, t1, t2) = cycle();
    let props = analyze(&net, &net.marking());
    assert_eq!(props.boundedness, vec![(p1, Boundedness::Bounded(1)), (p2, Boundedness::Bounded(1))]);
    assert!(props.safe);
    assert!(props.behavior.precise);
    assert!(props.behavior.reversible);
    assert_eq!(props.behavior.liveness.len(), 2);
    assert_eq!(props.behavior.liveness[0].transition, t1);
    assert_eq!(props.behavior.liveness[0].level, Liveness::Total);
    assert_eq!(props.behavior.liveness[0].example, vec![t1]);
    assert_eq!(props.behavior.liveness[1].transition, t2);
    assert_eq!(props.behavior.liveness[1].level, Liveness::Total);
    assert_eq!(props.behavior.liveness[1].example, vec![t1, t2]);
    assert_eq!(props.behavior.home_states.len(), 2);
    assert!(props.behavior.deadlocks.is_empty());
}

#[test]
fn analyze_reports_the_dead_end_with_its_route() {
    let (net, p, q, t) = dead_end();
    let props = analyze(&net, &net.marking());
    assert!(props.behavior.precise);
    assert!(!props.behavior.reversible);
    assert_eq!(props.behavior.liveness[0].level, Liveness::PotentiallyFirable);
    assert_eq!(props.behavior.deadlocks.len(), 1);
    assert_eq!(props.behavior.deadlocks[0].example, vec![t]);
    assert_eq!(props.behavior.deadlocks[0].states.len(), 2);
    assert_eq!(tokens(&props.behavior.deadlocks[0].states[1]), vec![(p, 0), (q, 1)]);
    assert_eq!(props.behavior.home_states.len(), 1);
    assert_eq!(tokens(&props.behavior.home_states[0]), vec![(p, 0), (q, 1)]);
}

#[test]
fn analyze_an_unbounded_net_falls_back_to_the_coverability_graph() {
    let (net, p, t) = source();
    let props = analyze(&net, &net.marking());
    assert_eq!(props.boundedness, vec![(p, Boundedness::Unbounded)]);
    assert!(!props.safe);
    assert!(!props.behavior.precise);
    assert_eq!(props.behavior.liveness[0].transition, t);
    assert_eq!(props.behavior.liveness[0].level, Liveness::Total);
    assert!(props.behavior.deadlocks.is_empty());
    assert!(!props.behavior.reversible);
    assert!(props.behavior.home_states.is_empty());
}

/// A core net with a source transition feeding p0, and p0 -> t1 -> p1.
fn core_source() -> CoreNet {
    let mut net = CoreNet::default();
    let p0 = net.add_place();
    let p1 = net.add_place();
    let mut gen = Arc::default();
    gen.add_output(p0, Weight(1));
    net.add_transition(gen);
    let mut step = Arc::default();
    step.add_input(p0, CoreArcKind::Consume(Weight(1))).add_output(p1, Weight(1));
    net.add_transition(step);
    net
}

#[test]
fn liveness_report_covering_rates_transitions_on_the_coverability_graph() {
    let net = core_source();
    let m0 = net.initial_marking(vec![0, 0]);
    let report = liveness_report_covering(&net, &m0);
    assert_eq!(report.len(), 2);
    assert_eq!(report[0].level, Liveness::Total);
    assert_eq!(report[1].level, Liveness::Total);
    assert_eq!(report[1].example.len(), 2);
}

#[test]
fn is_reversible_covering_needs_the_root_to_be_a_home() {
    let net = core_source();
    let m0 = net.initial_marking(vec![0, 0]);
    assert!(!is_reversible_covering(&net, &m0));

    let mut cycle = CoreNet::default();
    let a = cycle.add_place();
    let b = cycle.add_place();
    let mut ab = Arc::default();
    ab.add_input(a, CoreArcKind::Consume(Weight(1))).add_output(b, Weight(1));
    cycle.add_transition(ab);
    let mut ba = Arc::default();
    ba.add_input(b, CoreArcKind::Consume(Weight(1))).add_output(a, Weight(1));
    cycle.add_transition(ba);
    let m0 = cycle.initial_marking(vec![1, 0]);
    assert!(is_reversible_covering(&cycle, &m0));
}

#[test]
fn analyze_lists_the_dead_ends_of_the_coverability_graph_on_an_unbounded_net() {
    // p0 (one token) -> gen -> p0 + p1 pumps p1; stop takes p0's token and ends everything.
    let mut net = PetriNet::new();
    let p0 = net.add_place("p0");
    let p1 = net.add_place("p1");
    let gen = net.add_transition("gen");
    let stop = net.add_transition("stop");
    net.add_arc_place_to_transition(p0, gen, ArcKind::Consume(1)).unwrap();
    net.add_arc_transition_to_place(gen, p0, 1).unwrap();
    net.add_arc_transition_to_place(gen, p1, 1).unwrap();
    net.add_arc_place_to_transition(p0, stop, ArcKind::Consume(1)).unwrap();
    net.set_tokens(p0, 1);
    let props = analyze(&net, &net.marking());
    assert!(!props.behavior.precise);
    assert_eq!(props.boundedness, vec![(p0, Boundedness::Bounded(1)), (p1, Boundedness::Unbounded)]);
    let mut examples: Vec<Vec<TransitionId>> = props.behavior.deadlocks.iter().map(|d| d.example.clone()).collect();
    examples.sort_by_key(|e| e.len());
    assert_eq!(examples, vec![vec![stop], vec![gen, stop]]);
    for d in &props.behavior.deadlocks {
        assert_eq!(d.states.len(), d.example.len() + 1);
        assert_eq!(tokens(d.states.last().unwrap())[0], (p0, 0));
    }
}
