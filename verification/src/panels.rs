//! What the dockable panels compute: the text view of the net, the
//! properties of the net, and the reachability graph with its dead ends.
use vstd::prelude::*;

use crate::analysis::{analysis_tokens, analysis_view, analyze, explore, ExploreError, NetProperties, StateEdge, StateGraph};
use crate::coverability::{extend, km_fits};
use crate::dsl::{dsl_text, joined, to_dsl, DslError};
use crate::model::fire::fits_everywhere;
use crate::model::{Marking, PetriNet, PlaceId};
use crate::text::decimal;
use crate::model::marking::{key_sorted, lemma_sorted_unique, lookup};
use crate::simulate::snapshot_of;

verus! {

/// The panels the dock can hold.
#[derive(Clone, Copy, PartialEq, Eq, Hash, Debug, Structural)]
pub enum DockTab {
    Reachability,
    Properties,
    Outline,
    Selection,
    Dsl,
    Help,
}

/// The text view of the net: the document being edited and the errors of
/// its last reading.
pub struct DslState {
    pub source: String,
    pub errors: Vec<DslError>,
}

impl DslState {
    /// The document of `net`, with no errors.
    pub fn new(net: &PetriNet) -> (r: Self)
        requires
            net.wf(),
        ensures
            r.source@ == dsl_text(net@),
            r.errors@.len() == 0,
    {
        DslState { source: to_dsl(net), errors: Vec::new() }
    }
}

/// The properties panel: the analysis of the net with its own marking.
pub struct PropertiesState {
    pub props: NetProperties,
}

/// The marking of `v` in key order: each place with its tokens.
pub open spec fn own_marking(v: crate::model::ModelView) -> Seq<(PlaceId, u32)> {
    choose|m: Seq<(PlaceId, u32)>| key_sorted(m) && snapshot_of(v, m)
}

/// The marking a net hands out is its own marking.
proof fn lemma_own_marking(v: crate::model::ModelView, m: Seq<(PlaceId, u32)>)
    requires
        key_sorted(m),
        snapshot_of(v, m),
    ensures
        own_marking(v) == m,
{
    let c = own_marking(v);
    assert(key_sorted(c) && snapshot_of(v, c));
    assert forall|k: u64| #[trigger] lookup(c, k) == lookup(m, k) by {};
    lemma_sorted_unique(c, m);
}

impl PropertiesState {
    /// Analyses `net` from its own marking (see [`analyze`]).
    pub fn compute(net: &PetriNet) -> (r: Self)
        requires
            net.wf(),
            km_fits(analysis_view(net@), extend(analysis_tokens(net@, own_marking(net@)))),
        ensures
            crate::analysis::analysis_holds(net@, own_marking(net@), r.props),
    {
        let m = net.marking();
        let _ = m.len();
        proof {
            lemma_own_marking(net@, m@);
        }
        PropertiesState { props: analyze(net, &m) }
    }
}

/// What the reachability panel shows: the state graph (or just the initial
/// marking when none could be enumerated, with the reason), and which states
/// have no outgoing edge.
pub struct StateSpace {
    pub graph: StateGraph,
    pub warning: Option<ExploreError>,
    pub is_dead_end: Vec<bool>,
}

/// No edge of `edges` leaves state `i`.
pub open spec fn no_edge_from(edges: Seq<StateEdge>, i: int) -> bool {
    forall|e: int| 0 <= e < edges.len() ==> (#[trigger] edges[e]).from != i
}

/// For each of the `n` states, whether no edge of `edges` leaves it.
pub fn dead_end_flags(edges: &Vec<StateEdge>, n: usize) -> (r: Vec<bool>)
    ensures
        r@.len() == n,
        forall|i: int| 0 <= i < n ==> #[trigger] r@[i] == no_edge_from(edges@, i),
{
    let mut r: Vec<bool> = Vec::new();
    let mut i: usize = 0;
    while i < n
        invariant
            i <= n,
            r@.len() == i,
            forall|a: int| 0 <= a < i ==> #[trigger] r@[a] == no_edge_from(edges@, a),
        decreases n - i,
    {
        let mut dead = true;
        let mut e: usize = 0;
        while e < edges.len()
            invariant
                e <= edges@.len(),
                dead == forall|b: int| 0 <= b < e ==> (#[trigger] edges@[b]).from != i,
            decreases edges@.len() - e,
        {
            if edges[e].from == i {
                dead = false;
            }
            e += 1;
        }
        r.push(dead);
        i += 1;
    }
    r
}

/// Explores the state space of `net` from `marking` (see [`explore`]); when
/// it cannot be enumerated, the graph is the initial marking alone and the
/// reason is returned beside it.
pub fn state_space(net: &PetriNet, marking: &Marking) -> (r: StateSpace)
    requires
        net.wf(),
        km_fits(analysis_view(net@), extend(analysis_tokens(net@, marking@))),
        crate::analysis::km_bounded(net@, marking@) ==> fits_everywhere(net@, marking@),
    ensures
        r.warning is None ==> r.graph.nodes@.len() >= 1 && r.graph.nodes@[0]@ == marking@ && forall|m: Seq<(PlaceId, u32)>|
            crate::graph::views(r.graph.nodes@).contains(m) <==> crate::model::fire::model_reachable(net@, marking@, m),
        r.warning is Some ==> r.graph.nodes@.len() == 1 && r.graph.nodes@[0]@ == marking@ && r.graph.edges@.len() == 0,
        crate::analysis::explore_holds(net@, marking@, match r.warning {
            Some(e) => Err::<StateGraph, ExploreError>(e),
            None => Ok(r.graph),
        }),
        r.is_dead_end@.len() == r.graph.nodes@.len(),
        forall|i: int| 0 <= i < r.graph.nodes@.len() ==> #[trigger] r.is_dead_end@[i] == no_edge_from(r.graph.edges@, i),
{
    let (graph, warning) = match explore(net, marking) {
        Ok(g) => (g, None),
        Err(e) => {
            let mut nodes: Vec<Marking> = Vec::new();
            nodes.push(marking.duplicate());
            (StateGraph { nodes, edges: Vec::new() }, Some(e))
        },
    };
    let is_dead_end = dead_end_flags(&graph.edges, graph.nodes.len());
    StateSpace { graph, warning, is_dead_end }
}

/// The entries of a marking with tokens, written `label n`.
pub open spec fn marking_parts(labels: spec_fn(PlaceId) -> Seq<char>, entries: Seq<(PlaceId, u32)>) -> Seq<Seq<char>>
    decreases entries.len(),
{
    if entries.len() == 0 {
        Seq::empty()
    } else {
        let r = marking_parts(labels, entries.drop_last());
        let (p, n) = entries.last();
        if n > 0 {
            r.push(labels(p) + " "@ + decimal(n as nat))
        } else {
            r
        }
    }
}

/// The label `net` shows for place `p`.
pub open spec fn shown_label(v: crate::model::ModelView, p: PlaceId) -> Seq<char> {
    if v.places.dom().contains(p.0) {
        v.places[p.0].label@
    } else {
        "<removed>"@
    }
}

/// A marking as text: `label n` for each place with tokens, in key order,
/// separated by `, `; `(vacío)` when no place has tokens.
pub open spec fn marking_text_of(v: crate::model::ModelView, m: Seq<(PlaceId, u32)>) -> Seq<char> {
    let parts = marking_parts(|p: PlaceId| shown_label(v, p), m);
    if parts.len() == 0 {
        "(vacío)"@
    } else {
        joined(parts)
    }
}

/// The marking `m` as text.
pub fn marking_text(net: &PetriNet, m: &Marking) -> (s: String)
    requires
        net.wf(),
    ensures
        s@ == marking_text_of(net@, m@),
{
    let ghost labels = |p: PlaceId| shown_label(net@, p);
    let entries = m.entries();
    let mut parts: Vec<Vec<char>> = Vec::new();
    let mut i: usize = 0;
    while i < entries.len()
        invariant
            net.wf(),
            labels == (|p: PlaceId| shown_label(net@, p)),
            entries@ == m@,
            i <= entries@.len(),
            crate::dsl::seqs(parts@) == marking_parts(labels, entries@.take(i as int)),
        decreases entries@.len() - i,
    {
        let (p, n) = entries[i];
        assert(entries@.take(i + 1).drop_last() =~= entries@.take(i as int));
        assert(entries@.take(i + 1).last() == (p, n));
        if n > 0 {
            let label = crate::text::chars_of(net.place_label(p));
            let space = crate::text::chars_of(" ");
            let digits = crate::text::decimal_chars(n as u64);
            let a = crate::text::concat(&label, &space);
            let part = crate::text::concat(&a, &digits);
            let ghost before = crate::dsl::seqs(parts@);
            parts.push(part);
            assert(crate::dsl::seqs(parts@) =~= before.push(labels(p) + " "@ + decimal(n as nat)));
        }
        i += 1;
    }
    assert(entries@.take(i as int) =~= entries@);
    if parts.len() == 0 {
        crate::text::string_of(&crate::text::chars_of("(vacío)"))
    } else {
        let joined_parts = crate::dsl::join_items(&parts);
        crate::text::string_of(&joined_parts)
    }
}

/// A file system path (std's `PathBuf`), carried through as it is.
#[verifier::external_type_specification]
#[verifier::external_body]
pub struct ExPathBuf(std::path::PathBuf);

/// What the editor keeps between runs: the recently used files, newest
/// first, and whether the light theme is on.
pub struct PersistedState {
    pub recent: Vec<std::path::PathBuf>,
    pub light_mode: bool,
}

impl Default for PersistedState {
    fn default() -> (r: Self)
        ensures
            r.recent@.len() == 0,
            !r.light_mode,
    {
        PersistedState { recent: Vec::new(), light_mode: false }
    }
}

} // verus!
