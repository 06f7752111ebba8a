//! Place/transition nets with weighted consume, peek and inhibitor arcs: firing,
//! reachability and Karp-Miller coverability graphs, and the classical behavioural
//! analyses (boundedness, liveness, reversibility, deadlocks).
use vstd::prelude::*;

pub mod marking;
pub mod net;
pub mod graph;
pub mod coverability;
pub mod boundedness;
pub mod liveness;
pub mod reach;
pub mod reversibility;
pub mod deadlock;
pub mod model;
pub mod analysis;
pub mod text;
pub mod dsl;
pub mod route;
pub mod simulate;
pub mod editor;
pub mod project;
pub mod panels;
pub mod tutorial;
pub mod history;
pub mod clipboard;
pub mod roundtrip;
pub mod termination;
pub mod fidelity;

pub use marking::{Marking, MarkingFixed};
pub use boundedness::{boundedness_report, Boundedness};
pub use deadlock::{deadlocks, deadlocks_covering};
pub use liveness::{liveness_of, liveness_report, Liveness, LivenessReport};
pub use reversibility::{home_states, is_reversible};
pub use graph::{Graph, GraphView, State};
pub use net::{
    Arc, ArcKind, NetView, PetriNet, PetriNetFixed, Place, PlaceId, Transition, TransitionId, Weight,
};

verus! {

} // verus!
