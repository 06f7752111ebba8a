# petricrab

Place/transition Petri nets with weighted consume, peek and inhibitor arcs,
written in Verus: every public function of the library, and each private one
whose result its callers rely on, carries a contract that the verifier proves;
the few small private helpers without one are still verified free of panics
and overflow.

## Layout

| Path | What it holds |
| --- | --- |
| `src/marking.rs`, `src/net.rs` | The analysis net over plain indices: markings, arcs, the firing rule, runs |
| `src/graph.rs`, `src/reach.rs` | Labelled state graphs, walks, and the reachability graph of a bounded net |
| `src/coverability.rs`, `src/termination.rs` | ω-markings, the Karp-Miller coverability graph, the proof that its construction always ends (König's and Dickson's lemmas), and what it shows: without ω the net is bounded, without inhibitor arcs ω means the counts outgrow `usize` |
| `src/boundedness.rs`, `src/liveness.rs`, `src/reversibility.rs`, `src/deadlock.rs` | Bounds per place, Murata's liveness levels with shortest witnesses, home states, deadlocks with shortest firing sequences |
| `src/model/` | The editable net: places and transitions in slot maps (keys made of a slot index and a version), its markings and firing |
| `src/analysis.rs` | Every analysis of an editable net, read back in its own keys; the state space and shortest routes between markings |
| `src/text.rs`, `src/dsl.rs`, `src/roundtrip.rs` | The text format for nets: the grammar as spec functions, the parser and the writer, and the law that writing then reading gives the net back |
| `src/project.rs` | Project files: the net in file order, the framing header, and the law that saving then loading gives the net back |
| `src/editor.rs`, `src/clipboard.rs`, `src/history.rs`, `src/simulate.rs`, `src/route.rs`, `src/tutorial.rs`, `src/panels.rs` | The editor's decisions: connecting and deleting nodes, switching arc kinds and weights, copy and paste, undo and redo, the token game, replaying a route, the tutorial's steps and what the panels show |
| `tests/` | Tests on concrete nets |
| `app/` | A command-line front end: reading and writing files, project serialisation, canvas layout |

## Outside crates

`slotmap` holds the editable net's places and transitions; the library calls it
through a few trusted wrappers in `src/model/slots.rs`, each with a contract
read off the crate's source. `rkyv` serialises project files in `app/`.
