//! What holds of the canonical text across calls.
use vstd::prelude::*;
use crate::lemmas::lemma_ser_prefix_free;
use crate::model::{NodeView, ser, wf_node};

verus! {

/// Round trip: the only well-formed tree whose canonical text equals that of
/// `t` is `t` itself, so `FTree::from_string` on the output of
/// `FTree::as_string` gives back the same paths, kinds, times and nesting.
pub proof fn lemma_round_trip(t: NodeView, u: NodeView)
    requires
        wf_node(t),
        wf_node(u),
        ser(u) == ser(t),
    ensures
        u == t,
{
    assert(ser(u) + Seq::<char>::empty() =~= ser(t) + Seq::<char>::empty());
    lemma_ser_prefix_free(u, Seq::<char>::empty(), t, Seq::<char>::empty());
}

/// Change detection: two snapshots have the same text exactly when they agree
/// on every path, kind, modification time, child order and nesting. A touched
/// file, an added or removed entry, or a rename all change the text, and an
/// unchanged tree keeps it.
pub proof fn lemma_change_detected(a: NodeView, b: NodeView)
    requires
        wf_node(a),
        wf_node(b),
    ensures
        ser(a) == ser(b) <==> a == b,
{
    if ser(a) == ser(b) {
        lemma_round_trip(a, b);
    }
}

} // verus!
