//! Change propagation over the blend graph.
//!
//! Performs no rendering itself; it computes, from a description of the
//! edits, which cached renders went stale. Compositing propagates upward
//! only, so a change dirties the changed element and every ancestor whose
//! cached composite includes it.

use vstd::prelude::*;

use crate::graph::{AnyID, BlendGraph, LeafID, NodeID};

verus! {

/// One edit, described for the change tracker.
#[derive(Clone, Copy, PartialEq, Eq, Structural, Debug)]
pub enum Changes {
    /// An element's blend or identity changed, passthrough flips
    /// included.
    BlendChanged(AnyID),
    /// A leaf's contents changed (not its blend).
    LeafChanged(LeafID),
}

impl Changes {
    /// The element the change speaks of.
    pub fn any_id(&self) -> (r: AnyID)
        ensures
            r == spec_change_id(*self),
    {
        match self {
            Self::BlendChanged(any) => *any,
            Self::LeafChanged(leaf) => AnyID::Leaf(*leaf),
        }
    }
}

/// The element a change speaks of.
pub open spec fn spec_change_id(c: Changes) -> AnyID {
    match c {
        Changes::BlendChanged(any) => any,
        Changes::LeafChanged(leaf) => AnyID::Leaf(leaf),
    }
}

/// What one change dirties: nothing if its element is gone from the
/// graph, else the element itself and all of its ancestors below the
/// implicit root.
pub open spec fn spec_dirtied_one(g: BlendGraph, c: Changes) -> Set<AnyID> {
    let id = spec_change_id(c);
    if g.contains_any(id) {
        Set::new(
            |a: AnyID|
                a == id || exists|k: int|
                    0 <= k < g.ancestors_of(id.spec_index()).len() && a == g.any_of(
                        #[trigger] g.ancestors_of(id.spec_index())[k],
                    ),
        )
    } else {
        Set::empty()
    }
}

/// Everything a batch of changes dirties.
pub open spec fn spec_dirtied(g: BlendGraph, changes: Seq<Changes>) -> Set<AnyID>
    decreases changes.len(),
{
    if changes.len() == 0 {
        Set::empty()
    } else {
        spec_dirtied(g, changes.drop_last()).union(spec_dirtied_one(g, changes.last()))
    }
}

/// Does the list hold this handle?
fn contains_id(list: &Vec<AnyID>, x: AnyID) -> (r: bool)
    ensures
        r == list@.contains(x),
{
    let mut k: usize = 0;
    while k < list.len()
        invariant
            k <= list@.len(),
            forall|j: int| 0 <= j < k ==> list@[j] != x,
        decreases list@.len() - k,
    {
        if list[k] == x {
            return true;
        }
        k = k + 1;
    }
    false
}

/// Add a handle to the list unless it is already there.
fn push_unique(list: &mut Vec<AnyID>, x: AnyID)
    requires
        old(list)@.no_duplicates(),
    ensures
        final(list)@.no_duplicates(),
        forall|a: AnyID|
            #[trigger] final(list)@.contains(a) <==> (old(list)@.contains(a) || a == x),
{
    if !contains_id(list, x) {
        let ghost pre = list@;
        list.push(x);
        proof {
            assert forall|a: AnyID| #[trigger] list@.contains(a) <==> (pre.contains(a) || a
                == x) by {
                if list@.contains(a) {
                    let k = choose|k: int| 0 <= k < list@.len() && list@[k] == a;
                    if k < pre.len() {
                        assert(pre[k] == a);
                    }
                } else {
                    if pre.contains(a) {
                        let k = choose|k: int| 0 <= k < pre.len() && pre[k] == a;
                        assert(list@[k] == a);
                    }
                    assert(a != x) by {
                        if a == x {
                            assert(list@[pre.len() as int] == x);
                        }
                    }
                }
            }
            assert(list@.no_duplicates()) by {
                assert forall|i: int, j: int|
                    0 <= i < list@.len() && 0 <= j < list@.len() && i != j implies list@[i]
                    != list@[j] by {
                    if i < pre.len() && j < pre.len() {
                    } else if j == pre.len() as int {
                        assert(list@[j] == x);
                        assert(pre[i] == list@[i]);
                        assert(pre.contains(list@[i]) || list@[i] != x) by {
                            assert(pre[i] == pre[i]);
                        }
                    } else {
                        assert(list@[i] == x);
                        assert(pre[j] == list@[j]);
                    }
                }
            }
        }
    } else {
        proof {
            assert forall|a: AnyID| #[trigger] list@.contains(a) <==> (list@.contains(a) || a
                == x) by {}
        }
    }
}

/// The handles dirtied by a batch of changes, in no particular order and
/// each at most once: every changed element that is still in the graph,
/// together with its parents, grandparents and so on up to — excluding —
/// the implicit root. Elements the graph no longer knows are silently
/// skipped.
pub fn dirtied_by(graph: &BlendGraph, changes: &[Changes]) -> (r: Vec<AnyID>)
    requires
        graph.wf(),
    ensures
        r@.no_duplicates(),
        forall|a: AnyID| #[trigger] r@.contains(a) <==> spec_dirtied(*graph, changes@).contains(a),
{
    let mut out: Vec<AnyID> = Vec::new();
    let mut i: usize = 0;
    while i < changes.len()
        invariant
            graph.wf(),
            i <= changes@.len(),
            out@.no_duplicates(),
            forall|a: AnyID|
                #[trigger] out@.contains(a) <==> spec_dirtied(
                    *graph,
                    changes@.subrange(0, i as int),
                ).contains(a),
        decreases changes@.len() - i,
    {
        let change = &changes[i];
        let id = change.any_id();
        let ghost prefix = changes@.subrange(0, i as int);
        let ghost dirt_pre = spec_dirtied(*graph, prefix);
        proof {
            assert(changes@.subrange(0, i + 1).drop_last() =~= prefix);
            assert(changes@.subrange(0, i + 1).last() == changes@[i as int]);
        }
        if graph.contains(id) {
            push_unique(&mut out, id);
            let raw = id.into_raw();
            let anc = graph.ancestors(raw);
            let ghost m = anc@.map_values(|x: usize| x as int);
            proof {
                graph.lemma_ancestors_nodes(raw as int);
            }
            let mut k: usize = 0;
            while k < anc.len()
                invariant
                    graph.wf(),
                    out@.no_duplicates(),
                    m == anc@.map_values(|x: usize| x as int),
                    m == graph.ancestors_of(id.spec_index()),
                    graph.contains_any(id),
                    forall|j: int| 0 <= j < m.len() ==> graph.is_node(#[trigger] m[j]),
                    k <= anc@.len(),
                    forall|a: AnyID|
                        #[trigger] out@.contains(a) <==> (dirt_pre.contains(a) || a == id
                            || exists|j: int| 0 <= j < k && a == graph.any_of(#[trigger] m[j])),
                decreases anc@.len() - k,
            {
                let c = anc[k];
                proof {
                    assert(m[k as int] == c as int);
                    assert(graph.is_node(c as int));
                    assert(graph.any_of(c as int) == AnyID::Node(NodeID(c)));
                }
                let ghost out_pre = out@;
                push_unique(&mut out, AnyID::Node(NodeID(c)));
                k = k + 1;
                proof {
                    let kk = k - 1;
                    assert forall|a: AnyID| #[trigger] out@.contains(a) <==> (dirt_pre.contains(a)
                        || a == id || exists|j: int|
                        0 <= j < k && a == graph.any_of(#[trigger] m[j])) by {
                        if out@.contains(a) {
                            if out_pre.contains(a) {
                                if !(dirt_pre.contains(a) || a == id) {
                                    let j = choose|j: int|
                                        0 <= j < kk && a == graph.any_of(#[trigger] m[j]);
                                    assert(0 <= j < k && a == graph.any_of(m[j]));
                                }
                            } else {
                                assert(a == AnyID::Node(NodeID(c)));
                                assert(a == graph.any_of(m[kk]));
                            }
                        } else {
                            assert(!out_pre.contains(a));
                            if dirt_pre.contains(a) || a == id {
                                assert(out_pre.contains(a));
                            }
                            if exists|j: int| 0 <= j < k && a == graph.any_of(#[trigger] m[j]) {
                                let j = choose|j: int|
                                    0 <= j < k && a == graph.any_of(#[trigger] m[j]);
                                if j < kk {
                                    assert(out_pre.contains(a));
                                } else {
                                    assert(a == graph.any_of(m[kk]));
                                    assert(a == AnyID::Node(NodeID(c)));
                                    assert(out@.contains(a));
                                }
                                assert(false);
                            }
                        }
                    }
                }
            }
            proof {
                let one = spec_dirtied_one(*graph, changes@[i as int]);
                assert(spec_change_id(changes@[i as int]) == id);
                assert forall|a: AnyID| #[trigger] out@.contains(a) <==> spec_dirtied(
                    *graph,
                    changes@.subrange(0, i + 1),
                ).contains(a) by {
                    assert(out@.contains(a) <==> (dirt_pre.contains(a) || a == id || exists|j: int|
                        0 <= j < m.len() && a == graph.any_of(#[trigger] m[j])));
                    assert(one.contains(a) <==> (a == id || exists|j: int|
                        0 <= j < m.len() && a == graph.any_of(#[trigger] m[j])));
                }
            }
        } else {
            proof {
                let one = spec_dirtied_one(*graph, changes@[i as int]);
                assert(one =~= Set::<AnyID>::empty());
                assert forall|a: AnyID| #[trigger] out@.contains(a) <==> spec_dirtied(
                    *graph,
                    changes@.subrange(0, i + 1),
                ).contains(a) by {}
            }
        }
        i = i + 1;
    }
    proof {
        assert(changes@.subrange(0, changes@.len() as int) =~= changes@);
    }
    out
}

/// Everything a batch of changes dirties is a live element of the
/// graph: a changed element enters the set only while it is present,
/// and its ancestors are live nodes. The implicit root has no handle
/// and so is never in the set.
pub proof fn lemma_dirtied_in_graph(g: BlendGraph, changes: Seq<Changes>)
    requires
        g.wf(),
    ensures
        forall|a: AnyID|
            #[trigger] spec_dirtied(g, changes).contains(a) ==> g.contains_any(a),
    decreases changes.len(),
{
    if changes.len() > 0 {
        lemma_dirtied_in_graph(g, changes.drop_last());
        let c = changes.last();
        let id = spec_change_id(c);
        assert forall|a: AnyID| #[trigger] spec_dirtied_one(g, c).contains(a) implies
            g.contains_any(a) by {
            assert(g.contains_any(id));
            if a != id {
                let anc = g.ancestors_of(id.spec_index());
                g.lemma_ancestors_nodes(id.spec_index());
                let k = choose|k: int|
                    0 <= k < g.ancestors_of(id.spec_index()).len() && a == g.any_of(
                        #[trigger] g.ancestors_of(id.spec_index())[k],
                    );
                assert(g.is_node(anc[k]));
                g.lemma_num_slots_bound();
                assert((anc[k] as usize) as int == anc[k]);
                assert(g.contains_any(g.any_of(anc[k])));
            }
        }
        assert forall|a: AnyID| #[trigger] spec_dirtied(g, changes).contains(a) implies
            g.contains_any(a) by {
            if spec_dirtied(g, changes.drop_last()).contains(a) {
            } else {
                assert(spec_dirtied_one(g, c).contains(a));
            }
        }
    }
}

/// A content change on a live leaf always dirties the leaf itself and
/// every one of its ancestors; and everything dirtied is a live element
/// of the graph, so the implicit root — which has no handle — is never
/// in the set.
pub proof fn lemma_leaf_change_dirties_ancestors(g: BlendGraph, l: LeafID)
    requires
        g.wf(),
        g.is_leaf(l.spec_index()),
    ensures
        spec_dirtied(g, seq![Changes::LeafChanged(l)]).contains(AnyID::Leaf(l)),
        forall|k: int|
            0 <= k < g.ancestors_of(l.spec_index()).len() ==> spec_dirtied(
                g,
                seq![Changes::LeafChanged(l)],
            ).contains(g.any_of(#[trigger] g.ancestors_of(l.spec_index())[k])),
        forall|a: AnyID|
            #[trigger] spec_dirtied(g, seq![Changes::LeafChanged(l)]).contains(a)
                ==> g.contains_any(a),
{
    let c = Changes::LeafChanged(l);
    let cs = seq![c];
    assert(cs.drop_last() =~= Seq::<Changes>::empty());
    assert(cs.last() == c);
    assert(spec_dirtied(g, Seq::<Changes>::empty()) =~= Set::<AnyID>::empty());
    assert(spec_dirtied(g, cs) == Set::<AnyID>::empty().union(spec_dirtied_one(g, c)));
    assert(spec_dirtied(g, cs) =~= spec_dirtied_one(g, c));
    let id = AnyID::Leaf(l);
    assert(g.contains_any(id));
    assert(id.spec_index() == l.spec_index());
    g.lemma_ancestors_nodes(l.spec_index());
    let anc = g.ancestors_of(l.spec_index());
    assert forall|k: int| 0 <= k < anc.len() implies spec_dirtied_one(g, c).contains(
        g.any_of(#[trigger] anc[k]),
    ) by {}
    assert forall|a: AnyID| #[trigger] spec_dirtied_one(g, c).contains(a) implies g.contains_any(
        a,
    ) by {
        if a != id {
            assert(exists|k: int|
                0 <= k < g.ancestors_of(id.spec_index()).len() && a == g.any_of(
                    #[trigger] g.ancestors_of(id.spec_index())[k],
                ));
            let k = choose|k: int|
                0 <= k < g.ancestors_of(id.spec_index()).len() && a == g.any_of(
                    #[trigger] g.ancestors_of(id.spec_index())[k],
                );
            assert(g.is_node(anc[k]));
            g.lemma_num_slots_bound();
            assert(0 <= anc[k] <= usize::MAX);
            assert((anc[k] as usize) as int == anc[k]);
            assert(g.contains_any(g.any_of(anc[k])));
        }
    }
}

} // verus!
