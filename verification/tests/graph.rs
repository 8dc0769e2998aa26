//! Tests of the blend graph and the change tracker.

use fuzzpaint::graph::rendering::{dirtied_by, Changes};
use fuzzpaint::graph::{
    AnyID, BlendGraph, ColorBits, LeafID, LeafType, Location, NodeID, NodeType, ReparentError,
    TargetError,
};
use fuzzpaint::state::stroke_collection::StrokeCollectionID;
use fuzzpaint::{Blend, BlendMode};

fn blend() -> Blend {
    Blend { mode: BlendMode::Normal, opacity_bits: 0x3F80_0000, alpha_clip: false }
}

fn solid() -> LeafType {
    LeafType::SolidColor { blend: blend(), source: ColorBits { r: 1, g: 2, b: 3, a: 4 } }
}

fn strokes() -> LeafType {
    LeafType::StrokeLayer { blend: blend(), source: StrokeCollectionID(7) }
}

/// The fixture: root -> GroupA(Blend) -> [LeafX(StrokeLayer),
/// GroupB(Passthrough) -> [LeafY(SolidColor)]].
fn fixture() -> (BlendGraph, NodeID, LeafID, NodeID, LeafID) {
    let mut graph = BlendGraph::new();
    let group_a = graph
        .add_node(Location::IndexIntoRoot(0), NodeType::GroupedBlend(blend()))
        .expect("the root is always a valid destination");
    let leaf_x = graph.add_leaf(Location::IndexIntoNode(group_a, 0), strokes()).unwrap();
    let group_b = graph.add_node(Location::IndexIntoNode(group_a, 1), NodeType::Passthrough).unwrap();
    let leaf_y = graph.add_leaf(Location::IndexIntoNode(group_b, 0), solid()).unwrap();
    (graph, group_a, leaf_x, group_b, leaf_y)
}

/// The ancestor chains of every element: the structure the reparent
/// failure tests re-walk.
fn walk_all(graph: &BlendGraph) -> Vec<(AnyID, Vec<usize>)> {
    graph
        .live_ids()
        .into_iter()
        .map(|id| {
            let raw = match id {
                AnyID::Leaf(l) => l.0,
                AnyID::Node(n) => n.0,
            };
            (id, graph.ancestors(raw))
        })
        .collect()
}

#[test]
fn blend_of_reports_assigned_blends_only() {
    let (mut graph, group_a, leaf_x, group_b, leaf_y) = fixture();
    assert_eq!(graph.blend_of(AnyID::Node(group_a)), Ok(Some(blend())));
    assert_eq!(graph.blend_of(AnyID::Node(group_b)), Ok(None));
    assert_eq!(graph.blend_of(AnyID::Leaf(leaf_x)), Ok(Some(blend())));
    assert_eq!(graph.blend_of(AnyID::Leaf(leaf_y)), Ok(Some(blend())));

    let note = graph.add_leaf(Location::IndexIntoRoot(0), LeafType::Note).unwrap();
    assert_eq!(graph.blend_of(AnyID::Leaf(note)), Ok(None));
}

#[test]
fn unknown_targets_are_reported() {
    let (mut graph, group_a, leaf_x, ..) = fixture();
    let stranger = {
        let (mut g2, a2, ..) = fixture();
        g2.add_leaf(Location::IndexIntoNode(a2, 0), solid()).unwrap()
    };
    assert_eq!(graph.blend_of(AnyID::Leaf(stranger)), Err(TargetError::TargetNotFound));
    assert!(matches!(
        graph.add_leaf(Location::AboveSelection(AnyID::Leaf(stranger)), solid()),
        Err(TargetError::TargetNotFound)
    ));
    // A leaf handle pointing at a node slot is just as unknown.
    assert_eq!(
        graph.blend_of(AnyID::Leaf(LeafID(group_a.0))),
        Err(TargetError::TargetNotFound)
    );
    assert_eq!(
        graph.reparent(AnyID::Leaf(stranger), Location::IndexIntoRoot(0)),
        Err(ReparentError::TargetError(TargetError::TargetNotFound))
    );
    assert_eq!(
        graph.reparent(
            AnyID::Leaf(leaf_x),
            Location::AboveSelection(AnyID::Leaf(stranger)),
        ),
        Err(ReparentError::DestinationNotFound)
    );
}

#[test]
fn reparent_onto_itself_fails_with_would_cycle() {
    let (mut graph, group_a, ..) = fixture();
    let before = walk_all(&graph);
    assert_eq!(
        graph.reparent(AnyID::Node(group_a), Location::IndexIntoNode(group_a, 0)),
        Err(ReparentError::WouldCycle)
    );
    assert_eq!(walk_all(&graph), before);
}

#[test]
fn reparent_onto_a_descendant_fails_with_would_cycle() {
    let (mut graph, group_a, _leaf_x, group_b, _leaf_y) = fixture();
    let before = walk_all(&graph);
    // GroupB is a grandchild of GroupA.
    assert_eq!(
        graph.reparent(AnyID::Node(group_a), Location::IndexIntoNode(group_b, 0)),
        Err(ReparentError::WouldCycle)
    );
    assert_eq!(walk_all(&graph), before);
}

#[test]
fn reparent_moves_an_element_with_its_subtree() {
    let (mut graph, group_a, leaf_x, group_b, leaf_y) = fixture();
    // Move LeafX under GroupB, next to LeafY.
    graph
        .reparent(AnyID::Leaf(leaf_x), Location::IndexIntoNode(group_b, 0))
        .expect("a leaf can always move under a live node");
    assert_eq!(graph.ancestors(leaf_x.0), vec![group_b.0, group_a.0]);
    // Move GroupB (carrying both leaves) to the root.
    graph
        .reparent(AnyID::Node(group_b), Location::IndexIntoRoot(0))
        .expect("a subtree can move to the root");
    assert_eq!(graph.ancestors(group_b.0), Vec::<usize>::new());
    assert_eq!(graph.ancestors(leaf_x.0), vec![group_b.0]);
    assert_eq!(graph.ancestors(leaf_y.0), vec![group_b.0]);
    assert_eq!(graph.ancestors(group_a.0), Vec::<usize>::new());
}

#[test]
fn remove_leaf_forgets_the_handle() {
    let (mut graph, _, leaf_x, ..) = fixture();
    graph.remove_leaf(leaf_x).expect("a live leaf can be removed");
    assert_eq!(graph.blend_of(AnyID::Leaf(leaf_x)), Err(TargetError::TargetNotFound));
    assert_eq!(graph.remove_leaf(leaf_x), Err(TargetError::TargetNotFound));
}

#[test]
fn content_change_dirties_the_leaf_and_its_ancestors() {
    // Scenario: changing LeafY's content dirties LeafY, GroupB and
    // GroupA — compositing propagates upward only — and never the root.
    let (graph, group_a, leaf_x, group_b, leaf_y) = fixture();
    let dirtied = dirtied_by(&graph, &[Changes::LeafChanged(leaf_y)]);
    assert!(dirtied.contains(&AnyID::Leaf(leaf_y)));
    assert!(dirtied.contains(&AnyID::Node(group_a)));
    assert!(dirtied.contains(&AnyID::Node(group_b)));
    assert!(!dirtied.contains(&AnyID::Leaf(leaf_x)));
    assert_eq!(dirtied.len(), 3);
}

#[test]
fn dirtied_set_is_deduplicated_across_changes() {
    let (graph, group_a, leaf_x, _group_b, leaf_y) = fixture();
    let dirtied = dirtied_by(
        &graph,
        &[
            Changes::LeafChanged(leaf_y),
            Changes::LeafChanged(leaf_x),
            Changes::BlendChanged(AnyID::Node(group_a)),
        ],
    );
    // LeafY, GroupB, GroupA, LeafX — GroupA only once.
    assert_eq!(dirtied.len(), 4);
}

#[test]
fn dirtied_by_skips_unknown_elements() {
    let (graph, ..) = fixture();
    let stranger = {
        let (mut g2, a2, ..) = fixture();
        g2.add_leaf(Location::IndexIntoNode(a2, 0), solid()).unwrap()
    };
    let dirtied = dirtied_by(&graph, &[Changes::LeafChanged(stranger)]);
    assert!(dirtied.is_empty());
}

#[test]
fn removed_leaf_no_longer_dirties_anything() {
    let (mut graph, _, leaf_x, ..) = fixture();
    graph.remove_leaf(leaf_x).unwrap();
    let dirtied = dirtied_by(&graph, &[Changes::LeafChanged(leaf_x)]);
    assert!(dirtied.is_empty());
}

#[test]
fn names_are_editable_in_place() {
    let (mut graph, _, leaf_x, ..) = fixture();
    {
        let note = graph.add_leaf(Location::IndexIntoRoot(0), LeafType::Note).unwrap();
        assert_eq!(graph.get(AnyID::Leaf(note)).unwrap().name(), "");
    }
    assert!(graph.get(AnyID::Leaf(leaf_x)).unwrap().leaf().is_some());
    assert!(graph.get(AnyID::Leaf(leaf_x)).unwrap().node().is_none());
    assert!(graph.get(AnyID::Leaf(leaf_x)).unwrap().is_leaf());
    assert!(!graph.get(AnyID::Leaf(leaf_x)).unwrap().is_node());
}

#[test]
fn blend_mut_edits_only_assigned_blends() {
    let mut leaf = solid();
    if let Some(b) = leaf.blend_mut() {
        b.mode = BlendMode::Multiply;
    }
    assert_eq!(leaf.blend().unwrap().mode, BlendMode::Multiply);

    let mut note = LeafType::Note;
    assert!(note.blend_mut().is_none());

    let mut group = NodeType::GroupedBlend(blend());
    if let Some(b) = group.blend_mut() {
        b.alpha_clip = true;
    }
    assert!(group.blend().unwrap().alpha_clip);

    let mut pass = NodeType::Passthrough;
    assert!(pass.blend_mut().is_none());
}

#[test]
fn above_selection_inserts_as_the_upper_sibling() {
    let (mut graph, group_a, leaf_x, group_b, _leaf_y) = fixture();
    let above = graph
        .add_leaf(Location::AboveSelection(AnyID::Leaf(leaf_x)), solid())
        .expect("a live sibling anchors the location");
    assert_eq!(graph.ancestors(above.0), vec![group_a.0]);
    // Stored order is top first: the new leaf sits directly above LeafX.
    assert_eq!(
        graph.children_of(Some(group_a)).unwrap(),
        vec![AnyID::Leaf(above), AnyID::Leaf(leaf_x), AnyID::Node(group_b)]
    );
}

#[test]
fn children_keep_their_stored_order() {
    let (graph, group_a, leaf_x, group_b, leaf_y) = fixture();
    assert_eq!(graph.children_of(None).unwrap(), vec![AnyID::Node(group_a)]);
    assert_eq!(
        graph.children_of(Some(group_a)).unwrap(),
        vec![AnyID::Leaf(leaf_x), AnyID::Node(group_b)]
    );
    assert_eq!(graph.children_of(Some(group_b)).unwrap(), vec![AnyID::Leaf(leaf_y)]);
    // Painting composites bottom to top: the reverse of stored order.
    let mut paint: Vec<AnyID> = graph.children_of(Some(group_a)).unwrap();
    paint.reverse();
    assert_eq!(paint, vec![AnyID::Node(group_b), AnyID::Leaf(leaf_x)]);

    let stranger_node = NodeID(1_000);
    assert_eq!(graph.children_of(Some(stranger_node)), Err(TargetError::TargetNotFound));
}

#[test]
fn set_blend_edits_only_blend_carrying_elements() {
    let (mut graph, group_a, leaf_x, group_b, _leaf_y) = fixture();
    let loud = Blend { mode: BlendMode::Screen, opacity_bits: 0x3F00_0000, alpha_clip: true };

    graph.set_blend(AnyID::Node(group_a), loud).unwrap();
    assert_eq!(graph.blend_of(AnyID::Node(group_a)), Ok(Some(loud)));

    graph.set_blend(AnyID::Leaf(leaf_x), loud).unwrap();
    assert_eq!(graph.blend_of(AnyID::Leaf(leaf_x)), Ok(Some(loud)));

    // A passthrough group has no blend of its own to edit.
    graph.set_blend(AnyID::Node(group_b), loud).unwrap();
    assert_eq!(graph.blend_of(AnyID::Node(group_b)), Ok(None));

    let stranger = {
        let (mut g2, a2, ..) = fixture();
        g2.add_leaf(Location::IndexIntoNode(a2, 0), solid()).unwrap()
    };
    assert_eq!(
        graph.set_blend(AnyID::Leaf(stranger), loud),
        Err(TargetError::TargetNotFound)
    );
}

#[test]
fn set_name_renames_one_element() {
    let (mut graph, group_a, leaf_x, ..) = fixture();
    graph.set_name(AnyID::Leaf(leaf_x), String::from("sketch")).unwrap();
    assert_eq!(graph.get(AnyID::Leaf(leaf_x)).unwrap().name(), "sketch");
    assert_eq!(graph.get(AnyID::Node(group_a)).unwrap().name(), "");
}

#[test]
fn blend_change_dirties_like_a_content_change() {
    let (graph, group_a, _leaf_x, group_b, _leaf_y) = fixture();
    let dirtied = dirtied_by(&graph, &[Changes::BlendChanged(AnyID::Node(group_b))]);
    assert!(dirtied.contains(&AnyID::Node(group_b)));
    assert!(dirtied.contains(&AnyID::Node(group_a)));
    assert_eq!(dirtied.len(), 2);
}
