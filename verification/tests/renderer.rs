//! Tests of the render cache orchestration.

use fuzzpaint::graph::{AnyID, BlendGraph, ColorBits, LeafType, Location, NodeType};
use fuzzpaint::renderer::{GraphRenderCache, RenderData, Renderer};
use fuzzpaint::state::DocumentID;
use fuzzpaint::{Blend, BlendMode};

fn blend() -> Blend {
    Blend { mode: BlendMode::Normal, opacity_bits: 0, alpha_clip: false }
}

fn solid() -> LeafType {
    LeafType::SolidColor { blend: blend(), source: ColorBits { r: 0, g: 0, b: 0, a: 0 } }
}

/// A stand-in for the image backend: mints opaque image handles.
struct Backend {
    next: u64,
}

impl Backend {
    fn allocate(&mut self) -> RenderData {
        self.next += 1;
        RenderData { image: self.next }
    }
}

#[test]
fn reconcile_allocates_for_elements_that_need_images() {
    let mut graph = BlendGraph::new();
    let group = graph.add_node(Location::IndexIntoRoot(0), NodeType::GroupedBlend(blend())).unwrap();
    let pass = graph.add_node(Location::IndexIntoRoot(1), NodeType::Passthrough).unwrap();
    let leaf = graph.add_leaf(Location::IndexIntoNode(group, 0), solid()).unwrap();
    let note = graph.add_leaf(Location::IndexIntoNode(pass, 0), LeafType::Note).unwrap();

    let mut backend = Backend { next: 0 };
    let mut cache = GraphRenderCache::new();
    let missing = cache.ids_needing_images(&graph);
    // The grouped blend and the color leaf need images; the passthrough
    // group and the note do not.
    assert_eq!(missing.len(), 2);
    assert!(missing.contains(&AnyID::Node(group)));
    assert!(missing.contains(&AnyID::Leaf(leaf)));
    assert!(!missing.contains(&AnyID::Node(pass)));
    assert!(!missing.contains(&AnyID::Leaf(note)));

    for id in missing {
        cache.install(id, backend.allocate());
    }
    assert!(cache.ids_needing_images(&graph).is_empty());
    assert!(cache.has(AnyID::Node(group)));
    assert!(cache.has(AnyID::Leaf(leaf)));
}

#[test]
fn prune_evicts_the_entry_of_a_deleted_leaf() {
    // Scenario: delete LeafX, run the reconciliation pass, and its cache
    // entry is gone from the tracked map.
    let mut graph = BlendGraph::new();
    let group = graph.add_node(Location::IndexIntoRoot(0), NodeType::GroupedBlend(blend())).unwrap();
    let leaf_x = graph.add_leaf(Location::IndexIntoNode(group, 0), solid()).unwrap();

    let mut backend = Backend { next: 0 };
    let mut cache = GraphRenderCache::new();
    for id in cache.ids_needing_images(&graph) {
        cache.install(id, backend.allocate());
    }
    assert!(cache.has(AnyID::Leaf(leaf_x)));

    graph.remove_leaf(leaf_x).unwrap();
    cache.prune(&graph);
    assert!(!cache.has(AnyID::Leaf(leaf_x)));
    assert!(cache.has(AnyID::Node(group)), "the group still needs its image");
}

#[test]
fn prune_evicts_entries_that_stopped_needing_images() {
    let mut graph = BlendGraph::new();
    let leaf = graph.add_leaf(Location::IndexIntoRoot(0), solid()).unwrap();
    let mut cache = GraphRenderCache::new();
    cache.install(AnyID::Leaf(leaf), RenderData { image: 1 });
    // Install an entry under a handle nothing in the graph requires.
    cache.install(AnyID::Node(fuzzpaint::graph::NodeID(17)), RenderData { image: 2 });
    cache.prune(&graph);
    assert!(cache.has(AnyID::Leaf(leaf)));
    assert!(!cache.has(AnyID::Node(fuzzpaint::graph::NodeID(17))));
}

#[test]
fn documents_are_tracked_once() {
    let mut renderer = Renderer::new();
    let doc = DocumentID(5);
    assert!(!renderer.is_tracking(doc));
    assert!(renderer.begin_track(doc, RenderData { image: 1 }));
    assert!(renderer.is_tracking(doc));
    assert!(!renderer.begin_track(doc, RenderData { image: 2 }), "already tracked: no re-entry");

    renderer.drop_document(doc);
    assert!(!renderer.is_tracking(doc));
    // Dropping again is harmless.
    renderer.drop_document(doc);
    assert!(!renderer.is_tracking(doc));
}

#[test]
fn resync_evicts_documents_absent_from_the_live_list() {
    let mut renderer = Renderer::new();
    let kept = DocumentID(1);
    let gone = DocumentID(2);
    let never = DocumentID(3);
    renderer.begin_track(kept, RenderData { image: 1 });
    renderer.begin_track(gone, RenderData { image: 2 });

    renderer.retain_documents(&vec![kept, never]);
    assert!(renderer.is_tracking(kept));
    assert!(!renderer.is_tracking(gone));
    assert!(!renderer.is_tracking(never), "a live but never-rendered document stays untracked");
}
