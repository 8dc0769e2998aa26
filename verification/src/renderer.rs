//! Render cache orchestration.
//!
//! Per document, the orchestrator keeps a map from blend-graph handles to
//! materialized images and one root composite image. The images
//! themselves belong to an external image backend; the core holds only
//! their opaque handles and decides which entries to allocate, keep and
//! evict. A document is tracked from its first render until its log goes
//! away; on a desync its tracked state is dropped and rebuilt on the next
//! touch, and on a resync every document absent from the authoritative
//! live list is evicted.

use vstd::prelude::*;

use crate::graph::{AnyID, BlendGraph, LeafType, NodeDataTy, NodeType};
use crate::state::DocumentID;

verus! {

/// The cached render of one graph element: an opaque handle to an image
/// target the external image backend allocated. Contents are managed by
/// the backend; the core only keys and stores the handle.
#[derive(Clone, Copy, PartialEq, Eq, Structural, Debug)]
pub struct RenderData {
    /// Backend handle of the materialized image.
    pub image: u64,
}

/// Does this element need a materialized image of its own? Stroke layers
/// and solid colors render to one; grouped blends composite their
/// children into one; passthrough groups and notes have none.
pub open spec fn spec_requires_image(g: BlendGraph, i: int) -> bool {
    g.live(i) && match g.ty_of(i) {
        NodeDataTy::Leaf(LeafType::StrokeLayer { .. }) => true,
        NodeDataTy::Leaf(LeafType::SolidColor { .. }) => true,
        NodeDataTy::Leaf(LeafType::Note) => false,
        NodeDataTy::Node(NodeType::GroupedBlend(..)) => true,
        NodeDataTy::Node(NodeType::Passthrough) => false,
    }
}

/// The per-document map from graph handles to materialized images, keyed
/// by the handle's arena index.
pub struct GraphRenderCache {
    /// One optional entry per arena slot; indices past the end have none.
    entries: Vec<Option<RenderData>>,
}

impl GraphRenderCache {
    /// The entry for arena index `i`, if any.
    pub closed spec fn entry_of(&self, i: int) -> Option<RenderData> {
        if 0 <= i < self.entries@.len() {
            self.entries@[i]
        } else {
            None
        }
    }

    /// Is an image cached for arena index `i`?
    pub open spec fn has_entry(&self, i: int) -> bool {
        self.entry_of(i) is Some
    }

    /// An empty cache: no images yet.
    pub fn new() -> (r: Self)
        ensures
            forall|i: int| !r.has_entry(i),
    {
        GraphRenderCache { entries: Vec::new() }
    }

    /// Does this element need a materialized image of its own?
    fn requires_image(graph: &BlendGraph, id: AnyID) -> (r: bool)
        ensures
            r == (graph.contains_any(id) && spec_requires_image(*graph, id.spec_index())),
    {
        match graph.get(id) {
            None => false,
            Some(data) => {
                match (data.leaf(), data.node()) {
                    (Some(LeafType::StrokeLayer { .. }), _) => true,
                    (Some(LeafType::SolidColor { .. }), _) => true,
                    (Some(LeafType::Note), _) => false,
                    (_, Some(NodeType::GroupedBlend(..))) => true,
                    _ => false,
                }
            },
        }
    }

    /// Evict every entry whose element no longer needs an image or no
    /// longer exists. After the pass an entry is cached exactly for the
    /// elements that need one and already had one.
    pub fn prune(&mut self, graph: &BlendGraph)
        ensures
            forall|i: int|
                final(self).entry_of(i) == (if spec_requires_image(*graph, i) {
                    old(self).entry_of(i)
                } else {
                    None::<RenderData>
                }),
    {
        let ghost pre = *self;
        let mut i: usize = 0;
        let n = self.entries.len();
        while i < n
            invariant
                n == self.entries@.len(),
                i <= n,
                forall|j: int|
                    0 <= j < n ==> old(self).entry_of(j) == (#[trigger] pre.entries@[j]),
                forall|j: int|
                    i <= j < n ==> (#[trigger] self.entries@[j]) == pre.entries@[j],
                forall|j: int|
                    0 <= j < i ==> (#[trigger] self.entries@[j]) == (if spec_requires_image(
                        *graph,
                        j,
                    ) {
                        pre.entries@[j]
                    } else {
                        None::<RenderData>
                    }),
            decreases n - i,
        {
            let keep_leaf = Self::requires_image(graph, AnyID::Leaf(crate::graph::LeafID(i)));
            let keep_node = Self::requires_image(graph, AnyID::Node(crate::graph::NodeID(i)));
            if !keep_leaf && !keep_node {
                self.entries[i] = None;
            }
            proof {
                assert(spec_requires_image(*graph, i as int) == (keep_leaf || keep_node)) by {
                    assert(AnyID::Leaf(crate::graph::LeafID(i)).spec_index() == i as int);
                    assert(AnyID::Node(crate::graph::NodeID(i)).spec_index() == i as int);
                }
            }
            i = i + 1;
        }
    }

    /// The elements that need an image but have none cached yet: the
    /// list the caller must allocate images for before drawing.
    pub fn ids_needing_images(&self, graph: &BlendGraph) -> (r: Vec<AnyID>)
        requires
            graph.wf(),
        ensures
            r@.no_duplicates(),
            forall|a: AnyID|
                #[trigger] r@.contains(a) <==> (graph.contains_any(a) && spec_requires_image(
                    *graph,
                    a.spec_index(),
                ) && !self.has_entry(a.spec_index())),
    {
        let ids = graph.live_ids();
        let mut out: Vec<AnyID> = Vec::new();
        let mut k: usize = 0;
        while k < ids.len()
            invariant
                graph.wf(),
                k <= ids@.len(),
                ids@.no_duplicates(),
                out@.no_duplicates(),
                forall|a: AnyID|
                    #[trigger] ids@.contains(a) <==> graph.contains_any(a),
                forall|a: AnyID|
                    #[trigger] out@.contains(a) <==> (exists|j: int|
                        0 <= j < k && a == ids@[j]) && graph.contains_any(a)
                        && spec_requires_image(*graph, a.spec_index()) && !self.has_entry(
                        a.spec_index(),
                    ),
            decreases ids@.len() - k,
        {
            let id = ids[k];
            proof {
                assert(ids@.contains(ids@[k as int]));
            }
            let needs = Self::requires_image(graph, id) && !self.has(id);
            let ghost out_pre = out@;
            if needs {
                out.push(id);
            }
            k = k + 1;
            proof {
                assert(out@.no_duplicates()) by {
                    if needs {
                        assert(!out_pre.contains(id)) by {
                            if out_pre.contains(id) {
                                let j = choose|j: int| 0 <= j < k - 1 && id == ids@[j];
                                assert(ids@[j] == ids@[k - 1]);
                            }
                        }
                        assert forall|q1: int, q2: int|
                            0 <= q1 < out@.len() && 0 <= q2 < out@.len() && q1 != q2 implies out@[
                            q1] != out@[q2] by {
                            if q1 == out@.len() - 1 {
                                assert(out_pre[q2] == out@[q2]);
                                assert(out_pre.contains(out@[q2]));
                            } else if q2 == out@.len() - 1 {
                                assert(out_pre[q1] == out@[q1]);
                                assert(out_pre.contains(out@[q1]));
                            } else {
                                assert(out_pre[q1] == out@[q1] && out_pre[q2] == out@[q2]);
                            }
                        }
                    }
                }
                assert forall|a: AnyID| #[trigger] out@.contains(a) <==> (exists|j: int|
                    0 <= j < k && a == ids@[j]) && graph.contains_any(a) && spec_requires_image(
                    *graph,
                    a.spec_index(),
                ) && !self.has_entry(a.spec_index()) by {
                    if out@.contains(a) {
                        if !out_pre.contains(a) {
                            let w = choose|w: int| 0 <= w < out@.len() && out@[w] == a;
                            assert(a == id);
                            assert(a == ids@[k - 1]);
                        } else {
                            let j = choose|j: int| 0 <= j < k - 1 && a == ids@[j];
                            assert(0 <= j < k && a == ids@[j]);
                        }
                    } else {
                        assert(!out_pre.contains(a)) by {
                            if out_pre.contains(a) {
                                let w = choose|w: int|
                                    0 <= w < out_pre.len() && out_pre[w] == a;
                                assert(out@[w] == a);
                            }
                        }
                        if (exists|j: int| 0 <= j < k && a == ids@[j]) && graph.contains_any(a)
                            && spec_requires_image(*graph, a.spec_index()) && !self.has_entry(
                            a.spec_index(),
                        ) {
                            let j = choose|j: int| 0 <= j < k && a == ids@[j];
                            if j < k - 1 {
                                assert(out_pre.contains(a));
                            } else {
                                assert(a == id);
                                assert(needs);
                                if out_pre.contains(a) {
                                } else {
                                    assert(out@[out@.len() - 1] == a);
                                    assert(out@.contains(a));
                                }
                            }
                            assert(false);
                        }
                    }
                }
            }
        }
        proof {
            assert forall|a: AnyID| #[trigger] out@.contains(a) <==> (graph.contains_any(a)
                && spec_requires_image(*graph, a.spec_index()) && !self.has_entry(
                a.spec_index(),
            )) by {
                if graph.contains_any(a) && spec_requires_image(*graph, a.spec_index())
                    && !self.has_entry(a.spec_index()) {
                    assert(ids@.contains(a));
                    let j = choose|j: int| 0 <= j < ids@.len() && ids@[j] == a;
                }
            }
        }
        out
    }

    /// Is an image cached for this handle?
    pub fn has(&self, id: AnyID) -> (r: bool)
        ensures
            r == self.has_entry(id.spec_index()),
    {
        let i = match id {
            AnyID::Leaf(l) => l.0,
            AnyID::Node(n) => n.0,
        };
        i < self.entries.len() && self.entries[i].is_some()
    }

    /// Bind a freshly allocated image to a handle, replacing any entry
    /// already bound to it and leaving every other binding alone. An
    /// arena handle always indexes into a machine-sized table, which is
    /// all this asks.
    pub fn install(&mut self, id: AnyID, data: RenderData)
        requires
            id.spec_index() < usize::MAX,
        ensures
            final(self).entry_of(id.spec_index()) == Some(data),
            forall|i: int|
                i != id.spec_index() ==> final(self).entry_of(i) == old(self).entry_of(i),
    {
        let i = match id {
            AnyID::Leaf(l) => l.0,
            AnyID::Node(n) => n.0,
        };
        if i >= self.entries.len() {
            self.entries.resize(i + 1, None);
        }
        self.entries[i] = Some(data);
    }
}

/// The cached render state of one tracked document.
pub struct PerDocumentData {
    /// Cached images of the elements of the document's blend graph.
    pub graph_render_data: GraphRenderCache,
    /// Cached composite image of the whole document.
    pub root_image: RenderData,
}

/// The orchestrator's tracked-document table. A document enters it on
/// first render and leaves it when its command log errors, when a resync
/// reports it gone, or when it is explicitly dropped; its handle may
/// re-enter later as a fresh, untracked-then-retracked document.
pub struct Renderer {
    /// One cache per tracked document; at most one entry per document.
    docs: Vec<(DocumentID, PerDocumentData)>,
}

/// Index of the first entry for `d`, or -1 when no entry carries it.
pub open spec fn spec_doc_index(docs: Seq<(DocumentID, PerDocumentData)>, d: DocumentID) -> int
    decreases docs.len(),
{
    if docs.len() == 0 {
        -1
    } else if docs[0].0 == d {
        0
    } else {
        let rest = spec_doc_index(docs.subrange(1, docs.len() as int), d);
        if rest < 0 {
            -1
        } else {
            rest + 1
        }
    }
}

impl Renderer {
    /// Each tracked document has exactly one entry.
    pub closed spec fn wf(&self) -> bool {
        forall|i: int, j: int|
            0 <= i < self.docs@.len() && 0 <= j < self.docs@.len() && i != j
                ==> (#[trigger] self.docs@[i]).0 != (#[trigger] self.docs@[j]).0
    }

    /// Is this document currently tracked?
    pub closed spec fn tracks(&self, d: DocumentID) -> bool {
        spec_doc_index(self.docs@, d) >= 0
    }

    /// The cached state of a tracked document.
    pub closed spec fn doc_data(&self, d: DocumentID) -> PerDocumentData {
        self.docs@[spec_doc_index(self.docs@, d)].1
    }

    /// A fresh orchestrator: nothing tracked.
    pub fn new() -> (r: Self)
        ensures
            r.wf(),
            forall|d: DocumentID| !r.tracks(d),
    {
        let r = Renderer { docs: Vec::new() };
        proof {
            assert forall|d: DocumentID| !r.tracks(d) by {}
        }
        r
    }

    /// Index of the document's entry, if tracked.
    fn find(&self, d: DocumentID) -> (r: Option<usize>)
        ensures
            r matches Some(i) ==> i == spec_doc_index(self.docs@, d),
            r is None ==> spec_doc_index(self.docs@, d) == -1,
    {
        let mut i: usize = 0;
        while i < self.docs.len()
            invariant
                i <= self.docs@.len(),
                forall|j: int| 0 <= j < i ==> (#[trigger] self.docs@[j]).0 != d,
            decreases self.docs@.len() - i,
        {
            if self.docs[i].0 == d {
                proof {
                    lemma_doc_index_found(self.docs@, d, i as int);
                }
                return Some(i);
            }
            i = i + 1;
        }
        proof {
            lemma_doc_index_not_found(self.docs@, d);
        }
        None
    }

    /// Is this document currently tracked?
    pub fn is_tracking(&self, d: DocumentID) -> (r: bool)
        ensures
            r == self.tracks(d),
    {
        self.find(d).is_some()
    }

    /// Start tracking a document, giving it an empty element cache and
    /// the root composite image the backend allocated for it. Returns
    /// whether the document was newly tracked; a document already
    /// tracked is left exactly as it was.
    pub fn begin_track(&mut self, d: DocumentID, root_image: RenderData) -> (r: bool)
        requires
            old(self).wf(),
        ensures
            final(self).wf(),
            r == !old(self).tracks(d),
            final(self).tracks(d),
            r ==> final(self).doc_data(d).root_image == root_image && (forall|i: int|
                !final(self).doc_data(d).graph_render_data.has_entry(i)),
            !r ==> *final(self) == *old(self),
            forall|d2: DocumentID|
                d2 != d ==> #[trigger] final(self).tracks(d2) == old(self).tracks(d2) && (old(
                    self,
                ).tracks(d2) ==> final(self).doc_data(d2) == old(self).doc_data(d2)),
    {
        if self.find(d).is_some() {
            proof {
                lemma_doc_index_bounds(self.docs@, d);
            }
            return false;
        }
        let ghost pre = self.docs@;
        let cache = GraphRenderCache::new();
        let data = PerDocumentData { graph_render_data: cache, root_image };
        let ghost gdata = data;
        self.docs.push((d, data));
        proof {
            lemma_doc_index_none(pre, d);
            lemma_doc_index_push(pre, d, gdata);
            assert(self.docs@ == pre.push((d, gdata)));
            assert(self.tracks(d));
            assert(self.doc_data(d) == gdata);
            assert(self.wf()) by {
                assert forall|a: int, b: int|
                    0 <= a < self.docs@.len() && 0 <= b < self.docs@.len() && a != b implies (
                #[trigger] self.docs@[a]).0 != (#[trigger] self.docs@[b]).0 by {
                    if a < pre.len() && b < pre.len() {
                        assert(self.docs@[a] == pre[a] && self.docs@[b] == pre[b]);
                    } else if a == pre.len() as int {
                        assert(self.docs@[a].0 == d && self.docs@[b] == pre[b]);
                    } else {
                        assert(self.docs@[b].0 == d && self.docs@[a] == pre[a]);
                    }
                }
            }
            assert forall|d2: DocumentID| d2 != d implies #[trigger] self.tracks(d2) == old(
                self,
            ).tracks(d2) && (old(self).tracks(d2) ==> self.doc_data(d2) == old(self).doc_data(
                d2,
            )) by {
                lemma_doc_index_push_other(pre, d2, (d, gdata));
                lemma_doc_index_bounds(pre, d2);
                if old(self).tracks(d2) {
                    let q = spec_doc_index(pre, d2);
                    assert(self.docs@[q] == pre[q]);
                }
            }
        }
        true
    }

    /// Stop tracking a document, dropping its cached state. Used when
    /// its command log errors out or a resync reports it deleted; a
    /// document not tracked is left alone.
    pub fn drop_document(&mut self, d: DocumentID)
        requires
            old(self).wf(),
        ensures
            final(self).wf(),
            !final(self).tracks(d),
            forall|d2: DocumentID|
                d2 != d ==> #[trigger] final(self).tracks(d2) == old(self).tracks(d2),
            forall|d2: DocumentID|
                d2 != d && old(self).tracks(d2) ==> #[trigger] final(self).doc_data(d2) == old(
                    self,
                ).doc_data(d2),
    {
        match self.find(d) {
            None => {
                proof {
                    lemma_doc_index_bounds(self.docs@, d);
                }
            },
            Some(i) => {
                proof {
                    lemma_doc_index_bounds(self.docs@, d);
                }
                let ghost pre = self.docs@;
                self.docs.remove(i);
                proof {
                    pre.remove_ensures(i as int);
                    assert(self.docs@ == pre.remove(i as int));
                    lemma_doc_index_remove(pre, d, i as int, d);
                    assert(!self.tracks(d));
                    assert forall|d2: DocumentID| d2 != d implies #[trigger] self.tracks(d2)
                        == old(self).tracks(d2) by {
                        lemma_doc_index_remove(pre, d2, i as int, d);
                    }
                    assert forall|d2: DocumentID|
                        d2 != d && old(self).tracks(d2) implies #[trigger] self.doc_data(d2)
                        == old(self).doc_data(d2) by {
                        lemma_doc_index_remove(pre, d2, i as int, d);
                    }
                    assert(self.wf()) by {
                        assert forall|a: int, b: int|
                            0 <= a < self.docs@.len() && 0 <= b < self.docs@.len() && a
                            != b implies (#[trigger] self.docs@[a]).0 != (#[trigger] self.docs@[
                            b]).0 by {
                            let ma = if a < i as int {
                                a
                            } else {
                                a + 1
                            };
                            let mb = if b < i as int {
                                b
                            } else {
                                b + 1
                            };
                            assert(self.docs@[a] == pre[ma]);
                            assert(self.docs@[b] == pre[mb]);
                        }
                    }
                }
            },
        }
    }
}

/// Does the list hold this document id?
fn contains_doc(list: &Vec<DocumentID>, d: DocumentID) -> (r: bool)
    ensures
        r == list@.contains(d),
{
    let mut k: usize = 0;
    while k < list.len()
        invariant
            k <= list@.len(),
            forall|j: int| 0 <= j < k ==> list@[j] != d,
        decreases list@.len() - k,
    {
        if list[k] == d {
            return true;
        }
        k = k + 1;
    }
    false
}

impl Renderer {
    /// Resync against the authoritative list of live documents: every
    /// tracked document absent from the list is treated as deleted and
    /// evicted; the cached state of the documents that stay is untouched.
    pub fn retain_documents(&mut self, live: &Vec<DocumentID>)
        requires
            old(self).wf(),
        ensures
            final(self).wf(),
            forall|d: DocumentID|
                #[trigger] final(self).tracks(d) <==> (old(self).tracks(d) && live@.contains(d)),
            forall|d: DocumentID|
                final(self).tracks(d) ==> #[trigger] final(self).doc_data(d) == old(
                    self,
                ).doc_data(d),
    {
        // First collect the ids to evict, then evict them one by one.
        let mut to_drop: Vec<DocumentID> = Vec::new();
        let mut i: usize = 0;
        let n = self.docs.len();
        while i < n
            invariant
                self == old(self),
                n == self.docs@.len(),
                i <= n,
                forall|d: DocumentID|
                    #[trigger] to_drop@.contains(d) <==> ((exists|j: int|
                        0 <= j < i && (#[trigger] self.docs@[j]).0 == d) && !live@.contains(d)),
            decreases n - i,
        {
            let d = self.docs[i].0;
            let ghost pre = to_drop@;
            let mut pushed = false;
            if !contains_doc(live, d) && !contains_doc(&to_drop, d) {
                to_drop.push(d);
                pushed = true;
            }
            i = i + 1;
            proof {
                assert forall|d2: DocumentID| #[trigger] to_drop@.contains(d2) <==> ((exists|
                    j: int,
                |
                    0 <= j < i && (#[trigger] self.docs@[j]).0 == d2) && !live@.contains(d2)) by {
                    if to_drop@.contains(d2) {
                        if pre.contains(d2) {
                            let j = choose|j: int|
                                0 <= j < i - 1 && (#[trigger] self.docs@[j]).0 == d2;
                            assert(0 <= j < i && self.docs@[j].0 == d2);
                        } else {
                            let w = choose|w: int|
                                0 <= w < to_drop@.len() && to_drop@[w] == d2;
                            assert(w == to_drop@.len() - 1 && pushed) by {
                                if w < pre.len() {
                                    assert(pre[w] == d2);
                                }
                            }
                            assert(d2 == d);
                            assert(self.docs@[i - 1].0 == d2);
                        }
                    } else {
                        assert(!pre.contains(d2)) by {
                            if pre.contains(d2) {
                                let w = choose|w: int| 0 <= w < pre.len() && pre[w] == d2;
                                assert(to_drop@[w] == d2);
                            }
                        }
                        if (exists|j: int| 0 <= j < i && (#[trigger] self.docs@[j]).0 == d2)
                            && !live@.contains(d2) {
                            let j = choose|j: int|
                                0 <= j < i && (#[trigger] self.docs@[j]).0 == d2;
                            if j < i - 1 {
                                assert(pre.contains(d2));
                            } else {
                                assert(d2 == d);
                                assert(pushed || pre.contains(d2)) by {
                                    if !pre.contains(d2) && !pushed {
                                        assert(live@.contains(d) || pre.contains(d));
                                    }
                                }
                                assert(to_drop@[to_drop@.len() - 1] == d);
                            }
                            assert(false);
                        }
                    }
                }
            }
        }
        proof {
            assert forall|d: DocumentID| #[trigger] to_drop@.contains(d) <==> (old(self).tracks(d)
                && !live@.contains(d)) by {
                lemma_doc_index_bounds(self.docs@, d);
                if to_drop@.contains(d) {
                    if spec_doc_index(self.docs@, d) == -1 {
                        lemma_doc_index_none(self.docs@, d);
                        let j = choose|j: int|
                            0 <= j < n && (#[trigger] self.docs@[j]).0 == d;
                        assert(false);
                    }
                } else {
                    if old(self).tracks(d) && !live@.contains(d) {
                        let q = spec_doc_index(self.docs@, d);
                        assert(self.docs@[q].0 == d);
                        assert(exists|j: int| 0 <= j < n && (#[trigger] self.docs@[j]).0 == d);
                        assert(false);
                    }
                }
            }
        }
        // Evict them.
        let mut k: usize = 0;
        while k < to_drop.len()
            invariant
                self.wf(),
                k <= to_drop@.len(),
                forall|d: DocumentID|
                    #[trigger] to_drop@.contains(d) <==> (old(self).tracks(d)
                        && !live@.contains(d)),
                forall|d: DocumentID|
                    #[trigger] self.tracks(d) <==> (old(self).tracks(d) && !(exists|j: int|
                        0 <= j < k && to_drop@[j] == d)),
                forall|d: DocumentID|
                    self.tracks(d) ==> #[trigger] self.doc_data(d) == old(self).doc_data(d),
            decreases to_drop@.len() - k,
        {
            let d = to_drop[k];
            let ghost before = *self;
            self.drop_document(d);
            k = k + 1;
            proof {
                assert forall|d2: DocumentID| #[trigger] self.tracks(d2) <==> (old(
                    self,
                ).tracks(d2) && !(exists|j: int| 0 <= j < k && to_drop@[j] == d2)) by {
                    if d2 == d {
                        assert(!self.tracks(d2));
                        assert(to_drop@[k - 1] == d2);
                    } else {
                        assert(self.tracks(d2) == before.tracks(d2));
                        if exists|j: int| 0 <= j < k && to_drop@[j] == d2 {
                            let j = choose|j: int| 0 <= j < k && to_drop@[j] == d2;
                            assert(j < k - 1 || to_drop@[j] == d);
                            assert(0 <= j < k - 1 && to_drop@[j] == d2 ==> !before.tracks(d2));
                        }
                        if !(exists|j: int| 0 <= j < k - 1 && to_drop@[j] == d2) && (exists|
                            j: int,
                        | 0 <= j < k && to_drop@[j] == d2) {
                            let j = choose|j: int| 0 <= j < k && to_drop@[j] == d2;
                            assert(j == k - 1);
                            assert(to_drop@[j] == d);
                        }
                    }
                }
            }
        }
        proof {
            assert forall|d: DocumentID| #[trigger] self.tracks(d) <==> (old(self).tracks(d)
                && live@.contains(d)) by {
                if self.tracks(d) {
                    assert(old(self).tracks(d));
                    if !live@.contains(d) {
                        assert(to_drop@.contains(d));
                        let j = choose|j: int| 0 <= j < to_drop@.len() && to_drop@[j] == d;
                        assert(exists|j2: int| 0 <= j2 < to_drop@.len() && to_drop@[j2] == d);
                        assert(false);
                    }
                } else {
                    if old(self).tracks(d) && live@.contains(d) {
                        assert(!to_drop@.contains(d));
                        if exists|j: int| 0 <= j < to_drop@.len() && to_drop@[j] == d {
                            let j = choose|j: int| 0 <= j < to_drop@.len() && to_drop@[j] == d;
                            assert(to_drop@.contains(d));
                        }
                        assert(false);
                    }
                }
            }
        }
    }
}

/// A scan that stopped at `i` with a match, having passed none, found
/// the first index.
proof fn lemma_doc_index_found(docs: Seq<(DocumentID, PerDocumentData)>, d: DocumentID, i: int)
    requires
        0 <= i < docs.len(),
        docs[i].0 == d,
        forall|j: int| 0 <= j < i ==> (#[trigger] docs[j]).0 != d,
    ensures
        spec_doc_index(docs, d) == i,
    decreases docs.len(),
{
    if i > 0 {
        lemma_doc_index_found(docs.subrange(1, docs.len() as int), d, i - 1);
    }
}

/// A full scan without a match means the document is not tracked.
proof fn lemma_doc_index_not_found(docs: Seq<(DocumentID, PerDocumentData)>, d: DocumentID)
    requires
        forall|j: int| 0 <= j < docs.len() ==> (#[trigger] docs[j]).0 != d,
    ensures
        spec_doc_index(docs, d) == -1,
    decreases docs.len(),
{
    if docs.len() > 0 {
        lemma_doc_index_not_found(docs.subrange(1, docs.len() as int), d);
    }
}

/// The index is in bounds and carries the document when it is not -1.
proof fn lemma_doc_index_bounds(docs: Seq<(DocumentID, PerDocumentData)>, d: DocumentID)
    ensures
        spec_doc_index(docs, d) == -1 || (0 <= spec_doc_index(docs, d) < docs.len() && docs[
            spec_doc_index(docs, d)].0 == d),
    decreases docs.len(),
{
    if docs.len() > 0 && docs[0].0 != d {
        lemma_doc_index_bounds(docs.subrange(1, docs.len() as int), d);
    }
}

/// Appending an entry for an untracked document tracks it, at the end.
proof fn lemma_doc_index_push(
    docs: Seq<(DocumentID, PerDocumentData)>,
    d: DocumentID,
    data: PerDocumentData,
)
    requires
        spec_doc_index(docs, d) == -1,
    ensures
        spec_doc_index(docs.push((d, data)), d) == docs.len(),
    decreases docs.len(),
{
    let pushed = docs.push((d, data));
    if docs.len() == 0 {
        assert(pushed[0].0 == d);
    } else {
        assert(docs[0].0 != d) by {
            if docs[0].0 == d {
                lemma_doc_index_bounds(docs, d);
                lemma_doc_index_found(docs, d, 0);
            }
        }
        assert(pushed.subrange(1, pushed.len() as int) =~= docs.subrange(
            1,
            docs.len() as int,
        ).push((d, data)));
        lemma_doc_index_push(docs.subrange(1, docs.len() as int), d, data);
    }
}

/// Appending an entry for one document leaves every other document's
/// index alone.
proof fn lemma_doc_index_push_other(
    docs: Seq<(DocumentID, PerDocumentData)>,
    d2: DocumentID,
    entry: (DocumentID, PerDocumentData),
)
    requires
        entry.0 != d2,
    ensures
        spec_doc_index(docs.push(entry), d2) == spec_doc_index(docs, d2),
    decreases docs.len(),
{
    let pushed = docs.push(entry);
    if docs.len() == 0 {
        assert(pushed[0].0 != d2);
        assert(pushed.subrange(1, pushed.len() as int) =~= Seq::<
            (DocumentID, PerDocumentData),
        >::empty());
        assert(spec_doc_index(Seq::<(DocumentID, PerDocumentData)>::empty(), d2) == -1);
        assert(spec_doc_index(pushed, d2) == -1);
        assert(spec_doc_index(docs, d2) == -1);
    } else {
        assert(pushed.subrange(1, pushed.len() as int) =~= docs.subrange(
            1,
            docs.len() as int,
        ).push(entry));
        lemma_doc_index_push_other(docs.subrange(1, docs.len() as int), d2, entry);
    }
}

/// Removing the one entry of document `d` untracks `d` and leaves every
/// other document tracked as before, with the same data.
proof fn lemma_doc_index_remove(
    docs: Seq<(DocumentID, PerDocumentData)>,
    d2: DocumentID,
    i: int,
    d: DocumentID,
)
    requires
        0 <= i < docs.len(),
        docs[i].0 == d,
        forall|a: int, b: int|
            0 <= a < docs.len() && 0 <= b < docs.len() && a != b ==> (#[trigger] docs[a]).0 != (
            #[trigger] docs[b]).0,
        spec_doc_index(docs, d) == i,
    ensures
        d2 == d ==> spec_doc_index(docs.remove(i), d2) == -1,
        d2 != d && spec_doc_index(docs, d2) >= 0 ==> spec_doc_index(docs.remove(i), d2) >= 0
            && docs.remove(i)[spec_doc_index(docs.remove(i), d2)] == docs[spec_doc_index(
            docs,
            d2,
        )],
        d2 != d && spec_doc_index(docs, d2) == -1 ==> spec_doc_index(docs.remove(i), d2) == -1,
    decreases docs.len(),
{
    let removed = docs.remove(i);
    docs.remove_ensures(i);
    lemma_doc_index_bounds(docs, d2);
    if d2 == d {
        assert forall|j: int| 0 <= j < removed.len() implies (#[trigger] removed[j]).0 != d by {
            let m = if j < i {
                j
            } else {
                j + 1
            };
            assert(removed[j] == docs[m]);
            assert(m != i);
        }
        lemma_doc_index_not_found(removed, d);
    } else {
        if spec_doc_index(docs, d2) >= 0 {
            let q = spec_doc_index(docs, d2);
            assert(docs[q].0 == d2);
            assert(q != i);
            let q2 = if q < i {
                q
            } else {
                q - 1
            };
            assert(removed[q2] == docs[q]);
            assert forall|j: int| 0 <= j < q2 implies (#[trigger] removed[j]).0 != d2 by {
                let m = if j < i {
                    j
                } else {
                    j + 1
                };
                assert(removed[j] == docs[m]);
                assert(docs[m].0 == d2 ==> m == q);
                assert(m < q || (j >= i && m == j + 1));
                if m == q {
                    assert(false);
                }
            }
            lemma_doc_index_found(removed, d2, q2);
        } else {
            lemma_doc_index_none(docs, d2);
            assert forall|j: int| 0 <= j < removed.len() implies (#[trigger] removed[j]).0
                != d2 by {
                let m = if j < i {
                    j
                } else {
                    j + 1
                };
                assert(removed[j] == docs[m]);
            }
            lemma_doc_index_not_found(removed, d2);
        }
    }
}

/// An index of -1 means no entry carries the document.
proof fn lemma_doc_index_none(docs: Seq<(DocumentID, PerDocumentData)>, d: DocumentID)
    requires
        spec_doc_index(docs, d) == -1,
    ensures
        forall|j: int| 0 <= j < docs.len() ==> (#[trigger] docs[j]).0 != d,
    decreases docs.len(),
{
    if docs.len() > 0 {
        lemma_doc_index_none(docs.subrange(1, docs.len() as int), d);
        assert forall|j: int| 0 <= j < docs.len() implies (#[trigger] docs[j]).0 != d by {
            if j > 0 {
                assert(docs.subrange(1, docs.len() as int)[j - 1] == docs[j]);
            }
        }
    }
}

} // verus!
