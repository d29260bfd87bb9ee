//! The DOM node model: an arena of nodes owned by the [`Window`], with
//! parent/child links stored as stable indices. The stack of open elements
//! and the returned document all refer to nodes by index, so the tree can be
//! shared and mutated without aliasing ambiguity.

use crate::token::AttrModel;
use crate::token::Attribute;
use vstd::prelude::*;

verus! {

/// What a node is: an element with a tag name and its attributes, or a run
/// of text.
#[derive(Debug, Clone)]
pub enum NodeKind {
    Element { tag: String, attributes: Vec<Attribute> },
    Text { content: Vec<char> },
}

/// One entry of the node arena. Children are ordered and always created
/// after their parent; `parent` is the non-owning back-reference used only
/// for traversal.
#[derive(Debug, Clone)]
pub struct Node {
    pub kind: NodeKind,
    pub parent: Option<usize>,
    pub children: Vec<usize>,
}

/// The root holder of the tree: the arena of nodes and the index of the
/// document element, once one exists.
#[derive(Debug, Clone)]
pub struct Window {
    pub nodes: Vec<Node>,
    pub document_element: Option<usize>,
}

/// Mathematical image of a [`NodeKind`].
pub enum NodeKindModel {
    Element { tag: Seq<char>, attributes: Seq<AttrModel> },
    Text { content: Seq<char> },
}

/// Mathematical image of a [`Node`].
pub struct NodeModel {
    pub kind: NodeKindModel,
    pub parent: Option<int>,
    pub children: Seq<int>,
}

/// Mathematical image of a [`Window`].
pub struct WindowModel {
    pub nodes: Seq<NodeModel>,
    pub document_element: Option<int>,
}

impl View for NodeKind {
    type V = NodeKindModel;

    open spec fn view(&self) -> NodeKindModel {
        match self {
            NodeKind::Element { tag, attributes } => NodeKindModel::Element {
                tag: tag@,
                attributes: attributes@.map_values(|a: Attribute| a@),
            },
            NodeKind::Text { content } => NodeKindModel::Text { content: content@ },
        }
    }
}

impl View for Node {
    type V = NodeModel;

    open spec fn view(&self) -> NodeModel {
        NodeModel {
            kind: self.kind@,
            parent: match self.parent {
                Option::Some(p) => Option::Some(p as int),
                Option::None => Option::None,
            },
            children: self.children@.map_values(|c: usize| c as int),
        }
    }
}

impl View for Window {
    type V = WindowModel;

    open spec fn view(&self) -> WindowModel {
        WindowModel {
            nodes: self.nodes@.map_values(|n: Node| n@),
            document_element: match self.document_element {
                Option::Some(r) => Option::Some(r as int),
                Option::None => Option::None,
            },
        }
    }
}

impl NodeModel {
    /// A detached element node with the given tag and attributes.
    pub open spec fn detached_element(tag: Seq<char>, attributes: Seq<AttrModel>) -> NodeModel {
        NodeModel {
            kind: NodeKindModel::Element { tag, attributes },
            parent: Option::None,
            children: Seq::empty(),
        }
    }

    /// A detached text node with the given content.
    pub open spec fn detached_text(content: Seq<char>) -> NodeModel {
        NodeModel {
            kind: NodeKindModel::Text { content },
            parent: Option::None,
            children: Seq::empty(),
        }
    }
}

impl WindowModel {
    /// An empty document: no nodes, no document element.
    pub open spec fn empty() -> WindowModel {
        WindowModel { nodes: Seq::empty(), document_element: Option::None }
    }

    /// The node at `i` is consistent with the rest of the arena: its parent
    /// was created before it and lists it as a child, and its children were
    /// created after it, point back to it, and are pairwise distinct.
    pub open spec fn node_ok(self, i: int) -> bool {
        let n = self.nodes[i];
        &&& (match n.parent {
            Option::Some(p) => 0 <= p < i && self.nodes[p].children.contains(i),
            Option::None => true,
        })
        &&& (forall|j: int|
            0 <= j < n.children.len() ==> i < #[trigger] n.children[j] < self.nodes.len())
        &&& (forall|j: int|
            0 <= j < n.children.len() ==> self.nodes[#[trigger] n.children[j]].parent
                == Option::Some(i))
        &&& (forall|j: int, k: int|
            #![trigger n.children[j], n.children[k]]
            0 <= j < k < n.children.len() ==> n.children[j] != n.children[k])
    }

    /// Structural well-formedness of the whole arena: every node is
    /// consistent, and the document element, if set, is a parentless
    /// element.
    pub open spec fn wf(self) -> bool {
        &&& (forall|i: int| 0 <= i < self.nodes.len() ==> #[trigger] self.node_ok(i))
        &&& (match self.document_element {
            Option::Some(r) => {
                &&& 0 <= r < self.nodes.len()
                &&& self.nodes[r].parent is None
                &&& self.nodes[r].kind is Element
            },
            Option::None => true,
        })
    }

    /// Number of nodes on the path from the document element down to `i`,
    /// both ends included; the document element itself has depth 1.
    pub open spec fn depth_of(self, i: int) -> nat
        decreases i,
        when 0 <= i < self.nodes.len() && self.wf()
    {
        match self.nodes[i].parent {
            Option::None => 1,
            Option::Some(p) => {
                proof {
                    assert(self.node_ok(i));
                }
                self.depth_of(p) + 1
            },
        }
    }

    /// The node at `i` survives into `w2` unshrunk: same parent, its old
    /// children a prefix of its new ones, and its content intact (a text
    /// run may have been extended at its end).
    pub open spec fn node_grows_into(self, w2: WindowModel, i: int) -> bool {
        let n1 = self.nodes[i];
        let n2 = w2.nodes[i];
        &&& (n1.parent is Some ==> n2.parent == n1.parent)
        &&& n1.children.is_prefix_of(n2.children)
        &&& (match (n1.kind, n2.kind) {
            (
                NodeKindModel::Element { tag: t1, attributes: a1 },
                NodeKindModel::Element { tag: t2, attributes: a2 },
            ) => t1 == t2 && a1 == a2,
            (NodeKindModel::Text { content: c1 }, NodeKindModel::Text { content: c2 }) => c1
                .is_prefix_of(c2),
            _ => false,
        })
    }

    /// `self` evolves into `w2` by growth alone: no node is removed or
    /// detached, children lists only gain entries at their end, and a
    /// document element, once set, stays what it was.
    pub open spec fn grows_into(self, w2: WindowModel) -> bool {
        &&& self.nodes.len() <= w2.nodes.len()
        &&& (forall|i: int| 0 <= i < self.nodes.len() ==> #[trigger] self.node_grows_into(w2, i))
        &&& (self.document_element is Some ==> w2.document_element == self.document_element)
    }
}

impl Window {
    /// A fresh, empty document.
    pub fn new() -> (w: Window)
        ensures
            w@ == WindowModel::empty(),
    {
        let w = Window { nodes: Vec::new(), document_element: Option::None };
        proof {
            assert(w@.nodes =~= WindowModel::empty().nodes);
        }
        w
    }

    /// Produce a detached element node; its index is the old node count.
    pub fn create_element(&mut self, tag: String, attributes: Vec<Attribute>) -> (idx: usize)
        requires
            old(self)@.wf(),
        ensures
            idx == old(self)@.nodes.len(),
            final(self)@.nodes == old(self)@.nodes.push(
                NodeModel::detached_element(tag@, attributes@.map_values(|a: Attribute| a@)),
            ),
            final(self)@.document_element == old(self)@.document_element,
            final(self)@.wf(),
            old(self)@.grows_into(final(self)@),
    {
        let idx = self.nodes.len();
        let node = Node {
            kind: NodeKind::Element { tag, attributes },
            parent: Option::None,
            children: Vec::new(),
        };
        self.nodes.push(node);
        proof {
            let m = self.nodes@.last()@;
            assert(m.children =~= Seq::<int>::empty());
            assert(m == NodeModel::detached_element(
                tag@,
                attributes@.map_values(|a: Attribute| a@),
            ));
            assert(self@.nodes =~= old(self)@.nodes.push(m)) by {
                assert forall|i: int| 0 <= i < old(self).nodes@.len() implies self@.nodes[i] == old(
                    self,
                )@.nodes[i] by {
                    assert(self.nodes@[i] == old(self).nodes@[i]);
                }
            }
            lemma_detached_push_wf(old(self)@, m);
        }
        idx
    }

    /// Produce a detached text node; its index is the old node count.
    pub fn create_text(&mut self, content: Vec<char>) -> (idx: usize)
        requires
            old(self)@.wf(),
        ensures
            idx == old(self)@.nodes.len(),
            final(self)@.nodes == old(self)@.nodes.push(NodeModel::detached_text(content@)),
            final(self)@.document_element == old(self)@.document_element,
            final(self)@.wf(),
            old(self)@.grows_into(final(self)@),
    {
        let idx = self.nodes.len();
        let node = Node {
            kind: NodeKind::Text { content },
            parent: Option::None,
            children: Vec::new(),
        };
        self.nodes.push(node);
        proof {
            let m = self.nodes@.last()@;
            assert(m.children =~= Seq::<int>::empty());
            assert(m == NodeModel::detached_text(content@));
            assert(self@.nodes =~= old(self)@.nodes.push(m)) by {
                assert forall|i: int| 0 <= i < old(self).nodes@.len() implies self@.nodes[i] == old(
                    self,
                )@.nodes[i] by {
                    assert(self.nodes@[i] == old(self).nodes@[i]);
                }
            }
            lemma_detached_push_wf(old(self)@, m);
        }
        idx
    }

    /// Common facts after pushing one detached node onto the arena.
    /// Attach `child` as the last child of `parent`, setting the child's
    /// parent back-reference. The child must be detached, created after its
    /// parent, and not the document element.
    pub fn append_child(&mut self, parent: usize, child: usize)
        requires
            old(self)@.wf(),
            parent < old(self)@.nodes.len(),
            child < old(self)@.nodes.len(),
            parent < child,
            old(self)@.nodes[child as int].parent is None,
            old(self)@.document_element != Option::Some(child as int),
        ensures
            final(self)@.nodes == old(self)@.nodes.update(
                parent as int,
                NodeModel {
                    children: old(self)@.nodes[parent as int].children.push(child as int),
                    ..old(self)@.nodes[parent as int]
                },
            ).update(
                child as int,
                NodeModel {
                    parent: Option::Some(parent as int),
                    ..old(self)@.nodes[child as int]
                },
            ),
            final(self)@.document_element == old(self)@.document_element,
            final(self)@.wf(),
            old(self)@.grows_into(final(self)@),
    {
        let ghost prev = self@;
        self.nodes[parent].children.push(child);
        let ghost mid = self@;
        self.nodes[child].parent = Option::Some(parent);
        proof {
            let pi = parent as int;
            let ci = child as int;
            let target = prev.nodes.update(
                pi,
                NodeModel { children: prev.nodes[pi].children.push(ci), ..prev.nodes[pi] },
            ).update(ci, NodeModel { parent: Option::Some(pi), ..prev.nodes[ci] });
            assert(mid.nodes =~= prev.nodes.update(
                pi,
                NodeModel { children: prev.nodes[pi].children.push(ci), ..prev.nodes[pi] },
            )) by {
                assert(mid.nodes[pi].children =~= prev.nodes[pi].children.push(ci));
            }
            assert(self@.nodes =~= target);
            assert(self@.document_element == prev.document_element);
            lemma_append_child_wf(prev, pi, ci, self@);
        }
    }

}

/// Pushing a detached node onto the end of the arena keeps it well-formed
/// and only grows the document.
pub proof fn lemma_detached_push_wf(w: WindowModel, node: NodeModel)
    requires
        w.wf(),
        node.parent is None,
        node.children.len() == 0,
    ensures
        ({
            let w2 = WindowModel { nodes: w.nodes.push(node), document_element: w.document_element };
            &&& w2.wf()
            &&& w.grows_into(w2)
        }),
{
    let w2 = WindowModel { nodes: w.nodes.push(node), document_element: w.document_element };
    let n = w2.nodes.len() as int;
    assert forall|i: int| 0 <= i < n implies #[trigger] w2.node_ok(i) by {
        if i < n - 1 {
            assert(w.node_ok(i));
            assert(w2.nodes[i] == w.nodes[i]);
            assert forall|j: int| 0 <= j < w2.nodes[i].children.len() implies w2.nodes[
                #[trigger] w2.nodes[i].children[j]
            ].parent == Option::Some(i) by {
                assert(w.nodes[w.nodes[i].children[j]].parent == Option::Some(i));
            }
            match w2.nodes[i].parent {
                Option::Some(p) => {
                    assert(w.nodes[p].children.contains(i));
                },
                Option::None => {},
            }
        }
    }
    assert forall|i: int| 0 <= i < w.nodes.len() implies #[trigger] w.node_grows_into(w2, i) by {
        assert(w2.nodes[i] == w.nodes[i]);
        assert(w.nodes[i].children.is_prefix_of(w2.nodes[i].children));
        match w.nodes[i].kind {
            NodeKindModel::Text { content } => {
                assert(content.is_prefix_of(content));
            },
            NodeKindModel::Element { .. } => {},
        }
    }
}

/// Recording a detached element as the document element keeps the arena
/// well-formed and only grows the document.
pub proof fn lemma_set_document_wf(w: WindowModel, r: int)
    requires
        w.wf(),
        w.document_element is None,
        0 <= r < w.nodes.len(),
        w.nodes[r].parent is None,
        w.nodes[r].kind is Element,
    ensures
        ({
            let w2 = WindowModel { nodes: w.nodes, document_element: Option::Some(r) };
            &&& w2.wf()
            &&& w.grows_into(w2)
        }),
{
    let w2 = WindowModel { nodes: w.nodes, document_element: Option::Some(r) };
    assert forall|i: int| 0 <= i < w2.nodes.len() implies #[trigger] w2.node_ok(i) by {
        assert(w.node_ok(i));
    }
    assert forall|i: int| 0 <= i < w.nodes.len() implies #[trigger] w.node_grows_into(w2, i) by {
        assert(w.nodes[i].children.is_prefix_of(w2.nodes[i].children));
        match w.nodes[i].kind {
            NodeKindModel::Text { content } => {
                assert(content.is_prefix_of(content));
            },
            NodeKindModel::Element { .. } => {},
        }
    }
}

/// Appending a detached, later-created, non-root node as a child keeps the
/// arena well-formed and only grows the document. `w2` is the arena after
/// the two link updates.
pub proof fn lemma_append_child_wf(w: WindowModel, pi: int, ci: int, w2: WindowModel)
    requires
        w.wf(),
        0 <= pi < w.nodes.len(),
        0 <= ci < w.nodes.len(),
        pi < ci,
        w.nodes[ci].parent is None,
        w.document_element != Option::Some(ci),
        w2.nodes == w.nodes.update(
            pi,
            NodeModel { children: w.nodes[pi].children.push(ci), ..w.nodes[pi] },
        ).update(ci, NodeModel { parent: Option::Some(pi), ..w.nodes[ci] }),
        w2.document_element == w.document_element,
    ensures
        w2.wf(),
        w.grows_into(w2),
{
    let prev = w;
    let n = prev.nodes.len() as int;
    // The detached child was in nobody's children list.
    assert forall|q: int, j: int|
        0 <= q < n && 0 <= j < prev.nodes[q].children.len() implies #[trigger] prev.nodes[q]
        .children[j] != ci by {
        assert(prev.node_ok(q));
        if prev.nodes[q].children[j] == ci {
            assert(prev.nodes[ci].parent == Option::Some(q));
        }
    }
    assert forall|i: int| 0 <= i < n implies #[trigger] w2.node_ok(i) by {
        assert(prev.node_ok(i));
        if i == pi {
            let ch2 = w2.nodes[pi].children;
            let ch1 = prev.nodes[pi].children;
            assert(ch2 == ch1.push(ci));
            assert forall|j: int| 0 <= j < ch2.len() implies pi < #[trigger] ch2[j] < n by {
                if j < ch1.len() {
                    assert(ch1[j] == ch2[j]);
                }
            }
            assert forall|j: int| 0 <= j < ch2.len() implies w2.nodes[#[trigger] ch2[j]].parent
                == Option::Some(pi) by {
                if j < ch1.len() {
                    assert(ch1[j] == ch2[j]);
                    assert(prev.nodes[ch1[j]].parent == Option::Some(pi));
                    assert(ch1[j] != ci);
                }
            }
            assert forall|j: int, k: int|
                #![trigger ch2[j], ch2[k]]
                0 <= j < k < ch2.len() implies ch2[j] != ch2[k] by {
                if k < ch1.len() {
                    assert(ch1[j] == ch2[j] && ch1[k] == ch2[k]);
                } else {
                    assert(ch2[k] == ci);
                    assert(ch1[j] == ch2[j]);
                    assert(ch1[j] != ci);
                }
            }
            match w2.nodes[pi].parent {
                Option::Some(pp) => {
                    assert(prev.nodes[pp].children.contains(pi));
                    assert(w2.nodes[pp].children == prev.nodes[pp].children);
                },
                Option::None => {},
            }
        } else if i == ci {
            assert(w2.nodes[ci].parent == Option::Some(pi));
            assert(w2.nodes[pi].children.last() == ci);
            assert(w2.nodes[pi].children.contains(ci));
            assert(w2.nodes[ci].children == prev.nodes[ci].children);
            assert forall|j: int| 0 <= j < w2.nodes[ci].children.len() implies w2.nodes[
                #[trigger] w2.nodes[ci].children[j]
            ].parent == Option::Some(ci) by {
                assert(prev.nodes[prev.nodes[ci].children[j]].parent == Option::Some(ci));
                assert(prev.nodes[ci].children[j] != ci);
                assert(prev.nodes[ci].children[j] > ci > pi);
            }
        } else {
            assert(w2.nodes[i] == prev.nodes[i]);
            assert forall|j: int| 0 <= j < w2.nodes[i].children.len() implies w2.nodes[
                #[trigger] w2.nodes[i].children[j]
            ].parent == Option::Some(i) by {
                assert(prev.nodes[prev.nodes[i].children[j]].parent == Option::Some(i));
                assert(prev.nodes[i].children[j] != ci);
            }
            match w2.nodes[i].parent {
                Option::Some(p) => {
                    assert(prev.nodes[p].children.contains(i));
                    let j = choose|j: int|
                        0 <= j < prev.nodes[p].children.len() && prev.nodes[p].children[j]
                            == i;
                    if p == pi {
                        assert(w2.nodes[pi].children[j] == i);
                        assert(w2.nodes[pi].children.contains(i));
                    } else {
                        assert(w2.nodes[p].children == prev.nodes[p].children);
                    }
                },
                Option::None => {},
            }
        }
    }
    match w2.document_element {
        Option::Some(r) => {
            assert(r != ci);
            assert(w2.nodes[r].parent == prev.nodes[r].parent);
            assert(w2.nodes[r].kind == prev.nodes[r].kind);
        },
        Option::None => {},
    }
    assert forall|i: int| 0 <= i < n implies #[trigger] prev.node_grows_into(w2, i) by {
        assert(prev.node_ok(i));
        if i == pi {
            let ch1 = prev.nodes[pi].children;
            assert(ch1 =~= w2.nodes[pi].children.subrange(0, ch1.len() as int));
            assert(ch1.is_prefix_of(w2.nodes[pi].children));
        } else {
            assert(w2.nodes[i].children == prev.nodes[i].children);
            assert(prev.nodes[i].children.is_prefix_of(w2.nodes[i].children));
        }
        match prev.nodes[i].kind {
            NodeKindModel::Text { content } => {
                assert(content.is_prefix_of(content));
            },
            NodeKindModel::Element { .. } => {},
        }
    }
}

impl Window {
    /// Extend the text run at `idx` by one character at its end, coalescing
    /// consecutive character insertions into a single text node.
    pub fn extend_text(&mut self, idx: usize, c: char)
        requires
            old(self)@.wf(),
            idx < old(self)@.nodes.len(),
            old(self)@.nodes[idx as int].kind is Text,
        ensures
            final(self)@.nodes == old(self)@.nodes.update(
                idx as int,
                NodeModel {
                    kind: NodeKindModel::Text {
                        content: old(self)@.nodes[idx as int].kind->Text_content.push(c),
                    },
                    ..old(self)@.nodes[idx as int]
                },
            ),
            final(self)@.document_element == old(self)@.document_element,
            final(self)@.wf(),
            old(self)@.grows_into(final(self)@),
    {
        let node = &mut self.nodes[idx];
        match &mut node.kind {
            NodeKind::Text { content } => {
                content.push(c);
            },
            NodeKind::Element { .. } => {},
        }
        proof {
            assert(self@.nodes =~= old(self)@.nodes.update(
                idx as int,
                NodeModel {
                    kind: NodeKindModel::Text {
                        content: old(self)@.nodes[idx as int].kind->Text_content.push(c),
                    },
                    ..old(self)@.nodes[idx as int]
                },
            ));
            lemma_text_extend_wf(old(self)@, idx as int, c);
        }
    }

    /// Record `idx` as the document element. There must be none yet, and
    /// the node must be a detached element.
    pub fn set_document_element(&mut self, idx: usize)
        requires
            old(self)@.wf(),
            old(self)@.document_element is None,
            idx < old(self)@.nodes.len(),
            old(self)@.nodes[idx as int].parent is None,
            old(self)@.nodes[idx as int].kind is Element,
        ensures
            final(self)@.nodes == old(self)@.nodes,
            final(self)@.document_element == Option::Some(idx as int),
            final(self)@.wf(),
            old(self)@.grows_into(final(self)@),
    {
        self.document_element = Option::Some(idx);
        proof {
            assert(self@.nodes =~= old(self)@.nodes);
            assert forall|i: int| 0 <= i < self@.nodes.len() implies #[trigger] self@.node_ok(
                i,
            ) by {
                assert(old(self)@.node_ok(i));
            }
            lemma_grows_refl(old(self)@);
            assert forall|i: int| 0 <= i < old(self)@.nodes.len() implies #[trigger] old(
                self,
            )@.node_grows_into(self@, i) by {
                assert(old(self)@.node_grows_into(old(self)@, i));
            }
        }
    }
}

/// Extending a text run in place preserves well-formedness and only grows
/// the document.
pub proof fn lemma_text_extend_wf(w: WindowModel, i: int, c: char)
    requires
        w.wf(),
        0 <= i < w.nodes.len(),
        w.nodes[i].kind is Text,
    ensures
        ({
            let w2 = WindowModel {
                nodes: w.nodes.update(
                    i,
                    NodeModel {
                        kind: NodeKindModel::Text { content: w.nodes[i].kind->Text_content.push(c) },
                        ..w.nodes[i]
                    },
                ),
                document_element: w.document_element,
            };
            &&& w2.wf()
            &&& w.grows_into(w2)
        }),
{
    let w2 = WindowModel {
        nodes: w.nodes.update(
            i,
            NodeModel {
                kind: NodeKindModel::Text { content: w.nodes[i].kind->Text_content.push(c) },
                ..w.nodes[i]
            },
        ),
        document_element: w.document_element,
    };
    let n = w.nodes.len() as int;
    assert forall|q: int| 0 <= q < n implies #[trigger] w2.node_ok(q) by {
        assert(w.node_ok(q));
        assert(w2.nodes[q].children == w.nodes[q].children);
        assert(w2.nodes[q].parent == w.nodes[q].parent);
        assert forall|j: int| 0 <= j < w2.nodes[q].children.len() implies w2.nodes[
            #[trigger] w2.nodes[q].children[j]
        ].parent == Option::Some(q) by {
            assert(w.nodes[w.nodes[q].children[j]].parent == Option::Some(q));
        }
        match w2.nodes[q].parent {
            Option::Some(p) => {
                assert(w.nodes[p].children.contains(q));
                assert(w2.nodes[p].children == w.nodes[p].children);
            },
            Option::None => {},
        }
    }
    match w2.document_element {
        Option::Some(r) => {
            assert(w2.nodes[r].kind is Element);
        },
        Option::None => {},
    }
    assert forall|q: int| 0 <= q < n implies #[trigger] w.node_grows_into(w2, q) by {
        assert(w.nodes[q].children.is_prefix_of(w2.nodes[q].children));
        if q == i {
            let c1 = w.nodes[i].kind->Text_content;
            assert(c1 =~= c1.push(c).subrange(0, c1.len() as int));
            assert(c1.is_prefix_of(c1.push(c)));
        } else {
            match w.nodes[q].kind {
                NodeKindModel::Text { content } => {
                    assert(content.is_prefix_of(content));
                },
                NodeKindModel::Element { .. } => {},
            }
        }
    }
}

/// Growth is reflexive: a document grows into itself.
pub proof fn lemma_grows_refl(w: WindowModel)
    ensures
        w.grows_into(w),
{
    assert forall|i: int| 0 <= i < w.nodes.len() implies #[trigger] w.node_grows_into(w, i) by {
        assert(w.nodes[i].children.is_prefix_of(w.nodes[i].children));
        match w.nodes[i].kind {
            NodeKindModel::Text { content } => {
                assert(content.is_prefix_of(content));
            },
            NodeKindModel::Element { .. } => {},
        }
    }
}

/// Growth composes: what grows into a second document that grows into a
/// third grows into the third.
pub proof fn lemma_grows_trans(w1: WindowModel, w2: WindowModel, w3: WindowModel)
    requires
        w1.grows_into(w2),
        w2.grows_into(w3),
    ensures
        w1.grows_into(w3),
{
    assert forall|i: int| 0 <= i < w1.nodes.len() implies #[trigger] w1.node_grows_into(w3, i) by {
        assert(w1.node_grows_into(w2, i));
        assert(w2.node_grows_into(w3, i));
        assert(w1.nodes[i].children.is_prefix_of(w3.nodes[i].children));
        match (w1.nodes[i].kind, w2.nodes[i].kind, w3.nodes[i].kind) {
            (
                NodeKindModel::Text { content: c1 },
                NodeKindModel::Text { content: c2 },
                NodeKindModel::Text { content: c3 },
            ) => {
                assert(c1.is_prefix_of(c3));
            },
            _ => {},
        }
    }
}

} // verus!
