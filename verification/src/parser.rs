//! The insertion-mode state machine: for each token, given the active mode,
//! decide tree mutations and the next mode, possibly reprocessing the same
//! token under the new mode without consuming a new one.
//!
//! The whole machine is stated twice: once as a mathematical transition
//! function over [`ParserModel`] ([`step_m`], [`parse_m`]), and once as the
//! executable builder, which is proved to compute exactly what the model
//! says.

use crate::dom::NodeKind;
use crate::dom::NodeKindModel;
use crate::dom::NodeModel;
use crate::dom::Window;
use crate::dom::WindowModel;
use crate::token::AttrModel;
use crate::token::Attribute;
use crate::token::HtmlToken;
use crate::token::HtmlTokenizer;
use crate::token::TokenModel;
use vstd::prelude::*;

verus! {

/// The tree builder's state: exactly one mode is active at a time.
/// `Text` is the one sub-mode that must restore its caller's mode on exit;
/// the slot it restores from is the parser's `original_insertion_mode`.
#[derive(Debug, Copy, Clone, PartialEq, Eq, Structural)]
pub enum InsertionMode {
    Initial,
    BeforeHtml,
    BeforeHead,
    InHead,
    AfterHead,
    InBody,
    Text,
    AfterBody,
    AfterAfterBody,
}

/// Mathematical image of the builder between two tokens: the active and
/// saved modes, the stack of open elements (arena indices, bottom first),
/// and the document built so far.
pub struct ParserModel {
    pub mode: InsertionMode,
    pub original_mode: InsertionMode,
    pub open_elements: Seq<int>,
    pub window: WindowModel,
}

/// What one dispatch of the machine did with the token it was given.
pub enum StepModel {
    /// End of the parse: the document as built is the result.
    Finished,
    /// The token was consumed; the machine moved to this state.
    Consumed(ParserModel),
    /// The machine switched state without consuming the token, which must
    /// be handled again, unchanged, by the new mode.
    Reprocessed(ParserModel),
}

/// Rank used to show that reprocessing cannot go on forever: every mode
/// switch that keeps the same token strictly lowers the rank of the mode.
pub open spec fn mode_rank(m: InsertionMode) -> nat {
    match m {
        InsertionMode::Initial => 9,
        InsertionMode::BeforeHtml => 8,
        InsertionMode::BeforeHead => 7,
        InsertionMode::Text => 6,
        InsertionMode::InHead => 5,
        InsertionMode::AfterHead => 4,
        InsertionMode::AfterBody => 3,
        InsertionMode::AfterAfterBody => 2,
        InsertionMode::InBody => 1,
    }
}

/// The tag name of an element node (arbitrary for a text node).
pub open spec fn elem_tag(n: NodeModel) -> Seq<char> {
    n.kind->Element_tag
}

/// A space or newline character token: the only tokens the leading modes
/// discard silently.
pub open spec fn is_blank(t: TokenModel) -> bool {
    match t {
        TokenModel::Char { ch } => ch == ' ' || ch == '\n',
        _ => false,
    }
}

impl ParserModel {
    /// A fresh builder: empty document, empty stack, `Initial` mode.
    pub open spec fn init() -> ParserModel {
        ParserModel {
            mode: InsertionMode::Initial,
            original_mode: InsertionMode::Initial,
            open_elements: Seq::empty(),
            window: WindowModel::empty(),
        }
    }

    /// The insertion target: the topmost open element.
    pub open spec fn current(self) -> int {
        self.open_elements.last()
    }

    /// Insert a fresh element: as the document element if nothing is open
    /// yet, else as the last child of the current node; `keep_open` pushes
    /// it onto the stack of open elements.
    pub open spec fn insert_element_m(
        self,
        tag: Seq<char>,
        attributes: Seq<AttrModel>,
        keep_open: bool,
    ) -> ParserModel {
        let idx = self.window.nodes.len() as int;
        let w2 = if self.open_elements.len() == 0 {
            WindowModel {
                nodes: self.window.nodes.push(NodeModel::detached_element(tag, attributes)),
                document_element: Option::Some(idx),
            }
        } else {
            let p = self.current();
            let w1 = WindowModel {
                nodes: self.window.nodes.push(NodeModel::detached_element(tag, attributes)),
                document_element: self.window.document_element,
            };
            WindowModel {
                nodes: w1.nodes.update(
                    p,
                    NodeModel { children: w1.nodes[p].children.push(idx), ..w1.nodes[p] },
                ).update(idx, NodeModel { parent: Option::Some(p), ..w1.nodes[idx] }),
                document_element: w1.document_element,
            }
        };
        ParserModel {
            open_elements: if keep_open {
                self.open_elements.push(idx)
            } else {
                self.open_elements
            },
            window: w2,
            ..self
        }
    }

    /// Insert one character of text under the current node, coalescing it
    /// into the preceding sibling when that sibling is already a text run.
    /// With nothing open the character has nowhere to go and is dropped.
    pub open spec fn insert_char_m(self, c: char) -> ParserModel {
        if self.open_elements.len() == 0 {
            self
        } else {
            let p = self.current();
            let siblings = self.window.nodes[p].children;
            if siblings.len() > 0 && self.window.nodes[siblings.last()].kind is Text {
                let i = siblings.last();
                ParserModel {
                    window: WindowModel {
                        nodes: self.window.nodes.update(
                            i,
                            NodeModel {
                                kind: NodeKindModel::Text {
                                    content: self.window.nodes[i].kind->Text_content.push(c),
                                },
                                ..self.window.nodes[i]
                            },
                        ),
                        document_element: self.window.document_element,
                    },
                    ..self
                }
            } else {
                let idx = self.window.nodes.len() as int;
                let w1 = WindowModel {
                    nodes: self.window.nodes.push(NodeModel::detached_text(seq![c])),
                    document_element: self.window.document_element,
                };
                ParserModel {
                    window: WindowModel {
                        nodes: w1.nodes.update(
                            p,
                            NodeModel { children: w1.nodes[p].children.push(idx), ..w1.nodes[p] },
                        ).update(idx, NodeModel { parent: Option::Some(p), ..w1.nodes[idx] }),
                        document_element: w1.document_element,
                    },
                    ..self
                }
            }
        }
    }

    /// Close the current node: pop the top of the stack of open elements.
    pub open spec fn pop_m(self) -> ParserModel {
        if self.open_elements.len() == 0 {
            self
        } else {
            ParserModel { open_elements: self.open_elements.drop_last(), ..self }
        }
    }

    /// Same state in another mode.
    pub open spec fn in_mode(self, m: InsertionMode) -> ParserModel {
        ParserModel { mode: m, ..self }
    }
}

/// One dispatch of the insertion-mode machine on one token.
pub open spec fn step_m(s: ParserModel, t: TokenModel) -> StepModel {
    match s.mode {
        // Leading whitespace character tokens are skipped; anything else
        // belongs to BeforeHtml.
        InsertionMode::Initial => match t {
            TokenModel::Char { ch } => {
                if ch == ' ' || ch == '\n' {
                    StepModel::Consumed(s)
                } else {
                    StepModel::Reprocessed(s.in_mode(InsertionMode::BeforeHtml))
                }
            },
            _ => StepModel::Reprocessed(s.in_mode(InsertionMode::BeforeHtml)),
        },
        // Establish the html document element, explicitly or implicitly:
        // even end of input synthesizes the root, so no stream that reaches
        // this mode ends rootless.
        InsertionMode::BeforeHtml => match t {
            TokenModel::Char { ch } => {
                if ch == ' ' || ch == '\n' {
                    StepModel::Consumed(s)
                } else {
                    StepModel::Reprocessed(
                        s.insert_element_m("html"@, Seq::empty(), true).in_mode(
                            InsertionMode::BeforeHead,
                        ),
                    )
                }
            },
            TokenModel::StartTag { tag, attributes, .. } => {
                if tag == "html"@ {
                    StepModel::Consumed(
                        s.insert_element_m(tag, attributes, true).in_mode(
                            InsertionMode::BeforeHead,
                        ),
                    )
                } else {
                    StepModel::Reprocessed(
                        s.insert_element_m("html"@, Seq::empty(), true).in_mode(
                            InsertionMode::BeforeHead,
                        ),
                    )
                }
            },
            TokenModel::Eof => StepModel::Reprocessed(
                s.insert_element_m("html"@, Seq::empty(), true).in_mode(InsertionMode::BeforeHead),
            ),
            TokenModel::EndTag { .. } => StepModel::Reprocessed(
                s.insert_element_m("html"@, Seq::empty(), true).in_mode(InsertionMode::BeforeHead),
            ),
        },
        // Establish the head element on the first meaningful token.
        InsertionMode::BeforeHead => match t {
            TokenModel::Char { ch } => {
                if ch == ' ' || ch == '\n' {
                    StepModel::Consumed(s)
                } else {
                    StepModel::Reprocessed(
                        s.insert_element_m("head"@, Seq::empty(), true).in_mode(
                            InsertionMode::InHead,
                        ),
                    )
                }
            },
            TokenModel::StartTag { tag, attributes, .. } => {
                if tag == "head"@ {
                    StepModel::Consumed(
                        s.insert_element_m(tag, attributes, true).in_mode(InsertionMode::InHead),
                    )
                } else {
                    StepModel::Reprocessed(
                        s.insert_element_m("head"@, Seq::empty(), true).in_mode(
                            InsertionMode::InHead,
                        ),
                    )
                }
            },
            TokenModel::Eof => StepModel::Finished,
            TokenModel::EndTag { .. } => StepModel::Reprocessed(
                s.insert_element_m("head"@, Seq::empty(), true).in_mode(InsertionMode::InHead),
            ),
        },
        // Head-only content; anything else ends the head implicitly.
        InsertionMode::InHead => match t {
            TokenModel::Char { ch } => {
                if ch == ' ' || ch == '\n' {
                    StepModel::Consumed(s)
                } else {
                    StepModel::Reprocessed(s.pop_m().in_mode(InsertionMode::AfterHead))
                }
            },
            TokenModel::StartTag { tag, attributes, .. } => {
                if tag == "title"@ {
                    StepModel::Consumed(
                        ParserModel {
                            original_mode: InsertionMode::InHead,
                            ..s.insert_element_m(tag, attributes, true)
                        }.in_mode(InsertionMode::Text),
                    )
                } else if tag == "meta"@ {
                    StepModel::Consumed(s.insert_element_m(tag, attributes, false))
                } else {
                    StepModel::Reprocessed(s.pop_m().in_mode(InsertionMode::AfterHead))
                }
            },
            TokenModel::EndTag { tag } => {
                if tag == "head"@ {
                    StepModel::Consumed(s.pop_m().in_mode(InsertionMode::AfterHead))
                } else {
                    StepModel::Reprocessed(s.pop_m().in_mode(InsertionMode::AfterHead))
                }
            },
            TokenModel::Eof => StepModel::Finished,
        },
        // Establish the body element on the first meaningful token.
        InsertionMode::AfterHead => match t {
            TokenModel::Char { ch } => {
                if ch == ' ' || ch == '\n' {
                    StepModel::Consumed(s)
                } else {
                    StepModel::Reprocessed(
                        s.insert_element_m("body"@, Seq::empty(), true).in_mode(
                            InsertionMode::InBody,
                        ),
                    )
                }
            },
            TokenModel::StartTag { tag, attributes, .. } => {
                if tag == "body"@ {
                    StepModel::Consumed(
                        s.insert_element_m(tag, attributes, true).in_mode(InsertionMode::InBody),
                    )
                } else {
                    StepModel::Reprocessed(
                        s.insert_element_m("body"@, Seq::empty(), true).in_mode(
                            InsertionMode::InBody,
                        ),
                    )
                }
            },
            TokenModel::Eof => StepModel::Finished,
            TokenModel::EndTag { .. } => StepModel::Reprocessed(
                s.insert_element_m("body"@, Seq::empty(), true).in_mode(InsertionMode::InBody),
            ),
        },
        // Generic element and text insertion under the current node.
        InsertionMode::InBody => match t {
            TokenModel::Char { ch } => StepModel::Consumed(s.insert_char_m(ch)),
            TokenModel::StartTag { tag, self_closing, attributes } => StepModel::Consumed(
                s.insert_element_m(tag, attributes, !self_closing),
            ),
            TokenModel::EndTag { tag } => {
                if tag == "html"@ || tag == "body"@ {
                    StepModel::Consumed(s.in_mode(InsertionMode::AfterBody))
                } else if s.open_elements.len() > 1 && elem_tag(s.window.nodes[s.current()])
                    == tag {
                    StepModel::Consumed(s.pop_m())
                } else {
                    StepModel::Consumed(s)
                }
            },
            TokenModel::Eof => StepModel::Finished,
        },
        // Accumulate character tokens under the current node until an end
        // tag, then restore the saved mode.
        InsertionMode::Text => match t {
            TokenModel::Char { ch } => StepModel::Consumed(s.insert_char_m(ch)),
            TokenModel::EndTag { .. } => StepModel::Consumed(s.pop_m().in_mode(s.original_mode)),
            TokenModel::StartTag { .. } => StepModel::Reprocessed(
                s.pop_m().in_mode(s.original_mode),
            ),
            TokenModel::Eof => StepModel::Finished,
        },
        // Trailing whitespace is ignored; anything meaningful reopens the
        // body.
        InsertionMode::AfterBody => match t {
            TokenModel::Char { ch } => {
                if ch == ' ' || ch == '\n' {
                    StepModel::Consumed(s)
                } else {
                    StepModel::Reprocessed(s.in_mode(InsertionMode::InBody))
                }
            },
            TokenModel::EndTag { tag } => {
                if tag == "html"@ {
                    StepModel::Consumed(s.in_mode(InsertionMode::AfterAfterBody))
                } else {
                    StepModel::Reprocessed(s.in_mode(InsertionMode::InBody))
                }
            },
            TokenModel::Eof => StepModel::Finished,
            TokenModel::StartTag { .. } => StepModel::Reprocessed(s.in_mode(InsertionMode::InBody)),
        },
        InsertionMode::AfterAfterBody => match t {
            TokenModel::Char { ch } => {
                if ch == ' ' || ch == '\n' {
                    StepModel::Consumed(s)
                } else {
                    StepModel::Reprocessed(s.in_mode(InsertionMode::InBody))
                }
            },
            TokenModel::Eof => StepModel::Finished,
            _ => StepModel::Reprocessed(s.in_mode(InsertionMode::InBody)),
        },
    }
}

/// What the whole machine makes of a token stream from a given state: the
/// document held when the stream ends, an `Eof` is dispatched, or — as a
/// totality guard that reachable states never hit — a reprocessing switch
/// fails to lower the mode rank.
pub open spec fn parse_m(s: ParserModel, toks: Seq<TokenModel>) -> WindowModel
    decreases toks.len(), mode_rank(s.mode),
{
    if toks.len() == 0 {
        s.window
    } else {
        match step_m(s, toks[0]) {
            StepModel::Finished => s.window,
            StepModel::Consumed(s2) => parse_m(s2, toks.drop_first()),
            StepModel::Reprocessed(s2) => {
                if mode_rank(s2.mode) < mode_rank(s.mode) {
                    parse_m(s2, toks)
                } else {
                    s.window
                }
            },
        }
    }
}

/// Every parentless node is the document element and the other way round:
/// the tree has exactly one root once one exists, and none before.
pub open spec fn rooted(w: WindowModel) -> bool {
    forall|i: int|
        0 <= i < w.nodes.len() ==> ((#[trigger] w.nodes[i].parent) is None <==> w.document_element
            == Option::Some(i))
}

/// The stack of open elements is a chain from the document element down:
/// every entry is a live element, the bottom is the parentless document
/// element, and each entry is the parent of the one above it.
pub open spec fn stack_ok(s: ParserModel) -> bool {
    let st = s.open_elements;
    let w = s.window;
    &&& (forall|k: int|
        0 <= k < st.len() ==> 0 <= #[trigger] st[k] < w.nodes.len() && w.nodes[st[k]].kind
            is Element)
    &&& (st.len() > 0 ==> w.nodes[st[0]].parent is None && w.document_element == Option::Some(
        st[0],
    ))
    &&& (forall|k: int|
        1 <= k < st.len() ==> w.nodes[#[trigger] st[k]].parent == Option::Some(st[k - 1]))
}

/// The mode-independent part of the builder's invariant.
pub open spec fn inv_core(s: ParserModel) -> bool {
    &&& s.window.wf()
    &&& rooted(s.window)
    &&& stack_ok(s)
}

/// The builder's invariant between two tokens: the structural facts of
/// [`inv_core`], plus the stack shape each mode's rules count on.
pub open spec fn inv(s: ParserModel) -> bool {
    &&& inv_core(s)
    &&& (match s.mode {
        InsertionMode::Initial | InsertionMode::BeforeHtml => s.open_elements.len() == 0
            && s.window.nodes.len() == 0 && s.window.document_element is None,
        InsertionMode::BeforeHead | InsertionMode::AfterHead | InsertionMode::InBody
        | InsertionMode::AfterBody | InsertionMode::AfterAfterBody => s.open_elements.len() >= 1,
        InsertionMode::InHead => s.open_elements.len() >= 2,
        InsertionMode::Text => s.open_elements.len() >= 3 && s.original_mode
            == InsertionMode::InHead,
    })
}

/// Inserting an element preserves the structural invariant and only grows
/// the document; the fresh element ends up where `insert_element_m` says.
pub proof fn lemma_insert_element_inv(
    s: ParserModel,
    tag: Seq<char>,
    attributes: Seq<AttrModel>,
    keep_open: bool,
)
    requires
        inv_core(s),
        s.open_elements.len() == 0 ==> s.window.document_element is None,
    ensures
        ({
            let idx = s.window.nodes.len() as int;
            let r = s.insert_element_m(tag, attributes, keep_open);
            &&& inv_core(r)
            &&& s.window.grows_into(r.window)
            &&& r.mode == s.mode
            &&& r.original_mode == s.original_mode
            &&& r.open_elements == (if keep_open {
                s.open_elements.push(idx)
            } else {
                s.open_elements
            })
            &&& r.window.nodes.len() == s.window.nodes.len() + 1
            &&& r.window.nodes[idx].kind == (NodeKindModel::Element { tag, attributes })
            &&& r.window.document_element == (if s.open_elements.len() == 0 {
                Option::Some(idx)
            } else {
                s.window.document_element
            })
        }),
{
    let idx = s.window.nodes.len() as int;
    let node = NodeModel::detached_element(tag, attributes);
    let r = s.insert_element_m(tag, attributes, keep_open);
    let w1 = WindowModel {
        nodes: s.window.nodes.push(node),
        document_element: s.window.document_element,
    };
    crate::dom::lemma_detached_push_wf(s.window, node);
    if s.open_elements.len() == 0 {
        crate::dom::lemma_set_document_wf(w1, idx);
        crate::dom::lemma_grows_trans(s.window, w1, r.window);
        assert(rooted(r.window)) by {
            assert forall|i: int| 0 <= i < r.window.nodes.len() implies ((
            #[trigger] r.window.nodes[i].parent) is None <==> r.window.document_element
                == Option::Some(i)) by {
                if i < idx {
                    assert(r.window.nodes[i] == s.window.nodes[i]);
                    assert(s.window.nodes[i].parent is None <==> s.window.document_element
                        == Option::Some(i));
                }
            }
        }
        assert(stack_ok(r));
    } else {
        let p = s.open_elements.last();
        assert(0 <= p < s.window.nodes.len());
        assert(s.window.document_element == Option::Some(s.open_elements[0]));
        assert(0 <= s.open_elements[0] < s.window.nodes.len());
        crate::dom::lemma_append_child_wf(w1, p, idx, r.window);
        crate::dom::lemma_grows_trans(s.window, w1, r.window);
        assert(rooted(r.window)) by {
            assert forall|i: int| 0 <= i < r.window.nodes.len() implies ((
            #[trigger] r.window.nodes[i].parent) is None <==> r.window.document_element
                == Option::Some(i)) by {
                if i < idx {
                    assert(r.window.nodes[i].parent == s.window.nodes[i].parent);
                    assert(s.window.nodes[i].parent is None <==> s.window.document_element
                        == Option::Some(i));
                } else {
                    assert(r.window.nodes[idx].parent == Option::Some(p));
                }
            }
        }
        assert(stack_ok(r)) by {
            let st2 = r.open_elements;
            assert forall|k: int| 0 <= k < st2.len() implies 0 <= #[trigger] st2[k]
                < r.window.nodes.len() && r.window.nodes[st2[k]].kind is Element by {
                if k < s.open_elements.len() {
                    assert(st2[k] == s.open_elements[k]);
                    assert(r.window.nodes[st2[k]].kind == s.window.nodes[st2[k]].kind);
                } else {
                    assert(st2[k] == idx);
                }
            }
            if st2.len() > 0 {
                assert(st2[0] == s.open_elements[0]);
                assert(r.window.nodes[st2[0]].parent == s.window.nodes[st2[0]].parent);
            }
            assert forall|k: int| 1 <= k < st2.len() implies r.window.nodes[
                #[trigger] st2[k]
            ].parent == Option::Some(st2[k - 1]) by {
                if k < s.open_elements.len() {
                    assert(st2[k] == s.open_elements[k]);
                    assert(st2[k - 1] == s.open_elements[k - 1]);
                    assert(s.window.nodes[st2[k]].parent == Option::Some(st2[k - 1]));
                    assert(st2[k] != idx && st2[k] != p || st2[k] == p);
                    assert(r.window.nodes[st2[k]].parent == s.window.nodes[st2[k]].parent);
                } else {
                    assert(st2[k] == idx);
                    assert(st2[k - 1] == s.open_elements.last());
                }
            }
        }
    }
}

/// Inserting one character of text preserves the structural invariant,
/// leaves the stack and the document element alone, and only grows the
/// document.
pub proof fn lemma_insert_char_inv(s: ParserModel, c: char)
    requires
        inv_core(s),
    ensures
        ({
            let r = s.insert_char_m(c);
            &&& inv_core(r)
            &&& s.window.grows_into(r.window)
            &&& r.mode == s.mode
            &&& r.original_mode == s.original_mode
            &&& r.open_elements == s.open_elements
            &&& r.window.document_element == s.window.document_element
        }),
{
    let r = s.insert_char_m(c);
    if s.open_elements.len() == 0 {
        crate::dom::lemma_grows_refl(s.window);
    } else {
        let p = s.current();
        assert(0 <= p < s.window.nodes.len());
        assert(s.window.document_element == Option::Some(s.open_elements[0]));
        assert(0 <= s.open_elements[0] < s.window.nodes.len());
        let siblings = s.window.nodes[p].children;
        if siblings.len() > 0 && s.window.nodes[siblings.last()].kind is Text {
            let i = siblings.last();
            assert(s.window.node_ok(p));
            assert(0 <= i < s.window.nodes.len());
            crate::dom::lemma_text_extend_wf(s.window, i, c);
            assert(rooted(r.window)) by {
                assert forall|q: int| 0 <= q < r.window.nodes.len() implies ((
                #[trigger] r.window.nodes[q].parent) is None <==> r.window.document_element
                    == Option::Some(q)) by {
                    assert(r.window.nodes[q].parent == s.window.nodes[q].parent);
                    assert(s.window.nodes[q].parent is None <==> s.window.document_element
                        == Option::Some(q));
                }
            }
            assert(stack_ok(r)) by {
                let st = r.open_elements;
                assert forall|k: int| 0 <= k < st.len() implies 0 <= #[trigger] st[k]
                    < r.window.nodes.len() && r.window.nodes[st[k]].kind is Element by {
                    assert(s.window.nodes[st[k]].kind is Element);
                    assert(st[k] != i);
                }
                if st.len() > 0 {
                    assert(r.window.nodes[st[0]].parent == s.window.nodes[st[0]].parent);
                }
                assert forall|k: int| 1 <= k < st.len() implies r.window.nodes[
                    #[trigger] st[k]
                ].parent == Option::Some(st[k - 1]) by {
                    assert(s.window.nodes[st[k]].parent == Option::Some(st[k - 1]));
                    assert(r.window.nodes[st[k]].parent == s.window.nodes[st[k]].parent);
                }
            }
        } else {
            let idx = s.window.nodes.len() as int;
            let node = NodeModel::detached_text(seq![c]);
            let w1 = WindowModel {
                nodes: s.window.nodes.push(node),
                document_element: s.window.document_element,
            };
            crate::dom::lemma_detached_push_wf(s.window, node);
            crate::dom::lemma_append_child_wf(w1, p, idx, r.window);
            crate::dom::lemma_grows_trans(s.window, w1, r.window);
            assert(rooted(r.window)) by {
                assert forall|q: int| 0 <= q < r.window.nodes.len() implies ((
                #[trigger] r.window.nodes[q].parent) is None <==> r.window.document_element
                    == Option::Some(q)) by {
                    if q < idx {
                        assert(r.window.nodes[q].parent == s.window.nodes[q].parent);
                        assert(s.window.nodes[q].parent is None <==> s.window.document_element
                            == Option::Some(q));
                    } else {
                        assert(r.window.nodes[idx].parent == Option::Some(p));
                    }
                }
            }
            assert(stack_ok(r)) by {
                let st = r.open_elements;
                assert forall|k: int| 0 <= k < st.len() implies 0 <= #[trigger] st[k]
                    < r.window.nodes.len() && r.window.nodes[st[k]].kind is Element by {
                    assert(s.window.nodes[st[k]].kind is Element);
                    assert(r.window.nodes[st[k]].kind == s.window.nodes[st[k]].kind);
                }
                if st.len() > 0 {
                    assert(r.window.nodes[st[0]].parent == s.window.nodes[st[0]].parent);
                }
                assert forall|k: int| 1 <= k < st.len() implies r.window.nodes[
                    #[trigger] st[k]
                ].parent == Option::Some(st[k - 1]) by {
                    assert(s.window.nodes[st[k]].parent == Option::Some(st[k - 1]));
                    assert(r.window.nodes[st[k]].parent == s.window.nodes[st[k]].parent);
                }
            }
        }
    }
}

/// Closing the current node preserves the structural invariant and leaves
/// the document alone.
pub proof fn lemma_pop_inv(s: ParserModel)
    requires
        inv_core(s),
    ensures
        ({
            let r = s.pop_m();
            &&& inv_core(r)
            &&& r.window == s.window
            &&& r.mode == s.mode
            &&& r.original_mode == s.original_mode
            &&& r.open_elements.len() == (if s.open_elements.len() == 0 {
                0int
            } else {
                s.open_elements.len() - 1
            })
        }),
{
    let r = s.pop_m();
    if s.open_elements.len() > 0 {
        let st = r.open_elements;
        assert forall|k: int| 0 <= k < st.len() implies 0 <= #[trigger] st[k]
            < r.window.nodes.len() && r.window.nodes[st[k]].kind is Element by {
            assert(st[k] == s.open_elements[k]);
        }
        assert forall|k: int| 1 <= k < st.len() implies r.window.nodes[#[trigger] st[k]].parent
            == Option::Some(st[k - 1]) by {
            assert(st[k] == s.open_elements[k]);
            assert(st[k - 1] == s.open_elements[k - 1]);
        }
        if st.len() > 0 {
            assert(st[0] == s.open_elements[0]);
        }
    }
}

/// One dispatch preserves the builder's invariant and only grows the
/// document; a reprocessing switch strictly lowers the mode rank, so a
/// token can only be redirected finitely often.
pub proof fn lemma_step_inv(s: ParserModel, t: TokenModel)
    requires
        inv(s),
    ensures
        match step_m(s, t) {
            StepModel::Finished => true,
            StepModel::Consumed(s2) => inv(s2) && s.window.grows_into(s2.window),
            StepModel::Reprocessed(s2) => inv(s2) && s.window.grows_into(s2.window) && mode_rank(
                s2.mode,
            ) < mode_rank(s.mode),
        },
{
    match step_m(s, t) {
        StepModel::Finished => {},
        StepModel::Consumed(s2) => {
            lemma_step_inv_target(s, t, s2);
        },
        StepModel::Reprocessed(s2) => {
            lemma_step_inv_target(s, t, s2);
        },
    }
}

/// The case analysis behind [`lemma_step_inv`].
proof fn lemma_step_inv_target(s: ParserModel, t: TokenModel, s2: ParserModel)
    requires
        inv(s),
        step_m(s, t) == StepModel::Consumed(s2) || step_m(s, t) == StepModel::Reprocessed(s2),
    ensures
        inv(s2),
        s.window.grows_into(s2.window),
        step_m(s, t) == StepModel::Reprocessed(s2) ==> mode_rank(s2.mode) < mode_rank(s.mode),
{
    match s.mode {
        InsertionMode::Initial => {
            crate::dom::lemma_grows_refl(s.window);
        },
        InsertionMode::BeforeHtml => {
            match t {
                TokenModel::Char { ch } => {
                    if ch == ' ' || ch == '\n' {
                        crate::dom::lemma_grows_refl(s.window);
                    } else {
                        lemma_insert_element_inv(s, "html"@, Seq::empty(), true);
                    }
                },
                TokenModel::StartTag { tag, attributes, .. } => {
                    if tag == "html"@ {
                        lemma_insert_element_inv(s, tag, attributes, true);
                    } else {
                        lemma_insert_element_inv(s, "html"@, Seq::empty(), true);
                    }
                },
                TokenModel::EndTag { .. } => {
                    lemma_insert_element_inv(s, "html"@, Seq::empty(), true);
                },
                TokenModel::Eof => {
                    lemma_insert_element_inv(s, "html"@, Seq::empty(), true);
                },
            }
        },
        InsertionMode::BeforeHead => {
            match t {
                TokenModel::Char { ch } => {
                    if ch == ' ' || ch == '\n' {
                        crate::dom::lemma_grows_refl(s.window);
                    } else {
                        lemma_insert_element_inv(s, "head"@, Seq::empty(), true);
                    }
                },
                TokenModel::StartTag { tag, attributes, .. } => {
                    if tag == "head"@ {
                        lemma_insert_element_inv(s, tag, attributes, true);
                    } else {
                        lemma_insert_element_inv(s, "head"@, Seq::empty(), true);
                    }
                },
                TokenModel::EndTag { .. } => {
                    lemma_insert_element_inv(s, "head"@, Seq::empty(), true);
                },
                TokenModel::Eof => {},
            }
        },
        InsertionMode::InHead => {
            match t {
                TokenModel::Char { ch } => {
                    if ch == ' ' || ch == '\n' {
                        crate::dom::lemma_grows_refl(s.window);
                    } else {
                        lemma_pop_inv(s);
                        crate::dom::lemma_grows_refl(s.window);
                    }
                },
                TokenModel::StartTag { tag, attributes, .. } => {
                    if tag == "title"@ {
                        lemma_insert_element_inv(s, tag, attributes, true);
                    } else if tag == "meta"@ {
                        lemma_insert_element_inv(s, tag, attributes, false);
                    } else {
                        lemma_pop_inv(s);
                        crate::dom::lemma_grows_refl(s.window);
                    }
                },
                TokenModel::EndTag { .. } => {
                    lemma_pop_inv(s);
                    crate::dom::lemma_grows_refl(s.window);
                },
                TokenModel::Eof => {},
            }
        },
        InsertionMode::AfterHead => {
            match t {
                TokenModel::Char { ch } => {
                    if ch == ' ' || ch == '\n' {
                        crate::dom::lemma_grows_refl(s.window);
                    } else {
                        lemma_insert_element_inv(s, "body"@, Seq::empty(), true);
                    }
                },
                TokenModel::StartTag { tag, attributes, .. } => {
                    if tag == "body"@ {
                        lemma_insert_element_inv(s, tag, attributes, true);
                    } else {
                        lemma_insert_element_inv(s, "body"@, Seq::empty(), true);
                    }
                },
                TokenModel::EndTag { .. } => {
                    lemma_insert_element_inv(s, "body"@, Seq::empty(), true);
                },
                TokenModel::Eof => {},
            }
        },
        InsertionMode::InBody => {
            match t {
                TokenModel::Char { ch } => {
                    lemma_insert_char_inv(s, ch);
                },
                TokenModel::StartTag { tag, self_closing, attributes } => {
                    lemma_insert_element_inv(s, tag, attributes, !self_closing);
                },
                TokenModel::EndTag { .. } => {
                    lemma_pop_inv(s);
                    crate::dom::lemma_grows_refl(s.window);
                },
                TokenModel::Eof => {},
            }
        },
        InsertionMode::Text => {
            match t {
                TokenModel::Char { ch } => {
                    lemma_insert_char_inv(s, ch);
                },
                TokenModel::EndTag { .. } | TokenModel::StartTag { .. } => {
                    lemma_pop_inv(s);
                    crate::dom::lemma_grows_refl(s.window);
                },
                TokenModel::Eof => {},
            }
        },
        InsertionMode::AfterBody | InsertionMode::AfterAfterBody => {
            crate::dom::lemma_grows_refl(s.window);
        },
    }
}

/// The tree never shrinks during a parse: from any invariant state, the
/// document only grows into the final result, which is again a well-formed,
/// singly-rooted tree. Since the state is arbitrary, this holds at every
/// point of the parse, not only at its start.
pub proof fn lemma_parse_only_grows(s: ParserModel, toks: Seq<TokenModel>)
    requires
        inv(s),
    ensures
        s.window.grows_into(parse_m(s, toks)),
        parse_m(s, toks).wf(),
        rooted(parse_m(s, toks)),
    decreases toks.len(), mode_rank(s.mode),
{
    if toks.len() == 0 {
        crate::dom::lemma_grows_refl(s.window);
    } else {
        lemma_step_inv(s, toks[0]);
        match step_m(s, toks[0]) {
            StepModel::Finished => {
                crate::dom::lemma_grows_refl(s.window);
            },
            StepModel::Consumed(s2) => {
                lemma_parse_only_grows(s2, toks.drop_first());
                crate::dom::lemma_grows_trans(
                    s.window,
                    s2.window,
                    parse_m(s2, toks.drop_first()),
                );
            },
            StepModel::Reprocessed(s2) => {
                lemma_parse_only_grows(s2, toks);
                crate::dom::lemma_grows_trans(s.window, s2.window, parse_m(s2, toks));
            },
        }
    }
}

/// A token that switched the mode without being consumed is seen again,
/// unchanged, by the new mode: the parse from the old state is the parse
/// from the switched state on the very same stream.
pub proof fn lemma_reprocessed_token_reseen(s: ParserModel, toks: Seq<TokenModel>)
    requires
        inv(s),
        toks.len() > 0,
        step_m(s, toks[0]) is Reprocessed,
    ensures
        parse_m(s, toks) == parse_m(step_m(s, toks[0])->Reprocessed_0, toks),
{
    lemma_step_inv(s, toks[0]);
}

/// Each open element sits one level deeper in the tree than the one below
/// it on the stack: entry `k` (from the bottom) has depth `k + 1`.
pub proof fn lemma_stack_depth(s: ParserModel, k: int)
    requires
        inv(s),
        0 <= k < s.open_elements.len(),
    ensures
        s.window.depth_of(s.open_elements[k]) == k + 1,
    decreases k,
{
    if k == 0 {
        assert(s.window.nodes[s.open_elements[0]].parent is None);
    } else {
        lemma_stack_depth(s, k - 1);
        assert(s.window.nodes[s.open_elements[k]].parent == Option::Some(s.open_elements[k - 1]));
    }
}

/// The open-elements stack length always equals the tree depth of its top
/// element, counted from the document element.
pub proof fn lemma_stack_depth_correspondence(s: ParserModel)
    requires
        inv(s),
        s.open_elements.len() > 0,
    ensures
        s.window.depth_of(s.current()) == s.open_elements.len(),
{
    lemma_stack_depth(s, s.open_elements.len() - 1);
}

/// The document element exists, is the unique parentless node, and carries
/// the tag `html`.
pub open spec fn has_html_root(w: WindowModel) -> bool {
    &&& w.document_element matches Option::Some(r)
    &&& 0 <= w.document_element->Some_0 < w.nodes.len()
    &&& w.nodes[w.document_element->Some_0].parent is None
    &&& w.nodes[w.document_element->Some_0].kind matches NodeKindModel::Element { tag, .. }
        && tag == "html"@
}

/// An html document element, once present, survives the rest of the parse.
pub proof fn lemma_root_persists(s: ParserModel, toks: Seq<TokenModel>)
    requires
        inv(s),
        has_html_root(s.window),
    ensures
        has_html_root(parse_m(s, toks)),
        rooted(parse_m(s, toks)),
{
    lemma_parse_only_grows(s, toks);
    let w2 = parse_m(s, toks);
    let r = s.window.document_element->Some_0;
    assert(s.window.node_grows_into(w2, r));
}

/// From a state that has no root yet, a stream whose tokens up to `i` are
/// whitespace and whose token at `i` is anything else — a tag, a text
/// character, or the end of the input — always produces an html document
/// element.
proof fn lemma_root_created(s: ParserModel, toks: Seq<TokenModel>, i: int)
    requires
        inv(s),
        s.mode == InsertionMode::Initial || s.mode == InsertionMode::BeforeHtml,
        0 <= i < toks.len(),
        !is_blank(toks[i]),
        forall|j: int| 0 <= j < i ==> is_blank(#[trigger] toks[j]),
    ensures
        has_html_root(parse_m(s, toks)),
        rooted(parse_m(s, toks)),
    decreases toks.len(), mode_rank(s.mode),
{
    lemma_step_inv(s, toks[0]);
    match step_m(s, toks[0]) {
        StepModel::Finished => {
            // Neither leading mode ever finishes: even Eof synthesizes.
            assert(false);
        },
        StepModel::Consumed(s2) => {
            if s2.mode == InsertionMode::Initial || s2.mode == InsertionMode::BeforeHtml {
                // A skipped whitespace token: the meaningful one is later.
                assert(is_blank(toks[0]));
                assert(i > 0);
                assert(!is_blank(toks.drop_first()[i - 1]));
                assert forall|j: int| 0 <= j < i - 1 implies is_blank(
                    #[trigger] toks.drop_first()[j],
                ) by {
                    assert(toks.drop_first()[j] == toks[j + 1]);
                }
                lemma_root_created(s2, toks.drop_first(), i - 1);
            } else {
                // The explicit `html` start tag inserted the root.
                assert(has_html_root(s2.window));
                lemma_root_persists(s2, toks.drop_first());
            }
        },
        StepModel::Reprocessed(s2) => {
            if s2.mode == InsertionMode::BeforeHtml {
                lemma_root_created(s2, toks, i);
            } else {
                // The root was synthesized before switching modes.
                assert(has_html_root(s2.window));
                lemma_root_persists(s2, toks);
            }
        },
    }
}

/// The least index holding a token that is not a whitespace character.
proof fn lemma_first_non_blank(toks: Seq<TokenModel>) -> (i: int)
    requires
        exists|k: int| 0 <= k < toks.len() && !is_blank(#[trigger] toks[k]),
    ensures
        0 <= i < toks.len(),
        !is_blank(toks[i]),
        forall|j: int| 0 <= j < i ==> is_blank(#[trigger] toks[j]),
    decreases toks.len(),
{
    let k = choose|k: int| 0 <= k < toks.len() && !is_blank(#[trigger] toks[k]);
    if !is_blank(toks[0]) {
        0
    } else {
        assert(k > 0);
        assert(!is_blank(toks.drop_first()[k - 1]));
        let i0 = lemma_first_non_blank(toks.drop_first());
        assert(!is_blank(toks[i0 + 1]));
        assert forall|j: int| 0 <= j < i0 + 1 implies is_blank(#[trigger] toks[j]) by {
            if j > 0 {
                assert(toks.drop_first()[j - 1] == toks[j]);
            }
        }
        i0 + 1
    }
}

/// Root existence: a token stream holding any token besides leading
/// whitespace — a tag, a text character, or the `Eof` terminator itself —
/// parses to a document with exactly one parentless node, an element
/// tagged `html`. Every stream terminating in `Eof` qualifies.
pub proof fn lemma_root_existence(toks: Seq<TokenModel>)
    requires
        exists|k: int| 0 <= k < toks.len() && !is_blank(#[trigger] toks[k]),
    ensures
        has_html_root(parse_m(ParserModel::init(), toks)),
        rooted(parse_m(ParserModel::init(), toks)),
        parse_m(ParserModel::init(), toks).wf(),
{
    let i = lemma_first_non_blank(toks);
    lemma_init_inv();
    lemma_root_created(ParserModel::init(), toks, i);
    lemma_parse_only_grows(ParserModel::init(), toks);
}

/// A whitespace-or-end token: what a whitespace-only stream terminated by
/// `Eof` is made of.
pub open spec fn blank_or_eof(t: TokenModel) -> bool {
    is_blank(t) || t is Eof
}

/// Once the root is in and the machine sits before the head, whitespace
/// and end-of-input leave the document exactly as it is.
proof fn lemma_before_head_blanks(s: ParserModel, toks: Seq<TokenModel>)
    requires
        inv(s),
        s.mode == InsertionMode::BeforeHead,
        forall|k: int| 0 <= k < toks.len() ==> blank_or_eof(#[trigger] toks[k]),
    ensures
        parse_m(s, toks) == s.window,
    decreases toks.len(),
{
    if toks.len() > 0 {
        assert(blank_or_eof(toks[0]));
        lemma_step_inv(s, toks[0]);
        match step_m(s, toks[0]) {
            StepModel::Finished => {},
            StepModel::Consumed(s2) => {
                assert(s2 == s);
                assert forall|k: int| 0 <= k < toks.drop_first().len() implies blank_or_eof(
                    #[trigger] toks.drop_first()[k],
                ) by {
                    assert(toks.drop_first()[k] == toks[k + 1]);
                }
                lemma_before_head_blanks(s2, toks.drop_first());
            },
            StepModel::Reprocessed(_) => {
                assert(false);
            },
        }
    }
}

/// From a rootless leading state, a stream of nothing but whitespace that
/// ends in `Eof` still synthesizes the html root — and nothing else: the
/// result is exactly the one-element document.
proof fn lemma_blanks_to_root(s: ParserModel, toks: Seq<TokenModel>)
    requires
        inv(s),
        s.mode == InsertionMode::Initial || s.mode == InsertionMode::BeforeHtml,
        forall|k: int| 0 <= k < toks.len() ==> blank_or_eof(#[trigger] toks[k]),
        exists|k: int| 0 <= k < toks.len() && (#[trigger] toks[k]) is Eof,
    ensures
        parse_m(s, toks).nodes == seq![NodeModel::detached_element("html"@, Seq::empty())],
        parse_m(s, toks).document_element == Option::Some(0int),
    decreases toks.len(), mode_rank(s.mode),
{
    let ke = choose|k: int| 0 <= k < toks.len() && (#[trigger] toks[k]) is Eof;
    lemma_step_inv(s, toks[0]);
    match step_m(s, toks[0]) {
        StepModel::Finished => {
            assert(false);
        },
        StepModel::Consumed(s2) => {
            // A skipped whitespace token; the Eof is later.
            assert(is_blank(toks[0]));
            assert(ke > 0);
            assert(toks.drop_first()[ke - 1] is Eof);
            assert forall|k: int| 0 <= k < toks.drop_first().len() implies blank_or_eof(
                #[trigger] toks.drop_first()[k],
            ) by {
                assert(toks.drop_first()[k] == toks[k + 1]);
            }
            lemma_blanks_to_root(s2, toks.drop_first());
        },
        StepModel::Reprocessed(s2) => {
            if s2.mode == InsertionMode::BeforeHtml {
                lemma_blanks_to_root(s2, toks);
            } else {
                // The Eof synthesized the root; BeforeHead ignores the rest.
                assert(toks[0] is Eof);
                assert(s.window.nodes.len() == 0);
                assert(s2.window.nodes =~= seq![
                    NodeModel::detached_element("html"@, Seq::empty()),
                ]);
                assert(s2.window.document_element == Option::Some(0int));
                lemma_before_head_blanks(s2, toks);
            }
        },
    }
}

/// Idempotent whitespace skipping: a stream of only space and newline
/// characters ending in `Eof` never leaves the tree rootless — it parses
/// to exactly the synthesized one-element `html` document, with no text
/// node inserted.
pub proof fn lemma_whitespace_never_leaves_rootless(toks: Seq<TokenModel>)
    requires
        forall|k: int| 0 <= k < toks.len() ==> blank_or_eof(#[trigger] toks[k]),
        exists|k: int| 0 <= k < toks.len() && (#[trigger] toks[k]) is Eof,
    ensures
        parse_m(ParserModel::init(), toks).nodes == seq![
            NodeModel::detached_element("html"@, Seq::empty()),
        ],
        parse_m(ParserModel::init(), toks).document_element == Option::Some(0int),
        has_html_root(parse_m(ParserModel::init(), toks)),
{
    lemma_init_inv();
    lemma_blanks_to_root(ParserModel::init(), toks);
}

/// A whitespace character token at the front of the stream, with the
/// machine still in `Initial` mode, is discarded without changing the
/// resulting tree: the parse of the rest is the parse of the whole.
pub proof fn lemma_leading_whitespace_skipped(s: ParserModel, toks: Seq<TokenModel>)
    requires
        s.mode == InsertionMode::Initial,
        toks.len() > 0,
        is_blank(toks[0]),
    ensures
        parse_m(s, toks) == parse_m(s, toks.drop_first()),
{
}

/// The fresh builder state satisfies the invariant.
pub proof fn lemma_init_inv()
    ensures
        inv(ParserModel::init()),
{
}

/// The tree builder: the document under construction, the active mode, the
/// saved mode for the `Text` sub-mode, the stack of open elements (arena
/// indices into the document), and the token source.
#[derive(Debug, Clone)]
pub struct HtmlParser {
    window: Window,
    mode: InsertionMode,
    original_insertion_mode: InsertionMode,
    stack_of_open_elements: Vec<usize>,
    t: HtmlTokenizer,
}

/// Whether a tag name is the given known name.
fn tag_is(tag: &String, name: &str) -> (b: bool)
    ensures
        b == (tag@ == name@),
{
    let owned: String = name.to_owned();
    tag.eq(&owned)
}

impl HtmlParser {
    /// Mathematical image of the builder between two tokens.
    pub closed spec fn state(&self) -> ParserModel {
        ParserModel {
            mode: self.mode,
            original_mode: self.original_insertion_mode,
            open_elements: self.stack_of_open_elements@.map_values(|k: usize| k as int),
            window: self.window@,
        }
    }

    /// The tokens the builder has not pulled yet.
    pub closed spec fn pending(&self) -> Seq<TokenModel> {
        self.t@
    }

    /// A fresh builder over the given token source: empty document, empty
    /// stack, `Initial` mode.
    pub fn new(t: HtmlTokenizer) -> (p: HtmlParser)
        ensures
            p.state() == ParserModel::init(),
            p.pending() == t@,
            inv(p.state()),
    {
        let p = HtmlParser {
            window: Window::new(),
            mode: InsertionMode::Initial,
            original_insertion_mode: InsertionMode::Initial,
            stack_of_open_elements: Vec::new(),
            t,
        };
        proof {
            assert(p.state().open_elements =~= Seq::<int>::empty());
        }
        p
    }

    /// Insert a fresh element at the place `insert_element_m` describes.
    fn insert_element(&mut self, tag: String, attributes: Vec<Attribute>, keep_open: bool)
        requires
            inv_core(old(self).state()),
            old(self).state().open_elements.len() == 0 ==> old(
                self,
            ).state().window.document_element is None,
        ensures
            final(self).state() == old(self).state().insert_element_m(
                tag@,
                attributes@.map_values(|a: Attribute| a@),
                keep_open,
            ),
            final(self).pending() == old(self).pending(),
    {
        let ghost s0 = self.state();
        let ghost target = s0.insert_element_m(
            tag@,
            attributes@.map_values(|a: Attribute| a@),
            keep_open,
        );
        let idx = self.window.create_element(tag, attributes);
        if self.stack_of_open_elements.len() == 0 {
            self.window.set_document_element(idx);
        } else {
            let p = self.stack_of_open_elements[self.stack_of_open_elements.len() - 1];
            proof {
                let last: int = s0.open_elements.len() - 1;
                assert(s0.open_elements[last] == p as int);
                assert(0 <= s0.open_elements[last] < s0.window.nodes.len());
                assert(s0.window.document_element == Option::Some(s0.open_elements[0]));
                assert(0 <= s0.open_elements[0] < s0.window.nodes.len());
            }
            self.window.append_child(p, idx);
        }
        if keep_open {
            self.stack_of_open_elements.push(idx);
        }
        proof {
            assert(self.state().window == target.window);
            assert(self.state().open_elements =~= target.open_elements);
            assert(self.state() == target);
        }
    }

    /// Insert one character of text as `insert_char_m` describes.
    fn insert_char(&mut self, c: char)
        requires
            inv_core(old(self).state()),
        ensures
            final(self).state() == old(self).state().insert_char_m(c),
            final(self).pending() == old(self).pending(),
    {
        let ghost s0 = self.state();
        let ghost target = s0.insert_char_m(c);
        if self.stack_of_open_elements.len() == 0 {
            return ;
        }
        let p = self.stack_of_open_elements[self.stack_of_open_elements.len() - 1];
        proof {
            let last: int = s0.open_elements.len() - 1;
            assert(s0.open_elements[last] == p as int);
            assert(0 <= s0.open_elements[last] < s0.window.nodes.len());
            assert(s0.window.document_element == Option::Some(s0.open_elements[0]));
            assert(0 <= s0.open_elements[0] < s0.window.nodes.len());
            assert(s0.window.node_ok(p as int));
        }
        let n_children = self.window.nodes[p].children.len();
        if n_children > 0 {
            let last_child = self.window.nodes[p].children[n_children - 1];
            proof {
                assert(s0.window.nodes[p as int].children[n_children - 1] == last_child as int);
                assert(s0.window.nodes[p as int].children.last() == last_child as int);
                assert(0 <= (last_child as int) < s0.window.nodes.len());
            }
            let coalesce = match &self.window.nodes[last_child].kind {
                NodeKind::Text { .. } => true,
                NodeKind::Element { .. } => false,
            };
            if coalesce {
                self.window.extend_text(last_child, c);
                proof {
                    assert(self.state().window == target.window);
                    assert(self.state() == target);
                }
                return ;
            }
        }
        let mut content: Vec<char> = Vec::new();
        content.push(c);
        proof {
            assert(content@ =~= seq![c]);
        }
        let idx = self.window.create_text(content);
        self.window.append_child(p, idx);
        proof {
            assert(self.state().window == target.window);
            assert(self.state() == target);
        }
    }

    /// Close the current node as `pop_m` describes.
    fn pop_current(&mut self)
        ensures
            final(self).state() == old(self).state().pop_m(),
            final(self).pending() == old(self).pending(),
    {
        if self.stack_of_open_elements.len() > 0 {
            self.stack_of_open_elements.pop();
            proof {
                assert(self.state().open_elements =~= old(self).state().pop_m().open_elements);
            }
        }
    }

    /// Insert a synthesized element — one with no corresponding tag in the
    /// input — with the given name and no attributes, and switch the mode.
    fn synthesize(&mut self, name: &str, next_mode: InsertionMode)
        requires
            inv_core(old(self).state()),
            old(self).state().open_elements.len() == 0 ==> old(
                self,
            ).state().window.document_element is None,
        ensures
            final(self).state() == old(self).state().insert_element_m(
                name@,
                Seq::empty(),
                true,
            ).in_mode(next_mode),
            final(self).pending() == old(self).pending(),
    {
        let empty_attrs: Vec<Attribute> = Vec::new();
        proof {
            assert(empty_attrs@.map_values(|a: Attribute| a@) =~= Seq::<AttrModel>::empty());
        }
        self.insert_element(name.to_owned(), empty_attrs, true);
        self.mode = next_mode;
    }

    /// Dispatch one token under the active mode, doing to the builder
    /// exactly what one unfolding of [`step_m`] says.
    #[verifier::rlimit(60)]
    fn step(&mut self, tok: HtmlToken) -> (r: StepRes)
        requires
            inv(old(self).state()),
        ensures
            final(self).pending() == old(self).pending(),
            match r {
                StepRes::Finished => step_m(old(self).state(), tok@) is Finished
                    && final(self).state() == old(self).state(),
                StepRes::Consumed => step_m(old(self).state(), tok@) == StepModel::Consumed(
                    final(self).state(),
                ),
                StepRes::Reprocess(t2) => t2@ == tok@ && step_m(old(self).state(), tok@)
                    == StepModel::Reprocessed(final(self).state()),
            },
    {
        match self.mode {
            InsertionMode::Initial => match tok {
                HtmlToken::Char(c) => {
                    if c == ' ' || c == '\n' {
                        StepRes::Consumed
                    } else {
                        self.mode = InsertionMode::BeforeHtml;
                        StepRes::Reprocess(HtmlToken::Char(c))
                    }
                },
                other => {
                    self.mode = InsertionMode::BeforeHtml;
                    StepRes::Reprocess(other)
                },
            },
            InsertionMode::BeforeHtml => match tok {
                HtmlToken::Char(c) => {
                    if c == ' ' || c == '\n' {
                        StepRes::Consumed
                    } else {
                        self.synthesize("html", InsertionMode::BeforeHead);
                        StepRes::Reprocess(HtmlToken::Char(c))
                    }
                },
                HtmlToken::StartTag { tag, self_closing, attributes } => {
                    if tag_is(&tag, "html") {
                        self.insert_element(tag, attributes, true);
                        self.mode = InsertionMode::BeforeHead;
                        StepRes::Consumed
                    } else {
                        self.synthesize("html", InsertionMode::BeforeHead);
                        StepRes::Reprocess(HtmlToken::StartTag { tag, self_closing, attributes })
                    }
                },
                HtmlToken::EndTag { tag } => {
                    self.synthesize("html", InsertionMode::BeforeHead);
                    StepRes::Reprocess(HtmlToken::EndTag { tag })
                },
                HtmlToken::Eof => {
                    self.synthesize("html", InsertionMode::BeforeHead);
                    StepRes::Reprocess(HtmlToken::Eof)
                },
            },
            InsertionMode::BeforeHead => match tok {
                HtmlToken::Char(c) => {
                    if c == ' ' || c == '\n' {
                        StepRes::Consumed
                    } else {
                        self.synthesize("head", InsertionMode::InHead);
                        StepRes::Reprocess(HtmlToken::Char(c))
                    }
                },
                HtmlToken::StartTag { tag, self_closing, attributes } => {
                    if tag_is(&tag, "head") {
                        self.insert_element(tag, attributes, true);
                        self.mode = InsertionMode::InHead;
                        StepRes::Consumed
                    } else {
                        self.synthesize("head", InsertionMode::InHead);
                        StepRes::Reprocess(HtmlToken::StartTag { tag, self_closing, attributes })
                    }
                },
                HtmlToken::EndTag { tag } => {
                    self.synthesize("head", InsertionMode::InHead);
                    StepRes::Reprocess(HtmlToken::EndTag { tag })
                },
                HtmlToken::Eof => StepRes::Finished,
            },
            InsertionMode::InHead => match tok {
                HtmlToken::Char(c) => {
                    if c == ' ' || c == '\n' {
                        StepRes::Consumed
                    } else {
                        self.pop_current();
                        self.mode = InsertionMode::AfterHead;
                        StepRes::Reprocess(HtmlToken::Char(c))
                    }
                },
                HtmlToken::StartTag { tag, self_closing, attributes } => {
                    if tag_is(&tag, "title") {
                        self.insert_element(tag, attributes, true);
                        self.original_insertion_mode = InsertionMode::InHead;
                        self.mode = InsertionMode::Text;
                        StepRes::Consumed
                    } else if tag_is(&tag, "meta") {
                        self.insert_element(tag, attributes, false);
                        StepRes::Consumed
                    } else {
                        self.pop_current();
                        self.mode = InsertionMode::AfterHead;
                        StepRes::Reprocess(HtmlToken::StartTag { tag, self_closing, attributes })
                    }
                },
                HtmlToken::EndTag { tag } => {
                    if tag_is(&tag, "head") {
                        self.pop_current();
                        self.mode = InsertionMode::AfterHead;
                        StepRes::Consumed
                    } else {
                        self.pop_current();
                        self.mode = InsertionMode::AfterHead;
                        StepRes::Reprocess(HtmlToken::EndTag { tag })
                    }
                },
                HtmlToken::Eof => StepRes::Finished,
            },
            InsertionMode::AfterHead => match tok {
                HtmlToken::Char(c) => {
                    if c == ' ' || c == '\n' {
                        StepRes::Consumed
                    } else {
                        self.synthesize("body", InsertionMode::InBody);
                        StepRes::Reprocess(HtmlToken::Char(c))
                    }
                },
                HtmlToken::StartTag { tag, self_closing, attributes } => {
                    if tag_is(&tag, "body") {
                        self.insert_element(tag, attributes, true);
                        self.mode = InsertionMode::InBody;
                        StepRes::Consumed
                    } else {
                        self.synthesize("body", InsertionMode::InBody);
                        StepRes::Reprocess(HtmlToken::StartTag { tag, self_closing, attributes })
                    }
                },
                HtmlToken::EndTag { tag } => {
                    self.synthesize("body", InsertionMode::InBody);
                    StepRes::Reprocess(HtmlToken::EndTag { tag })
                },
                HtmlToken::Eof => StepRes::Finished,
            },
            InsertionMode::InBody => match tok {
                HtmlToken::Char(c) => {
                    self.insert_char(c);
                    StepRes::Consumed
                },
                HtmlToken::StartTag { tag, self_closing, attributes } => {
                    let keep_open = !self_closing;
                    self.insert_element(tag, attributes, keep_open);
                    StepRes::Consumed
                },
                HtmlToken::EndTag { tag } => {
                    if tag_is(&tag, "html") || tag_is(&tag, "body") {
                        self.mode = InsertionMode::AfterBody;
                        StepRes::Consumed
                    } else {
                        let depth = self.stack_of_open_elements.len();
                        let matches_current = if depth > 1 {
                            let p = self.stack_of_open_elements[depth - 1];
                            proof {
                                let last: int = self.state().open_elements.len() - 1;
                                assert(self.state().open_elements[last] == p as int);
                                assert(0 <= (p as int) < self.state().window.nodes.len());
                                assert(self.state().window.nodes[p as int].kind is Element);
                            }
                            match &self.window.nodes[p].kind {
                                NodeKind::Element { tag: open_tag, .. } => open_tag.eq(&tag),
                                NodeKind::Text { .. } => false,
                            }
                        } else {
                            false
                        };
                        if matches_current {
                            self.pop_current();
                        }
                        StepRes::Consumed
                    }
                },
                HtmlToken::Eof => StepRes::Finished,
            },
            InsertionMode::Text => match tok {
                HtmlToken::Char(c) => {
                    self.insert_char(c);
                    StepRes::Consumed
                },
                HtmlToken::EndTag { .. } => {
                    self.pop_current();
                    self.mode = self.original_insertion_mode;
                    StepRes::Consumed
                },
                HtmlToken::StartTag { tag, self_closing, attributes } => {
                    self.pop_current();
                    self.mode = self.original_insertion_mode;
                    StepRes::Reprocess(HtmlToken::StartTag { tag, self_closing, attributes })
                },
                HtmlToken::Eof => StepRes::Finished,
            },
            InsertionMode::AfterBody => match tok {
                HtmlToken::Char(c) => {
                    if c == ' ' || c == '\n' {
                        StepRes::Consumed
                    } else {
                        self.mode = InsertionMode::InBody;
                        StepRes::Reprocess(HtmlToken::Char(c))
                    }
                },
                HtmlToken::EndTag { tag } => {
                    if tag_is(&tag, "html") {
                        self.mode = InsertionMode::AfterAfterBody;
                        StepRes::Consumed
                    } else {
                        self.mode = InsertionMode::InBody;
                        StepRes::Reprocess(HtmlToken::EndTag { tag })
                    }
                },
                HtmlToken::Eof => StepRes::Finished,
                HtmlToken::StartTag { tag, self_closing, attributes } => {
                    self.mode = InsertionMode::InBody;
                    StepRes::Reprocess(HtmlToken::StartTag { tag, self_closing, attributes })
                },
            },
            InsertionMode::AfterAfterBody => match tok {
                HtmlToken::Char(c) => {
                    if c == ' ' || c == '\n' {
                        StepRes::Consumed
                    } else {
                        self.mode = InsertionMode::InBody;
                        StepRes::Reprocess(HtmlToken::Char(c))
                    }
                },
                HtmlToken::Eof => StepRes::Finished,
                HtmlToken::StartTag { tag, self_closing, attributes } => {
                    self.mode = InsertionMode::InBody;
                    StepRes::Reprocess(HtmlToken::StartTag { tag, self_closing, attributes })
                },
                HtmlToken::EndTag { tag } => {
                    self.mode = InsertionMode::InBody;
                    StepRes::Reprocess(HtmlToken::EndTag { tag })
                },
            },
        }
    }
}

/// What one call of [`HtmlParser::step`] reports back to the pull loop.
enum StepRes {
    /// The parse is over; the document as built is the result.
    Finished,
    /// The token was consumed; pull the next one.
    Consumed,
    /// The mode switched without consuming the token: handle it again.
    Reprocess(HtmlToken),
}

/// The stream still to be dispatched: the pulled-but-unconsumed token, if
/// any, followed by what the token source has left.
spec fn stream_of(token: Option<HtmlToken>, rest: Seq<TokenModel>) -> Seq<TokenModel> {
    match token {
        Option::Some(t) => seq![t@] + rest,
        Option::None => rest,
    }
}

/// Drive the state machine over the whole token stream and return the
/// document built so far — always a best-effort tree, never a failure:
/// exactly the document the model [`parse_m`] assigns to the input.
#[verifier::loop_isolation(false)]
pub fn construct_tree(parser: HtmlParser) -> (w: Window)
    requires
        inv(parser.state()),
    ensures
        w@ == parse_m(parser.state(), parser.pending()),
        w@.wf(),
        rooted(w@),
        parser.state().window.grows_into(w@),
{
    let mut p = parser;
    let ghost s0 = p.state();
    let ghost toks0 = p.pending();
    proof {
        lemma_parse_only_grows(s0, toks0);
    }
    let mut token = p.t.next();
    proof {
        assert(stream_of(token, p.pending()) =~= toks0);
    }
    loop
        invariant
            inv(p.state()),
            parse_m(p.state(), stream_of(token, p.pending())) == parse_m(s0, toks0),
            token is None ==> p.pending().len() == 0,
        decreases stream_of(token, p.pending()).len(), mode_rank(p.state().mode),
    {
        let tok = match token {
            Option::Some(t) => t,
            Option::None => {
                proof {
                    assert(stream_of(token, p.pending()).len() == 0);
                }
                return p.window;
            },
        };
        let ghost pre = p.state();
        let ghost cur = stream_of(Option::Some(tok), p.pending());
        proof {
            assert(cur[0] == tok@);
            lemma_step_inv(pre, tok@);
        }
        match p.step(tok) {
            StepRes::Finished => {
                proof {
                    assert(parse_m(pre, cur) == pre.window);
                }
                return p.window;
            },
            StepRes::Consumed => {
                proof {
                    assert(cur.drop_first() =~= p.pending());
                    assert(parse_m(pre, cur) == parse_m(p.state(), p.pending()));
                }
                let ghost rest = p.pending();
                token = p.t.next();
                proof {
                    assert(stream_of(token, p.pending()) =~= rest);
                }
            },
            StepRes::Reprocess(t2) => {
                token = Option::Some(t2);
                proof {
                    assert(stream_of(token, p.pending()) =~= cur);
                }
            },
        }
    }
}

} // verus!
