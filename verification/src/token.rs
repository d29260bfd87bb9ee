//! The discrete lexical units the tree builder consumes, and the token
//! source it pulls them from. Tokens are produced by an external tokenizer;
//! here they arrive as an already-materialized sequence.

use vstd::prelude::*;

verus! {

/// One attribute of a start tag, as the tokenizer delivered it.
#[derive(Debug, Clone)]
pub struct Attribute {
    pub name: String,
    pub value: String,
}

/// Mathematical image of an [`Attribute`]: both strings as character
/// sequences.
pub struct AttrModel {
    pub name: Seq<char>,
    pub value: Seq<char>,
}

impl View for Attribute {
    type V = AttrModel;

    open spec fn view(&self) -> AttrModel {
        AttrModel { name: self.name@, value: self.value@ }
    }
}

/// The discrete lexical unit emitted by the tokenizer: a start tag, an end
/// tag, a single character, or the end of the input.
#[derive(Debug, Clone)]
pub enum HtmlToken {
    StartTag { tag: String, self_closing: bool, attributes: Vec<Attribute> },
    EndTag { tag: String },
    Char(char),
    Eof,
}

/// Mathematical image of an [`HtmlToken`].
pub enum TokenModel {
    StartTag { tag: Seq<char>, self_closing: bool, attributes: Seq<AttrModel> },
    EndTag { tag: Seq<char> },
    Char { ch: char },
    Eof,
}

impl View for HtmlToken {
    type V = TokenModel;

    open spec fn view(&self) -> TokenModel {
        match self {
            HtmlToken::StartTag { tag, self_closing, attributes } => TokenModel::StartTag {
                tag: tag@,
                self_closing: *self_closing,
                attributes: attributes@.map_values(|a: Attribute| a@),
            },
            HtmlToken::EndTag { tag } => TokenModel::EndTag { tag: tag@ },
            HtmlToken::Char(c) => TokenModel::Char { ch: *c },
            HtmlToken::Eof => TokenModel::Eof,
        }
    }
}

/// The builder's token source: a finite, forward-only sequence of tokens,
/// handed out front to back. Its view is the sequence of tokens still to
/// come.
///
/// The tokens are kept in reverse so that handing out the front is a pop.
#[derive(Debug, Clone)]
pub struct HtmlTokenizer {
    rev: Vec<HtmlToken>,
}

impl View for HtmlTokenizer {
    type V = Seq<TokenModel>;

    closed spec fn view(&self) -> Seq<TokenModel> {
        self.rev@.map_values(|t: HtmlToken| t@).reverse()
    }
}

impl HtmlTokenizer {
    /// Wrap a token sequence; the tokens come back out in the given order.
    pub fn new(tokens: Vec<HtmlToken>) -> (t: HtmlTokenizer)
        ensures
            t@ == tokens@.map_values(|tok: HtmlToken| tok@),
    {
        let ghost all = tokens@;
        let mut src = tokens;
        let mut rev: Vec<HtmlToken> = Vec::new();
        while src.len() > 0
            invariant
                src@ + rev@.reverse() == all,
            decreases src.len(),
        {
            let ghost prev_src = src@;
            let ghost prev_rev = rev@;
            let tok = src.pop().unwrap();
            rev.push(tok);
            proof {
                assert(src@ + rev@.reverse() =~= all) by {
                    assert(rev@ =~= prev_rev.push(prev_src.last()));
                    assert(rev@.reverse() =~= seq![prev_src.last()] + prev_rev.reverse());
                }
            }
        }
        let t = HtmlTokenizer { rev };
        proof {
            assert(t@ =~= all.map_values(|tok: HtmlToken| tok@)) by {
                assert(rev@.reverse() =~= all);
                assert forall|i: int| 0 <= i < all.len() implies t@[i] == all.map_values(
                    |tok: HtmlToken| tok@,
                )[i] by {
                    assert(rev@.reverse()[i] == all[i]);
                }
            }
        }
        t
    }

    /// Hand out the next token, or `None` once the sequence is exhausted.
    pub fn next(&mut self) -> (t: Option<HtmlToken>)
        ensures
            old(self)@.len() == 0 ==> t is None && final(self)@ == old(self)@,
            old(self)@.len() > 0 ==> (t matches Some(tok) && tok@ == old(self)@[0]
                && final(self)@ == old(self)@.drop_first()),
    {
        let r = self.rev.pop();
        proof {
            let f = |tok: HtmlToken| tok@;
            if old(self)@.len() > 0 {
                assert(self.rev@ =~= old(self).rev@.drop_last());
                assert(final(self)@ =~= old(self)@.drop_first()) by {
                    assert forall|i: int| 0 <= i < self.rev@.len() implies self.rev@.map_values(
                        f,
                    ).reverse()[i] == old(self)@.drop_first()[i] by {
                        assert(self.rev@[self.rev@.len() - 1 - i] == old(self).rev@[old(
                            self,
                        ).rev@.len() - 2 - i]);
                    }
                }
                assert(old(self)@[0] == old(self).rev@.map_values(f).last());
            } else {
                assert(self.rev@ =~= old(self).rev@);
                assert(final(self)@ =~= old(self)@);
            }
        }
        r
    }
}

} // verus!
