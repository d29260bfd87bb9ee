//! Markup-ingestion front end of a minimal browser engine: an insertion-mode
//! state machine that turns a stream of lexical tokens into a DOM tree, plus
//! the thin client type used by the surrounding fetch code.

use vstd::prelude::*;

pub mod dom;
pub mod http;
pub mod parser;
pub mod token;

pub use dom::Node;
pub use dom::NodeKind;
pub use dom::Window;
pub use http::Error;
pub use http::HttpClient;
pub use http::HttpResponse;
pub use parser::construct_tree;
pub use parser::HtmlParser;
pub use parser::InsertionMode;
pub use token::Attribute;
pub use token::HtmlToken;
pub use token::HtmlTokenizer;

verus! {

} // verus!
