//! Shared helpers: setting positions on token lists and building the tokens of a
//! compile-time error.

use vstd::prelude::*;
use crate::tokens::{Delimiter, Spacing, Span, Token, Tree, trees, reversed};

verus! {

broadcast use vstd::seq::group_seq_axioms;

/// A character that a string literal holds as it is: printable ASCII other than `"` and `\`.
pub open spec fn is_plain_char(c: char) -> bool {
    ' ' <= c && c <= '~' && c != '"' && c != '\\'
}

/// A message made of plain characters only.
pub open spec fn is_plain(message: Seq<char>) -> bool {
    forall|i: int| 0 <= i < message.len() ==> is_plain_char(#[trigger] message[i])
}

/// A plain message as a string literal: in double quotes.
pub open spec fn quoted(message: Seq<char>) -> Seq<char> {
    seq!['"'] + message + seq!['"']
}

/// Relies on `proc_macro2::Literal::string`: the text of a string literal holding `message`.
/// Its escaping leaves plain characters alone and wraps the whole in double quotes; what it
/// makes of other characters is left open here.
#[verifier::external_body]
fn string_literal(message: &str) -> (r: String)
    ensures
        is_plain(message@) ==> r@ == quoted(message@),
{
    proc_macro2::Literal::string(message).to_string()
}

/// Places a token at a position; a group keeps its contents.
pub open spec fn respan(t: Tree, span: Span) -> Tree {
    match t {
        Tree::Ident(text, _) => Tree::Ident(text, span),
        Tree::Literal(text, _) => Tree::Literal(text, span),
        Tree::Punct(c, spacing, _) => Tree::Punct(c, spacing, span),
        Tree::Group(d, inner, _) => Tree::Group(d, inner, span),
    }
}

/// The tokens of `::core::compile_error!(<text>)`, each top-level token at `span`, where
/// `text` is the string literal that carries the message.
pub open spec fn error_trees_with(span: Span, text: Seq<char>) -> Seq<Tree> {
    seq![
        Tree::Punct(':', Spacing::Joint, span),
        Tree::Punct(':', Spacing::Alone, span),
        Tree::Ident("core"@, span),
        Tree::Punct(':', Spacing::Joint, span),
        Tree::Punct(':', Spacing::Alone, span),
        Tree::Ident("compile_error"@, span),
        Tree::Punct('!', Spacing::Alone, span),
        Tree::Group(
            Delimiter::Parenthesis,
            seq![Tree::Literal(text, Span::MixedSite)],
            span,
        ),
    ]
}

fn set_span(t: Token, span: Span) -> (r: Token)
    ensures
        r@ == respan(t@, span),
{
    match t {
        Token::Ident { text, span: _ } => Token::Ident { text, span },
        Token::Literal { text, span: _ } => Token::Literal { text, span },
        Token::Punct { ch, spacing, span: _ } => Token::Punct { ch, spacing, span },
        Token::Group { delimiter, stream, span: _ } => Token::Group { delimiter, stream, span },
    }
}

/// Sets the position of token lists.
pub struct With;

impl With {
    /// Places every token of `tts` at `span`; groups keep their contents.
    pub fn span(span: Span, tts: Vec<Token>) -> (r: Vec<Token>)
        ensures
            r@.len() == tts@.len(),
            forall|i: int| 0 <= i < tts@.len() ==> #[trigger] r@[i]@ == respan(tts@[i]@, span),
    {
        let ghost orig = tts@;
        let mut rev = reversed(tts);
        let mut out: Vec<Token> = Vec::new();
        while rev.len() > 0
            invariant
                out@.len() + rev@.len() == orig.len(),
                forall|k: int| 0 <= k < rev@.len() ==> #[trigger] rev@[k] == orig[orig.len() - 1 - k],
                forall|k: int| 0 <= k < out@.len() ==> #[trigger] out@[k]@ == respan(orig[k]@, span),
            decreases rev@.len(),
        {
            let t = rev.pop().unwrap();
            out.push(set_span(t, span));
        }
        out
    }
}

/// Builds the tokens of a compile-time error that reports `message` at `span`.
pub fn error2(span: Span, message: &str) -> (r: Vec<Token>)
    ensures
        is_error(r, (span, message@)),
{
    let text = string_literal(message);
    let ghost text_view = text@;
    let lit = Token::Literal { text, span: Span::MixedSite };
    let mut inner: Vec<Token> = Vec::new();
    inner.push(lit);
    let mut res: Vec<Token> = Vec::new();
    res.push(Token::Punct { ch: ':', spacing: Spacing::Joint, span: Span::MixedSite });
    res.push(Token::Punct { ch: ':', spacing: Spacing::Alone, span: Span::MixedSite });
    res.push(Token::Ident { text: String::from_str("core"), span: Span::MixedSite });
    res.push(Token::Punct { ch: ':', spacing: Spacing::Joint, span: Span::MixedSite });
    res.push(Token::Punct { ch: ':', spacing: Spacing::Alone, span: Span::MixedSite });
    res.push(Token::Ident { text: String::from_str("compile_error"), span: Span::MixedSite });
    res.push(Token::Punct { ch: '!', spacing: Spacing::Alone, span: Span::MixedSite });
    res.push(Token::Group { delimiter: Delimiter::Parenthesis, stream: inner, span: Span::MixedSite });
    let res = With::span(span, res);
    proof {
        crate::tokens::lemma_trees_index(res@);
        crate::tokens::lemma_trees_index(inner@);
        assert(trees(inner@) =~= seq![Tree::Literal(text_view, Span::MixedSite)]);
        assert(trees(res@) =~= error_trees_with(span, text_view));
        let err = (span, message@);
        assert(trees(res@) == error_trees_with(err.0, text_view) && (is_plain(err.1) ==> text_view == quoted(err.1)));
        assert(is_error(res, err));
    }
    res
}


/// `e` holds the error tokens for the position and message of `err`: a `compile_error!` at
/// that position whose string literal is the quoted message wherever the message is plain.
pub open spec fn is_error(e: Vec<Token>, err: (Span, Seq<char>)) -> bool {
    exists|text: Seq<char>|
        trees(e@) == #[trigger] error_trees_with(err.0, text) && (is_plain(err.1) ==> text == quoted(err.1))
}

/// `r` is the executable form of the outcome `s`: the same trees on success, the error tokens
/// for the position and message that `s` names on failure.
pub open spec fn stream_outcome(r: Result<Vec<Token>, Vec<Token>>, s: Result<Seq<Tree>, (Span, Seq<char>)>) -> bool {
    match (r, s) {
        (Ok(v), Ok(t)) => trees(v@) == t,
        (Err(e), Err(err)) => is_error(e, err),
        _ => false,
    }
}

} // verus!
