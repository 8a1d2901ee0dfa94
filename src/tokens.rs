//! The token-tree model shared by both transformers: tokens as plain data, and their
//! mathematical view as trees.

use vstd::prelude::*;

verus! {

broadcast use vstd::seq::group_seq_axioms, vstd::std_specs::vec::group_vec_axioms;

/// A source position. `MixedSite` stands for the position of the macro call itself; `At(n)`
/// is a position that the host handed in, known to the library by its index alone.
#[derive(Clone, Copy, Debug, PartialEq, Eq, Structural)]
pub enum Span {
    MixedSite,
    At(u64),
}

/// How a group is delimited; `Invisible` is the grouping a macro expansion puts around a
/// substituted fragment.
#[derive(Clone, Copy, Debug, PartialEq, Eq, Structural)]
pub enum Delimiter {
    Parenthesis,
    Bracket,
    Brace,
    Invisible,
}

/// Whether a punctuation character is joined to the next one (`=` in `=>`) or stands alone.
#[derive(Clone, Copy, Debug, PartialEq, Eq, Structural)]
pub enum Spacing {
    Joint,
    Alone,
}

/// One token tree: an identifier, a literal (by its source text), a single punctuation
/// character, or a delimited group of tokens.
#[derive(Debug)]
pub enum Token {
    Ident { text: String, span: Span },
    Literal { text: String, span: Span },
    Punct { ch: char, spacing: Spacing, span: Span },
    Group { delimiter: Delimiter, stream: Vec<Token>, span: Span },
}

/// The view of a token: the same tree, with texts as character sequences.
pub ghost enum Tree {
    Ident(Seq<char>, Span),
    Literal(Seq<char>, Span),
    Punct(char, Spacing, Span),
    Group(Delimiter, Seq<Tree>, Span),
}

impl Token {
    pub open spec fn view(&self) -> Tree
        decreases self,
    {
        match self {
            Token::Ident { text, span } => Tree::Ident(text@, *span),
            Token::Literal { text, span } => Tree::Literal(text@, *span),
            Token::Punct { ch, spacing, span } => Tree::Punct(*ch, *spacing, *span),
            Token::Group { delimiter, stream, span } => Tree::Group(*delimiter, trees(stream@), *span),
        }
    }
}

/// The views of a token list, in order.
pub open spec fn trees(s: Seq<Token>) -> Seq<Tree>
    decreases s,
{
    if s.len() == 0 {
        Seq::empty()
    } else {
        trees(s.drop_last()).push(s.last().view())
    }
}


/// The trees of a token list, element by element.
pub proof fn lemma_trees_index(s: Seq<Token>)
    ensures
        trees(s).len() == s.len(),
        forall|i: int| 0 <= i < s.len() ==> #[trigger] trees(s)[i] == s[i]@,
    decreases s.len(),
{
    if s.len() > 0 {
        lemma_trees_index(s.drop_last());
    }
}

/// The trees of a concatenation are the concatenation of the trees.
pub proof fn lemma_trees_concat(a: Seq<Token>, b: Seq<Token>)
    ensures
        trees(a + b) == trees(a) + trees(b),
    decreases b.len(),
{
    if b.len() == 0 {
        assert(a + b =~= a);
        assert(trees(a) + trees(b) =~= trees(a));
    } else {
        assert((a + b).drop_last() =~= a + b.drop_last());
        lemma_trees_concat(a, b.drop_last());
        assert(trees(a + b) =~= trees(a) + trees(b));
    }
}


/// Where a token stands.
pub open spec fn span_of(t: Tree) -> Span {
    match t {
        Tree::Ident(_, span) => span,
        Tree::Literal(_, span) => span,
        Tree::Punct(_, _, span) => span,
        Tree::Group(_, _, span) => span,
    }
}

/// `t` is the punctuation character `c`, whatever its spacing.
pub open spec fn is_punct(t: Tree, c: char) -> bool {
    match t {
        Tree::Punct(ch, _, _) => ch == c,
        _ => false,
    }
}

impl Token {
    pub fn span(&self) -> (r: Span)
        ensures
            r == span_of(self@),
    {
        match self {
            Token::Ident { span, .. } => *span,
            Token::Literal { span, .. } => *span,
            Token::Punct { span, .. } => *span,
            Token::Group { span, .. } => *span,
        }
    }

    pub fn is_punct(&self, c: char) -> (r: bool)
        ensures
            r == is_punct(self@, c),
    {
        match self {
            Token::Punct { ch, .. } => *ch == c,
            _ => false,
        }
    }
}

/// The elements of `v` in reverse order, so that popping them yields `v` from the front.
pub fn reversed<T>(v: Vec<T>) -> (r: Vec<T>)
    ensures
        r@.len() == v@.len(),
        forall|k: int| 0 <= k < v@.len() ==> #[trigger] r@[k] == v@[v@.len() - 1 - k],
{
    let mut rest = v;
    let mut rev: Vec<T> = Vec::new();
    let ghost orig = rest@;
    while rest.len() > 0
        invariant
            rest@ == orig.take(orig.len() - rev@.len()),
            rev@.len() <= orig.len(),
            forall|k: int| 0 <= k < rev@.len() ==> #[trigger] rev@[k] == orig[orig.len() - 1 - k],
        decreases rest@.len(),
    {
        let t = rest.pop().unwrap();
        rev.push(t);
        assert(rest@ =~= orig.take(orig.len() - rev@.len()));
    }
    rev
}

/// The trees of a list with one more token.
pub proof fn lemma_trees_push(a: Seq<Token>, t: Token)
    ensures
        trees(a.push(t)) == trees(a) + seq![t@],
{
    assert(a.push(t).drop_last() =~= a);
    assert(trees(a).push(t@) =~= trees(a) + seq![t@]);
}


/// `t` is the punctuation character `c` with the given spacing.
pub open spec fn is_punct_with(t: Tree, c: char, spacing: Spacing) -> bool {
    match t {
        Tree::Punct(ch, sp, _) => ch == c && sp == spacing,
        _ => false,
    }
}

/// The tokens still to be read from a stack whose top is its last element, top first.
pub open spec fn pending(st: Seq<Token>) -> Seq<Tree> {
    Seq::new(st.len(), |k: int| st[st.len() - 1 - k]@)
}

/// Popping a stack reads the first pending token.
pub proof fn lemma_pending_pop(st: Seq<Token>)
    requires
        st.len() > 0,
    ensures
        pending(st.drop_last()) == pending(st).drop_first(),
        pending(st)[0] == st.last()@,
{
    assert(pending(st.drop_last()) =~= pending(st).drop_first());
}

impl Token {
    pub fn is_punct_with(&self, c: char, spacing: Spacing) -> (r: bool)
        ensures
            r == is_punct_with(self@, c, spacing),
    {
        match self {
            Token::Punct { ch, spacing: sp, .. } => *ch == c && *sp == spacing,
            _ => false,
        }
    }
}

/// A list turned into a stack reads back in its own order.
pub fn stack_of(v: Vec<Token>) -> (r: Vec<Token>)
    ensures
        pending(r@) == trees(v@),
{
    let ghost orig = v@;
    let r = reversed(v);
    proof {
        lemma_trees_index(orig);
        assert(pending(r@) =~= trees(orig));
    }
    r
}


/// A token with every position forgotten, its contents included.
pub open spec fn strip(t: Tree) -> Tree
    decreases t,
{
    match t {
        Tree::Ident(text, _) => Tree::Ident(text, Span::MixedSite),
        Tree::Literal(text, _) => Tree::Literal(text, Span::MixedSite),
        Tree::Punct(c, spacing, _) => Tree::Punct(c, spacing, Span::MixedSite),
        Tree::Group(d, inner, _) => Tree::Group(d, strip_all(inner), Span::MixedSite),
    }
}

/// A token sequence with every position forgotten: what two inputs that differ only in
/// where their tokens stand have in common.
pub open spec fn strip_all(s: Seq<Tree>) -> Seq<Tree>
    decreases s,
{
    if s.len() == 0 {
        Seq::empty()
    } else {
        strip_all(s.drop_last()).push(strip(s.last()))
    }
}

/// Two sequences that are equal token by token once positions are forgotten.
pub open spec fn same_shape(a: Seq<Tree>, b: Seq<Tree>) -> bool {
    a.len() == b.len() && forall|i: int| 0 <= i < a.len() ==> strip(#[trigger] a[i]) == strip(b[i])
}

pub proof fn lemma_strip_index(s: Seq<Tree>)
    ensures
        strip_all(s).len() == s.len(),
        forall|i: int| 0 <= i < s.len() ==> #[trigger] strip_all(s)[i] == strip(s[i]),
    decreases s.len(),
{
    if s.len() > 0 {
        lemma_strip_index(s.drop_last());
    }
}

/// Equal once positions are forgotten, as a whole or token by token: the same thing.
pub proof fn lemma_same_shape(a: Seq<Tree>, b: Seq<Tree>)
    ensures
        same_shape(a, b) <==> strip_all(a) == strip_all(b),
{
    lemma_strip_index(a);
    lemma_strip_index(b);
    if same_shape(a, b) {
        assert(strip_all(a) =~= strip_all(b));
    }
    if strip_all(a) == strip_all(b) {
        assert forall|i: int| 0 <= i < a.len() implies strip(#[trigger] a[i]) == strip(b[i]) by {
            assert(strip_all(a)[i] == strip_all(b)[i]);
        }
    }
}

pub proof fn lemma_strip_concat(a: Seq<Tree>, b: Seq<Tree>)
    ensures
        strip_all(a + b) == strip_all(a) + strip_all(b),
{
    lemma_strip_index(a);
    lemma_strip_index(b);
    lemma_strip_index(a + b);
    assert(strip_all(a + b) =~= strip_all(a) + strip_all(b));
}

/// Two outcomes alike but for positions: equal outputs once positions are forgotten, or
/// errors with the same message.
pub open spec fn same_outcome(r1: Result<Seq<Tree>, (Span, Seq<char>)>, r2: Result<Seq<Tree>, (Span, Seq<char>)>) -> bool {
    match (r1, r2) {
        (Ok(x), Ok(y)) => strip_all(x) == strip_all(y),
        (Err(e1), Err(e2)) => e1.1 == e2.1,
        _ => false,
    }
}

pub proof fn lemma_shape_subrange(a: Seq<Tree>, b: Seq<Tree>, i: int, j: int)
    requires
        same_shape(a, b),
        0 <= i <= j <= a.len(),
    ensures
        same_shape(a.subrange(i, j), b.subrange(i, j)),
{
    assert forall|k: int| 0 <= k < j - i implies strip(#[trigger] a.subrange(i, j)[k]) == strip(b.subrange(i, j)[k]) by {
        assert(a.subrange(i, j)[k] == a[i + k]);
        assert(b.subrange(i, j)[k] == b[i + k]);
    }
}

} // verus!
