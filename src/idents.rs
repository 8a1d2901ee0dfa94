//! Identifier synthesis: `[< ... >]` pastes the text of its tokens into one identifier, and
//! `{< pattern ... items >}` mints one identifier per item from a pattern and the item's
//! ordinal. Everything else is passed through, recursing into groups.

use vstd::prelude::*;
use crate::tokens::{Delimiter, Span, Token, Tree, trees, span_of, is_punct, reversed,
    lemma_trees_index, lemma_trees_concat, lemma_trees_push, strip, strip_all, same_shape,
    lemma_strip_index, lemma_same_shape, lemma_strip_concat, same_outcome, lemma_shape_subrange};
use crate::utils::{error2, is_error, stream_outcome};

verus! {

broadcast use vstd::seq::group_seq_axioms, vstd::std_specs::vec::group_vec_axioms;

/// Relies on `String::push`: appends one character.
pub assume_specification[ std::string::String::push ](s: &mut std::string::String, ch: char)
    ensures
        final(s)@ == old(s)@.push(ch),
;

pub open spec fn digit_char(d: nat) -> char {
    if d == 0 { '0' } else if d == 1 { '1' } else if d == 2 { '2' } else if d == 3 { '3' }
    else if d == 4 { '4' } else if d == 5 { '5' } else if d == 6 { '6' } else if d == 7 { '7' }
    else if d == 8 { '8' } else { '9' }
}

/// The decimal digits of `n`, most significant first, without leading zeros.
pub open spec fn decimal_text(n: nat) -> Seq<char>
    decreases n,
{
    if n < 10 {
        seq![digit_char(n)]
    } else {
        decimal_text(n / 10).push(digit_char(n % 10))
    }
}

fn digit(d: usize) -> (r: char)
    requires
        d < 10,
    ensures
        r == digit_char(d as nat),
{
    if d == 0 { '0' } else if d == 1 { '1' } else if d == 2 { '2' } else if d == 3 { '3' }
    else if d == 4 { '4' } else if d == 5 { '5' } else if d == 6 { '6' } else if d == 7 { '7' }
    else if d == 8 { '8' } else { '9' }
}

/// Renders `n` in decimal.
pub fn decimal(n: usize) -> (r: String)
    ensures
        r@ == decimal_text(n as nat),
    decreases n,
{
    if n < 10 {
        let mut s = String::new();
        s.push(digit(n));
        s
    } else {
        let mut s = decimal(n / 10);
        s.push(digit(n % 10));
        s
    }
}

/// One segment of a naming pattern: literal text, or the place of the item's ordinal.
pub enum Pat {
    Ident(String),
    Placeholder,
}

pub ghost enum Segment {
    Text(Seq<char>),
    Placeholder,
}

impl Pat {
    pub open spec fn view(&self) -> Segment {
        match self {
            Pat::Ident(text) => Segment::Text(text@),
            Pat::Placeholder => Segment::Placeholder,
        }
    }
}

pub open spec fn segments(p: Seq<Pat>) -> Seq<Segment> {
    p.map_values(|x: Pat| x@)
}

/// Appends text to a pattern, joining it to a text segment that ends the pattern.
pub open spec fn push_text(pat: Seq<Segment>, text: Seq<char>) -> Seq<Segment> {
    if pat.len() > 0 && pat.last() is Text {
        pat.drop_last().push(Segment::Text(pat.last()->Text_0 + text))
    } else {
        pat.push(Segment::Text(text))
    }
}

/// The pattern that starts at `s[i]`, given the dots seen so far and the segments parsed so
/// far, with the index just past its three closing dots.
pub open spec fn pattern_from(s: Seq<Tree>, i: int, dots: nat, pat: Seq<Segment>) -> Result<(Seq<Segment>, int), (Span, Seq<char>)>
    decreases s, s.len() - i,
{
    if i < 0 || i >= s.len() {
        Err((Span::MixedSite, "Expected three dots before ident list"@))
    } else {
        match s[i] {
            Tree::Ident(text, span) => if dots > 0 {
                Err((span, "Expected three dots to end pattern"@))
            } else {
                pattern_from(s, i + 1, dots, push_text(pat, text))
            },
            Tree::Literal(text, span) => if dots > 0 {
                Err((span, "Expected three dots to end pattern"@))
            } else {
                pattern_from(s, i + 1, dots, push_text(pat, text))
            },
            Tree::Punct(c, _, span) => if c == '@' {
                if dots > 0 {
                    Err((span, "Expected three dots to end pattern"@))
                } else {
                    pattern_from(s, i + 1, dots, pat.push(Segment::Placeholder))
                }
            } else if c == '.' {
                if dots + 1 == 3 {
                    Ok((pat, i + 1))
                } else {
                    pattern_from(s, i + 1, dots + 1, pat)
                }
            } else {
                Err((span, "Expected identifier pattern OR three dots before ident list"@))
            },
            Tree::Group(d, inner, span) => if d == Delimiter::Invisible {
                match group_pattern(inner, 0, dots, pat) {
                    Err(e) => Err(e),
                    Ok(r) => if r.1 == 3 {
                        Ok((r.0, i + 1))
                    } else {
                        pattern_from(s, i + 1, r.1, r.0)
                    },
                }
            } else {
                Err((span, "Expected identifier pattern OR three dots before ident list"@))
            },
        }
    }
}

/// The contents of an invisible group inside a pattern, read as if they stood in its place:
/// from `s[i]` on, given the dots seen so far and the segments parsed so far, the segments and
/// the dot count after the group's last token. Nothing may follow the third dot.
pub open spec fn group_pattern(s: Seq<Tree>, i: int, dots: nat, pat: Seq<Segment>) -> Result<(Seq<Segment>, nat), (Span, Seq<char>)>
    decreases s, s.len() - i,
{
    if i < 0 || i >= s.len() {
        Ok((pat, dots))
    } else if dots >= 3 {
        Err((span_of(s[i]), "Expected three dots to end pattern"@))
    } else {
        match s[i] {
            Tree::Ident(text, span) => if dots > 0 {
                Err((span, "Expected three dots to end pattern"@))
            } else {
                group_pattern(s, i + 1, dots, push_text(pat, text))
            },
            Tree::Literal(text, span) => if dots > 0 {
                Err((span, "Expected three dots to end pattern"@))
            } else {
                group_pattern(s, i + 1, dots, push_text(pat, text))
            },
            Tree::Punct(c, _, span) => if c == '@' {
                if dots > 0 {
                    Err((span, "Expected three dots to end pattern"@))
                } else {
                    group_pattern(s, i + 1, dots, pat.push(Segment::Placeholder))
                }
            } else if c == '.' {
                group_pattern(s, i + 1, dots + 1, pat)
            } else {
                Err((span, "Expected identifier pattern OR three dots before ident list"@))
            },
            Tree::Group(d, inner, span) => if d == Delimiter::Invisible {
                match group_pattern(inner, 0, dots, pat) {
                    Err(e) => Err(e),
                    Ok(r) => group_pattern(s, i + 1, r.1, r.0),
                }
            } else {
                Err((span, "Expected identifier pattern OR three dots before ident list"@))
            },
        }
    }
}

/// The text a pattern gives for the item with ordinal `n`.
pub open spec fn pattern_text(pat: Seq<Segment>, n: nat) -> Seq<char>
    decreases pat.len(),
{
    if pat.len() == 0 {
        Seq::empty()
    } else {
        pattern_text(pat.drop_last(), n) + match pat.last() {
            Segment::Text(t) => t,
            Segment::Placeholder => decimal_text(n),
        }
    }
}

/// The name minted for the item with ordinal `n`: the pattern's text, or `T<n>` without one.
pub open spec fn item_name(pat: Seq<Segment>, n: nat) -> Seq<char> {
    if pat.len() == 0 {
        seq!['T'] + decimal_text(n)
    } else {
        pattern_text(pat, n)
    }
}

/// The contents of a group open one of the two constructs: they start with `<`.
pub open spec fn opens(s: Seq<Tree>) -> bool {
    s.len() > 0 && is_punct(s[0], '<')
}

/// The index of the first `>` at or after `i`, or the length if there is none.
pub open spec fn first_close(s: Seq<Tree>, i: int) -> int
    decreases s.len() - i,
{
    if i < 0 || i >= s.len() {
        s.len() as int
    } else if is_punct(s[i], '>') {
        i
    } else {
        first_close(s, i + 1)
    }
}

/// The text a token adds to a pasted identifier, with its position: identifiers, literals
/// and `_` add their text; other tokens add nothing.
pub open spec fn paste_piece(t: Tree) -> Option<(Seq<char>, Span)> {
    match t {
        Tree::Ident(text, span) => Some((text, span)),
        Tree::Literal(text, span) => Some((text, span)),
        Tree::Punct(c, _, span) => if c == '_' { Some((seq!['_'], span)) } else { None },
        _ => None,
    }
}

pub open spec fn pasted_name(s: Seq<Tree>) -> Seq<char>
    decreases s.len(),
{
    if s.len() == 0 {
        Seq::empty()
    } else {
        pasted_name(s.drop_last()) + match paste_piece(s.last()) {
            Some(p) => p.0,
            None => Seq::empty(),
        }
    }
}

/// The position of the first token that adds to a pasted identifier.
pub open spec fn pasted_span(s: Seq<Tree>) -> Option<Span>
    decreases s.len(),
{
    if s.len() == 0 {
        None
    } else {
        match pasted_span(s.drop_last()) {
            Some(span) => Some(span),
            None => match paste_piece(s.last()) {
                Some(p) => Some(p.1),
                None => None,
            },
        }
    }
}

/// What the contents of a `[]` group become: nothing recognised without a leading `<`;
/// else one identifier, or an error where tokens follow the closing `>`.
pub open spec fn bracket_spec(s: Seq<Tree>) -> Option<Result<Tree, (Span, Seq<char>)>> {
    if !opens(s) {
        None
    } else {
        let k = first_close(s, 1);
        if k + 1 < s.len() {
            Some(Err((span_of(s[k + 1]), "Expected nothing after '>'"@)))
        } else {
            let body = s.subrange(1, k);
            let span = match pasted_span(body) {
                Some(span) => span,
                None => span_of(s[0]),
            };
            Some(Ok(Tree::Ident(pasted_name(body), span)))
        }
    }
}

/// The number of items (tokens other than `,`) in `s`.
pub open spec fn item_count(s: Seq<Tree>) -> nat
    decreases s.len(),
{
    if s.len() == 0 {
        0
    } else {
        item_count(s.drop_last()) + if is_punct(s.last(), ',') { 0nat } else { 1nat }
    }
}

/// The item list rewritten: commas stay, and each item becomes the identifier named for its
/// ordinal, at the item's position.
pub open spec fn enumerated(s: Seq<Tree>, pat: Seq<Segment>) -> Seq<Tree>
    decreases s.len(),
{
    if s.len() == 0 {
        Seq::empty()
    } else if is_punct(s.last(), ',') {
        enumerated(s.drop_last(), pat).push(s.last())
    } else {
        enumerated(s.drop_last(), pat).push(
            Tree::Ident(item_name(pat, item_count(s.drop_last())), span_of(s.last())),
        )
    }
}

/// What the contents of a `{}` group become: nothing recognised without a leading `<`; else
/// the minted identifiers, or an error in the pattern or after the closing `>`.
pub open spec fn brace_spec(s: Seq<Tree>) -> Option<Result<Seq<Tree>, (Span, Seq<char>)>> {
    if !opens(s) {
        None
    } else {
        match pattern_from(s, 1, 0, Seq::empty()) {
            Err(e) => Some(Err(e)),
            Ok(r) => {
                let k = first_close(s, r.1);
                if k + 1 < s.len() {
                    Some(Err((span_of(s[k + 1]), "Expected nothing after '>'"@)))
                } else {
                    Some(Ok(enumerated(s.subrange(r.1, k), r.0)))
                }
            },
        }
    }
}

/// What a group's contents become when they hold one of the two constructs: `None` for
/// any other group.
pub open spec fn recognized(d: Delimiter, inner: Seq<Tree>) -> Option<Result<Seq<Tree>, (Span, Seq<char>)>> {
    if d == Delimiter::Bracket {
        match bracket_spec(inner) {
            None => None,
            Some(Ok(id)) => Some(Ok(seq![id])),
            Some(Err(e)) => Some(Err(e)),
        }
    } else if d == Delimiter::Brace {
        brace_spec(inner)
    } else {
        None
    }
}

/// What one token becomes: a construct is replaced by what it gives; any other group is
/// rewritten inside and keeps its delimiter and position.
pub open spec fn rewrite_tree(t: Tree) -> Result<Seq<Tree>, (Span, Seq<char>)>
    decreases t,
{
    match t {
        Tree::Group(d, inner, span) => match recognized(d, inner) {
            Some(r) => r,
            None => match idents_spec(inner) {
                Ok(out) => Ok(seq![Tree::Group(d, out, span)]),
                Err(e) => Err(e),
            },
        },
        _ => Ok(seq![t]),
    }
}

/// What a token sequence becomes: each token rewritten in order; the first error wins.
pub open spec fn idents_spec(s: Seq<Tree>) -> Result<Seq<Tree>, (Span, Seq<char>)>
    decreases s,
{
    if s.len() == 0 {
        Ok(Seq::empty())
    } else {
        match idents_spec(s.drop_last()) {
            Err(e) => Err(e),
            Ok(out) => match rewrite_tree(s.last()) {
                Err(e) => Err(e),
                Ok(r) => Ok(out + r),
            },
        }
    }
}


/// Parses the contents of a `[]` group: `None` where they do not start with `<`, else the
/// identifier pasted from the text of the tokens up to the closing `>`.
fn parse_bracket_contents(input: &Vec<Token>) -> (r: Option<Result<Token, Vec<Token>>>)
    ensures
        match (r, bracket_spec(trees(input@))) {
            (None, None) => true,
            (Some(Ok(t)), Some(Ok(x))) => t@ == x,
            (Some(Err(e)), Some(Err(err))) => is_error(e, err),
            _ => false,
        },
{
    let ghost s = trees(input@);
    proof {
        lemma_trees_index(input@);
    }
    if input.len() == 0 || !input[0].is_punct('<') {
        return None;
    }
    let mut name = String::new();
    let mut span: Option<Span> = None;
    let mut i: usize = 1;
    proof {
        assert(s.subrange(1, 1) =~= Seq::<Tree>::empty());
    }
    while i < input.len() && !input[i].is_punct('>')
        invariant
            1 <= i <= input@.len(),
            s == trees(input@),
            s.len() == input@.len(),
            forall|k: int| 0 <= k < input@.len() ==> #[trigger] s[k] == input@[k]@,
            first_close(s, 1) == first_close(s, i as int),
            name@ == pasted_name(s.subrange(1, i as int)),
            span == pasted_span(s.subrange(1, i as int)),
        decreases input.len() - i,
    {
        match &input[i] {
            Token::Ident { text, span: sp } => {
                name.append(text.as_str());
                if span.is_none() {
                    span = Some(*sp);
                }
            },
            Token::Literal { text, span: sp } => {
                name.append(text.as_str());
                if span.is_none() {
                    span = Some(*sp);
                }
            },
            Token::Punct { ch, span: sp, .. } => {
                if *ch == '_' {
                    name.push('_');
                    if span.is_none() {
                        span = Some(*sp);
                    }
                }
            },
            Token::Group { .. } => {},
        }
        proof {
            assert(s.subrange(1, i + 1).drop_last() =~= s.subrange(1, i as int));
        }
        i = i + 1;
    }
    if i < input.len() && i + 1 < input.len() {
        return Some(Err(error2(input[i + 1].span(), "Expected nothing after '>'")));
    }
    let span = match span {
        Some(span) => span,
        None => input[0].span(),
    };
    Some(Ok(Token::Ident { text: name, span }))
}


fn extend_pattern(pat: &mut Vec<Pat>, text: &String)
    ensures
        segments(final(pat)@) == push_text(segments(old(pat)@), text@),
{
    let ghost p0 = segments(pat@);
    match pat.pop() {
        Some(Pat::Ident(name)) => {
            let mut name = name;
            name.append(text.as_str());
            pat.push(Pat::Ident(name));
        },
        Some(Pat::Placeholder) => {
            pat.push(Pat::Placeholder);
            pat.push(Pat::Ident(text.clone()));
        },
        None => {
            pat.push(Pat::Ident(text.clone()));
        },
    }
    assert(segments(pat@) =~= push_text(p0, text@));
}

/// Reads the contents of an invisible group inside a pattern on from `dots` dots, adding its
/// segments to `pat`; gives the dot count after the group.
fn parse_group_pattern(input: &Vec<Token>, pat: &mut Vec<Pat>, dots: usize) -> (r: Result<usize, Vec<Token>>)
    requires
        dots <= 3,
    ensures
        match (r, group_pattern(trees(input@), 0, dots as nat, segments(old(pat)@))) {
            (Ok(d), Ok(x)) => d <= 3 && d as nat == x.1 && segments(final(pat)@) == x.0,
            (Err(e), Err(err)) => is_error(e, err),
            _ => false,
        },
    decreases input@,
{
    let ghost s = trees(input@);
    let ghost start = group_pattern(s, 0, dots as nat, segments(pat@));
    proof {
        lemma_trees_index(input@);
    }
    let mut count = dots;
    let mut i: usize = 0;
    while i < input.len()
        invariant
            s == trees(input@),
            s.len() == input@.len(),
            forall|k: int| 0 <= k < input@.len() ==> #[trigger] s[k] == input@[k]@,
            count <= 3,
            start == group_pattern(s, i as int, count as nat, segments(pat@)),
            start == group_pattern(s, 0, dots as nat, segments(old(pat)@)),
        decreases input.len() - i,
    {
        let ghost p0 = segments(pat@);
        assert(s[i as int] == input@[i as int]@);
        if count >= 3 {
            return Err(error2(input[i].span(), "Expected three dots to end pattern"));
        }
        match &input[i] {
            Token::Ident { text, span } => {
                if count > 0 {
                    return Err(error2(*span, "Expected three dots to end pattern"));
                }
                extend_pattern(pat, text);
            },
            Token::Literal { text, span } => {
                if count > 0 {
                    return Err(error2(*span, "Expected three dots to end pattern"));
                }
                extend_pattern(pat, text);
            },
            Token::Punct { ch, span, .. } => {
                if *ch == '@' {
                    if count > 0 {
                        return Err(error2(*span, "Expected three dots to end pattern"));
                    }
                    pat.push(Pat::Placeholder);
                    assert(segments(pat@) =~= p0.push(Segment::Placeholder));
                } else if *ch == '.' {
                    count = count + 1;
                } else {
                    return Err(error2(*span, "Expected identifier pattern OR three dots before ident list"));
                }
            },
            Token::Group { delimiter, stream, span } => {
                if *delimiter == Delimiter::Invisible {
                    proof {
                        assert(decreases_to!(input@ => input@[i as int]));
                    }
                    match parse_group_pattern(stream, pat, count) {
                        Ok(d) => {
                            count = d;
                        },
                        Err(e) => {
                            return Err(e);
                        },
                    }
                } else {
                    return Err(error2(*span, "Expected identifier pattern OR three dots before ident list"));
                }
            },
        }
        i = i + 1;
    }
    Ok(count)
}

/// Parses a naming pattern from `input[start..]` through its three closing dots, giving the
/// pattern and the index just past the dots.
fn parse_pattern_and_dots(input: &Vec<Token>, start: usize) -> (r: Result<(Vec<Pat>, usize), Vec<Token>>)
    ensures
        match (r, pattern_from(trees(input@), start as int, 0, Seq::empty())) {
            (Ok(v), Ok(x)) => segments(v.0@) == x.0 && v.1 == x.1,
            (Err(e), Err(err)) => is_error(e, err),
            _ => false,
        },
    decreases input@,
{
    let ghost s = trees(input@);
    proof {
        lemma_trees_index(input@);
    }
    let mut dots: usize = 0;
    let mut pat: Vec<Pat> = Vec::new();
    let mut i: usize = start;
    assert(segments(pat@) =~= Seq::<Segment>::empty());
    while i < input.len()
        invariant
            s == trees(input@),
            s.len() == input@.len(),
            forall|k: int| 0 <= k < input@.len() ==> #[trigger] s[k] == input@[k]@,
            dots < 3,
            pattern_from(s, start as int, 0, Seq::empty()) == pattern_from(s, i as int, dots as nat, segments(pat@)),
        decreases input.len() - i,
    {
        let ghost p0 = segments(pat@);
        match &input[i] {
            Token::Ident { text, span } => {
                if dots > 0 {
                    return Err(error2(*span, "Expected three dots to end pattern"));
                }
                extend_pattern(&mut pat, text);
            },
            Token::Literal { text, span } => {
                if dots > 0 {
                    return Err(error2(*span, "Expected three dots to end pattern"));
                }
                extend_pattern(&mut pat, text);
            },
            Token::Punct { ch, span, .. } => {
                if *ch == '@' {
                    if dots > 0 {
                        return Err(error2(*span, "Expected three dots to end pattern"));
                    }
                    pat.push(Pat::Placeholder);
                    assert(segments(pat@) =~= p0.push(Segment::Placeholder));
                } else if *ch == '.' {
                    dots = dots + 1;
                    if dots == 3 {
                        return Ok((pat, i + 1));
                    }
                } else {
                    return Err(error2(*span, "Expected identifier pattern OR three dots before ident list"));
                }
            },
            Token::Group { delimiter, stream, span } => {
                if *delimiter == Delimiter::Invisible {
                    match parse_group_pattern(stream, &mut pat, dots) {
                        Ok(d) => {
                            dots = d;
                            if dots == 3 {
                                return Ok((pat, i + 1));
                            }
                        },
                        Err(e) => {
                            return Err(e);
                        },
                    }
                } else {
                    return Err(error2(*span, "Expected identifier pattern OR three dots before ident list"));
                }
            },
        }
        i = i + 1;
    }
    Err(error2(Span::MixedSite, "Expected three dots before ident list"))
}


/// A parsed pattern ends past where it started, and within the tokens.
proof fn lemma_pattern_end(s: Seq<Tree>, i: int, dots: nat, pat: Seq<Segment>)
    requires
        pattern_from(s, i, dots, pat) is Ok,
    ensures
        i < pattern_from(s, i, dots, pat)->Ok_0.1 <= s.len(),
    decreases s, s.len() - i,
{
    if 0 <= i < s.len() {
        match s[i] {
            Tree::Ident(text, _) => {
                lemma_pattern_end(s, i + 1, dots, push_text(pat, text));
            },
            Tree::Literal(text, _) => {
                lemma_pattern_end(s, i + 1, dots, push_text(pat, text));
            },
            Tree::Punct(c, _, _) => {
                if c == '@' {
                    lemma_pattern_end(s, i + 1, dots, pat.push(Segment::Placeholder));
                } else if c == '.' && dots + 1 != 3 {
                    lemma_pattern_end(s, i + 1, dots + 1, pat);
                }
            },
            Tree::Group(_, inner, _) => {
                if let Ok(r) = group_pattern(inner, 0, dots, pat) {
                    if r.1 != 3 {
                        lemma_pattern_end(s, i + 1, r.1, r.0);
                    }
                }
            },
        }
    }
}

/// The name minted for the item with ordinal `n` under the pattern `pat`.
fn item_ident_name(pat: &Vec<Pat>, n: usize) -> (r: String)
    ensures
        r@ == item_name(segments(pat@), n as nat),
{
    let si = decimal(n);
    let mut name = String::new();
    if pat.len() == 0 {
        name.push('T');
        name.append(si.as_str());
        return name;
    }
    let ghost p = segments(pat@);
    let mut j: usize = 0;
    assert(p.take(0) =~= Seq::<Segment>::empty());
    while j < pat.len()
        invariant
            j <= pat@.len(),
            p == segments(pat@),
            si@ == decimal_text(n as nat),
            name@ == pattern_text(p.take(j as int), n as nat),
        decreases pat.len() - j,
    {
        match &pat[j] {
            Pat::Ident(text) => name.append(text.as_str()),
            Pat::Placeholder => name.append(si.as_str()),
        }
        assert(p.take(j + 1).drop_last() =~= p.take(j as int));
        j = j + 1;
    }
    assert(p.take(j as int) =~= p);
    name
}

/// Parses the contents of a `{}` group: `None` where they do not start with `<`, else the
/// identifiers minted for the items after the pattern, with the commas between them.
fn parse_brace_contents(input: &Vec<Token>) -> (r: Option<Result<Vec<Token>, Vec<Token>>>)
    ensures
        match (r, brace_spec(trees(input@))) {
            (None, None) => true,
            (Some(x), Some(y)) => stream_outcome(x, y),
            _ => false,
        },
{
    let ghost s = trees(input@);
    proof {
        lemma_trees_index(input@);
    }
    if input.len() == 0 || !input[0].is_punct('<') {
        return None;
    }
    let (pat, p) = match parse_pattern_and_dots(input, 1) {
        Ok(v) => v,
        Err(e) => {
            return Some(Err(e));
        },
    };
    proof {
        lemma_pattern_end(s, 1, 0, Seq::empty());
    }
    let ghost ps = segments(pat@);
    let mut output: Vec<Token> = Vec::new();
    let mut n: usize = 0;
    let mut i: usize = p;
    assert(s.subrange(p as int, p as int) =~= Seq::<Tree>::empty());
    while i < input.len() && !input[i].is_punct('>')
        invariant
            p <= i <= input@.len(),
            s == trees(input@),
            s.len() == input@.len(),
            forall|k: int| 0 <= k < input@.len() ==> #[trigger] s[k] == input@[k]@,
            ps == segments(pat@),
            first_close(s, p as int) == first_close(s, i as int),
            n == item_count(s.subrange(p as int, i as int)),
            n <= i - p,
            trees(output@) == enumerated(s.subrange(p as int, i as int), ps),
        decreases input.len() - i,
    {
        let ghost before = output@;
        let ghost sub = s.subrange(p as int, i + 1);
        assert(sub.drop_last() =~= s.subrange(p as int, i as int));
        let t = match &input[i] {
            Token::Punct { ch, spacing, span } if *ch == ',' => Token::Punct { ch: *ch, spacing: *spacing, span: *span },
            item => {
                let name = item_ident_name(&pat, n);
                n = n + 1;
                Token::Ident { text: name, span: item.span() }
            },
        };
        let ghost tv = t@;
        output.push(t);
        assert(output@.drop_last() =~= before);
        assert(sub.last() == s[i as int]);
        assert(trees(output@) == trees(before).push(tv));
        assert(enumerated(sub, ps) == trees(before).push(tv));
        i = i + 1;
    }
    if i < input.len() && i + 1 < input.len() {
        return Some(Err(error2(input[i + 1].span(), "Expected nothing after '>'")));
    }
    Some(Ok(output))
}


/// Reads a group's contents as one of the two constructs, by its delimiter; `None` where
/// they hold neither.
fn recognize(delimiter: Delimiter, stream: &Vec<Token>) -> (r: Option<Result<Vec<Token>, Vec<Token>>>)
    ensures
        match (r, recognized(delimiter, trees(stream@))) {
            (None, None) => true,
            (Some(x), Some(y)) => stream_outcome(x, y),
            _ => false,
        },
{
    if delimiter == Delimiter::Bracket {
        match parse_bracket_contents(stream) {
            Some(Ok(id)) => {
                let mut v: Vec<Token> = Vec::new();
                proof {
                    lemma_trees_push(v@, id);
                    assert(Seq::<Tree>::empty() + seq![id@] =~= seq![id@]);
                }
                v.push(id);
                Some(Ok(v))
            },
            Some(Err(e)) => Some(Err(e)),
            None => None,
        }
    } else if delimiter == Delimiter::Brace {
        parse_brace_contents(stream)
    } else {
        None
    }
}

/// Once a prefix fails, the whole sequence fails with the same error.
proof fn lemma_idents_error_prefix(s: Seq<Tree>, i: int)
    requires
        0 <= i <= s.len(),
        idents_spec(s.take(i)) is Err,
    ensures
        idents_spec(s) == idents_spec(s.take(i)),
    decreases s.len() - i,
{
    if i == s.len() {
        assert(s.take(i) =~= s);
    } else {
        let d = s.drop_last();
        assert(d.take(i) =~= s.take(i));
        lemma_idents_error_prefix(d, i);
    }
}

/// Rewrites a token sequence: `[< ... >]` groups become pasted identifiers, `{< ... >}`
/// groups become minted identifiers, other groups are rewritten inside; everything else is
/// kept as it is.
#[verifier::loop_isolation(false)]
pub fn idents(input: Vec<Token>) -> (r: Result<Vec<Token>, Vec<Token>>)
    ensures
        stream_outcome(r, idents_spec(trees(input@))),
    decreases input@,
{
    let ghost orig = input@;
    let ghost s = trees(orig);
    proof {
        lemma_trees_index(orig);
    }
    let mut rev = reversed(input);
    let mut output: Vec<Token> = Vec::new();
    let ghost mut i: int = 0;
    assert(s.take(0) =~= Seq::<Tree>::empty());
    while rev.len() > 0
        invariant
            0 <= i <= orig.len(),
            rev@.len() + i == orig.len(),
            s == trees(orig),
            s.len() == orig.len(),
            forall|k: int| 0 <= k < orig.len() ==> #[trigger] s[k] == orig[k]@,
            forall|k: int| 0 <= k < rev@.len() ==> #[trigger] rev@[k] == orig[orig.len() - 1 - k],
            idents_spec(s.take(i)) == Ok::<Seq<Tree>, (Span, Seq<char>)>(trees(output@)),
        decreases rev@.len(),
    {
        let t = rev.pop().unwrap();
        let ghost before = output@;
        let ghost tv = t@;
        proof {
            assert(t == orig[i]);
            assert(s.take(i + 1).drop_last() =~= s.take(i));
            assert(s.take(i + 1).last() == t@);
        }
        match t {
            Token::Group { delimiter, stream, span } => {
                match recognize(delimiter, &stream) {
                    Some(Ok(v)) => {
                        let mut v = v;
                        proof {
                            lemma_trees_concat(before, v@);
                        }
                        output.append(&mut v);
                    },
                    Some(Err(e)) => {
                        proof {
                            assert(rewrite_tree(tv) is Err);
                            lemma_idents_error_prefix(s, i + 1);
                        }
                        return Err(e);
                    },
                    None => {
                        proof {
                            assert(decreases_to!(orig => orig[i]));
                            assert(decreases_to!(orig[i] => stream));
                            assert(decreases_to!(stream => stream@));
                            assert(decreases_to!(orig => stream@));
                        }
                        match idents(stream) {
                            Ok(inner) => {
                                let g = Token::Group { delimiter, stream: inner, span };
                                proof {
                                    lemma_trees_push(before, g);
                                }
                                output.push(g);
                            },
                            Err(e) => {
                                proof {
                                    assert(rewrite_tree(tv) is Err);
                                    lemma_idents_error_prefix(s, i + 1);
                                }
                                return Err(e);
                            },
                        }
                    },
                }
            },
            other => {
                proof {
                    lemma_trees_push(before, other);
                }
                output.push(other);
            },
        }
        proof {
            assert(trees(output@) == trees(before) + rewrite_tree(tv)->Ok_0);
            i = i + 1;
        }
    }
    assert(s.take(i) =~= s);
    Ok(output)
}


/// A token that holds no construct that the rewriting recognises, at any depth: a leaf, or a
/// group that is no construct itself and whose contents hold none.
pub open spec fn passes_through(t: Tree) -> bool
    decreases t,
{
    match t {
        Tree::Group(d, inner, _) => recognized(d, inner) is None && all_pass_through(inner),
        _ => true,
    }
}

pub open spec fn all_pass_through(s: Seq<Tree>) -> bool
    decreases s,
{
    if s.len() == 0 {
        true
    } else {
        all_pass_through(s.drop_last()) && passes_through(s.last())
    }
}

/// A sequence with no recognised construct comes back unchanged, positions included.
pub proof fn lemma_pass_through(s: Seq<Tree>)
    requires
        all_pass_through(s),
    ensures
        idents_spec(s) == Ok::<Seq<Tree>, (Span, Seq<char>)>(s),
    decreases s,
{
    if s.len() > 0 {
        lemma_pass_through(s.drop_last());
        lemma_pass_through_tree(s.last());
        assert(s.drop_last() + seq![s.last()] =~= s);
        assert(idents_spec(s) == Ok::<Seq<Tree>, (Span, Seq<char>)>(s.drop_last() + seq![s.last()]));
        assert(idents_spec(s) == Ok::<Seq<Tree>, (Span, Seq<char>)>(s));
    } else {
        assert(s =~= Seq::<Tree>::empty());
    }
}

/// A token with no recognised construct comes back unchanged.
pub proof fn lemma_pass_through_tree(t: Tree)
    requires
        passes_through(t),
    ensures
        rewrite_tree(t) == Ok::<Seq<Tree>, (Span, Seq<char>)>(seq![t]),
    decreases t,
{
    if let Tree::Group(d, inner, span) = t {
        lemma_pass_through(inner);
    }
}

/// Rewriting a concatenation rewrites each part: it fails with the first part's error, else
/// with the second's, else it yields the two results joined.
pub proof fn lemma_idents_concat(a: Seq<Tree>, b: Seq<Tree>)
    ensures
        idents_spec(a + b) == match idents_spec(a) {
            Err(e) => Err(e),
            Ok(x) => match idents_spec(b) {
                Err(e) => Err(e),
                Ok(y) => Ok::<Seq<Tree>, (Span, Seq<char>)>(x + y),
            },
        },
    decreases b.len(),
{
    if b.len() == 0 {
        assert(a + b =~= a);
        if let Ok(x) = idents_spec(a) {
            assert(x + Seq::<Tree>::empty() =~= x);
        }
    } else {
        lemma_idents_concat(a, b.drop_last());
        assert((a + b).drop_last() =~= a + b.drop_last());
        assert((a + b).last() == b.last());
        if let Ok(x) = idents_spec(a) {
            if let Ok(y) = idents_spec(b.drop_last()) {
                if let Ok(z) = rewrite_tree(b.last()) {
                    assert(x + y + z =~= x + (y + z));
                }
            }
        }
    }
}

/// `s` inside `depth` groups with delimiter `d`, each at `span`.
pub open spec fn nested(depth: nat, d: Delimiter, span: Span, s: Seq<Tree>) -> Seq<Tree>
    decreases depth,
{
    if depth == 0 {
        s
    } else {
        seq![Tree::Group(d, nested((depth - 1) as nat, d, span, s), span)]
    }
}

/// A construct inside any depth of groups that are no constructs themselves is rewritten as
/// it would be on its own, and the groups around it are kept with their delimiters and
/// positions.
pub proof fn lemma_nested(depth: nat, d: Delimiter, span: Span, s: Seq<Tree>)
    requires
        recognized(d, s) is None,
    ensures
        idents_spec(nested(depth, d, span, s)) == match idents_spec(s) {
            Ok(o) => Ok::<Seq<Tree>, (Span, Seq<char>)>(nested(depth, d, span, o)),
            Err(e) => Err(e),
        },
    decreases depth,
{
    if depth > 0 {
        lemma_nested((depth - 1) as nat, d, span, s);
        let t = Tree::Group(d, nested((depth - 1) as nat, d, span, s), span);
        let q = seq![t];
        assert(q.drop_last() =~= Seq::<Tree>::empty());
        assert(q.last() == t);
        assert(idents_spec(Seq::<Tree>::empty()) == Ok::<Seq<Tree>, (Span, Seq<char>)>(Seq::empty()));
        if depth > 1 {
            let inner = nested((depth - 1) as nat, d, span, s);
            assert(inner[0] == Tree::Group(d, nested((depth - 2) as nat, d, span, s), span));
            assert(!opens(inner));
        }
        assert(recognized(d, nested((depth - 1) as nat, d, span, s)) is None);
        assert(rewrite_tree(t) == match idents_spec(nested((depth - 1) as nat, d, span, s)) {
            Ok(out) => Ok::<Seq<Tree>, (Span, Seq<char>)>(seq![Tree::Group(d, out, span)]),
            Err(e) => Err(e),
        });
        match idents_spec(s) {
            Ok(o) => {
                let g = Tree::Group(d, nested((depth - 1) as nat, d, span, o), span);
                assert(Seq::<Tree>::empty() + seq![g] =~= seq![g]);
                assert(idents_spec(q) == Ok::<Seq<Tree>, (Span, Seq<char>)>(seq![g]));
            },
            Err(e) => {
                assert(idents_spec(q) == Err::<Seq<Tree>, (Span, Seq<char>)>(e));
            },
        }
    }
}

/// In the `[< ... >]` form, a token after the closing `>` is an error at that token.
pub proof fn lemma_bracket_trailing(inner: Seq<Tree>, span: Span)
    requires
        opens(inner),
        1 <= first_close(inner, 1),
        first_close(inner, 1) + 1 < inner.len(),
    ensures
        idents_spec(seq![Tree::Group(Delimiter::Bracket, inner, span)]) == Err::<Seq<Tree>, (Span, Seq<char>)>(
            (span_of(inner[first_close(inner, 1) + 1]), "Expected nothing after '>'"@),
        ),
{
    let q = seq![Tree::Group(Delimiter::Bracket, inner, span)];
    assert(q.drop_last() =~= Seq::<Tree>::empty());
    assert(q.last() == Tree::Group(Delimiter::Bracket, inner, span));
    assert(rewrite_tree(q.last()) is Err);
    assert(idents_spec(Seq::<Tree>::empty()) == Ok::<Seq<Tree>, (Span, Seq<char>)>(Seq::empty()));
}

/// In the `{< ... >}` form, a token after the closing `>` that ends the items is an error at
/// that token.
pub proof fn lemma_brace_trailing(inner: Seq<Tree>, span: Span)
    requires
        opens(inner),
        pattern_from(inner, 1, 0, Seq::empty()) is Ok,
        0 <= first_close(inner, pattern_from(inner, 1, 0, Seq::empty())->Ok_0.1),
        first_close(inner, pattern_from(inner, 1, 0, Seq::empty())->Ok_0.1) + 1 < inner.len(),
    ensures
        idents_spec(seq![Tree::Group(Delimiter::Brace, inner, span)]) == Err::<Seq<Tree>, (Span, Seq<char>)>(
            (
                span_of(inner[first_close(inner, pattern_from(inner, 1, 0, Seq::empty())->Ok_0.1) + 1]),
                "Expected nothing after '>'"@,
            ),
        ),
{
    let q = seq![Tree::Group(Delimiter::Brace, inner, span)];
    assert(q.drop_last() =~= Seq::<Tree>::empty());
    assert(q.last() == Tree::Group(Delimiter::Brace, inner, span));
    assert(rewrite_tree(q.last()) is Err);
    assert(idents_spec(Seq::<Tree>::empty()) == Ok::<Seq<Tree>, (Span, Seq<char>)>(Seq::empty()));
}


proof fn lemma_shape_first_close(a: Seq<Tree>, b: Seq<Tree>, i: int)
    requires
        same_shape(a, b),
    ensures
        first_close(a, i) == first_close(b, i),
    decreases a.len() - i,
{
    if 0 <= i < a.len() {
        assert(strip(a[i]) == strip(b[i]));
        lemma_shape_first_close(a, b, i + 1);
    }
}

proof fn lemma_shape_pasted(a: Seq<Tree>, b: Seq<Tree>)
    requires
        same_shape(a, b),
    ensures
        pasted_name(a) == pasted_name(b),
    decreases a.len(),
{
    if a.len() > 0 {
        lemma_shape_subrange(a, b, 0, a.len() - 1);
        assert(a.subrange(0, a.len() - 1) =~= a.drop_last());
        assert(b.subrange(0, b.len() - 1) =~= b.drop_last());
        lemma_shape_pasted(a.drop_last(), b.drop_last());
        assert(strip(a.last()) == strip(b.last()));
    }
}

proof fn lemma_shape_pattern(a: Seq<Tree>, b: Seq<Tree>, i: int, dots: nat, pat: Seq<Segment>)
    requires
        same_shape(a, b),
    ensures
        match (pattern_from(a, i, dots, pat), pattern_from(b, i, dots, pat)) {
            (Ok(x), Ok(y)) => x == y,
            (Err(e1), Err(e2)) => e1.1 == e2.1,
            _ => false,
        },
    decreases a, a.len() - i,
{
    if 0 <= i < a.len() {
        assert(strip(a[i]) == strip(b[i]));
        match a[i] {
            Tree::Ident(text, _) => {
                lemma_shape_pattern(a, b, i + 1, dots, push_text(pat, text));
            },
            Tree::Literal(text, _) => {
                lemma_shape_pattern(a, b, i + 1, dots, push_text(pat, text));
            },
            Tree::Punct(c, _, _) => {
                if c == '@' {
                    lemma_shape_pattern(a, b, i + 1, dots, pat.push(Segment::Placeholder));
                } else if c == '.' && dots + 1 != 3 {
                    lemma_shape_pattern(a, b, i + 1, dots + 1, pat);
                }
            },
            Tree::Group(d, inner, _) => {
                if let Tree::Group(_, inner_b, _) = b[i] {
                    lemma_same_shape(inner, inner_b);
                    lemma_shape_group_pattern(inner, inner_b, 0, dots, pat);
                    if let Ok(r) = group_pattern(inner, 0, dots, pat) {
                        lemma_shape_pattern(a, b, i + 1, r.1, r.0);
                    }
                }
            },
        }
    }
}

proof fn lemma_shape_group_pattern(a: Seq<Tree>, b: Seq<Tree>, i: int, dots: nat, pat: Seq<Segment>)
    requires
        same_shape(a, b),
    ensures
        match (group_pattern(a, i, dots, pat), group_pattern(b, i, dots, pat)) {
            (Ok(x), Ok(y)) => x == y,
            (Err(e1), Err(e2)) => e1.1 == e2.1,
            _ => false,
        },
    decreases a, a.len() - i,
{
    if 0 <= i < a.len() {
        assert(strip(a[i]) == strip(b[i]));
        match a[i] {
            Tree::Ident(text, _) => {
                lemma_shape_group_pattern(a, b, i + 1, dots, push_text(pat, text));
            },
            Tree::Literal(text, _) => {
                lemma_shape_group_pattern(a, b, i + 1, dots, push_text(pat, text));
            },
            Tree::Punct(c, _, _) => {
                if c == '@' {
                    lemma_shape_group_pattern(a, b, i + 1, dots, pat.push(Segment::Placeholder));
                } else if c == '.' {
                    lemma_shape_group_pattern(a, b, i + 1, dots + 1, pat);
                }
            },
            Tree::Group(d, inner, _) => {
                if let Tree::Group(_, inner_b, _) = b[i] {
                    lemma_same_shape(inner, inner_b);
                    lemma_shape_group_pattern(inner, inner_b, 0, dots, pat);
                    if let Ok(r) = group_pattern(inner, 0, dots, pat) {
                        lemma_shape_group_pattern(a, b, i + 1, r.1, r.0);
                    }
                }
            },
        }
    }
}

proof fn lemma_shape_enumerated(a: Seq<Tree>, b: Seq<Tree>, pat: Seq<Segment>)
    requires
        same_shape(a, b),
    ensures
        strip_all(enumerated(a, pat)) == strip_all(enumerated(b, pat)),
        item_count(a) == item_count(b),
    decreases a.len(),
{
    if a.len() > 0 {
        lemma_shape_subrange(a, b, 0, a.len() - 1);
        assert(a.subrange(0, a.len() - 1) =~= a.drop_last());
        assert(b.subrange(0, b.len() - 1) =~= b.drop_last());
        lemma_shape_enumerated(a.drop_last(), b.drop_last(), pat);
        assert(strip(a.last()) == strip(b.last()));
        let ea = enumerated(a, pat);
        let eb = enumerated(b, pat);
        assert(ea.drop_last() =~= enumerated(a.drop_last(), pat));
        assert(eb.drop_last() =~= enumerated(b.drop_last(), pat));
        assert(strip(ea.last()) == strip(eb.last()));
    }
}

proof fn lemma_shape_opens(a: Seq<Tree>, b: Seq<Tree>)
    requires
        same_shape(a, b),
    ensures
        opens(a) == opens(b),
{
    if a.len() > 0 {
        assert(strip(a[0]) == strip(b[0]));
    }
}

proof fn lemma_bracket_position_free(a: Seq<Tree>, b: Seq<Tree>)
    requires
        same_shape(a, b),
    ensures
        match (bracket_spec(a), bracket_spec(b)) {
            (None, None) => true,
            (Some(Ok(x)), Some(Ok(y))) => strip(x) == strip(y),
            (Some(Err(e1)), Some(Err(e2))) => e1.1 == e2.1,
            _ => false,
        },
{
    lemma_shape_opens(a, b);
    lemma_shape_first_close(a, b, 1);
    if opens(a) {
        let k = first_close(a, 1);
        lemma_first_close_bounds(a, 1);
        if k + 1 >= a.len() {
            lemma_shape_subrange(a, b, 1, k);
            lemma_shape_pasted(a.subrange(1, k), b.subrange(1, k));
        }
    }
}

proof fn lemma_brace_position_free(a: Seq<Tree>, b: Seq<Tree>)
    requires
        same_shape(a, b),
    ensures
        match (brace_spec(a), brace_spec(b)) {
            (None, None) => true,
            (Some(r1), Some(r2)) => same_outcome(r1, r2),
            _ => false,
        },
{
    lemma_shape_opens(a, b);
    if opens(a) {
        lemma_shape_pattern(a, b, 1, 0, Seq::empty());
        if let Ok(r) = pattern_from(a, 1, 0, Seq::empty()) {
            lemma_pattern_end(a, 1, 0, Seq::empty());
            lemma_shape_first_close(a, b, r.1);
            lemma_first_close_bounds(a, r.1);
            let k = first_close(a, r.1);
            if k + 1 >= a.len() {
                lemma_shape_subrange(a, b, r.1, k);
                lemma_shape_enumerated(a.subrange(r.1, k), b.subrange(r.1, k), r.0);
            }
        }
    }
}

/// Rewriting a token does not depend on where it stands: tokens equal once positions are
/// forgotten give outcomes alike but for positions.
pub proof fn lemma_rewrite_position_free(t1: Tree, t2: Tree)
    requires
        strip(t1) == strip(t2),
    ensures
        same_outcome(rewrite_tree(t1), rewrite_tree(t2)),
    decreases t1,
{
    lemma_strip_index(seq![t1]);
    lemma_strip_index(seq![t2]);
    if let Tree::Group(d, inner1, span1) = t1 {
        if let Tree::Group(_, inner2, span2) = t2 {
            lemma_same_shape(inner1, inner2);
            lemma_bracket_position_free(inner1, inner2);
            lemma_brace_position_free(inner1, inner2);
            if let Some(Ok(x)) = bracket_spec(inner1) {
                if let Some(Ok(y)) = bracket_spec(inner2) {
                    lemma_strip_index(seq![x]);
                    lemma_strip_index(seq![y]);
                    assert(strip_all(seq![x]) =~= strip_all(seq![y]));
                }
            }
            if recognized(d, inner1) is None {
                lemma_idents_position_free(inner1, inner2);
                if let Ok(o1) = idents_spec(inner1) {
                    if let Ok(o2) = idents_spec(inner2) {
                        lemma_strip_index(seq![Tree::Group(d, o1, span1)]);
                        lemma_strip_index(seq![Tree::Group(d, o2, span2)]);
                        assert(strip_all(seq![Tree::Group(d, o1, span1)]) =~= strip_all(seq![Tree::Group(d, o2, span2)]));
                    }
                }
            }
        }
    } else {
        assert(strip_all(seq![t1]) =~= strip_all(seq![t2]));
        assert(same_outcome(rewrite_tree(t1), rewrite_tree(t2)));
    }
}

/// The rewriting does not depend on positions: two inputs that are equal once positions are
/// forgotten give outputs that are equal once positions are forgotten, or fail with the same
/// message.
pub proof fn lemma_idents_position_free(a: Seq<Tree>, b: Seq<Tree>)
    requires
        strip_all(a) == strip_all(b),
    ensures
        same_outcome(idents_spec(a), idents_spec(b)),
    decreases a,
{
    lemma_same_shape(a, b);
    if a.len() == 0 {
        assert(b =~= Seq::<Tree>::empty());
    } else {
        lemma_shape_subrange(a, b, 0, a.len() - 1);
        assert(a.subrange(0, a.len() - 1) =~= a.drop_last());
        assert(b.subrange(0, b.len() - 1) =~= b.drop_last());
        lemma_same_shape(a.drop_last(), b.drop_last());
        lemma_idents_position_free(a.drop_last(), b.drop_last());
        assert(strip(a.last()) == strip(b.last()));
        lemma_rewrite_position_free(a.last(), b.last());
        if let Ok(x1) = idents_spec(a.drop_last()) {
            if let Ok(x2) = idents_spec(b.drop_last()) {
                if let Ok(y1) = rewrite_tree(a.last()) {
                    if let Ok(y2) = rewrite_tree(b.last()) {
                        lemma_strip_concat(x1, y1);
                        lemma_strip_concat(x2, y2);
                    }
                }
            }
        }
    }
}

proof fn lemma_first_close_bounds(s: Seq<Tree>, i: int)
    requires
        0 <= i,
    ensures
        i <= first_close(s, i) <= s.len() || (i > s.len() && first_close(s, i) == s.len()),
    decreases s.len() - i,
{
    if i < s.len() && !is_punct(s[i], '>') {
        lemma_first_close_bounds(s, i + 1);
    }
}

} // verus!

verus! {

/// A token none of whose `{< ... >}` constructs, at any depth, has an empty item list.
pub open spec fn no_empty_list(t: Tree) -> bool
    decreases t,
{
    match t {
        Tree::Group(d, inner, _) => match recognized(d, inner) {
            Some(Ok(r)) => r.len() > 0,
            Some(Err(_)) => true,
            None => all_no_empty_list(inner),
        },
        _ => true,
    }
}

pub open spec fn all_no_empty_list(s: Seq<Tree>) -> bool
    decreases s,
{
    if s.len() == 0 {
        true
    } else {
        all_no_empty_list(s.drop_last()) && no_empty_list(s.last())
    }
}

/// A token that could open a construct when it stands first in a group.
pub open spec fn is_open_angle(t: Tree) -> bool {
    is_punct(t, '<')
}

proof fn lemma_pass_through_single(t: Tree)
    requires
        passes_through(t),
    ensures
        all_pass_through(seq![t]),
{
    let q = seq![t];
    assert(q.drop_last() =~= Seq::<Tree>::empty());
    assert(q.last() == t);
    assert(all_pass_through(Seq::<Tree>::empty()));
}

proof fn lemma_pass_through_concat(a: Seq<Tree>, b: Seq<Tree>)
    ensures
        all_pass_through(a + b) == (all_pass_through(a) && all_pass_through(b)),
    decreases b.len(),
{
    if b.len() == 0 {
        assert(a + b =~= a);
    } else {
        assert((a + b).drop_last() =~= a + b.drop_last());
        lemma_pass_through_concat(a, b.drop_last());
    }
}

proof fn lemma_enumerated_shape(s: Seq<Tree>, pat: Seq<Segment>)
    ensures
        all_pass_through(enumerated(s, pat)),
        enumerated(s, pat).len() == s.len(),
        forall|i: int| 0 <= i < s.len() ==> !is_open_angle(#[trigger] enumerated(s, pat)[i]),
    decreases s.len(),
{
    if s.len() > 0 {
        lemma_enumerated_shape(s.drop_last(), pat);
        let e = enumerated(s, pat);
        assert(e.drop_last() =~= enumerated(s.drop_last(), pat));
        assert(passes_through(e.last()));
        assert forall|i: int| 0 <= i < s.len() implies !is_open_angle(#[trigger] e[i]) by {
            if i < s.len() - 1 {
                assert(e[i] == enumerated(s.drop_last(), pat)[i]);
            }
        }
    }
}

/// What a rewritten token gives back holds no construct, and does not start with `<`
/// unless the token itself is `<`.
proof fn lemma_rewrite_settles(t: Tree)
    requires
        rewrite_tree(t) is Ok,
        no_empty_list(t),
    ensures
        all_pass_through(rewrite_tree(t)->Ok_0),
        rewrite_tree(t)->Ok_0.len() > 0,
        is_open_angle(rewrite_tree(t)->Ok_0[0]) ==> is_open_angle(t),
    decreases t,
{
    let r = rewrite_tree(t)->Ok_0;
    match t {
        Tree::Group(d, inner, span) => {
            match recognized(d, inner) {
                Some(_) => {
                    if d == Delimiter::Bracket {
                        let id = bracket_spec(inner)->Some_0->Ok_0;
                        assert(r == seq![id]);
                        assert(seq![id].drop_last() =~= Seq::<Tree>::empty());
                        assert(passes_through(id));
                        lemma_pass_through_single(id);
                    } else {
                        let p = pattern_from(inner, 1, 0, Seq::empty())->Ok_0;
                        lemma_pattern_end(inner, 1, 0, Seq::empty());
                        lemma_first_close_bounds(inner, p.1);
                        let k = first_close(inner, p.1);
                        lemma_enumerated_shape(inner.subrange(p.1, k), p.0);
                        assert(r == enumerated(inner.subrange(p.1, k), p.0));
                        assert(!is_open_angle(r[0]));
                    }
                },
                None => {
                    lemma_idents_settles(inner);
                    let out = idents_spec(inner)->Ok_0;
                    let g = Tree::Group(d, out, span);
                    assert(r == seq![g]);
                    assert(seq![g].drop_last() =~= Seq::<Tree>::empty());
                    if inner.len() > 0 {
                        assert(!is_open_angle(inner[0]) || !(d == Delimiter::Bracket || d == Delimiter::Brace));
                    }
                    assert(recognized(d, out) is None);
                    assert(passes_through(g));
                    lemma_pass_through_single(g);
                },
            }
        },
        _ => {
            assert(seq![t].drop_last() =~= Seq::<Tree>::empty());
            lemma_pass_through_single(t);
        },
    }
}

/// A rewritten sequence holds no construct, is empty only where the input is, and starts
/// with `<` only where the input does.
proof fn lemma_idents_settles(s: Seq<Tree>)
    requires
        idents_spec(s) is Ok,
        all_no_empty_list(s),
    ensures
        all_pass_through(idents_spec(s)->Ok_0),
        s.len() > 0 ==> idents_spec(s)->Ok_0.len() > 0,
        s.len() > 0 && is_open_angle(idents_spec(s)->Ok_0[0]) ==> is_open_angle(s[0]),
    decreases s,
{
    if s.len() > 0 {
        let d = s.drop_last();
        lemma_idents_settles(d);
        lemma_rewrite_settles(s.last());
        let x = idents_spec(d)->Ok_0;
        let y = rewrite_tree(s.last())->Ok_0;
        lemma_pass_through_concat(x, y);
        if d.len() == 0 {
            assert(x =~= Seq::<Tree>::empty());
            assert((x + y)[0] == y[0]);
            assert(s[0] == s.last());
        } else {
            assert((x + y)[0] == x[0]);
            assert(s[0] == d[0]);
        }
    }
}

/// Rewriting twice changes nothing more: the output of a successful rewrite comes back
/// unchanged, provided no `{< ... >}` construct of the input has an empty item list (an
/// empty list at the front of a group can leave a `<` there that then opens a construct).
pub proof fn lemma_idents_idempotent(s: Seq<Tree>)
    requires
        idents_spec(s) is Ok,
        all_no_empty_list(s),
    ensures
        idents_spec(idents_spec(s)->Ok_0) == idents_spec(s),
{
    lemma_idents_settles(s);
    lemma_pass_through(idents_spec(s)->Ok_0);
}

} // verus!

verus! {

proof fn lemma_first_close_none_before(s: Seq<Tree>, i: int, j: int)
    requires
        0 <= i <= j <= s.len(),
        forall|k: int| i <= k < j ==> !is_punct(#[trigger] s[k], '>'),
    ensures
        first_close(s, i) == first_close(s, j),
    decreases j - i,
{
    if i < j {
        lemma_first_close_none_before(s, i + 1, j);
    }
}

/// `[< t1 t2 ... >]`, with no `>` among the `ti`, becomes one identifier: the texts of the
/// identifiers, literals and `_` among them, joined in order, at the position of the first
/// of them (or of the `<` where there is none).
pub proof fn lemma_bracket_whole(s: Seq<Tree>)
    requires
        s.len() >= 2,
        is_punct(s[0], '<'),
        is_punct(s.last(), '>'),
        forall|k: int| 1 <= k < s.len() - 1 ==> !is_punct(#[trigger] s[k], '>'),
    ensures
        bracket_spec(s) == Some(Ok::<Tree, (Span, Seq<char>)>(Tree::Ident(
            pasted_name(s.subrange(1, s.len() - 1)),
            match pasted_span(s.subrange(1, s.len() - 1)) {
                Some(span) => span,
                None => span_of(s[0]),
            },
        ))),
{
    lemma_first_close_none_before(s, 1, s.len() - 1);
}

/// `{< pattern ... items >}`, with a valid pattern and no `>` among the items, becomes the
/// item list rewritten.
pub proof fn lemma_brace_whole(s: Seq<Tree>)
    requires
        s.len() >= 2,
        is_punct(s[0], '<'),
        is_punct(s.last(), '>'),
        pattern_from(s, 1, 0, Seq::empty()) is Ok,
        pattern_from(s, 1, 0, Seq::empty())->Ok_0.1 < s.len(),
        forall|k: int| pattern_from(s, 1, 0, Seq::empty())->Ok_0.1 <= k < s.len() - 1
            ==> !is_punct(#[trigger] s[k], '>'),
    ensures
        brace_spec(s) == Some(Ok::<Seq<Tree>, (Span, Seq<char>)>(enumerated(
            s.subrange(pattern_from(s, 1, 0, Seq::empty())->Ok_0.1, s.len() - 1),
            pattern_from(s, 1, 0, Seq::empty())->Ok_0.0,
        ))),
{
    let p = pattern_from(s, 1, 0, Seq::empty())->Ok_0.1;
    lemma_pattern_end(s, 1, 0, Seq::empty());
    lemma_first_close_none_before(s, p, s.len() - 1);
}

/// In the item list of `{< pattern ... items >}`, a comma stays as it is and every other
/// item becomes the identifier named for its ordinal (the number of items before it), at
/// the item's position.
pub proof fn lemma_enumerated_items(s: Seq<Tree>, pat: Seq<Segment>)
    ensures
        enumerated(s, pat).len() == s.len(),
        forall|i: int| 0 <= i < s.len() ==> #[trigger] enumerated(s, pat)[i] == if is_punct(s[i], ',') {
            s[i]
        } else {
            Tree::Ident(item_name(pat, item_count(s.take(i))), span_of(s[i]))
        },
    decreases s.len(),
{
    if s.len() > 0 {
        let d = s.drop_last();
        lemma_enumerated_items(d, pat);
        let e = enumerated(s, pat);
        assert(e.drop_last() =~= enumerated(d, pat));
        assert(s.take(s.len() - 1) =~= d);
        assert forall|i: int| 0 <= i < s.len() implies #[trigger] e[i] == if is_punct(s[i], ',') {
            s[i]
        } else {
            Tree::Ident(item_name(pat, item_count(s.take(i))), span_of(s[i]))
        } by {
            if i < s.len() - 1 {
                assert(e[i] == enumerated(d, pat)[i]);
                assert(d.take(i) =~= s.take(i));
            }
        }
    }
}

/// Without a pattern, the item with ordinal `n` is named `T<n>`.
pub proof fn lemma_fallback_name(n: nat)
    ensures
        item_name(Seq::empty(), n) == seq!['T'] + decimal_text(n),
{
}

} // verus!
