use macro_toolkit::match_lit::{
    match_lit as dispatch, select_branch, text_eq, Branch, Branches, Lit, LitKind, LitMatcher, NumSuffix,
};
use macro_toolkit::tokens::{Delimiter, Spacing, Span, Token};
use proc_macro2::{TokenStream, TokenTree};

fn convert(ts: TokenStream, next: &mut u64) -> Vec<Token> {
    let mut out = Vec::new();
    for tt in ts {
        let span = Span::At(*next);
        *next += 1;
        out.push(match tt {
            TokenTree::Ident(i) => Token::Ident { text: i.to_string(), span },
            TokenTree::Literal(l) => Token::Literal { text: l.to_string(), span },
            TokenTree::Punct(p) => Token::Punct {
                ch: p.as_char(),
                spacing: match p.spacing() {
                    proc_macro2::Spacing::Joint => Spacing::Joint,
                    proc_macro2::Spacing::Alone => Spacing::Alone,
                },
                span,
            },
            TokenTree::Group(g) => Token::Group {
                delimiter: match g.delimiter() {
                    proc_macro2::Delimiter::Parenthesis => Delimiter::Parenthesis,
                    proc_macro2::Delimiter::Bracket => Delimiter::Bracket,
                    proc_macro2::Delimiter::Brace => Delimiter::Brace,
                    proc_macro2::Delimiter::None => Delimiter::Invisible,
                },
                stream: convert(g.stream(), next),
                span,
            },
        });
    }
    out
}

fn tokens(ts: TokenStream) -> Vec<Token> {
    let mut next = 0;
    convert(ts, &mut next)
}

fn parse(src: &str) -> Vec<Token> {
    tokens(src.parse().unwrap())
}

fn render(ts: &[Token]) -> String {
    let parts: Vec<String> = ts
        .iter()
        .map(|t| match t {
            Token::Ident { text, .. } | Token::Literal { text, .. } => text.clone(),
            Token::Punct { ch, .. } => ch.to_string(),
            Token::Group { delimiter, stream, .. } => {
                let inner = render(stream);
                match delimiter {
                    Delimiter::Parenthesis => format!("({inner})"),
                    Delimiter::Bracket => format!("[{inner}]"),
                    Delimiter::Brace => format!("{{{inner}}}"),
                    Delimiter::Invisible => inner,
                }
            },
        })
        .collect();
    parts.join(" ")
}

fn stream(src: &str) -> TokenStream {
    src.parse().unwrap()
}

fn error_message(ts: &[Token]) -> String {
    match ts.last() {
        Some(Token::Group { stream, .. }) => render(stream),
        _ => String::new(),
    }
}

fn invisible(src: &str) -> Token {
    Token::Group { delimiter: Delimiter::Invisible, stream: parse(src), span: Span::At(100) }
}

/// `$lit { <branches> }` as a declarative macro hands it on, the literal in an invisible group.
fn with_macro_literal(lit: &str, branches: &str) -> Vec<Token> {
    let mut input = vec![invisible(lit)];
    input.extend(parse(branches));
    input
}

fn run(src: &str) -> String {
    render(&dispatch(parse(src)).unwrap())
}

#[test]
fn test_match_lit_simple() {
    assert_eq!(run("42 { int => \"int\", string => \"string\" }"), "\"int\"");
    assert_eq!(run("\"42\" { int => \"int\", string => \"string\" }"), "\"string\"");
}

#[test]
fn test_match_lit_priority() {
    assert_eq!(run("42 { i32 => \"int32\", int => \"int\" }"), "\"int\"");
    assert_eq!(run("42i32 { i32 => \"int32\", int => \"int\" }"), "\"int32\"");
}

#[test]
fn test_match_lit_macro() {
    let branches = "{ int => \"int\", string => \"string\", }";
    assert_eq!(render(&dispatch(with_macro_literal("42", branches)).unwrap()), "\"int\"");
    assert_eq!(render(&dispatch(with_macro_literal("\"42\"", branches)).unwrap()), "\"string\"");
}

#[test]
fn test_match_lit_nested() {
    let branches = |lit: &str| {
        let mut group = vec![
            Token::Ident { text: "int".to_string(), span: Span::At(200) },
            Token::Punct { ch: '=', spacing: Spacing::Joint, span: Span::At(201) },
            Token::Punct { ch: '>', spacing: Spacing::Alone, span: Span::At(202) },
            invisible(lit),
            Token::Punct { ch: ',', spacing: Spacing::Alone, span: Span::At(203) },
        ];
        group.extend(parse("string => \"string\","));
        Token::Group { delimiter: Delimiter::Brace, stream: group, span: Span::At(204) }
    };
    let out = dispatch(vec![invisible("42"), branches("42")]).unwrap();
    assert_eq!(render(&out), "42");
    let out = dispatch(vec![invisible("\"42\""), branches("\"42\"")]).unwrap();
    assert_eq!(render(&out), "\"string\"");
}

#[test]
fn text_literal_dispatch() {
    assert_eq!(run("\"42\" { int => A, string => B }"), "B");
}

#[test]
fn unmatched_float() {
    let err = dispatch(parse("3.14f32 { int => A }")).unwrap_err();
    assert_eq!(error_message(&err), "\"Unmatched literal type\"");
    assert_eq!(render(&err[..7]), ": : core : : compile_error !");
    for t in &err {
        let span = match t {
            Token::Ident { span, .. } | Token::Literal { span, .. } | Token::Punct { span, .. } | Token::Group { span, .. } => *span,
        };
        assert_eq!(span, Span::At(0));
    }
}

#[test]
fn float_suffixes() {
    assert_eq!(run("3.14f32 { f64 => A, f32 => B }"), "B");
    assert_eq!(run("3.14 { f32 => A, float_ => B }"), "B");
    assert_eq!(run("1e3f64 { float => A }"), "A");
}

#[test]
fn integer_widths() {
    assert_eq!(run("7u8 { i8 => A, int8 => B }"), "B");
    assert_eq!(run("7i64 { uint => A, sint => B }"), "B");
    assert_eq!(run("7u128 { int128 => A }"), "A");
    assert_eq!(run("7usize { isize => A, size => B }"), "B");
    assert_eq!(run("7isize { isize => A }"), "A");
    assert_eq!(run("7 { int_ => A }"), "A");
    assert_eq!(run("7u16 { int_ => A, _ => B }"), "B");
}

#[test]
fn chars_strings_and_bools() {
    assert_eq!(run("'a' { byte => A, char => B }"), "B");
    assert_eq!(run("b'a' { char => A, charlike => B }"), "B");
    assert_eq!(run("b\"ab\" { string => A, bytes => B }"), "B");
    assert_eq!(run("c\"ab\" { string => A, text => B }"), "B");
    assert_eq!(run("\"ab\" { cstring => A, stringlike => B }"), "B");
    assert_eq!(run("true { int => A, bool => B }"), "B");
    assert_eq!(run("false { boollike => A }"), "A");
}

#[test]
fn wildcard_takes_anything() {
    assert_eq!(run("'x' { _ => A }"), "A");
    assert_eq!(run("1.5 { _ => A }"), "A");
}

#[test]
fn branch_tokens_run_to_comma() {
    assert_eq!(run("1 { int => a + b * (c, d), _ => z }"), "a + b * (c , d)");
}

#[test]
fn scrutinee_errors() {
    let err = dispatch(parse("foo { int => A }")).unwrap_err();
    assert_eq!(error_message(&err), "\"Expected a literal\"");
    let err = dispatch(parse("")).unwrap_err();
    assert_eq!(error_message(&err), "\"Expected a literal and then match branches wrapped in `{}`\"");
    let err = dispatch(parse("1")).unwrap_err();
    assert_eq!(error_message(&err), "\"Expected a literal and then match branches wrapped in `{}`\"");
    let err = dispatch(parse("1 x")).unwrap_err();
    assert_eq!(error_message(&err), "\"Expected match branches wrapped in `{}`\"");
    let err = dispatch(parse("1 { int => A } x")).unwrap_err();
    assert_eq!(error_message(&err), "\"Expected nothing after the match branches\"");
    let err = dispatch(vec![invisible("1 2"), Token::Group { delimiter: Delimiter::Brace, stream: parse("int => A"), span: Span::At(7) }]).unwrap_err();
    assert_eq!(error_message(&err), "\"Expected a literal\"");
}

#[test]
fn branch_errors() {
    let err = dispatch(parse("1 { 5 => A }")).unwrap_err();
    assert_eq!(error_message(&err), "\"Expected a match identifier\"");
    let err = dispatch(parse("1 { int = > A }")).unwrap_err();
    assert_eq!(error_message(&err), "\"Expected '=>'\"");
    let err = dispatch(parse("1 { int }")).unwrap_err();
    assert_eq!(error_message(&err), "\"Expected '=>'\"");
    let err = dispatch(parse("1 { int -> A }")).unwrap_err();
    assert_eq!(error_message(&err), "\"Expected '=>'\"");
    let err = dispatch(parse("1 { integer => A }")).unwrap_err();
    assert_eq!(error_message(&err), "\"Expected a specific literal identifier\"");
    let err = dispatch(parse("1 { int => A, nope => B }")).unwrap_err();
    assert_eq!(error_message(&err), "\"Expected a specific literal identifier\"");
}

#[test]
fn literal_classification() {
    let lit = Lit::from_text("42i32", Span::At(3));
    assert_eq!(lit, Lit { kind: LitKind::Int, suffix: NumSuffix::I32, span: Span::At(3) });
    assert_eq!(Lit::from_text("42", Span::MixedSite).suffix, NumSuffix::Unsuffixed);
    assert_eq!(Lit::from_text("3.14f32", Span::MixedSite).kind, LitKind::Float);
    assert_eq!(Lit::from_text("3.14f32", Span::MixedSite).suffix, NumSuffix::F32);
    assert_eq!(Lit::from_text("b'a'", Span::MixedSite).kind, LitKind::Byte);
    assert_eq!(Lit::from_text("'a'", Span::MixedSite).kind, LitKind::Char);
    assert_eq!(Lit::from_text("b\"a\"", Span::MixedSite).kind, LitKind::ByteStr);
    assert_eq!(Lit::from_text("c\"a\"", Span::MixedSite).kind, LitKind::CStr);
    assert_eq!(Lit::from_text("\"a\"", Span::MixedSite).kind, LitKind::Str);
    assert_eq!(Lit::from_text("not a literal", Span::MixedSite).kind, LitKind::Verbatim);
}

#[test]
fn suffix_classes() {
    assert_eq!(NumSuffix::classify(""), NumSuffix::Unsuffixed);
    assert_eq!(NumSuffix::classify("u64"), NumSuffix::U64);
    assert_eq!(NumSuffix::classify("isize"), NumSuffix::ISize);
    assert_eq!(NumSuffix::classify("f64"), NumSuffix::F64);
    assert_eq!(NumSuffix::classify("q"), NumSuffix::Other);
    assert!(text_eq("abc", "abc"));
    assert!(!text_eq("abc", "abd"));
    assert!(!text_eq("ab", "abc"));
}

#[test]
fn matcher_names() {
    assert_eq!(LitMatcher::parse("intlike", Span::MixedSite).unwrap(), LitMatcher::Int);
    assert_eq!(LitMatcher::parse("bstring", Span::MixedSite).unwrap(), LitMatcher::StringByte);
    assert_eq!(LitMatcher::parse("floatlike", Span::MixedSite).unwrap(), LitMatcher::Float);
    assert_eq!(LitMatcher::parse("_", Span::MixedSite).unwrap(), LitMatcher::Any);
    assert!(LitMatcher::parse("Int", Span::MixedSite).is_err());
}

#[test]
fn matcher_table() {
    let int = |suffix| Lit { kind: LitKind::Int, suffix, span: Span::MixedSite };
    assert!(LitMatcher::Int.match_lit(&int(NumSuffix::Unsuffixed)));
    assert!(!LitMatcher::IntS32.match_lit(&int(NumSuffix::Unsuffixed)));
    assert!(LitMatcher::Int32.match_lit(&int(NumSuffix::U32)));
    assert!(!LitMatcher::IntU.match_lit(&int(NumSuffix::I8)));
    assert!(!LitMatcher::Int.match_lit(&int(NumSuffix::Other)));
    assert!(LitMatcher::Any.match_lit(&Lit { kind: LitKind::Verbatim, suffix: NumSuffix::Other, span: Span::MixedSite }));
}

#[test]
fn selection_by_order() {
    let lit = Lit { kind: LitKind::Int, suffix: NumSuffix::I32, span: Span::At(9) };
    let branches = vec![
        Branch { matcher: LitMatcher::Bool, tokens: parse("a") },
        Branch { matcher: LitMatcher::IntS32, tokens: parse("b") },
        Branch { matcher: LitMatcher::Int, tokens: parse("c") },
    ];
    assert_eq!(render(&select_branch(&lit, branches).unwrap()), "b");
    let err = select_branch(&lit, vec![]).unwrap_err();
    assert_eq!(error_message(&err), "\"Unmatched literal type\"");
}

#[test]
fn parsed_branches() {
    let b = Branches::parse(parse("1u8 { u8 => x y, _ => z }")).unwrap();
    assert_eq!(b.lit.suffix, NumSuffix::U8);
    assert_eq!(b.branches.len(), 2);
    assert_eq!(b.branches[0].matcher, LitMatcher::IntU8);
    assert_eq!(render(&b.branches[0].tokens), "x y");
    let empty = Branches::new(b.lit);
    assert_eq!(empty.branches.len(), 0);
}

#[test]
fn match_lit_root_folds_errors() {
    let out = macro_toolkit::match_lit(parse("3.14f32 { int => A }"));
    assert_eq!(error_message(&out), "\"Unmatched literal type\"");
    let out = macro_toolkit::match_lit(parse("3 { int => A }"));
    assert_eq!(render(&out), "A");
}

#[test]
fn same_text_same_choice() {
    let a = run("42u32 { i32 => A, uint => B }");
    let mut next = 500;
    let b = dispatch(convert(stream("42u32 { i32 => A, uint => B }"), &mut next)).unwrap();
    assert_eq!(render(&b), a);
}
