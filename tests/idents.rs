use macro_toolkit::idents::{decimal, idents as rewrite};
use macro_toolkit::tokens::{Delimiter, Spacing, Span, Token};
use proc_macro2::{Group, Punct, TokenStream, TokenTree};

fn convert(ts: TokenStream, next: &mut u64) -> Vec<Token> {
    let mut out = Vec::new();
    for tt in ts {
        let span = Span::At(*next);
        *next += 1;
        out.push(match tt {
            TokenTree::Ident(i) => Token::Ident { text: i.to_string(), span },
            TokenTree::Literal(l) => Token::Literal { text: l.to_string(), span },
            TokenTree::Punct(p) => Token::Punct {
                ch: p.as_char(),
                spacing: match p.spacing() {
                    proc_macro2::Spacing::Joint => Spacing::Joint,
                    proc_macro2::Spacing::Alone => Spacing::Alone,
                },
                span,
            },
            TokenTree::Group(g) => Token::Group {
                delimiter: match g.delimiter() {
                    proc_macro2::Delimiter::Parenthesis => Delimiter::Parenthesis,
                    proc_macro2::Delimiter::Bracket => Delimiter::Bracket,
                    proc_macro2::Delimiter::Brace => Delimiter::Brace,
                    proc_macro2::Delimiter::None => Delimiter::Invisible,
                },
                stream: convert(g.stream(), next),
                span,
            },
        });
    }
    out
}

fn tokens(ts: TokenStream) -> Vec<Token> {
    let mut next = 0;
    convert(ts, &mut next)
}

fn parse(src: &str) -> Vec<Token> {
    tokens(src.parse().unwrap())
}

fn render(ts: &[Token]) -> String {
    let parts: Vec<String> = ts
        .iter()
        .map(|t| match t {
            Token::Ident { text, .. } | Token::Literal { text, .. } => text.clone(),
            Token::Punct { ch, .. } => ch.to_string(),
            Token::Group { delimiter, stream, .. } => {
                let inner = render(stream);
                match delimiter {
                    Delimiter::Parenthesis => format!("({inner})"),
                    Delimiter::Bracket => format!("[{inner}]"),
                    Delimiter::Brace => format!("{{{inner}}}"),
                    Delimiter::Invisible => inner,
                }
            },
        })
        .collect();
    parts.join(" ")
}

fn stream(src: &str) -> TokenStream {
    src.parse().unwrap()
}

fn group(delimiter: proc_macro2::Delimiter, ts: TokenStream) -> TokenStream {
    TokenStream::from(TokenTree::Group(Group::new(delimiter, ts)))
}

/// The values `"Test", 42usize` as a declarative macro hands them on: each in an invisible group.
fn values() -> TokenStream {
    let mut ts = group(proc_macro2::Delimiter::None, stream("\"Test\""));
    ts.extend([TokenTree::Punct(Punct::new(',', proc_macro2::Spacing::Alone))]);
    ts.extend(group(proc_macro2::Delimiter::None, stream("42usize")));
    ts
}

fn enumeration() -> TokenStream {
    let mut inner = stream("<...");
    inner.extend(values());
    inner.extend(stream(">"));
    group(proc_macro2::Delimiter::Brace, inner)
}

fn build_foo_input() -> Vec<Token> {
    let mut ts = stream("#[derive(Debug)] struct Foo<");
    ts.extend(enumeration());
    ts.extend(stream(">"));
    ts.extend(group(proc_macro2::Delimiter::Parenthesis, enumeration()));
    ts.extend(stream("; Foo"));
    ts.extend(group(proc_macro2::Delimiter::Parenthesis, values()));
    tokens(ts)
}

fn error_message(ts: &[Token]) -> String {
    match ts.last() {
        Some(Token::Group { stream, .. }) => render(stream),
        _ => String::new(),
    }
}

#[test]
fn test_idents_transparent() {
    let input = parse(
        "#[derive(Debug, Eq, PartialEq)] struct Foo; impl Default for Foo { #[inline] fn default() -> Self { Foo } }",
    );
    let expected = format!("{:?}", input);
    let out = rewrite(input).unwrap();
    assert_eq!(format!("{:?}", out), expected);
}

#[test]
fn test_idents_replace() {
    let out = rewrite(build_foo_input()).unwrap();
    assert_eq!(render(&out), "# [derive (Debug)] struct Foo < T0 , T1 > (T0 , T1) ; Foo (\"Test\" , 42usize)");
}

#[test]
fn test_idents_replace_named() {
    let out = rewrite(build_foo_input()).unwrap();
    assert_eq!(render(&out), "# [derive (Debug)] struct Foo < T0 , T1 > (T0 , T1) ; Foo (\"Test\" , 42usize)");
}

#[test]
fn pass_through_keeps_positions() {
    let input = parse("let a = [1, 2][0]; { x } (y [z])");
    let expected = format!("{:?}", input);
    assert_eq!(format!("{:?}", rewrite(input).unwrap()), expected);
}

#[test]
fn paste_concatenates_items() {
    let out = rewrite(parse("[< foo, _, 1 >]")).unwrap();
    assert_eq!(render(&out), "foo_1");
    match &out[0] {
        Token::Ident { span, .. } => assert_eq!(*span, Span::At(2)),
        other => panic!("expected an identifier, got {:?}", other),
    }
}

#[test]
fn paste_with_underscore_punct() {
    let input = vec![Token::Group {
        delimiter: Delimiter::Bracket,
        stream: vec![
            Token::Punct { ch: '<', spacing: Spacing::Alone, span: Span::At(1) },
            Token::Ident { text: "get".to_string(), span: Span::At(2) },
            Token::Punct { ch: '_', spacing: Spacing::Alone, span: Span::At(3) },
            Token::Literal { text: "2".to_string(), span: Span::At(4) },
            Token::Punct { ch: '>', spacing: Spacing::Alone, span: Span::At(5) },
        ],
        span: Span::At(0),
    }];
    assert_eq!(render(&rewrite(input).unwrap()), "get_2");
}

#[test]
fn bracket_without_angle_is_kept() {
    let out = rewrite(parse("a[0]")).unwrap();
    assert_eq!(render(&out), "a [0]");
}

#[test]
fn pattern_with_placeholder() {
    assert_eq!(render(&rewrite(parse("{< F@... a, b >}")).unwrap()), "F0 , F1");
    assert_eq!(
        render(&rewrite(parse("{< Field@Num... x, y, z >}")).unwrap()),
        "Field0Num , Field1Num , Field2Num"
    );
}

#[test]
fn pattern_without_placeholder_repeats() {
    assert_eq!(render(&rewrite(parse("{< X... a, b >}")).unwrap()), "X , X");
}

#[test]
fn fallback_naming() {
    assert_eq!(render(&rewrite(parse("{< ... x, y >}")).unwrap()), "T0 , T1");
}

#[test]
fn ordinals_past_nine() {
    let out = rewrite(parse("{< ... a, b, c, d, e, f, g, h, i, j, k >}")).unwrap();
    assert_eq!(render(&out), "T0 , T1 , T2 , T3 , T4 , T5 , T6 , T7 , T8 , T9 , T10");
}

#[test]
fn construct_found_deep_inside_groups() {
    let out = rewrite(parse("f(g((([< a b >], {< ... x, y >}))))")).unwrap();
    assert_eq!(render(&out), "f (g (((ab , T0 , T1))))");
}

#[test]
fn trailing_token_after_bracket() {
    let out = rewrite(parse("[< a > b]"));
    let err = out.unwrap_err();
    assert_eq!(error_message(&err), "\"Expected nothing after '>'\"");
    match &err[0] {
        Token::Punct { span, .. } => assert_eq!(*span, Span::At(4)),
        other => panic!("unexpected {:?}", other),
    }
}

#[test]
fn trailing_token_after_brace() {
    let err = rewrite(parse("{< ... x > y}")).unwrap_err();
    assert_eq!(error_message(&err), "\"Expected nothing after '>'\"");
    assert_eq!(render(&err[..7]), ": : core : : compile_error !");
    match &err[0] {
        Token::Punct { span, .. } => assert_eq!(*span, Span::At(7)),
        other => panic!("unexpected {:?}", other),
    }
}

#[test]
fn pattern_errors() {
    let err = rewrite(parse("{< a. b ... x >}")).unwrap_err();
    assert_eq!(error_message(&err), "\"Expected three dots to end pattern\"");
    let err = rewrite(parse("{< a, b >}")).unwrap_err();
    assert_eq!(error_message(&err), "\"Expected identifier pattern OR three dots before ident list\"");
    let err = rewrite(parse("{< a >}")).unwrap_err();
    assert_eq!(error_message(&err), "\"Expected identifier pattern OR three dots before ident list\"");
    let err = rewrite(parse("{< a .. }")).unwrap_err();
    assert_eq!(error_message(&err), "\"Expected three dots before ident list\"");
    match &err[0] {
        Token::Punct { span, .. } => assert_eq!(*span, Span::MixedSite),
        other => panic!("unexpected {:?}", other),
    }
}

#[test]
fn first_error_wins() {
    let err = rewrite(parse("[< a > b] [< c > d]")).unwrap_err();
    match &err[0] {
        Token::Punct { span, .. } => assert_eq!(*span, Span::At(4)),
        other => panic!("unexpected {:?}", other),
    }
}

#[test]
fn same_shape_same_output() {
    let a = rewrite(parse("x {< Q@... a, b >} [< q r >]")).unwrap();
    let shifted = vec![Token::Ident { text: "pad".to_string(), span: Span::At(0) }];
    let mut next = 50;
    let mut b_input = convert(stream("x {< Q@... a, b >} [< q r >]"), &mut next);
    b_input.splice(0..0, shifted);
    let b = rewrite(b_input).unwrap();
    assert_eq!(render(&a), "x Q0 , Q1 qr");
    assert_eq!(render(&b[1..]), render(&a));
}

#[test]
fn decimal_rendering() {
    assert_eq!(decimal(0), "0");
    assert_eq!(decimal(7), "7");
    assert_eq!(decimal(10), "10");
    assert_eq!(decimal(1234), "1234");
}

#[test]
fn idents_root_folds_errors() {
    let out = macro_toolkit::idents(parse("[< a > b]"));
    assert_eq!(error_message(&out), "\"Expected nothing after '>'\"");
    let out = macro_toolkit::idents(parse("{< ... u, v >}"));
    assert_eq!(render(&out), "T0 , T1");
}

#[test]
fn construct_inside_braces_is_rewritten() {
    assert_eq!(render(&rewrite(parse("fn f() { [< a b >] }")).unwrap()), "fn f () {ab}");
    assert_eq!(render(&rewrite(parse("x[ {< ... p, q >} ]")).unwrap()), "x [T0 , T1]");
}

#[test]
fn error_inside_braces_is_reported() {
    let err = rewrite(parse("{ [< a > b] }")).unwrap_err();
    assert_eq!(error_message(&err), "\"Expected nothing after '>'\"");
    match &err[0] {
        Token::Punct { span, .. } => assert_eq!(*span, Span::At(5)),
        other => panic!("unexpected {:?}", other),
    }
}

#[test]
fn recursed_group_keeps_position() {
    let out = rewrite(parse("{ [< a >] }")).unwrap();
    match &out[0] {
        Token::Group { span, delimiter, .. } => {
            assert_eq!(*span, Span::At(0));
            assert_eq!(*delimiter, Delimiter::Brace);
        },
        other => panic!("unexpected {:?}", other),
    }
}

#[test]
fn invisible_group_in_pattern_is_spliced() {
    let mut inner = stream("<");
    inner.extend(group(proc_macro2::Delimiter::None, stream("Field")));
    inner.extend(stream("@ ... x, y >"));
    let out = rewrite(tokens(group(proc_macro2::Delimiter::Brace, inner))).unwrap();
    assert_eq!(render(&out), "Field0 , Field1");
}

#[test]
fn dots_may_close_inside_invisible_group() {
    let mut inner = stream("< N");
    inner.extend(group(proc_macro2::Delimiter::None, stream("@ ...")));
    inner.extend(stream("x >"));
    let out = rewrite(tokens(group(proc_macro2::Delimiter::Brace, inner))).unwrap();
    assert_eq!(render(&out), "N0");
}

#[test]
fn token_after_dots_inside_invisible_group() {
    let mut inner = stream("< N");
    inner.extend(group(proc_macro2::Delimiter::None, stream("... z")));
    inner.extend(stream("x >"));
    let err = rewrite(tokens(group(proc_macro2::Delimiter::Brace, inner))).unwrap_err();
    assert_eq!(error_message(&err), "\"Expected three dots to end pattern\"");
}

#[test]
fn second_pass_changes_nothing() {
    let once = rewrite(parse("f([< a b >], { {< X@... p, q >} }) [c]")).unwrap();
    let expected = format!("{:?}", once);
    let twice = rewrite(once).unwrap();
    assert_eq!(format!("{:?}", twice), expected);
}

#[test]
fn empty_item_list_can_expose_angle() {
    let once = rewrite(parse("[ {< ... >} < a > ]")).unwrap();
    assert_eq!(render(&once), "[< a >]");
    assert_eq!(render(&rewrite(once).unwrap()), "a");
}
