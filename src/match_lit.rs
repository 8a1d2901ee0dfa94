//! Literal dispatch: `<literal> { tag => tokens, ... }` becomes the tokens of the first
//! branch whose tag accepts the literal's kind and suffix.

use vstd::prelude::*;
use crate::tokens::{Delimiter, Spacing, Span, Token, Tree, trees, span_of, is_punct, is_punct_with, pending,
    stack_of, reversed, lemma_pending_pop,
    lemma_trees_index, lemma_trees_push, strip, strip_all, same_shape, same_outcome, lemma_same_shape,
    lemma_shape_subrange};
use crate::utils::{error2, is_error, stream_outcome};

verus! {

broadcast use vstd::seq::group_seq_axioms, vstd::std_specs::vec::group_vec_axioms;

/// The kind of a literal, as `syn` classifies its text.
#[derive(Clone, Copy, Debug, PartialEq, Eq, Structural)]
pub enum LitKind {
    Str,
    ByteStr,
    CStr,
    Byte,
    Char,
    Int,
    Float,
    Bool,
    Verbatim,
}

/// What `syn::Lit::new` makes of a literal's text: its kind and its suffix.
pub uninterp spec fn syn_literal_of(text: Seq<char>) -> (LitKind, Seq<char>);

/// Relies on `syn::Lit::new`, over `proc_macro2`'s literal parser: the kind and suffix of a
/// literal's text. Text that does not lex as one literal is left uninterpreted.
#[verifier::external_body]
fn classify_literal(text: &str) -> (r: (LitKind, String))
    ensures
        r.0 == syn_literal_of(text@).0,
        r.1@ == syn_literal_of(text@).1,
{
    let Ok(token) = text.parse::<proc_macro2::Literal>() else { return (LitKind::Verbatim, String::new()) };
    let lit = syn::Lit::new(token);
    let kind = match &lit {
        syn::Lit::Str(_) => LitKind::Str,
        syn::Lit::ByteStr(_) => LitKind::ByteStr,
        syn::Lit::CStr(_) => LitKind::CStr,
        syn::Lit::Byte(_) => LitKind::Byte,
        syn::Lit::Char(_) => LitKind::Char,
        syn::Lit::Int(_) => LitKind::Int,
        syn::Lit::Float(_) => LitKind::Float,
        syn::Lit::Bool(_) => LitKind::Bool,
        _ => LitKind::Verbatim,
    };
    (kind, lit.suffix().to_string())
}

/// Compares two texts character by character.
pub fn text_eq(a: &str, b: &str) -> (r: bool)
    ensures
        r == (a@ == b@),
{
    let n = a.unicode_len();
    if n != b.unicode_len() {
        return false;
    }
    let mut i: usize = 0;
    while i < n
        invariant
            n == a@.len(),
            n == b@.len(),
            i <= n,
            forall|k: int| 0 <= k < i ==> a@[k] == b@[k],
        decreases n - i,
    {
        if a.get_char(i) != b.get_char(i) {
            return false;
        }
        i = i + 1;
    }
    assert(a@ =~= b@);
    true
}

/// The type suffix of a numeric literal.
#[derive(Clone, Copy, Debug, PartialEq, Eq, Structural)]
pub enum NumSuffix {
    Unsuffixed,
    I8,
    I16,
    I32,
    I64,
    I128,
    ISize,
    U8,
    U16,
    U32,
    U64,
    U128,
    USize,
    F32,
    F64,
    Other,
}

pub open spec fn suffix_class(s: Seq<char>) -> NumSuffix {
    if s.len() == 0 { NumSuffix::Unsuffixed }
    else if s == "i8"@ { NumSuffix::I8 }
    else if s == "i16"@ { NumSuffix::I16 }
    else if s == "i32"@ { NumSuffix::I32 }
    else if s == "i64"@ { NumSuffix::I64 }
    else if s == "i128"@ { NumSuffix::I128 }
    else if s == "isize"@ { NumSuffix::ISize }
    else if s == "u8"@ { NumSuffix::U8 }
    else if s == "u16"@ { NumSuffix::U16 }
    else if s == "u32"@ { NumSuffix::U32 }
    else if s == "u64"@ { NumSuffix::U64 }
    else if s == "u128"@ { NumSuffix::U128 }
    else if s == "usize"@ { NumSuffix::USize }
    else if s == "f32"@ { NumSuffix::F32 }
    else if s == "f64"@ { NumSuffix::F64 }
    else { NumSuffix::Other }
}

impl NumSuffix {
    pub fn classify(s: &str) -> (r: NumSuffix)
        ensures
            r == suffix_class(s@),
    {
        if s.unicode_len() == 0 { NumSuffix::Unsuffixed }
        else if text_eq(s, "i8") { NumSuffix::I8 }
        else if text_eq(s, "i16") { NumSuffix::I16 }
        else if text_eq(s, "i32") { NumSuffix::I32 }
        else if text_eq(s, "i64") { NumSuffix::I64 }
        else if text_eq(s, "i128") { NumSuffix::I128 }
        else if text_eq(s, "isize") { NumSuffix::ISize }
        else if text_eq(s, "u8") { NumSuffix::U8 }
        else if text_eq(s, "u16") { NumSuffix::U16 }
        else if text_eq(s, "u32") { NumSuffix::U32 }
        else if text_eq(s, "u64") { NumSuffix::U64 }
        else if text_eq(s, "u128") { NumSuffix::U128 }
        else if text_eq(s, "usize") { NumSuffix::USize }
        else if text_eq(s, "f32") { NumSuffix::F32 }
        else if text_eq(s, "f64") { NumSuffix::F64 }
        else { NumSuffix::Other }
    }
}

/// A classified literal: its kind, its suffix and its position.
#[derive(Clone, Copy, Debug, PartialEq, Eq, Structural)]
pub struct Lit {
    pub kind: LitKind,
    pub suffix: NumSuffix,
    pub span: Span,
}

/// The literal that a literal token's text stands for.
pub open spec fn lit_of_text(text: Seq<char>, span: Span) -> Lit {
    Lit { kind: syn_literal_of(text).0, suffix: suffix_class(syn_literal_of(text).1), span }
}

impl Lit {
    /// Classifies the text of a literal token.
    pub fn from_text(text: &str, span: Span) -> (r: Lit)
        ensures
            r == lit_of_text(text@, span),
    {
        let (kind, suffix) = classify_literal(text);
        Lit { kind, suffix: NumSuffix::classify(suffix.as_str()), span }
    }
}


/// A branch's tag: which literals the branch accepts.
#[derive(Clone, Copy, Debug, PartialEq, Eq, Structural)]
pub enum LitMatcher {
    /// Any literal.
    Any,
    /// A boolean.
    Bool,
    /// Any integer.
    Int,
    /// An integer without suffix.
    IntUns,
    /// An 8-bit integer, signed or not.
    Int8,
    /// A 16-bit integer, signed or not.
    Int16,
    /// A 32-bit integer, signed or not.
    Int32,
    /// A 64-bit integer, signed or not.
    Int64,
    /// A 128-bit integer, signed or not.
    Int128,
    /// A pointer-sized integer, signed or not.
    IntSize,
    /// Any signed integer.
    IntS,
    /// `i8`.
    IntS8,
    /// `i16`.
    IntS16,
    /// `i32`.
    IntS32,
    /// `i64`.
    IntS64,
    /// `i128`.
    IntS128,
    /// `isize`.
    IntSSize,
    /// Any unsigned integer.
    IntU,
    /// `u8`.
    IntU8,
    /// `u16`.
    IntU16,
    /// `u32`.
    IntU32,
    /// `u64`.
    IntU64,
    /// `u128`.
    IntU128,
    /// `usize`.
    IntUSize,
    /// Any floating-point number.
    Float,
    /// A floating-point number without suffix.
    FloatUns,
    /// `f32`.
    Float32,
    /// `f64`.
    Float64,
    /// A character or byte character.
    Char,
    /// A byte character.
    CharByte,
    /// A character.
    CharStr,
    /// Any string.
    StringLike,
    /// A byte string.
    StringByte,
    /// A string or C string.
    StringText,
    /// A string.
    StringStr,
    /// A C string.
    StringCStr,
}

/// The tag that a branch name stands for, if any.
pub open spec fn matcher_named(name: Seq<char>) -> Option<LitMatcher> {
    if name == "_"@ { Some(LitMatcher::Any) }
    else if name == "bool"@ { Some(LitMatcher::Bool) }
    else if name == "boollike"@ { Some(LitMatcher::Bool) }
    else if name == "int"@ { Some(LitMatcher::Int) }
    else if name == "intlike"@ { Some(LitMatcher::Int) }
    else if name == "int_"@ { Some(LitMatcher::IntUns) }
    else if name == "int8"@ { Some(LitMatcher::Int8) }
    else if name == "int16"@ { Some(LitMatcher::Int16) }
    else if name == "int32"@ { Some(LitMatcher::Int32) }
    else if name == "int64"@ { Some(LitMatcher::Int64) }
    else if name == "int128"@ { Some(LitMatcher::Int128) }
    else if name == "size"@ { Some(LitMatcher::IntSize) }
    else if name == "sint"@ { Some(LitMatcher::IntS) }
    else if name == "i8"@ { Some(LitMatcher::IntS8) }
    else if name == "i16"@ { Some(LitMatcher::IntS16) }
    else if name == "i32"@ { Some(LitMatcher::IntS32) }
    else if name == "i64"@ { Some(LitMatcher::IntS64) }
    else if name == "i128"@ { Some(LitMatcher::IntS128) }
    else if name == "isize"@ { Some(LitMatcher::IntSSize) }
    else if name == "uint"@ { Some(LitMatcher::IntU) }
    else if name == "u8"@ { Some(LitMatcher::IntU8) }
    else if name == "u16"@ { Some(LitMatcher::IntU16) }
    else if name == "u32"@ { Some(LitMatcher::IntU32) }
    else if name == "u64"@ { Some(LitMatcher::IntU64) }
    else if name == "u128"@ { Some(LitMatcher::IntU128) }
    else if name == "usize"@ { Some(LitMatcher::IntUSize) }
    else if name == "float"@ { Some(LitMatcher::Float) }
    else if name == "floatlike"@ { Some(LitMatcher::Float) }
    else if name == "float_"@ { Some(LitMatcher::FloatUns) }
    else if name == "f32"@ { Some(LitMatcher::Float32) }
    else if name == "f64"@ { Some(LitMatcher::Float64) }
    else if name == "charlike"@ { Some(LitMatcher::Char) }
    else if name == "char"@ { Some(LitMatcher::CharStr) }
    else if name == "byte"@ { Some(LitMatcher::CharByte) }
    else if name == "stringlike"@ { Some(LitMatcher::StringLike) }
    else if name == "bytes"@ { Some(LitMatcher::StringByte) }
    else if name == "bstring"@ { Some(LitMatcher::StringByte) }
    else if name == "text"@ { Some(LitMatcher::StringText) }
    else if name == "string"@ { Some(LitMatcher::StringStr) }
    else if name == "cstring"@ { Some(LitMatcher::StringCStr) }
    else { None }
}

pub open spec fn is_signed(s: NumSuffix) -> bool {
    s == NumSuffix::I8 || s == NumSuffix::I16 || s == NumSuffix::I32 || s == NumSuffix::I64
        || s == NumSuffix::I128 || s == NumSuffix::ISize
}

pub open spec fn is_unsigned(s: NumSuffix) -> bool {
    s == NumSuffix::U8 || s == NumSuffix::U16 || s == NumSuffix::U32 || s == NumSuffix::U64
        || s == NumSuffix::U128 || s == NumSuffix::USize
}

/// Whether the tag `m` accepts the literal `lit`: by kind, and for numbers by suffix too.
pub open spec fn accepts(m: LitMatcher, lit: Lit) -> bool {
    let k = lit.kind;
    let s = lit.suffix;
    let is_int = k == LitKind::Int;
    let is_float = k == LitKind::Float;
    match m {
        LitMatcher::Any => true,
        LitMatcher::Bool => k == LitKind::Bool,
        LitMatcher::Int => is_int && (s == NumSuffix::Unsuffixed || is_signed(s) || is_unsigned(s)),
        LitMatcher::IntUns => is_int && s == NumSuffix::Unsuffixed,
        LitMatcher::Int8 => is_int && (s == NumSuffix::I8 || s == NumSuffix::U8),
        LitMatcher::Int16 => is_int && (s == NumSuffix::I16 || s == NumSuffix::U16),
        LitMatcher::Int32 => is_int && (s == NumSuffix::I32 || s == NumSuffix::U32),
        LitMatcher::Int64 => is_int && (s == NumSuffix::I64 || s == NumSuffix::U64),
        LitMatcher::Int128 => is_int && (s == NumSuffix::I128 || s == NumSuffix::U128),
        LitMatcher::IntSize => is_int && (s == NumSuffix::ISize || s == NumSuffix::USize),
        LitMatcher::IntS => is_int && is_signed(s),
        LitMatcher::IntS8 => is_int && s == NumSuffix::I8,
        LitMatcher::IntS16 => is_int && s == NumSuffix::I16,
        LitMatcher::IntS32 => is_int && s == NumSuffix::I32,
        LitMatcher::IntS64 => is_int && s == NumSuffix::I64,
        LitMatcher::IntS128 => is_int && s == NumSuffix::I128,
        LitMatcher::IntSSize => is_int && s == NumSuffix::ISize,
        LitMatcher::IntU => is_int && is_unsigned(s),
        LitMatcher::IntU8 => is_int && s == NumSuffix::U8,
        LitMatcher::IntU16 => is_int && s == NumSuffix::U16,
        LitMatcher::IntU32 => is_int && s == NumSuffix::U32,
        LitMatcher::IntU64 => is_int && s == NumSuffix::U64,
        LitMatcher::IntU128 => is_int && s == NumSuffix::U128,
        LitMatcher::IntUSize => is_int && s == NumSuffix::USize,
        LitMatcher::Float => is_float && (s == NumSuffix::Unsuffixed || s == NumSuffix::F32 || s == NumSuffix::F64),
        LitMatcher::FloatUns => is_float && s == NumSuffix::Unsuffixed,
        LitMatcher::Float32 => is_float && s == NumSuffix::F32,
        LitMatcher::Float64 => is_float && s == NumSuffix::F64,
        LitMatcher::Char => k == LitKind::Byte || k == LitKind::Char,
        LitMatcher::CharByte => k == LitKind::Byte,
        LitMatcher::CharStr => k == LitKind::Char,
        LitMatcher::StringLike => k == LitKind::ByteStr || k == LitKind::Str || k == LitKind::CStr,
        LitMatcher::StringByte => k == LitKind::ByteStr,
        LitMatcher::StringText => k == LitKind::Str || k == LitKind::CStr,
        LitMatcher::StringStr => k == LitKind::Str,
        LitMatcher::StringCStr => k == LitKind::CStr,
    }
}

impl LitMatcher {
    /// The tag named by a branch identifier; an unknown name is an error at `span`.
    pub fn parse(name: &str, span: Span) -> (r: Result<LitMatcher, Vec<Token>>)
        ensures
            match (r, matcher_named(name@)) {
                (Ok(m), Some(x)) => m == x,
                (Err(e), None) => is_error(e, (span, "Expected a specific literal identifier"@)),
                _ => false,
            },
    {
        if text_eq(name, "_") {
            Ok(LitMatcher::Any)
        } else if text_eq(name, "bool") {
            Ok(LitMatcher::Bool)
        } else if text_eq(name, "boollike") {
            Ok(LitMatcher::Bool)
        } else if text_eq(name, "int") {
            Ok(LitMatcher::Int)
        } else if text_eq(name, "intlike") {
            Ok(LitMatcher::Int)
        } else if text_eq(name, "int_") {
            Ok(LitMatcher::IntUns)
        } else if text_eq(name, "int8") {
            Ok(LitMatcher::Int8)
        } else if text_eq(name, "int16") {
            Ok(LitMatcher::Int16)
        } else if text_eq(name, "int32") {
            Ok(LitMatcher::Int32)
        } else if text_eq(name, "int64") {
            Ok(LitMatcher::Int64)
        } else if text_eq(name, "int128") {
            Ok(LitMatcher::Int128)
        } else if text_eq(name, "size") {
            Ok(LitMatcher::IntSize)
        } else if text_eq(name, "sint") {
            Ok(LitMatcher::IntS)
        } else if text_eq(name, "i8") {
            Ok(LitMatcher::IntS8)
        } else if text_eq(name, "i16") {
            Ok(LitMatcher::IntS16)
        } else if text_eq(name, "i32") {
            Ok(LitMatcher::IntS32)
        } else if text_eq(name, "i64") {
            Ok(LitMatcher::IntS64)
        } else if text_eq(name, "i128") {
            Ok(LitMatcher::IntS128)
        } else if text_eq(name, "isize") {
            Ok(LitMatcher::IntSSize)
        } else if text_eq(name, "uint") {
            Ok(LitMatcher::IntU)
        } else if text_eq(name, "u8") {
            Ok(LitMatcher::IntU8)
        } else if text_eq(name, "u16") {
            Ok(LitMatcher::IntU16)
        } else if text_eq(name, "u32") {
            Ok(LitMatcher::IntU32)
        } else if text_eq(name, "u64") {
            Ok(LitMatcher::IntU64)
        } else if text_eq(name, "u128") {
            Ok(LitMatcher::IntU128)
        } else if text_eq(name, "usize") {
            Ok(LitMatcher::IntUSize)
        } else if text_eq(name, "float") {
            Ok(LitMatcher::Float)
        } else if text_eq(name, "floatlike") {
            Ok(LitMatcher::Float)
        } else if text_eq(name, "float_") {
            Ok(LitMatcher::FloatUns)
        } else if text_eq(name, "f32") {
            Ok(LitMatcher::Float32)
        } else if text_eq(name, "f64") {
            Ok(LitMatcher::Float64)
        } else if text_eq(name, "charlike") {
            Ok(LitMatcher::Char)
        } else if text_eq(name, "char") {
            Ok(LitMatcher::CharStr)
        } else if text_eq(name, "byte") {
            Ok(LitMatcher::CharByte)
        } else if text_eq(name, "stringlike") {
            Ok(LitMatcher::StringLike)
        } else if text_eq(name, "bytes") {
            Ok(LitMatcher::StringByte)
        } else if text_eq(name, "bstring") {
            Ok(LitMatcher::StringByte)
        } else if text_eq(name, "text") {
            Ok(LitMatcher::StringText)
        } else if text_eq(name, "string") {
            Ok(LitMatcher::StringStr)
        } else if text_eq(name, "cstring") {
            Ok(LitMatcher::StringCStr)
        } else {
            Err(error2(span, "Expected a specific literal identifier"))
        }
    }

    /// Whether this tag accepts `lit`.
    pub fn match_lit(&self, lit: &Lit) -> (r: bool)
        ensures
            r == accepts(*self, *lit),
    {
        let k = lit.kind;
        let s = lit.suffix;
        let is_int = k == LitKind::Int;
        let is_float = k == LitKind::Float;
        let signed = s == NumSuffix::I8 || s == NumSuffix::I16 || s == NumSuffix::I32 || s == NumSuffix::I64
            || s == NumSuffix::I128 || s == NumSuffix::ISize;
        let unsigned = s == NumSuffix::U8 || s == NumSuffix::U16 || s == NumSuffix::U32 || s == NumSuffix::U64
            || s == NumSuffix::U128 || s == NumSuffix::USize;
        match self {
            LitMatcher::Any => true,
            LitMatcher::Bool => k == LitKind::Bool,
            LitMatcher::Int => is_int && (s == NumSuffix::Unsuffixed || signed || unsigned),
            LitMatcher::IntUns => is_int && s == NumSuffix::Unsuffixed,
            LitMatcher::Int8 => is_int && (s == NumSuffix::I8 || s == NumSuffix::U8),
            LitMatcher::Int16 => is_int && (s == NumSuffix::I16 || s == NumSuffix::U16),
            LitMatcher::Int32 => is_int && (s == NumSuffix::I32 || s == NumSuffix::U32),
            LitMatcher::Int64 => is_int && (s == NumSuffix::I64 || s == NumSuffix::U64),
            LitMatcher::Int128 => is_int && (s == NumSuffix::I128 || s == NumSuffix::U128),
            LitMatcher::IntSize => is_int && (s == NumSuffix::ISize || s == NumSuffix::USize),
            LitMatcher::IntS => is_int && signed,
            LitMatcher::IntS8 => is_int && s == NumSuffix::I8,
            LitMatcher::IntS16 => is_int && s == NumSuffix::I16,
            LitMatcher::IntS32 => is_int && s == NumSuffix::I32,
            LitMatcher::IntS64 => is_int && s == NumSuffix::I64,
            LitMatcher::IntS128 => is_int && s == NumSuffix::I128,
            LitMatcher::IntSSize => is_int && s == NumSuffix::ISize,
            LitMatcher::IntU => is_int && unsigned,
            LitMatcher::IntU8 => is_int && s == NumSuffix::U8,
            LitMatcher::IntU16 => is_int && s == NumSuffix::U16,
            LitMatcher::IntU32 => is_int && s == NumSuffix::U32,
            LitMatcher::IntU64 => is_int && s == NumSuffix::U64,
            LitMatcher::IntU128 => is_int && s == NumSuffix::U128,
            LitMatcher::IntUSize => is_int && s == NumSuffix::USize,
            LitMatcher::Float => is_float && (s == NumSuffix::Unsuffixed || s == NumSuffix::F32 || s == NumSuffix::F64),
            LitMatcher::FloatUns => is_float && s == NumSuffix::Unsuffixed,
            LitMatcher::Float32 => is_float && s == NumSuffix::F32,
            LitMatcher::Float64 => is_float && s == NumSuffix::F64,
            LitMatcher::Char => k == LitKind::Byte || k == LitKind::Char,
            LitMatcher::CharByte => k == LitKind::Byte,
            LitMatcher::CharStr => k == LitKind::Char,
            LitMatcher::StringLike => k == LitKind::ByteStr || k == LitKind::Str || k == LitKind::CStr,
            LitMatcher::StringByte => k == LitKind::ByteStr,
            LitMatcher::StringText => k == LitKind::Str || k == LitKind::CStr,
            LitMatcher::StringStr => k == LitKind::Str,
            LitMatcher::StringCStr => k == LitKind::CStr,
        }
    }
}


/// The literal that a scrutinee token stands for: a literal token, `true` or `false`, or an
/// invisible group around exactly one such token.
pub open spec fn scrutinee(t: Tree) -> Result<Lit, (Span, Seq<char>)>
    decreases t,
{
    match t {
        Tree::Literal(text, span) => Ok(lit_of_text(text, span)),
        Tree::Ident(text, span) => if text == "true"@ || text == "false"@ {
            Ok(Lit { kind: LitKind::Bool, suffix: NumSuffix::Unsuffixed, span })
        } else {
            Err((span, "Expected a literal"@))
        },
        Tree::Group(d, inner, span) => if d == Delimiter::Invisible && inner.len() == 1 {
            scrutinee(inner[0])
        } else {
            Err((span, "Expected a literal"@))
        },
        Tree::Punct(_, _, span) => Err((span, "Expected a literal"@)),
    }
}

/// The scrutinee and the contents of the group of branches that follows it.
pub open spec fn lit_group(s: Seq<Tree>) -> Result<(Lit, Seq<Tree>), (Span, Seq<char>)> {
    if s.len() == 0 {
        Err((Span::MixedSite, "Expected a literal and then match branches wrapped in `{}`"@))
    } else {
        match scrutinee(s[0]) {
            Err(e) => Err(e),
            Ok(lit) => if s.len() == 1 {
                Err((Span::MixedSite, "Expected a literal and then match branches wrapped in `{}`"@))
            } else {
                match s[1] {
                    Tree::Group(_, inner, _) => if s.len() > 2 {
                        Err((span_of(s[2]), "Expected nothing after the match branches"@))
                    } else {
                        Ok((lit, inner))
                    },
                    other => Err((span_of(other), "Expected match branches wrapped in `{}`"@)),
                }
            },
        }
    }
}

/// The index of the first `,` at or after `j`, or the length if there is none.
pub open spec fn first_comma(r: Seq<Tree>, j: int) -> int
    decreases r.len() - j,
{
    if j < 0 || j >= r.len() {
        r.len() as int
    } else if is_punct(r[j], ',') {
        j
    } else {
        first_comma(r, j + 1)
    }
}

proof fn lemma_first_comma(r: Seq<Tree>, j: int)
    requires
        0 <= j <= r.len(),
    ensures
        j <= first_comma(r, j) <= r.len(),
        first_comma(r, j) < r.len() ==> is_punct(r[first_comma(r, j)], ','),
    decreases r.len() - j,
{
    if j < r.len() && !is_punct(r[j], ',') {
        lemma_first_comma(r, j + 1);
    }
}

/// The branch at the head of `r`: `tag => tokens`, the tokens running to the next `,`.
pub open spec fn branch_head(r: Seq<Tree>) -> Result<(LitMatcher, Seq<Tree>), (Span, Seq<char>)> {
    if r.len() == 0 {
        Err((Span::MixedSite, "Expected a match identifier"@))
    } else {
        match r[0] {
            Tree::Ident(name, span) => if r.len() < 2 {
                Err((Span::MixedSite, "Expected '=>'"@))
            } else if !is_punct_with(r[1], '=', Spacing::Joint) {
                Err((span_of(r[1]), "Expected '=>'"@))
            } else if r.len() < 3 {
                Err((Span::MixedSite, "Expected '=>'"@))
            } else if !is_punct_with(r[2], '>', Spacing::Alone) {
                Err((span_of(r[2]), "Expected '=>'"@))
            } else {
                match matcher_named(name) {
                    None => Err((span, "Expected a specific literal identifier"@)),
                    Some(m) => Ok((m, r.subrange(3, first_comma(r, 3)))),
                }
            },
            other => Err((span_of(other), "Expected a match identifier"@)),
        }
    }
}

/// How many tokens the branch at the head of `r` takes, its closing `,` included.
pub open spec fn branch_end(r: Seq<Tree>) -> int {
    let c = first_comma(r, 3);
    if c < r.len() {
        c + 1
    } else {
        r.len() as int
    }
}

/// The branches of `r`, in order.
pub open spec fn branches_of(r: Seq<Tree>) -> Result<Seq<(LitMatcher, Seq<Tree>)>, (Span, Seq<char>)>
    decreases r.len(),
    via branches_of_decreases
{
    if r.len() == 0 {
        Ok(Seq::empty())
    } else {
        match branch_head(r) {
            Err(e) => Err(e),
            Ok(b) => match branches_of(r.subrange(branch_end(r), r.len() as int)) {
                Err(e) => Err(e),
                Ok(rest) => Ok(seq![b] + rest),
            },
        }
    }
}

#[via_fn]
proof fn branches_of_decreases(r: Seq<Tree>) {
    if r.len() > 0 && r.len() >= 3 {
        lemma_first_comma(r, 3);
    }
}

/// The tokens of the first branch that accepts `lit`.
pub open spec fn select(lit: Lit, bs: Seq<(LitMatcher, Seq<Tree>)>) -> Result<Seq<Tree>, (Span, Seq<char>)>
    decreases bs.len(),
{
    if bs.len() == 0 {
        Err((lit.span, "Unmatched literal type"@))
    } else if accepts(bs[0].0, lit) {
        Ok(bs[0].1)
    } else {
        select(lit, bs.drop_first())
    }
}

/// The scrutinee and the branches of a whole invocation.
pub open spec fn parse_spec(s: Seq<Tree>) -> Result<(Lit, Seq<(LitMatcher, Seq<Tree>)>), (Span, Seq<char>)> {
    match lit_group(s) {
        Err(e) => Err(e),
        Ok(g) => match branches_of(g.1) {
            Err(e) => Err(e),
            Ok(bs) => Ok((g.0, bs)),
        },
    }
}

/// What a whole invocation becomes: the tokens of the first branch that accepts the literal.
pub open spec fn match_lit_spec(s: Seq<Tree>) -> Result<Seq<Tree>, (Span, Seq<char>)> {
    match parse_spec(s) {
        Err(e) => Err(e),
        Ok(p) => select(p.0, p.1),
    }
}


/// Reads the scrutinee from one token.
fn parse_lit(tree: Token) -> (r: Result<Lit, Vec<Token>>)
    ensures
        match (r, scrutinee(tree@)) {
            (Ok(l), Ok(x)) => l == x,
            (Err(e), Err(err)) => is_error(e, err),
            _ => false,
        },
    decreases tree,
{
    let ghost tv = tree@;
    match tree {
        Token::Literal { text, span } => Ok(Lit::from_text(text.as_str(), span)),
        Token::Ident { text, span } => {
            if text_eq(text.as_str(), "true") || text_eq(text.as_str(), "false") {
                Ok(Lit { kind: LitKind::Bool, suffix: NumSuffix::Unsuffixed, span })
            } else {
                Err(error2(span, "Expected a literal"))
            }
        },
        Token::Group { delimiter, stream, span } => {
            proof {
                lemma_trees_index(stream@);
            }
            if delimiter == Delimiter::Invisible && stream.len() == 1 {
                let ghost sv = stream@;
                proof {
                    assert(decreases_to!(tree => stream));
                    assert(decreases_to!(stream => stream@));
                    assert(decreases_to!(stream@ => stream@[0]));
                }
                let mut stream = stream;
                let inner = stream.pop().unwrap();
                proof {
                    assert(inner == sv[0]);
                    assert(decreases_to!(tree => inner));
                }
                parse_lit(inner)
            } else {
                Err(error2(span, "Expected a literal"))
            }
        },
        Token::Punct { span, .. } => Err(error2(span, "Expected a literal")),
    }
}

/// One branch: its tag and the tokens it becomes.
pub struct Branch {
    pub matcher: LitMatcher,
    pub tokens: Vec<Token>,
}

impl Branch {
    pub open spec fn view(&self) -> (LitMatcher, Seq<Tree>) {
        (self.matcher, trees(self.tokens@))
    }
}

pub open spec fn branch_views(bs: Seq<Branch>) -> Seq<(LitMatcher, Seq<Tree>)> {
    bs.map_values(|b: Branch| b@)
}

impl Branch {
    /// Reads the branch at the top of `stack`, with the `,` that ends it; `None` where the
    /// stack is empty.
    pub fn parse(stack: &mut Vec<Token>) -> (r: Result<Option<Branch>, Vec<Token>>)
        ensures
            pending(old(stack)@).len() == 0 ==> r matches Ok(None),
            pending(old(stack)@).len() > 0 ==> match (r, branch_head(pending(old(stack)@))) {
                (Ok(Some(b)), Ok(h)) => b@ == h && pending(final(stack)@) == pending(old(stack)@).subrange(
                    branch_end(pending(old(stack)@)),
                    pending(old(stack)@).len() as int,
                ),
                (Err(e), Err(err)) => is_error(e, err),
                _ => false,
            },
    {
        let ghost r0 = pending(stack@);
        if stack.len() == 0 {
            return Ok(None);
        }
        proof {
            lemma_pending_pop(stack@);
        }
        let head = stack.pop().unwrap();
        let (name, span) = match head {
            Token::Ident { text, span } => (text, span),
            other => {
                return Err(error2(other.span(), "Expected a match identifier"));
            },
        };
        if stack.len() == 0 {
            return Err(error2(Span::MixedSite, "Expected '=>'"));
        }
        proof {
            lemma_pending_pop(stack@);
        }
        let eq = stack.pop().unwrap();
        if !eq.is_punct_with('=', Spacing::Joint) {
            return Err(error2(eq.span(), "Expected '=>'"));
        }
        if stack.len() == 0 {
            return Err(error2(Span::MixedSite, "Expected '=>'"));
        }
        proof {
            lemma_pending_pop(stack@);
        }
        let gt = stack.pop().unwrap();
        if !gt.is_punct_with('>', Spacing::Alone) {
            return Err(error2(gt.span(), "Expected '=>'"));
        }
        let mut tokens: Vec<Token> = Vec::new();
        proof {
            assert(pending(stack@) =~= r0.subrange(3, r0.len() as int));
            assert(trees(tokens@) =~= r0.subrange(3, 3));
        }
        while stack.len() > 0 && !stack[stack.len() - 1].is_punct(',')
            invariant
                3 + tokens@.len() <= r0.len(),
                pending(stack@) == r0.subrange(3 + tokens@.len() as int, r0.len() as int),
                trees(tokens@) == r0.subrange(3, 3 + tokens@.len() as int),
                first_comma(r0, 3) == first_comma(r0, 3 + tokens@.len() as int),
            decreases stack@.len(),
        {
            proof {
                lemma_pending_pop(stack@);
            }
            let t = stack.pop().unwrap();
            proof {
                lemma_trees_push(tokens@, t);
                assert(r0.subrange(3, 3 + tokens@.len() as int + 1) =~= r0.subrange(3, 3 + tokens@.len() as int) + seq![t@]);
                assert(pending(stack@) =~= r0.subrange(3 + tokens@.len() as int + 1, r0.len() as int));
            }
            tokens.push(t);
        }
        if stack.len() > 0 {
            proof {
                lemma_pending_pop(stack@);
                assert(pending(stack@).drop_first() =~= r0.subrange(3 + tokens@.len() as int + 1, r0.len() as int));
            }
            let _comma = stack.pop();
        }
        let matcher = match LitMatcher::parse(name.as_str(), span) {
            Ok(m) => m,
            Err(e) => {
                return Err(e);
            },
        };
        Ok(Some(Branch { matcher, tokens }))
    }
}


/// A parsed invocation: the scrutinee and the branches in the order given.
pub struct Branches {
    pub lit: Lit,
    pub branches: Vec<Branch>,
}

impl Branches {
    /// A scrutinee with no branches yet.
    pub fn new(lit: Lit) -> (r: Branches)
        ensures
            r.lit == lit,
            r.branches@.len() == 0,
    {
        Branches { lit, branches: Vec::new() }
    }

    /// Reads the scrutinee and the group of branches after it.
    pub fn parse_lit_group(input: Vec<Token>) -> (r: Result<(Lit, Vec<Token>), Vec<Token>>)
        ensures
            match (r, lit_group(trees(input@))) {
                (Ok(v), Ok(x)) => v.0 == x.0 && trees(v.1@) == x.1,
                (Err(e), Err(err)) => is_error(e, err),
                _ => false,
            },
    {
        let ghost s = trees(input@);
        let mut stack = stack_of(input);
        if stack.len() == 0 {
            return Err(error2(Span::MixedSite, "Expected a literal and then match branches wrapped in `{}`"));
        }
        proof {
            lemma_pending_pop(stack@);
        }
        let first = stack.pop().unwrap();
        let lit = match parse_lit(first) {
            Ok(lit) => lit,
            Err(e) => {
                return Err(e);
            },
        };
        if stack.len() == 0 {
            return Err(error2(Span::MixedSite, "Expected a literal and then match branches wrapped in `{}`"));
        }
        proof {
            lemma_pending_pop(stack@);
        }
        let second = stack.pop().unwrap();
        let inner = match second {
            Token::Group { stream, .. } => stream,
            other => {
                return Err(error2(other.span(), "Expected match branches wrapped in `{}`"));
            },
        };
        if stack.len() > 0 {
            proof {
                lemma_pending_pop(stack@);
            }
            return Err(error2(stack[stack.len() - 1].span(), "Expected nothing after the match branches"));
        }
        Ok((lit, inner))
    }

    /// Reads a whole invocation: the scrutinee, then every branch.
    #[verifier::loop_isolation(false)]
    pub fn parse(input: Vec<Token>) -> (r: Result<Branches, Vec<Token>>)
        ensures
            match (r, parse_spec(trees(input@))) {
                (Ok(b), Ok(x)) => b.lit == x.0 && branch_views(b.branches@) == x.1,
                (Err(e), Err(err)) => is_error(e, err),
                _ => false,
            },
    {
        let (lit, group) = match Self::parse_lit_group(input) {
            Ok(v) => v,
            Err(e) => {
                return Err(e);
            },
        };
        let ghost g = trees(group@);
        let mut stack = stack_of(group);
        let mut res = Self::new(lit);
        assert(branch_views(res.branches@) =~= Seq::<(LitMatcher, Seq<Tree>)>::empty());
        assert(Seq::<(LitMatcher, Seq<Tree>)>::empty() + branches_of(g)->Ok_0 =~= branches_of(g)->Ok_0);
        while stack.len() > 0
            invariant
                res.lit == lit,
                branches_of(g) == match branches_of(pending(stack@)) {
                    Ok(rest) => Ok(branch_views(res.branches@) + rest),
                    Err(e) => Err(e),
                },
            decreases stack@.len(),
        {
            let ghost rem = pending(stack@);
            let ghost before = branch_views(res.branches@);
            proof {
                if rem.len() >= 3 {
                    lemma_first_comma(rem, 3);
                }
            }
            match Branch::parse(&mut stack) {
                Ok(Some(b)) => {
                    let ghost bv = b@;
                    res.branches.push(b);
                    proof {
                        assert(branch_views(res.branches@) =~= before.push(bv));
                        let tail = rem.subrange(branch_end(rem), rem.len() as int);
                        if let Ok(rest) = branches_of(tail) {
                            assert(before + (seq![bv] + rest) =~= before.push(bv) + rest);
                        }
                    }
                },
                Ok(None) => {},
                Err(e) => {
                    proof {
                        assert(rem.len() > 0);
                        let err = branch_head(rem)->Err_0;
                        assert(branches_of(rem) == Err::<Seq<(LitMatcher, Seq<Tree>)>, (Span, Seq<char>)>(err));
                    }
                    return Err(e);
                },
            }
        }
        assert(pending(stack@) =~= Seq::<Tree>::empty());
        assert(branch_views(res.branches@) + Seq::<(LitMatcher, Seq<Tree>)>::empty() =~= branch_views(res.branches@));
        Ok(res)
    }
}

/// The tokens of the first branch whose tag accepts `lit`; an error at the literal where none
/// does.
#[verifier::loop_isolation(false)]
pub fn select_branch(lit: &Lit, branches: Vec<Branch>) -> (r: Result<Vec<Token>, Vec<Token>>)
    ensures
        stream_outcome(r, select(*lit, branch_views(branches@))),
{
    let ghost all = branch_views(branches@);
    let n = branches.len();
    let mut rev = reversed(branches);
    let ghost mut i: int = 0;
    assert(all.subrange(0, n as int) =~= all);
    while rev.len() > 0
        invariant
            all.len() == n,
            0 <= i <= n,
            rev@.len() + i == n,
            forall|k: int| 0 <= k < rev@.len() ==> (#[trigger] rev@[k])@ == all[n - 1 - k],
            select(*lit, all) == select(*lit, all.subrange(i, n as int)),
        decreases rev@.len(),
    {
        let b = rev.pop().unwrap();
        proof {
            assert(b@ == all[i]);
            assert(all.subrange(i, n as int).drop_first() =~= all.subrange(i + 1, n as int));
        }
        if b.matcher.match_lit(lit) {
            proof {
                assert(all.subrange(i, n as int)[0] == all[i]);
                assert(select(*lit, all.subrange(i, n as int)) == Ok::<Seq<Tree>, (Span, Seq<char>)>(all[i].1));
            }
            return Ok(b.tokens);
        }
        proof {
            i = i + 1;
        }
    }
    Err(error2(lit.span, "Unmatched literal type"))
}

/// Expands `<literal> { tag => tokens, ... }` into the tokens of the first branch whose tag
/// accepts the literal.
pub fn match_lit(input: Vec<Token>) -> (r: Result<Vec<Token>, Vec<Token>>)
    ensures
        stream_outcome(r, match_lit_spec(trees(input@))),
{
    let Branches { lit, branches } = match Branches::parse(input) {
        Ok(b) => b,
        Err(e) => {
            return Err(e);
        },
    };
    select_branch(&lit, branches)
}


/// Two literals alike but for position.
pub open spec fn same_literal(l1: Lit, l2: Lit) -> bool {
    l1.kind == l2.kind && l1.suffix == l2.suffix
}

/// Two branch lists alike but for positions: the same tags, and tokens equal once positions
/// are forgotten.
pub open spec fn same_branches(b1: Seq<(LitMatcher, Seq<Tree>)>, b2: Seq<(LitMatcher, Seq<Tree>)>) -> bool {
    b1.len() == b2.len() && forall|i: int| 0 <= i < b1.len() ==> (#[trigger] b1[i]).0 == b2[i].0
        && strip_all(b1[i].1) == strip_all(b2[i].1)
}

proof fn lemma_scrutinee_position_free(t1: Tree, t2: Tree)
    requires
        strip(t1) == strip(t2),
    ensures
        match (scrutinee(t1), scrutinee(t2)) {
            (Ok(l1), Ok(l2)) => same_literal(l1, l2),
            (Err(e1), Err(e2)) => e1.1 == e2.1,
            _ => false,
        },
    decreases t1,
{
    if let Tree::Group(_, inner1, _) = t1 {
        if let Tree::Group(_, inner2, _) = t2 {
            lemma_same_shape(inner1, inner2);
            if inner1.len() == 1 {
                assert(strip(inner1[0]) == strip(inner2[0]));
                lemma_scrutinee_position_free(inner1[0], inner2[0]);
            }
        }
    }
}

proof fn lemma_lit_group_position_free(a: Seq<Tree>, b: Seq<Tree>)
    requires
        same_shape(a, b),
    ensures
        match (lit_group(a), lit_group(b)) {
            (Ok(x), Ok(y)) => same_literal(x.0, y.0) && same_shape(x.1, y.1),
            (Err(e1), Err(e2)) => e1.1 == e2.1,
            _ => false,
        },
{
    if a.len() > 0 {
        assert(strip(a[0]) == strip(b[0]));
        lemma_scrutinee_position_free(a[0], b[0]);
    }
    if a.len() > 1 {
        assert(strip(a[1]) == strip(b[1]));
        if let Tree::Group(_, i1, _) = a[1] {
            if let Tree::Group(_, i2, _) = b[1] {
                lemma_same_shape(i1, i2);
            }
        }
    }
}

proof fn lemma_shape_first_comma(a: Seq<Tree>, b: Seq<Tree>, j: int)
    requires
        same_shape(a, b),
    ensures
        first_comma(a, j) == first_comma(b, j),
    decreases a.len() - j,
{
    if 0 <= j < a.len() {
        assert(strip(a[j]) == strip(b[j]));
        lemma_shape_first_comma(a, b, j + 1);
    }
}

proof fn lemma_branches_position_free(a: Seq<Tree>, b: Seq<Tree>)
    requires
        same_shape(a, b),
    ensures
        match (branches_of(a), branches_of(b)) {
            (Ok(x), Ok(y)) => same_branches(x, y),
            (Err(e1), Err(e2)) => e1.1 == e2.1,
            _ => false,
        },
    decreases a.len(),
{
    if a.len() > 0 {
        assert(strip(a[0]) == strip(b[0]));
        if a.len() > 1 {
            assert(strip(a[1]) == strip(b[1]));
        }
        if a.len() > 2 {
            assert(strip(a[2]) == strip(b[2]));
        }
        lemma_shape_first_comma(a, b, 3);
        if let Ok(h) = branch_head(a) {
            lemma_first_comma(a, 3);
            lemma_shape_subrange(a, b, 3, first_comma(a, 3));
            lemma_same_shape(a.subrange(3, first_comma(a, 3)), b.subrange(3, first_comma(b, 3)));
            let e = branch_end(a);
            lemma_shape_subrange(a, b, e, a.len() as int);
            lemma_branches_position_free(a.subrange(e, a.len() as int), b.subrange(e, b.len() as int));
            if let Ok(r1) = branches_of(a.subrange(e, a.len() as int)) {
                if let Ok(r2) = branches_of(b.subrange(e, b.len() as int)) {
                    let h2 = branch_head(b)->Ok_0;
                    let x = seq![h] + r1;
                    let y = seq![h2] + r2;
                    assert forall|i: int| 0 <= i < x.len() implies (#[trigger] x[i]).0 == y[i].0
                        && strip_all(x[i].1) == strip_all(y[i].1) by {
                        if i > 0 {
                            assert(x[i] == r1[i - 1]);
                            assert(y[i] == r2[i - 1]);
                        }
                    }
                }
            }
        }
    }
}

proof fn lemma_select_position_free(l1: Lit, l2: Lit, b1: Seq<(LitMatcher, Seq<Tree>)>, b2: Seq<(LitMatcher, Seq<Tree>)>)
    requires
        same_literal(l1, l2),
        same_branches(b1, b2),
    ensures
        same_outcome(select(l1, b1), select(l2, b2)),
    decreases b1.len(),
{
    if b1.len() > 0 {
        assert(b1[0].0 == b2[0].0);
        assert(accepts(b1[0].0, l1) == accepts(b2[0].0, l2));
        assert forall|i: int| 0 <= i < b1.drop_first().len() implies (#[trigger] b1.drop_first()[i]).0
            == b2.drop_first()[i].0 && strip_all(b1.drop_first()[i].1) == strip_all(b2.drop_first()[i].1) by {
            assert(b1.drop_first()[i] == b1[i + 1]);
            assert(b2.drop_first()[i] == b2[i + 1]);
        }
        lemma_select_position_free(l1, l2, b1.drop_first(), b2.drop_first());
    }
}

/// Dispatch does not depend on positions: two invocations that are equal once positions are
/// forgotten expand to tokens that are equal once positions are forgotten, or fail with the
/// same message.
pub proof fn lemma_match_lit_position_free(a: Seq<Tree>, b: Seq<Tree>)
    requires
        strip_all(a) == strip_all(b),
    ensures
        same_outcome(match_lit_spec(a), match_lit_spec(b)),
{
    lemma_same_shape(a, b);
    lemma_lit_group_position_free(a, b);
    if let Ok(x) = lit_group(a) {
        if let Ok(y) = lit_group(b) {
            lemma_branches_position_free(x.1, y.1);
            if let Ok(bx) = branches_of(x.1) {
                if let Ok(by) = branches_of(y.1) {
                    lemma_select_position_free(x.0, y.0, bx, by);
                }
            }
        }
    }
}


/// An integer literal without suffix is accepted only by `_`, `int` (or `intlike`) and
/// `int_`: never by a tag that names a width or a signedness.
pub proof fn lemma_unsuffixed_int_tags(m: LitMatcher, lit: Lit)
    requires
        lit.kind == LitKind::Int,
        lit.suffix == NumSuffix::Unsuffixed,
        accepts(m, lit),
    ensures
        m == LitMatcher::Any || m == LitMatcher::Int || m == LitMatcher::IntUns,
{
}

} // verus!
