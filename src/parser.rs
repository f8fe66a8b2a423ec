//! The grammar: from the text of one source file to its syntax tree.
use vstd::prelude::*;
use crate::ast::{
    Argument, Attribute, Broadcast, Enumerator, Field, Import, Interface, Method,
    MethodErrorSpec, Module, Type, TypeCollection, TypeRef,
};
use crate::lexer::{
    all_space, annotation, annotation_at, char_at, in_class, is_letter, lemma_fqn_shift,
    lemma_ident_shift, lemma_span_exact, digits_u64, digits_value, fqn, fqn_end, ident,
    ident_end, keyword, keyword_end, pos_of, quoted, quoted_at, same_chars, skip_ws, span, span_end,
    ws_end,
    CharClass, Src,
};

verus! {

/// The input does not match the grammar.
#[derive(Clone, Copy, PartialEq, Eq, Debug)]
pub struct Mismatch;

/// The text left after a parse, and what was parsed.
pub type PResult<'a, T> = Result<(&'a str, T), Mismatch>;

/// The characters of `s` after position `e`.
pub open spec fn rest_at(s: Seq<char>, e: int) -> Seq<char> {
    s.subrange(e, s.len() as int)
}

/// Hands back the value of a parse that started at the beginning of `src`,
/// with the text after its end.
fn finish<'a, T>(src: &Src<'a>, r: Option<(T, usize)>) -> (out: PResult<'a, T>)
    requires
        src.wf(),
        r matches Some((_, e)) ==> e <= src@.len(),
    ensures
        r is None ==> out is Err,
        r matches Some((v, e)) ==> out matches Ok((rest, w)) && w == v && rest@ == rest_at(
            src@,
            e as int,
        ),
{
    match r {
        Some((v, e)) => Ok((src.rest(e), v)),
        None => Err(Mismatch),
    }
}

// ------------------------------------------------------------------ tokens

/// An optional annotation at `i`: its text and the position after it, or
/// nothing and `i` itself.
fn opt_annotation(src: &Src, i: usize) -> (r: (Option<String>, usize))
    requires
        src.wf(),
        i <= src@.len(),
    ensures
        i <= r.1 <= src@.len(),
        match annotation_at(src@, i as int) {
            Some((a, c, e)) => r.0 matches Some(t) && t@ == src@.subrange(a, c) && r.1 == e,
            None => r.0 is None && r.1 == i,
        },
{
    match annotation(src, i) {
        Some((a, c, e)) => (Some(src.slice(a, c)), e),
        None => (None, i),
    }
}

/// Parses an annotation block `<** text **>` and the whitespace after it.
/// Where the input holds none, gives `None` and consumes nothing.
pub fn parse_annotation<'a>(input: &'a str) -> (r: PResult<'a, Option<String>>)
    ensures
        match annotation_at(input@, 0) {
            Some((a, c, e)) => r matches Ok((rest, Some(t))) && t@ == input@.subrange(a, c)
                && rest@ == rest_at(input@, e),
            None => r matches Ok((rest, None)) && rest@ == input@,
        },
{
    let src = Src::new(input);
    let (t, e) = opt_annotation(&src, 0);
    assert(input@.subrange(0, input@.len() as int) =~= input@);
    Ok((src.rest(e), t))
}

/// Parses an identifier: an optional `^`, a letter or `_`, then letters,
/// digits and `_`.
pub fn parse_identifier<'a>(input: &'a str) -> (r: PResult<'a, &'a str>)
    ensures
        match ident_end(input@, 0) {
            Some(e) => r matches Ok((rest, name)) && name@ == input@.subrange(0, e) && rest@
                == rest_at(input@, e),
            None => r is Err,
        },
{
    let src = Src::new(input);
    match ident(&src, 0) {
        Some(e) => Ok((src.rest(e), src.part(0, e))),
        None => Err(Mismatch),
    }
}

/// Parses a fully qualified name: identifiers joined by dots.
pub fn parse_fqn<'a>(input: &'a str) -> (r: PResult<'a, &'a str>)
    ensures
        match fqn_end(input@, 0) {
            Some(e) => r matches Ok((rest, name)) && name@ == input@.subrange(0, e) && rest@
                == rest_at(input@, e),
            None => r is Err,
        },
{
    let src = Src::new(input);
    match fqn(&src, 0) {
        Some(e) => Ok((src.rest(e), src.part(0, e))),
        None => Err(Mismatch),
    }
}

/// An imported namespace at `i`: a fully qualified name with an optional
/// `.*`, then whitespace. Gives the end of the name and the end of it all.
pub open spec fn imported_fqn_at(s: Seq<char>, i: int) -> Option<(int, int)> {
    match fqn_end(s, i) {
        Some(e) => {
            let f = if char_at(s, e, '.') && char_at(s, e + 1, '*') {
                e + 2
            } else {
                e
            };
            Some((f, ws_end(s, f)))
        },
        None => None,
    }
}

fn imported_fqn(src: &Src, i: usize) -> (r: Option<(usize, usize)>)
    requires
        i <= src@.len(),
    ensures
        match imported_fqn_at(src@, i as int) {
            Some((f, e)) => r matches Some((f2, e2)) && f2 == f && e2 == e,
            None => r is None,
        },
        r matches Some((f, e)) ==> i < f <= e <= src@.len(),
{
    match fqn(src, i) {
        Some(e) => {
            let f = if src.is_at(e, '.') && src.is_at(e + 1, '*') {
                e + 2
            } else {
                e
            };
            Some((f, skip_ws(src, f)))
        },
        None => None,
    }
}

/// Parses the namespace of an import: a fully qualified name, an optional
/// trailing `.*` kept in the result, and the whitespace after it.
pub fn parse_imported_fqn<'a>(input: &'a str) -> (r: PResult<'a, &'a str>)
    ensures
        match imported_fqn_at(input@, 0) {
            Some((f, e)) => r matches Ok((rest, name)) && name@ == input@.subrange(0, f) && rest@
                == rest_at(input@, e),
            None => r is Err,
        },
{
    let src = Src::new(input);
    match imported_fqn(&src, 0) {
        Some((f, e)) => Ok((src.rest(e), src.part(0, f))),
        None => Err(Mismatch),
    }
}

fn string_lit(src: &Src, i: usize) -> (r: Option<(String, usize)>)
    requires
        src.wf(),
        i <= src@.len(),
    ensures
        match quoted_at(src@, i as int) {
            Some((c, e)) => r matches Some((t, e2)) && t@ == src@.subrange(i + 1, c) && e2 == e,
            None => r is None,
        },
        r matches Some((_, e)) ==> i < e <= src@.len(),
{
    match quoted(src, i) {
        Some((c, e)) => Some((src.slice(i + 1, c), e)),
        None => None,
    }
}

/// Parses a string in single or double quotes; its content runs to the next
/// quote of the same kind, with no escapes.
pub fn parse_string<'a>(input: &'a str) -> (r: PResult<'a, String>)
    ensures
        match quoted_at(input@, 0) {
            Some((c, e)) => r matches Ok((rest, t)) && t@ == input@.subrange(1, c) && rest@
                == rest_at(input@, e),
            None => r is Err,
        },
{
    let src = Src::new(input);
    finish(&src, string_lit(&src, 0))
}

/// A package declaration at `i`: the keyword `package`, a fully qualified
/// name, whitespace. Gives the span of the name and the end.
pub open spec fn package_at(s: Seq<char>, i: int) -> Option<(int, int, int)> {
    match keyword_end(s, i, "package"@) {
        Some(k) => {
            let a = ws_end(s, k);
            match fqn_end(s, a) {
                Some(f) => Some((a, f, ws_end(s, f))),
                None => None,
            }
        },
        None => None,
    }
}

fn package(src: &Src, i: usize) -> (r: Option<(String, usize)>)
    requires
        src.wf(),
        i <= src@.len(),
    ensures
        match package_at(src@, i as int) {
            Some((a, f, e)) => r matches Some((p, e2)) && p@ == src@.subrange(a, f) && e2 == e,
            None => r is None,
        },
        r matches Some((_, e)) ==> i <= e <= src@.len(),
{
    match keyword(src, i, "package") {
        Some(k) => {
            let a = skip_ws(src, k);
            match fqn(src, a) {
                Some(f) => Some((src.slice(a, f), skip_ws(src, f))),
                None => None,
            }
        },
        None => None,
    }
}

/// A package declaration `package NAME` with any whitespace around it, `NAME`
/// a fully qualified name, followed by any `rest` that does not start with
/// whitespace, a character of a name or a dot: the package parsed is `NAME`
/// exactly, and parsing resumes at `rest`.
pub proof fn lemma_package_name(
    w1: Seq<char>,
    w2: Seq<char>,
    name: Seq<char>,
    w3: Seq<char>,
    rest: Seq<char>,
)
    requires
        all_space(w1),
        all_space(w2),
        w2.len() > 0,
        all_space(w3),
        fqn_end(name, 0) == Some(name.len() as int),
        rest.len() > 0 ==> !in_class(CharClass::Space, rest[0]) && !in_class(
            CharClass::Word,
            rest[0],
        ) && rest[0] != '.',
    ensures
        ({
            let s = w1 + "package"@ + w2 + name + w3 + rest;
            let a = w1.len() + 7 + w2.len() as int;
            let e = s.len() - rest.len();
            &&& package_at(s, 0) == Some((a, a + name.len(), e))
            &&& s.subrange(a, a + name.len()) == name
            &&& rest_at(s, e) == rest
        }),
{
    reveal_strlit("package");
    let s = w1 + "package"@ + w2 + name + w3 + rest;
    let k0 = w1.len() as int;
    let k = k0 + 7;
    let a = k + w2.len();
    let f = a + name.len();
    let e = f + w3.len();
    assert forall|j: int| 0 <= j < k0 implies in_class(CharClass::Space, #[trigger] s[j]) by {
        assert(s[j] == w1[j]);
    }
    lemma_span_exact(s, 0, k0, CharClass::Space);
    assert forall|j: int| k0 <= j < k implies in_class(CharClass::Letter, #[trigger] s[j]) by {
        assert(s[j] == "package"@[j - k0]);
    }
    assert(s[k] == w2[0]);
    lemma_span_exact(s, k0, k, CharClass::Letter);
    assert(s.subrange(k0, k) =~= "package"@);
    assert(s.subrange(a, f) =~= name);
    if f < s.len() {
        if w3.len() > 0 {
            assert(s[f] == w3[0]);
        } else {
            assert(s[f] == rest[0]);
        }
    }
    lemma_fqn_shift(name, s, a);
    assert(s[a] == name[0]);
    assert forall|j: int| k <= j < a implies in_class(CharClass::Space, #[trigger] s[j]) by {
        assert(s[j] == w2[j - k]);
    }
    lemma_span_exact(s, k, a, CharClass::Space);
    assert forall|j: int| f <= j < e implies in_class(CharClass::Space, #[trigger] s[j]) by {
        assert(s[j] == w3[j - f]);
    }
    if e < s.len() {
        assert(s[e] == rest[0]);
    }
    lemma_span_exact(s, f, e, CharClass::Space);
    assert(rest_at(s, e) =~= rest);
}

/// Parses a package declaration `package a.b.c`, with the whitespace around it.
pub fn parse_package<'a>(input: &'a str) -> (r: PResult<'a, String>)
    ensures
        match package_at(input@, 0) {
            Some((a, f, e)) => r matches Ok((rest, p)) && p@ == input@.subrange(a, f) && rest@
                == rest_at(input@, e),
            None => r is Err,
        },
{
    let src = Src::new(input);
    finish(&src, package(&src, 0))
}

// ---------------------------------------------------------------- numbers

/// Value and end of the decimal digits at `i`, which must be at least one.
pub open spec fn digits_at(s: Seq<char>, i: int) -> Option<(nat, int)> {
    let d = span_end(s, i, CharClass::Digit);
    if d > i {
        Some((digits_value(s.subrange(i, d), 10), d))
    } else {
        None
    }
}

/// A version block at `i`: `version { major N minor M }`, with whitespace
/// between `N` and `minor`, and the whitespace after it, with both numbers fitting in 32 bits. Gives (N, M, end).
pub open spec fn version_at(s: Seq<char>, i: int) -> Option<(nat, nat, int)> {
    match keyword_end(s, i, "version"@) {
        Some(k1) => {
            let b = ws_end(s, k1);
            if char_at(s, b, '{') {
                match keyword_end(s, b + 1, "major"@) {
                    Some(k2) => match digits_at(s, ws_end(s, k2)) {
                        Some((ma, m1)) => match (if ws_end(s, m1) > m1 {
                            keyword_end(s, m1, "minor"@)
                        } else {
                            None
                        }) {
                            Some(k3) => match digits_at(s, ws_end(s, k3)) {
                                Some((mi, n1)) => {
                                    let c = ws_end(s, n1);
                                    if char_at(s, c, '}') && ma <= u32::MAX && mi <= u32::MAX {
                                        Some((ma, mi, ws_end(s, c + 1)))
                                    } else {
                                        None
                                    }
                                },
                                None => None,
                            },
                            None => None,
                        },
                        None => None,
                    },
                    None => None,
                }
            } else {
                None
            }
        },
        None => None,
    }
}

/// A decimal number of at most 32 bits at `i`.
fn number_u32(src: &Src, i: usize) -> (r: Option<(u32, usize)>)
    requires
        i <= src@.len(),
    ensures
        match digits_at(src@, i as int) {
            Some((v, d)) => if v <= u32::MAX {
                r matches Some((w, d2)) && w == v && d2 == d
            } else {
                r is None
            },
            None => r is None,
        },
        r matches Some((_, d)) ==> i < d <= src@.len(),
{
    let d = span(src, i, CharClass::Digit);
    if d == i {
        return None;
    }
    match digits_u64(src, i, d, 10) {
        Some(v) => if v <= 0xffff_ffff {
            Some((v as u32, d))
        } else {
            None
        },
        None => None,
    }
}

/// An optional version block at `i`, or nothing and `i` itself.
fn opt_version(src: &Src, i: usize) -> (r: (Option<(u32, u32)>, usize))
    requires
        i <= src@.len(),
    ensures
        i <= r.1 <= src@.len(),
        match version_at(src@, i as int) {
            Some((ma, mi, e)) => r.0 == Some((ma as u32, mi as u32)) && r.1 == e,
            None => r.0 is None && r.1 == i,
        },
{
    let k1 = match keyword(src, i, "version") {
        Some(k) => k,
        None => return (None, i),
    };
    let b = skip_ws(src, k1);
    if !src.is_at(b, '{') {
        return (None, i);
    }
    let k2 = match keyword(src, b + 1, "major") {
        Some(k) => k,
        None => return (None, i),
    };
    let (ma, m1) = match number_u32(src, skip_ws(src, k2)) {
        Some(p) => p,
        None => return (None, i),
    };
    if skip_ws(src, m1) == m1 {
        return (None, i);
    }
    let k3 = match keyword(src, m1, "minor") {
        Some(k) => k,
        None => return (None, i),
    };
    let (mi, n1) = match number_u32(src, skip_ws(src, k3)) {
        Some(p) => p,
        None => return (None, i),
    };
    let c = skip_ws(src, n1);
    if !src.is_at(c, '}') {
        return (None, i);
    }
    (Some((ma, mi)), skip_ws(src, c + 1))
}

/// Parses an optional version block `version { major N minor M }`. Where the
/// input holds none, or a malformed one, gives `None` and consumes nothing.
pub fn parse_version<'a>(input: &'a str) -> (r: PResult<'a, Option<(u32, u32)>>)
    ensures
        match version_at(input@, 0) {
            Some((ma, mi, e)) => r matches Ok((rest, Some((a, b)))) && a == ma && b == mi && rest@
                == rest_at(input@, e),
            None => r matches Ok((rest, None)) && rest@ == input@,
        },
{
    let src = Src::new(input);
    let (v, e) = opt_version(&src, 0);
    assert(input@.subrange(0, input@.len() as int) =~= input@);
    Ok((src.rest(e), v))
}

/// Value and end of the digits of class `k` from `a`, in base `b`, followed by
/// whitespace; at least one digit, and a value that fits in 64 bits.
pub open spec fn literal_at(s: Seq<char>, a: int, k: CharClass, b: nat) -> Option<(nat, int)> {
    let d = span_end(s, a, k);
    let v = digits_value(s.subrange(a, d), b);
    if d > a && v <= u64::MAX {
        Some((v, ws_end(s, d)))
    } else {
        None
    }
}

/// A decimal literal at `i`.
pub open spec fn decimal_at(s: Seq<char>, i: int) -> Option<(nat, int)> {
    literal_at(s, i, CharClass::Digit, 10)
}

/// A hexadecimal literal at `i`: `0x` or `0X`, then hex digits.
pub open spec fn hex_at(s: Seq<char>, i: int) -> Option<(nat, int)> {
    if char_at(s, i, '0') && (char_at(s, i + 1, 'x') || char_at(s, i + 1, 'X')) {
        literal_at(s, i + 2, CharClass::HexDigit, 16)
    } else {
        None
    }
}

/// A binary literal at `i`: `0b` or `0B`, then binary digits.
pub open spec fn binary_at(s: Seq<char>, i: int) -> Option<(nat, int)> {
    if char_at(s, i, '0') && (char_at(s, i + 1, 'b') || char_at(s, i + 1, 'B')) {
        literal_at(s, i + 2, CharClass::BinDigit, 2)
    } else {
        None
    }
}

/// An integer literal at `i`: hexadecimal, else binary, else decimal.
pub open spec fn integer_at(s: Seq<char>, i: int) -> Option<(nat, int)> {
    match hex_at(s, i) {
        Some(p) => Some(p),
        None => match binary_at(s, i) {
            Some(p) => Some(p),
            None => decimal_at(s, i),
        },
    }
}

/// A parsed number with its end, as mathematical values.
pub open spec fn num_of(r: Option<(u64, usize)>) -> Option<(nat, int)> {
    match r {
        Some((v, e)) => Some((v as nat, e as int)),
        None => None,
    }
}

fn literal(src: &Src, a: usize, k: CharClass, b: u64) -> (r: Option<(u64, usize)>)
    requires
        a <= src@.len(),
        b == 2 || b == 10 || b == 16,
    ensures
        num_of(r) == literal_at(src@, a as int, k, b as nat),
        r matches Some((_, e)) ==> a < e <= src@.len(),
{
    let d = span(src, a, k);
    if d == a {
        return None;
    }
    match digits_u64(src, a, d, b) {
        Some(v) => Some((v, skip_ws(src, d))),
        None => None,
    }
}

fn decimal(src: &Src, i: usize) -> (r: Option<(u64, usize)>)
    requires
        i <= src@.len(),
    ensures
        num_of(r) == decimal_at(src@, i as int),
        r matches Some((_, e)) ==> i < e <= src@.len(),
{
    literal(src, i, CharClass::Digit, 10)
}

fn hex(src: &Src, i: usize) -> (r: Option<(u64, usize)>)
    requires
        i <= src@.len(),
    ensures
        num_of(r) == hex_at(src@, i as int),
        r matches Some((_, e)) ==> i < e <= src@.len(),
{
    if src.is_at(i, '0') && (src.is_at(i + 1, 'x') || src.is_at(i + 1, 'X')) {
        literal(src, i + 2, CharClass::HexDigit, 16)
    } else {
        None
    }
}

fn binary(src: &Src, i: usize) -> (r: Option<(u64, usize)>)
    requires
        i <= src@.len(),
    ensures
        num_of(r) == binary_at(src@, i as int),
        r matches Some((_, e)) ==> i < e <= src@.len(),
{
    if src.is_at(i, '0') && (src.is_at(i + 1, 'b') || src.is_at(i + 1, 'B')) {
        literal(src, i + 2, CharClass::BinDigit, 2)
    } else {
        None
    }
}

fn integer(src: &Src, i: usize) -> (r: Option<(u64, usize)>)
    requires
        i <= src@.len(),
    ensures
        num_of(r) == integer_at(src@, i as int),
        r matches Some((_, e)) ==> i < e <= src@.len(),
{
    match hex(src, i) {
        Some(p) => Some(p),
        None => match binary(src, i) {
            Some(p) => Some(p),
            None => decimal(src, i),
        },
    }
}

/// Whether every character of `d` is of class `k`.
pub open spec fn all_in(d: Seq<char>, k: CharClass) -> bool {
    forall|i: int| 0 <= i < d.len() ==> in_class(k, #[trigger] d[i])
}

proof fn lemma_literal_at(s: Seq<char>, a: int, d: Seq<char>, k: CharClass, b: nat)
    requires
        0 <= a,
        a + d.len() <= s.len(),
        s.subrange(a, a + d.len()) == d,
        d.len() > 0,
        all_in(d, k),
        a + d.len() < s.len() ==> !in_class(k, s[a + d.len()]) && !in_class(
            CharClass::Space,
            s[a + d.len()],
        ),
        digits_value(d, b) <= u64::MAX,
    ensures
        literal_at(s, a, k, b) == Some((digits_value(d, b), a + d.len())),
{
    let e = a + d.len();
    assert forall|j: int| a <= j < e implies in_class(k, #[trigger] s[j]) by {
        assert(s[j] == s.subrange(a, e)[j - a]);
    }
    lemma_span_exact(s, a, e, k);
    lemma_span_exact(s, e, e, CharClass::Space);
}

/// Integer literals keep their mathematical value: nonempty `digits`
/// followed by a character that is neither part of a name nor whitespace
/// parse, after `0x`, as the hexadecimal number they write; after `0b`, as
/// the binary one; and alone, as the decimal one; wherever the value fits in
/// 64 bits.
pub proof fn lemma_integer_literals(digits: Seq<char>, rest: Seq<char>)
    requires
        digits.len() > 0,
        rest.len() > 0 ==> !in_class(CharClass::Word, rest[0]) && !in_class(
            CharClass::Space,
            rest[0],
        ),
    ensures
        all_in(digits, CharClass::HexDigit) && digits_value(digits, 16) <= u64::MAX
            ==> integer_at("0x"@ + digits + rest, 0) == Some(
            (digits_value(digits, 16), digits.len() + 2int),
        ),
        all_in(digits, CharClass::BinDigit) && digits_value(digits, 2) <= u64::MAX ==> integer_at(
            "0b"@ + digits + rest,
            0,
        ) == Some((digits_value(digits, 2), digits.len() + 2int)),
        all_in(digits, CharClass::Digit) && digits_value(digits, 10) <= u64::MAX ==> integer_at(
            digits + rest,
            0,
        ) == Some((digits_value(digits, 10), digits.len() as int)),
{
    reveal_strlit("0x");
    reveal_strlit("0b");
    let n = digits.len() as int;
    if all_in(digits, CharClass::HexDigit) && digits_value(digits, 16) <= u64::MAX {
        let s = "0x"@ + digits + rest;
        assert(s.subrange(2, 2 + n) =~= digits);
        if 2 + n < s.len() {
            assert(s[2 + n] == rest[0]);
        }
        lemma_literal_at(s, 2, digits, CharClass::HexDigit, 16);
    }
    if all_in(digits, CharClass::BinDigit) && digits_value(digits, 2) <= u64::MAX {
        let s = "0b"@ + digits + rest;
        assert(s.subrange(2, 2 + n) =~= digits);
        if 2 + n < s.len() {
            assert(s[2 + n] == rest[0]);
        }
        lemma_literal_at(s, 2, digits, CharClass::BinDigit, 2);
    }
    if all_in(digits, CharClass::Digit) && digits_value(digits, 10) <= u64::MAX {
        let s = digits + rest;
        assert(s.subrange(0, n) =~= digits);
        if n < s.len() {
            assert(s[n] == rest[0]);
        }
        if n > 1 {
            assert(s[1] == digits[1]);
            assert(in_class(CharClass::Digit, digits[1]));
        } else if n < s.len() {
            assert(s[1] == rest[0]);
        }
        lemma_literal_at(s, 0, digits, CharClass::Digit, 10);
    }
}

/// The parse that `spec` describes, as the result of a public parser.
pub open spec fn number_result(r: PResult<u64>, s: Seq<char>, spec: Option<(nat, int)>) -> bool {
    match spec {
        Some((v, e)) => r matches Ok((rest, w)) && w == v && rest@ == rest_at(s, e),
        None => r is Err,
    }
}

/// Parses a decimal literal and the whitespace after it.
pub fn parse_integer_decimal<'a>(input: &'a str) -> (r: PResult<'a, u64>)
    ensures
        number_result(r, input@, decimal_at(input@, 0)),
{
    let src = Src::new(input);
    finish(&src, decimal(&src, 0))
}

/// Parses a hexadecimal literal (`0x` or `0X`) and the whitespace after it.
pub fn parse_integer_hex<'a>(input: &'a str) -> (r: PResult<'a, u64>)
    ensures
        number_result(r, input@, hex_at(input@, 0)),
{
    let src = Src::new(input);
    finish(&src, hex(&src, 0))
}

/// Parses a binary literal (`0b` or `0B`) and the whitespace after it.
pub fn parse_integer_bin<'a>(input: &'a str) -> (r: PResult<'a, u64>)
    ensures
        number_result(r, input@, binary_at(input@, 0)),
{
    let src = Src::new(input);
    finish(&src, binary(&src, 0))
}

/// Parses an integer literal: hexadecimal, binary or decimal.
pub fn parse_integer<'a>(input: &'a str) -> (r: PResult<'a, u64>)
    ensures
        number_result(r, input@, integer_at(input@, 0)),
{
    let src = Src::new(input);
    finish(&src, integer(&src, 0))
}

// ------------------------------------------------------------------ types

/// The built-in type that a name denotes, if any.
pub open spec fn builtin(n: Seq<char>) -> Option<TypeRef> {
    if n == "undefined"@ {
        Some(TypeRef::Undefined)
    } else if n == "Int8"@ {
        Some(TypeRef::Int8)
    } else if n == "UInt8"@ {
        Some(TypeRef::UInt8)
    } else if n == "Int16"@ {
        Some(TypeRef::Int16)
    } else if n == "UInt16"@ {
        Some(TypeRef::UInt16)
    } else if n == "Int32"@ {
        Some(TypeRef::Int32)
    } else if n == "UInt32"@ {
        Some(TypeRef::UInt32)
    } else if n == "Int64"@ {
        Some(TypeRef::Int64)
    } else if n == "UInt64"@ {
        Some(TypeRef::UInt64)
    } else if n == "Boolean"@ {
        Some(TypeRef::Boolean)
    } else if n == "String"@ {
        Some(TypeRef::String)
    } else if n == "Float"@ {
        Some(TypeRef::Float)
    } else if n == "Double"@ {
        Some(TypeRef::Double)
    } else if n == "ByteBuffer"@ {
        Some(TypeRef::ByteBuffer)
    } else {
        None
    }
}

/// Whether `t` is what the name `n` refers to: its built-in type, or else a
/// derived type of that name.
pub open spec fn refers_to(t: TypeRef, n: Seq<char>) -> bool {
    match builtin(n) {
        Some(b) => t == b,
        None => t matches TypeRef::Derived(d) && d@ == n,
    }
}

/// The type that the name between `a` and `e` refers to.
fn classify(src: &Src, a: usize, e: usize) -> (t: TypeRef)
    requires
        src.wf(),
        a <= e <= src@.len(),
    ensures
        refers_to(t, src@.subrange(a as int, e as int)),
{
    if same_chars(src, a, e, "undefined") {
        TypeRef::Undefined
    } else if same_chars(src, a, e, "Int8") {
        TypeRef::Int8
    } else if same_chars(src, a, e, "UInt8") {
        TypeRef::UInt8
    } else if same_chars(src, a, e, "Int16") {
        TypeRef::Int16
    } else if same_chars(src, a, e, "UInt16") {
        TypeRef::UInt16
    } else if same_chars(src, a, e, "Int32") {
        TypeRef::Int32
    } else if same_chars(src, a, e, "UInt32") {
        TypeRef::UInt32
    } else if same_chars(src, a, e, "Int64") {
        TypeRef::Int64
    } else if same_chars(src, a, e, "UInt64") {
        TypeRef::UInt64
    } else if same_chars(src, a, e, "Boolean") {
        TypeRef::Boolean
    } else if same_chars(src, a, e, "String") {
        TypeRef::String
    } else if same_chars(src, a, e, "Float") {
        TypeRef::Float
    } else if same_chars(src, a, e, "Double") {
        TypeRef::Double
    } else if same_chars(src, a, e, "ByteBuffer") {
        TypeRef::ByteBuffer
    } else {
        TypeRef::Derived(src.slice(a, e))
    }
}

/// A type reference at `i`: a fully qualified name, classified.
fn type_ref(src: &Src, i: usize) -> (r: Option<(TypeRef, usize)>)
    requires
        src.wf(),
        i <= src@.len(),
    ensures
        match fqn_end(src@, i as int) {
            Some(e) => r matches Some((t, e2)) && e2 == e && refers_to(
                t,
                src@.subrange(i as int, e),
            ),
            None => r is None,
        },
        r matches Some((_, e)) ==> i < e <= src@.len(),
{
    match fqn(src, i) {
        Some(e) => Some((classify(src, i, e), e)),
        None => None,
    }
}

/// Parses a type reference: a built-in type name, or any other name as a
/// derived type.
pub fn parse_type_ref<'a>(input: &'a str) -> (r: PResult<'a, TypeRef>)
    ensures
        match fqn_end(input@, 0) {
            Some(e) => r matches Ok((rest, t)) && refers_to(t, input@.subrange(0, e)) && rest@
                == rest_at(input@, e),
            None => r is Err,
        },
{
    let src = Src::new(input);
    finish(&src, type_ref(&src, 0))
}

/// An optional array marker `[ ]` and the whitespace after it at `i`.
pub open spec fn array_marker_at(s: Seq<char>, i: int) -> Option<int> {
    let b = ws_end(s, i + 1);
    if char_at(s, i, '[') && char_at(s, b, ']') {
        Some(ws_end(s, b + 1))
    } else {
        None
    }
}

fn array_marker(src: &Src, i: usize) -> (r: (bool, usize))
    requires
        i <= src@.len(),
    ensures
        match array_marker_at(src@, i as int) {
            Some(e) => r.0 && r.1 == e,
            None => !r.0 && r.1 == i,
        },
        i <= r.1 <= src@.len(),
{
    if !src.is_at(i, '[') {
        return (false, i);
    }
    let b = skip_ws(src, i + 1);
    if src.is_at(b, ']') {
        (true, skip_ws(src, b + 1))
    } else {
        (false, i)
    }
}

// ------------------------------------------------------------ structure

/// Whether `rest` is what is left of `s` after some prefix.
pub open spec fn suffix_of(rest: Seq<char>, s: Seq<char>) -> bool {
    rest.len() <= s.len() && rest == rest_at(s, s.len() - rest.len())
}

/// Position after optional whitespace and the character `c`.
fn punct(src: &Src, i: usize, c: char) -> (r: Option<usize>)
    requires
        i <= src@.len(),
    ensures
        match r {
            Some(e) => char_at(src@, ws_end(src@, i as int), c) && e == ws_end(src@, i as int)
                + 1,
            None => !char_at(src@, ws_end(src@, i as int), c),
        },
        r matches Some(e) ==> i < e <= src@.len(),
{
    let a = skip_ws(src, i);
    if src.is_at(a, c) {
        Some(a + 1)
    } else {
        None
    }
}

/// An optional keyword `w` at `i`: whether it is there, and the position
/// after it and the whitespace that follows.
fn opt_keyword(src: &Src, i: usize, w: &str) -> (r: (bool, usize))
    requires
        i <= src@.len(),
    ensures
        match keyword_end(src@, i as int, w@) {
            Some(e) => r.0 && r.1 == ws_end(src@, e),
            None => !r.0 && r.1 == i,
        },
        i <= r.1 <= src@.len(),
{
    match keyword(src, i, w) {
        Some(e) => (true, skip_ws(src, e)),
        None => (false, i),
    }
}

/// An identifier after optional whitespace, and the position after it and
/// the whitespace that follows.
fn name(src: &Src, i: usize) -> (r: Option<(String, usize)>)
    requires
        src.wf(),
        i <= src@.len(),
    ensures
        match ident_end(src@, ws_end(src@, i as int)) {
            Some(e) => r matches Some((n, e2)) && n@ == src@.subrange(ws_end(src@, i as int), e)
                && e2 == ws_end(src@, e),
            None => r is None,
        },
        r matches Some((_, e)) ==> i < e <= src@.len(),
{
    let a = skip_ws(src, i);
    match ident(src, a) {
        Some(e) => Some((src.slice(a, e), skip_ws(src, e))),
        None => None,
    }
}

/// A type reference after optional whitespace, and the whitespace after it.
fn type_ref_ws(src: &Src, i: usize) -> (r: Option<(TypeRef, usize)>)
    requires
        src.wf(),
        i <= src@.len(),
    ensures
        match fqn_end(src@, ws_end(src@, i as int)) {
            Some(e) => r matches Some((t, e2)) && refers_to(
                t,
                src@.subrange(ws_end(src@, i as int), e),
            ) && e2 == ws_end(src@, e),
            None => r is None,
        },
        r matches Some((_, e)) ==> i < e <= src@.len(),
{
    let a = skip_ws(src, i);
    match type_ref(src, a) {
        Some((t, e)) => Some((t, skip_ws(src, e))),
        None => None,
    }
}

/// An optional `extends <fqn>` clause at `i`: the span of the name, and the
/// position after it; or nothing and `i` itself.
pub open spec fn extends_name_at(s: Seq<char>, i: int) -> (Option<(int, int)>, int) {
    match keyword_end(s, i, "extends"@) {
        Some(k) => {
            let a = ws_end(s, k);
            match fqn_end(s, a) {
                Some(f) => (Some((a, f)), ws_end(s, f)),
                None => (None, i),
            }
        },
        None => (None, i),
    }
}

/// Whether `v` holds the name that `span` marks in `s`.
pub open spec fn name_is(v: Option<String>, s: Seq<char>, span: Option<(int, int)>) -> bool {
    match span {
        Some((a, f)) => v matches Some(n) && n@ == s.subrange(a, f),
        None => v is None,
    }
}

fn opt_extends_name(src: &Src, i: usize) -> (r: (Option<String>, usize))
    requires
        src.wf(),
        i <= src@.len(),
    ensures
        name_is(r.0, src@, extends_name_at(src@, i as int).0),
        r.1 == extends_name_at(src@, i as int).1,
        i <= r.1 <= src@.len(),
{
    match keyword(src, i, "extends") {
        Some(k) => {
            let a = skip_ws(src, k);
            match fqn(src, a) {
                Some(e) => (Some(src.slice(a, e)), skip_ws(src, e)),
                None => (None, i),
            }
        },
        None => (None, i),
    }
}

/// An optional `extends <type>` clause at `i`: the span of the type's name,
/// and the position after it; or nothing and `i` itself.
pub open spec fn extends_type_at(s: Seq<char>, i: int) -> (Option<(int, int)>, int) {
    match keyword_end(s, i, "extends"@) {
        Some(k) => {
            let t0 = ws_end(s, k);
            match fqn_end(s, t0) {
                Some(t1) => (Some((t0, t1)), ws_end(s, t1)),
                None => (None, i),
            }
        },
        None => (None, i),
    }
}

/// Whether `v` holds the type that the name at `span` in `s` refers to.
pub open spec fn type_is(v: Option<TypeRef>, s: Seq<char>, span: Option<(int, int)>) -> bool {
    match span {
        Some((a, f)) => v matches Some(t) && refers_to(t, s.subrange(a, f)),
        None => v is None,
    }
}

fn opt_extends_type(src: &Src, i: usize) -> (r: (Option<TypeRef>, usize))
    requires
        src.wf(),
        i <= src@.len(),
    ensures
        type_is(r.0, src@, extends_type_at(src@, i as int).0),
        r.1 == extends_type_at(src@, i as int).1,
        i <= r.1 <= src@.len(),
{
    match keyword(src, i, "extends") {
        Some(k) => match type_ref_ws(src, k) {
            Some((t, e)) => (Some(t), e),
            None => (None, i),
        },
        None => (None, i),
    }
}

/// The optional annotation that may open an item at `i`, after whitespace:
/// the span of its text, and the position after it.
pub open spec fn opt_annotation_at(s: Seq<char>, i: int) -> (Option<(int, int)>, int) {
    let a = ws_end(s, i);
    match annotation_at(s, a) {
        Some((x, c, e)) => (Some((x, c)), e),
        None => (None, a),
    }
}

/// Whether `v` holds the annotation text that `span` marks in `s`.
pub open spec fn annotation_is(v: Option<String>, s: Seq<char>, span: Option<(int, int)>) -> bool {
    match span {
        Some((x, c)) => v matches Some(t) && t@ == s.subrange(x, c),
        None => v is None,
    }
}

/// A member at `i`, the shape shared by fields and arguments: optional
/// annotation, type reference, optional array marker, name. Gives the
/// annotation's span, the type name's span, whether it is an array, the
/// name's span, and the end.
pub open spec fn member_at(s: Seq<char>, i: int) -> Option<
    (Option<(int, int)>, int, int, bool, int, int, int),
> {
    let (ann, b) = opt_annotation_at(s, i);
    let t0 = ws_end(s, b);
    match fqn_end(s, t0) {
        Some(t1) => {
            let c = ws_end(s, t1);
            let (arr, d) = match array_marker_at(s, c) {
                Some(e) => (true, e),
                None => (false, c),
            };
            let n0 = ws_end(s, d);
            match ident_end(s, n0) {
                Some(n1) => Some((ann, t0, t1, arr, n0, n1, ws_end(s, n1))),
                None => None,
            }
        },
        None => None,
    }
}

/// Whether annotation `a`, type `t`, array flag `arr` and name `n` are what
/// the member `m` found in `s` holds.
pub open spec fn member_is(
    s: Seq<char>,
    m: (Option<(int, int)>, int, int, bool, int, int, int),
    a: Option<String>,
    t: TypeRef,
    arr: bool,
    n: String,
) -> bool {
    &&& annotation_is(a, s, m.0)
    &&& refers_to(t, s.subrange(m.1, m.2))
    &&& arr == m.3
    &&& n@ == s.subrange(m.4, m.5)
}

fn member(src: &Src, i: usize) -> (r: Option<(Option<String>, TypeRef, bool, String, usize)>)
    requires
        src.wf(),
        i <= src@.len(),
    ensures
        match member_at(src@, i as int) {
            Some(m) => r matches Some((a, t, arr, n, e)) && member_is(src@, m, a, t, arr, n) && e
                == m.6,
            None => r is None,
        },
        r matches Some((_, _, _, _, e)) ==> i < e <= src@.len(),
{
    let (annotation, j) = opt_annotation(src, skip_ws(src, i));
    let (t, j) = match type_ref_ws(src, j) {
        Some(p) => p,
        None => return None,
    };
    let (array, j) = array_marker(src, j);
    match name(src, j) {
        Some((n, e)) => Some((annotation, t, array, n, e)),
        None => None,
    }
}

fn field(src: &Src, i: usize) -> (r: Option<(Field, usize)>)
    requires
        src.wf(),
        i <= src@.len(),
    ensures
        match member_at(src@, i as int) {
            Some(m) => r matches Some((f, e)) && member_is(
                src@,
                m,
                f.annotation,
                f.type_ref,
                f.array,
                f.name,
            ) && e == m.6,
            None => r is None,
        },
        r matches Some((_, e)) ==> i < e <= src@.len(),
{
    match member(src, i) {
        Some((annotation, type_ref, array, name, e)) => Some(
            (Field { annotation, name, type_ref, array }, e),
        ),
        None => None,
    }
}

fn argument(src: &Src, i: usize) -> (r: Option<(Argument, usize)>)
    requires
        src.wf(),
        i <= src@.len(),
    ensures
        match member_at(src@, i as int) {
            Some(m) => r matches Some((a, e)) && member_is(
                src@,
                m,
                a.annotation,
                a.type_ref,
                a.array,
                a.name,
            ) && e == m.6,
            None => r is None,
        },
        r matches Some((_, e)) ==> i < e <= src@.len(),
{
    match member(src, i) {
        Some((annotation, type_ref, array, name, e)) => Some(
            (Argument { annotation, type_ref, array, name }, e),
        ),
        None => None,
    }
}

/// Parses a field: optional annotation, type, optional `[]`, name.
pub fn parse_field<'a>(input: &'a str) -> (r: PResult<'a, Field>)
    ensures
        match member_at(input@, 0) {
            Some(m) => r matches Ok((rest, f)) && member_is(
                input@,
                m,
                f.annotation,
                f.type_ref,
                f.array,
                f.name,
            ) && rest@ == rest_at(input@, m.6),
            None => r is Err,
        },
{
    let src = Src::new(input);
    finish(&src, field(&src, 0))
}

/// Parses an argument: optional annotation, type, optional `[]`, name.
pub fn parse_argument<'a>(input: &'a str) -> (r: PResult<'a, Argument>)
    ensures
        match member_at(input@, 0) {
            Some(m) => r matches Ok((rest, a)) && member_is(
                input@,
                m,
                a.annotation,
                a.type_ref,
                a.array,
                a.name,
            ) && rest@ == rest_at(input@, m.6),
            None => r is Err,
        },
{
    let src = Src::new(input);
    finish(&src, argument(&src, 0))
}

/// The members that follow one another from `j`, and where they end.
pub open spec fn members_from(s: Seq<char>, j: int) -> (
    Seq<(Option<(int, int)>, int, int, bool, int, int, int)>,
    int,
)
    decreases s.len() - j,
{
    match member_at(s, j) {
        Some(m) => if j < m.6 <= s.len() {
            let (ms, e) = members_from(s, m.6);
            (seq![m] + ms, e)
        } else {
            (Seq::empty(), j)
        },
        None => (Seq::empty(), j),
    }
}

/// Whether the fields `v` are the members `ms` found in `s`, one for one.
pub open spec fn fields_are(
    s: Seq<char>,
    ms: Seq<(Option<(int, int)>, int, int, bool, int, int, int)>,
    v: Seq<Field>,
) -> bool {
    &&& v.len() == ms.len()
    &&& forall|k: int|
        0 <= k < v.len() ==> member_is(
            s,
            #[trigger] ms[k],
            v[k].annotation,
            v[k].type_ref,
            v[k].array,
            v[k].name,
        )
}

/// Whether the arguments `v` are the members `ms` found in `s`, one for one.
pub open spec fn arguments_are(
    s: Seq<char>,
    ms: Seq<(Option<(int, int)>, int, int, bool, int, int, int)>,
    v: Seq<Argument>,
) -> bool {
    &&& v.len() == ms.len()
    &&& forall|k: int|
        0 <= k < v.len() ==> member_is(
            s,
            #[trigger] ms[k],
            v[k].annotation,
            v[k].type_ref,
            v[k].array,
            v[k].name,
        )
}

/// Zero or more fields from `i`.
fn fields(src: &Src, i: usize) -> (r: (Vec<Field>, usize))
    requires
        src.wf(),
        i <= src@.len(),
    ensures
        fields_are(src@, members_from(src@, i as int).0, r.0@),
        r.1 == members_from(src@, i as int).1,
        i <= r.1 <= src@.len(),
{
    let mut v: Vec<Field> = Vec::new();
    let ghost done: Seq<(Option<(int, int)>, int, int, bool, int, int, int)> = Seq::empty();
    let mut j = i;
    loop
        invariant
            src.wf(),
            i <= j <= src@.len(),
            fields_are(src@, done, v@),
            members_from(src@, i as int) == (
                done + members_from(src@, j as int).0,
                members_from(src@, j as int).1,
            ),
        ensures
            i <= j <= src@.len(),
            fields_are(src@, done, v@),
            members_from(src@, i as int) == (done, j as int),
        decreases src@.len() - j,
    {
        match field(src, j) {
            Some((f, e)) => {
                let ghost m = member_at(src@, j as int)->0;
                let ghost rest = members_from(src@, e as int).0;
                assert(done + (seq![m] + rest) =~= done.push(m) + rest);
                proof {
                    done = done.push(m);
                }
                v.push(f);
                j = e;
            },
            None => {
                assert(done + Seq::empty() =~= done);
                break;
            },
        }
    }
    (v, j)
}

/// Zero or more arguments from `i`.
fn arguments(src: &Src, i: usize) -> (r: (Vec<Argument>, usize))
    requires
        src.wf(),
        i <= src@.len(),
    ensures
        arguments_are(src@, members_from(src@, i as int).0, r.0@),
        r.1 == members_from(src@, i as int).1,
        i <= r.1 <= src@.len(),
{
    let mut v: Vec<Argument> = Vec::new();
    let ghost done: Seq<(Option<(int, int)>, int, int, bool, int, int, int)> = Seq::empty();
    let mut j = i;
    loop
        invariant
            src.wf(),
            i <= j <= src@.len(),
            arguments_are(src@, done, v@),
            members_from(src@, i as int) == (
                done + members_from(src@, j as int).0,
                members_from(src@, j as int).1,
            ),
        ensures
            i <= j <= src@.len(),
            arguments_are(src@, done, v@),
            members_from(src@, i as int) == (done, j as int),
        decreases src@.len() - j,
    {
        match argument(src, j) {
            Some((a, e)) => {
                let ghost m = member_at(src@, j as int)->0;
                let ghost rest = members_from(src@, e as int).0;
                assert(done + (seq![m] + rest) =~= done.push(m) + rest);
                proof {
                    done = done.push(m);
                }
                v.push(a);
                j = e;
            },
            None => {
                assert(done + Seq::empty() =~= done);
                break;
            },
        }
    }
    (v, j)
}

/// The value of an enumerator, `= <integer>`, at `i` after optional whitespace.
pub open spec fn enum_value_at(s: Seq<char>, i: int) -> Option<(nat, int)> {
    let a = ws_end(s, i);
    if char_at(s, a, '=') {
        integer_at(s, ws_end(s, a + 1))
    } else {
        None
    }
}

fn enum_value(src: &Src, i: usize) -> (r: Option<(u64, usize)>)
    requires
        i <= src@.len(),
    ensures
        num_of(r) == enum_value_at(src@, i as int),
        r matches Some((_, e)) ==> i < e <= src@.len(),
{
    match punct(src, i, '=') {
        Some(a) => integer(src, skip_ws(src, a)),
        None => None,
    }
}

/// An enumerator at `i`: optional annotation, name, optional explicit value.
/// Gives the annotation's span, the name's span, the value (absent where no
/// `=` follows the name), and the end. A `=` with no valid integer after it
/// is no enumerator.
pub open spec fn enumerator_at(s: Seq<char>, i: int) -> Option<
    (Option<(int, int)>, int, int, Option<nat>, int),
> {
    let (ann, b) = opt_annotation_at(s, i);
    let n0 = ws_end(s, b);
    match ident_end(s, n0) {
        Some(n1) => {
            let j = ws_end(s, n1);
            match enum_value_at(s, j) {
                Some((v, e)) => Some((ann, n0, n1, Some(v), e)),
                None => if char_at(s, ws_end(s, j), '=') {
                    None
                } else {
                    Some((ann, n0, n1, None, j))
                },
            }
        },
        None => None,
    }
}

/// Whether `en` is the enumerator `m` found in `s`.
pub open spec fn enumerator_is(
    s: Seq<char>,
    m: (Option<(int, int)>, int, int, Option<nat>, int),
    en: Enumerator,
) -> bool {
    &&& annotation_is(en.annotation, s, m.0)
    &&& en.name@ == s.subrange(m.1, m.2)
    &&& match m.3 {
        Some(v) => en.val == Some(v as u64),
        None => en.val is None,
    }
}

fn enumerator(src: &Src, i: usize) -> (r: Option<(Enumerator, usize)>)
    requires
        src.wf(),
        i <= src@.len(),
    ensures
        match enumerator_at(src@, i as int) {
            Some(m) => r matches Some((en, e)) && enumerator_is(src@, m, en) && e == m.4,
            None => r is None,
        },
        r matches Some((_, e)) ==> i < e <= src@.len(),
{
    let (annotation, j) = opt_annotation(src, skip_ws(src, i));
    let (n, j) = match name(src, j) {
        Some(p) => p,
        None => return None,
    };
    match enum_value(src, j) {
        Some((v, e)) => Some((Enumerator { annotation, name: n, val: Some(v) }, e)),
        None => {
            if src.is_at(skip_ws(src, j), '=') {
                None
            } else {
                Some((Enumerator { annotation, name: n, val: None }, j))
            }
        },
    }
}

/// An enumerator with no `=` clause parses, with its value absent: a name `n`
/// followed by a `rest` that does not start with whitespace, a character of
/// a name or `=` gives an enumerator named `n` with no value, and
/// parsing resumes at `rest`.
pub proof fn lemma_enumerator_without_value(n: Seq<char>, rest: Seq<char>)
    requires
        ident_end(n, 0) == Some(n.len() as int),
        rest.len() > 0 ==> !in_class(CharClass::Space, rest[0]) && !in_class(
            CharClass::Word,
            rest[0],
        ) && rest[0] != '=',
    ensures
        ({
            let s = n + rest;
            enumerator_at(s, 0) == Some(
                (None::<(int, int)>, 0int, n.len() as int, None::<nat>, n.len() as int),
            ) && s.subrange(0, n.len() as int) == n
        }),
{
    let s = n + rest;
    let l = n.len() as int;
    assert(s.subrange(0, l) =~= n);
    assert(s[0] == n[0]);
    assert(!in_class(CharClass::Space, n[0]) && n[0] != '<');
    lemma_span_exact(s, 0, 0, CharClass::Space);
    if l < s.len() {
        assert(s[l] == rest[0]);
    }
    lemma_ident_shift(n, s, 0, 0);
    lemma_span_exact(s, l, l, CharClass::Space);
}

/// Parses an enumerator: optional annotation, name, optional `= <integer>`.
pub fn parse_enumerator<'a>(input: &'a str) -> (r: PResult<'a, Enumerator>)
    ensures
        match enumerator_at(input@, 0) {
            Some(m) => r matches Ok((rest, en)) && enumerator_is(input@, m, en) && rest@ == rest_at(
                input@,
                m.4,
            ),
            None => r is Err,
        },
{
    let src = Src::new(input);
    finish(&src, enumerator(&src, 0))
}

/// The enumerators that follow one another from `j`, each optionally
/// followed by a comma, and where they end.
pub open spec fn enumerators_from(s: Seq<char>, j: int) -> (
    Seq<(Option<(int, int)>, int, int, Option<nat>, int)>,
    int,
)
    decreases s.len() - j,
{
    match enumerator_at(s, j) {
        Some(m) => {
            let c = if char_at(s, ws_end(s, m.4), ',') {
                ws_end(s, m.4) + 1
            } else {
                m.4
            };
            if j < c <= s.len() {
                let (ms, e) = enumerators_from(s, c);
                (seq![m] + ms, e)
            } else {
                (Seq::empty(), j)
            }
        },
        None => (Seq::empty(), j),
    }
}

/// Whether the enumerators `v` are those of `ms` found in `s`, one for one.
pub open spec fn enumerators_are(
    s: Seq<char>,
    ms: Seq<(Option<(int, int)>, int, int, Option<nat>, int)>,
    v: Seq<Enumerator>,
) -> bool {
    &&& v.len() == ms.len()
    &&& forall|k: int| 0 <= k < v.len() ==> enumerator_is(s, #[trigger] ms[k], v[k])
}

/// One or more enumerators from `i`, each optionally followed by a comma.
fn enumerators(src: &Src, i: usize) -> (r: Option<(Vec<Enumerator>, usize)>)
    requires
        src.wf(),
        i <= src@.len(),
    ensures
        ({
            let (ms, e) = enumerators_from(src@, i as int);
            if ms.len() > 0 {
                r matches Some((v, e2)) && enumerators_are(src@, ms, v@) && e2 == e
            } else {
                r is None
            }
        }),
        r matches Some((v, e)) ==> i < e <= src@.len() && v.len() >= 1,
{
    let mut v: Vec<Enumerator> = Vec::new();
    let ghost done: Seq<(Option<(int, int)>, int, int, Option<nat>, int)> = Seq::empty();
    let mut j = i;
    loop
        invariant
            src.wf(),
            i <= j <= src@.len(),
            v.len() >= 1 ==> i < j,
            enumerators_are(src@, done, v@),
            enumerators_from(src@, i as int) == (
                done + enumerators_from(src@, j as int).0,
                enumerators_from(src@, j as int).1,
            ),
        ensures
            i <= j <= src@.len(),
            v.len() >= 1 ==> i < j,
            enumerators_are(src@, done, v@),
            enumerators_from(src@, i as int) == (done, j as int),
        decreases src@.len() - j,
    {
        match enumerator(src, j) {
            Some((en, e)) => {
                let ghost m = enumerator_at(src@, j as int)->0;
                let c = match punct(src, e, ',') {
                    Some(c) => c,
                    None => e,
                };
                let ghost rest = enumerators_from(src@, c as int).0;
                assert(done + (seq![m] + rest) =~= done.push(m) + rest);
                proof {
                    done = done.push(m);
                }
                v.push(en);
                j = c;
            },
            None => {
                assert(done + Seq::empty() =~= done);
                break;
            },
        }
    }
    if v.len() == 0 {
        None
    } else {
        Some((v, j))
    }
}

/// A closing brace after optional whitespace, and the whitespace after it.
pub open spec fn close_brace_at(s: Seq<char>, i: int) -> Option<int> {
    let b = ws_end(s, i);
    if char_at(s, b, '}') {
        Some(ws_end(s, b + 1))
    } else {
        None
    }
}

fn close_brace(src: &Src, i: usize) -> (r: Option<usize>)
    requires
        i <= src@.len(),
    ensures
        pos_of(r) == close_brace_at(src@, i as int),
        r matches Some(e) ==> i < e <= src@.len(),
{
    match punct(src, i, '}') {
        Some(e) => Some(skip_ws(src, e)),
        None => None,
    }
}

/// The start every type definition shares at `i`: optional annotation,
/// optional `public`, the keyword `kw`, the name. Gives the annotation's
/// span, whether it is public, the name's span, and the end.
pub open spec fn type_head_at(s: Seq<char>, i: int, kw: Seq<char>) -> Option<
    (Option<(int, int)>, bool, int, int, int),
> {
    let (ann, b) = opt_annotation_at(s, i);
    let (public, c) = match keyword_end(s, b, "public"@) {
        Some(e) => (true, ws_end(s, e)),
        None => (false, b),
    };
    match keyword_end(s, c, kw) {
        Some(k) => {
            let n0 = ws_end(s, k);
            match ident_end(s, n0) {
                Some(n1) => Some((ann, public, n0, n1, ws_end(s, n1))),
                None => None,
            }
        },
        None => None,
    }
}

/// Whether annotation `a`, public flag `p` and name `n` are what the head
/// `h` found in `s` holds.
pub open spec fn head_is(
    s: Seq<char>,
    h: (Option<(int, int)>, bool, int, int, int),
    a: Option<String>,
    p: bool,
    n: String,
) -> bool {
    &&& annotation_is(a, s, h.0)
    &&& p == h.1
    &&& n@ == s.subrange(h.2, h.3)
}

fn type_head(src: &Src, i: usize, kw: &str) -> (r: Option<(Option<String>, bool, String, usize)>)
    requires
        src.wf(),
        i <= src@.len(),
    ensures
        match type_head_at(src@, i as int, kw@) {
            Some(h) => r matches Some((a, p, n, e)) && head_is(src@, h, a, p, n) && e == h.4,
            None => r is None,
        },
        r matches Some((_, _, _, e)) ==> i < e <= src@.len(),
{
    let (annotation, j) = opt_annotation(src, skip_ws(src, i));
    let (public, j) = opt_keyword(src, j, "public");
    let j = match keyword(src, j, kw) {
        Some(k) => k,
        None => return None,
    };
    match name(src, j) {
        Some((n, e)) => Some((annotation, public, n, e)),
        None => None,
    }
}

/// A typedef at `i`: head, `is`, type reference, optional array marker. Gives
/// the head, the type name's span, whether it is an array, and the end.
pub open spec fn typedef_at(s: Seq<char>, i: int) -> Option<
    ((Option<(int, int)>, bool, int, int, int), int, int, bool, int),
> {
    match type_head_at(s, i, "typedef"@) {
        Some(h) => match keyword_end(s, h.4, "is"@) {
            Some(k) => {
                let t0 = ws_end(s, k);
                match fqn_end(s, t0) {
                    Some(t1) => {
                        let c = ws_end(s, t1);
                        match array_marker_at(s, c) {
                            Some(e) => Some((h, t0, t1, true, ws_end(s, e))),
                            None => Some((h, t0, t1, false, ws_end(s, c))),
                        }
                    },
                    None => None,
                }
            },
            None => None,
        },
        None => None,
    }
}

/// `typedef Name is Type` with an optional array marker.
fn typedef(src: &Src, i: usize) -> (r: Option<(Type, usize)>)
    requires
        src.wf(),
        i <= src@.len(),
    ensures
        match typedef_at(src@, i as int) {
            Some((h, t0, t1, arr, end)) => r matches Some(
                (Type::TypeDef { annotation, public, name, array, actual_type }, e),
            ) && head_is(src@, h, annotation, public, name) && refers_to(
                actual_type,
                src@.subrange(t0, t1),
            ) && array == arr && e == end,
            None => r is None,
        },
        r matches Some((_, e)) ==> i < e <= src@.len(),
{
    let (annotation, public, name, j) = match type_head(src, i, "typedef") {
        Some(h) => h,
        None => return None,
    };
    let j = match keyword(src, j, "is") {
        Some(k) => k,
        None => return None,
    };
    let (actual_type, j) = match type_ref_ws(src, j) {
        Some(p) => p,
        None => return None,
    };
    let (array, j) = array_marker(src, j);
    Some((Type::TypeDef { annotation, public, name, array, actual_type }, skip_ws(src, j)))
}

/// An array type at `i`: head, `of`, element type. Gives the head, the type
/// name's span, and the end.
pub open spec fn array_type_at(s: Seq<char>, i: int) -> Option<
    ((Option<(int, int)>, bool, int, int, int), int, int, int),
> {
    match type_head_at(s, i, "array"@) {
        Some(h) => match keyword_end(s, h.4, "of"@) {
            Some(k) => {
                let t0 = ws_end(s, k);
                match fqn_end(s, t0) {
                    Some(t1) => Some((h, t0, t1, ws_end(s, t1))),
                    None => None,
                }
            },
            None => None,
        },
        None => None,
    }
}

/// `array Name of Type`.
fn array_type(src: &Src, i: usize) -> (r: Option<(Type, usize)>)
    requires
        src.wf(),
        i <= src@.len(),
    ensures
        match array_type_at(src@, i as int) {
            Some((h, t0, t1, end)) => r matches Some(
                (Type::Array { annotation, public, name, element_type }, e),
            ) && head_is(src@, h, annotation, public, name) && refers_to(
                element_type,
                src@.subrange(t0, t1),
            ) && e == end,
            None => r is None,
        },
        r matches Some((_, e)) ==> i < e <= src@.len(),
{
    let (annotation, public, name, j) = match type_head(src, i, "array") {
        Some(h) => h,
        None => return None,
    };
    let j = match keyword(src, j, "of") {
        Some(k) => k,
        None => return None,
    };
    match type_ref_ws(src, j) {
        Some((element_type, e)) => Some((Type::Array { annotation, public, name, element_type }, e)),
        None => None,
    }
}

/// A struct at `i`: head, optional `extends <fqn>`, optional `polymorphic`,
/// then its fields in braces. Gives the head, the base's span, whether it is
/// polymorphic, the fields, and the end.
pub open spec fn struct_at(s: Seq<char>, i: int) -> Option<
    (
        (Option<(int, int)>, bool, int, int, int),
        Option<(int, int)>,
        bool,
        Seq<(Option<(int, int)>, int, int, bool, int, int, int)>,
        int,
    ),
> {
    match type_head_at(s, i, "struct"@) {
        Some(h) => {
            let (base, b) = extends_name_at(s, h.4);
            let (poly, c) = match keyword_end(s, b, "polymorphic"@) {
                Some(e) => (true, ws_end(s, e)),
                None => (false, b),
            };
            let a = ws_end(s, c);
            if char_at(s, a, '{') {
                let (ms, d) = members_from(s, a + 1);
                match close_brace_at(s, d) {
                    Some(e) => Some((h, base, poly, ms, e)),
                    None => None,
                }
            } else {
                None
            }
        },
        None => None,
    }
}

/// Whether `t` is the struct `m` found in `s`, ending at `e`.
pub open spec fn struct_is(
    s: Seq<char>,
    m: (
        (Option<(int, int)>, bool, int, int, int),
        Option<(int, int)>,
        bool,
        Seq<(Option<(int, int)>, int, int, bool, int, int, int)>,
        int,
    ),
    t: Type,
) -> bool {
    match t {
        Type::Struct { annotation, public, name, polymorphic, extends, fields } => {
            &&& head_is(s, m.0, annotation, public, name)
            &&& name_is(extends, s, m.1)
            &&& polymorphic == m.2
            &&& fields_are(s, m.3, fields@)
        },
        _ => false,
    }
}

/// `struct Name [extends Base] [polymorphic] { fields }`.
fn struct_type(src: &Src, i: usize) -> (r: Option<(Type, usize)>)
    requires
        src.wf(),
        i <= src@.len(),
    ensures
        match struct_at(src@, i as int) {
            Some(m) => r matches Some((t, e)) && struct_is(src@, m, t) && e == m.4,
            None => r is None,
        },
        r matches Some((_, e)) ==> i < e <= src@.len(),
{
    let (annotation, public, name, j) = match type_head(src, i, "struct") {
        Some(h) => h,
        None => return None,
    };
    let (extends, j) = opt_extends_name(src, j);
    let (polymorphic, j) = opt_keyword(src, j, "polymorphic");
    let j = match punct(src, j, '{') {
        Some(k) => k,
        None => return None,
    };
    let (fields, j) = fields(src, j);
    match close_brace(src, j) {
        Some(e) => Some(
            (Type::Struct { annotation, public, name, polymorphic, extends, fields }, e),
        ),
        None => None,
    }
}

/// A union at `i`: head, optional `extends <fqn>`, then its fields in braces.
/// Gives the head, the base's span, the fields, and the end.
pub open spec fn union_at(s: Seq<char>, i: int) -> Option<
    (
        (Option<(int, int)>, bool, int, int, int),
        Option<(int, int)>,
        Seq<(Option<(int, int)>, int, int, bool, int, int, int)>,
        int,
    ),
> {
    match type_head_at(s, i, "union"@) {
        Some(h) => {
            let (base, b) = extends_name_at(s, h.4);
            let a = ws_end(s, b);
            if char_at(s, a, '{') {
                let (ms, d) = members_from(s, a + 1);
                match close_brace_at(s, d) {
                    Some(e) => Some((h, base, ms, e)),
                    None => None,
                }
            } else {
                None
            }
        },
        None => None,
    }
}

/// Whether `t` is the union `m` found in `s`.
pub open spec fn union_is(
    s: Seq<char>,
    m: (
        (Option<(int, int)>, bool, int, int, int),
        Option<(int, int)>,
        Seq<(Option<(int, int)>, int, int, bool, int, int, int)>,
        int,
    ),
    t: Type,
) -> bool {
    match t {
        Type::Union { annotation, public, name, base_type, fields } => {
            &&& head_is(s, m.0, annotation, public, name)
            &&& name_is(base_type, s, m.1)
            &&& fields_are(s, m.2, fields@)
        },
        _ => false,
    }
}

/// `union Name [extends Base] { fields }`.
fn union_type(src: &Src, i: usize) -> (r: Option<(Type, usize)>)
    requires
        src.wf(),
        i <= src@.len(),
    ensures
        match union_at(src@, i as int) {
            Some(m) => r matches Some((t, e)) && union_is(src@, m, t) && e == m.3,
            None => r is None,
        },
        r matches Some((_, e)) ==> i < e <= src@.len(),
{
    let (annotation, public, name, j) = match type_head(src, i, "union") {
        Some(h) => h,
        None => return None,
    };
    let (base_type, j) = opt_extends_name(src, j);
    let j = match punct(src, j, '{') {
        Some(k) => k,
        None => return None,
    };
    let (fields, j) = fields(src, j);
    match close_brace(src, j) {
        Some(e) => Some((Type::Union { annotation, public, name, base_type, fields }, e)),
        None => None,
    }
}

/// A map type at `i`: head, `{`, key type, `to`, value type, `}`. Gives the
/// head, the spans of the two type names, and the end.
pub open spec fn map_type_at(s: Seq<char>, i: int) -> Option<
    ((Option<(int, int)>, bool, int, int, int), int, int, int, int, int),
> {
    match type_head_at(s, i, "map"@) {
        Some(h) => {
            let a = ws_end(s, h.4);
            if char_at(s, a, '{') {
                let k0 = ws_end(s, a + 1);
                match fqn_end(s, k0) {
                    Some(k1) => match keyword_end(s, ws_end(s, k1), "to"@) {
                        Some(t) => {
                            let v0 = ws_end(s, t);
                            match fqn_end(s, v0) {
                                Some(v1) => match close_brace_at(s, ws_end(s, v1)) {
                                    Some(e) => Some((h, k0, k1, v0, v1, e)),
                                    None => None,
                                },
                                None => None,
                            }
                        },
                        None => None,
                    },
                    None => None,
                }
            } else {
                None
            }
        },
        None => None,
    }
}

/// `map Name { KeyType to ValueType }`.
fn map_type(src: &Src, i: usize) -> (r: Option<(Type, usize)>)
    requires
        src.wf(),
        i <= src@.len(),
    ensures
        match map_type_at(src@, i as int) {
            Some((h, k0, k1, v0, v1, end)) => r matches Some(
                (Type::Mapping { annotation, public, name, key_type, value_type }, e),
            ) && head_is(src@, h, annotation, public, name) && refers_to(
                key_type,
                src@.subrange(k0, k1),
            ) && refers_to(value_type, src@.subrange(v0, v1)) && e == end,
            None => r is None,
        },
        r matches Some((_, e)) ==> i < e <= src@.len(),
{
    let (annotation, public, name, j) = match type_head(src, i, "map") {
        Some(h) => h,
        None => return None,
    };
    let j = match punct(src, j, '{') {
        Some(k) => k,
        None => return None,
    };
    let (key_type, j) = match type_ref_ws(src, j) {
        Some(p) => p,
        None => return None,
    };
    let j = match keyword(src, j, "to") {
        Some(k) => k,
        None => return None,
    };
    let (value_type, j) = match type_ref_ws(src, j) {
        Some(p) => p,
        None => return None,
    };
    match close_brace(src, j) {
        Some(e) => Some((Type::Mapping { annotation, public, name, key_type, value_type }, e)),
        None => None,
    }
}

/// An enumeration at `i`: head, optional `extends <type>`, then one or more
/// enumerators in braces. Gives the head, the base type's span, the
/// enumerators, and the end.
pub open spec fn enumeration_at(s: Seq<char>, i: int) -> Option<
    (
        (Option<(int, int)>, bool, int, int, int),
        Option<(int, int)>,
        Seq<(Option<(int, int)>, int, int, Option<nat>, int)>,
        int,
    ),
> {
    match type_head_at(s, i, "enumeration"@) {
        Some(h) => {
            let (base, b) = extends_type_at(s, h.4);
            let a = ws_end(s, b);
            if char_at(s, a, '{') {
                let (ms, d) = enumerators_from(s, a + 1);
                if ms.len() > 0 {
                    match close_brace_at(s, d) {
                        Some(e) => Some((h, base, ms, e)),
                        None => None,
                    }
                } else {
                    None
                }
            } else {
                None
            }
        },
        None => None,
    }
}

/// Whether `t` is the enumeration `m` found in `s`.
pub open spec fn enumeration_is(
    s: Seq<char>,
    m: (
        (Option<(int, int)>, bool, int, int, int),
        Option<(int, int)>,
        Seq<(Option<(int, int)>, int, int, Option<nat>, int)>,
        int,
    ),
    t: Type,
) -> bool {
    match t {
        Type::Enumeration { annotation, name, public, base_type, enumerators } => {
            &&& head_is(s, m.0, annotation, public, name)
            &&& type_is(base_type, s, m.1)
            &&& enumerators_are(s, m.2, enumerators@)
        },
        _ => false,
    }
}

/// `enumeration Name [extends Base] { enumerators }`.
fn enumeration(src: &Src, i: usize) -> (r: Option<(Type, usize)>)
    requires
        src.wf(),
        i <= src@.len(),
    ensures
        match enumeration_at(src@, i as int) {
            Some(m) => r matches Some((t, e)) && enumeration_is(src@, m, t) && e == m.3,
            None => r is None,
        },
        r matches Some((_, e)) ==> i < e <= src@.len(),
{
    let (annotation, public, name, j) = match type_head(src, i, "enumeration") {
        Some(h) => h,
        None => return None,
    };
    let (base_type, j) = opt_extends_type(src, j);
    let j = match punct(src, j, '{') {
        Some(k) => k,
        None => return None,
    };
    let (enumerators, j) = match enumerators(src, j) {
        Some(p) => p,
        None => return None,
    };
    match close_brace(src, j) {
        Some(e) => Some((Type::Enumeration { annotation, name, public, base_type, enumerators }, e)),
        None => None,
    }
}

/// Whether `t`, ending at `e`, is the type definition found at `i` in `s`:
/// the first of typedef, array, struct, union, map and enumeration that
/// matches there.
pub open spec fn type_found(s: Seq<char>, i: int, t: Type, e: int) -> bool {
    match typedef_at(s, i) {
        Some((h, t0, t1, arr, end)) => t matches Type::TypeDef {
            annotation,
            public,
            name,
            array,
            actual_type,
        } && head_is(s, h, annotation, public, name) && refers_to(
            actual_type,
            s.subrange(t0, t1),
        ) && array == arr && e == end,
        None => match array_type_at(s, i) {
            Some((h, t0, t1, end)) => t matches Type::Array {
                annotation,
                public,
                name,
                element_type,
            } && head_is(s, h, annotation, public, name) && refers_to(
                element_type,
                s.subrange(t0, t1),
            ) && e == end,
            None => match struct_at(s, i) {
                Some(m) => struct_is(s, m, t) && e == m.4,
                None => match union_at(s, i) {
                    Some(m) => union_is(s, m, t) && e == m.3,
                    None => match map_type_at(s, i) {
                        Some((h, k0, k1, v0, v1, end)) => t matches Type::Mapping {
                            annotation,
                            public,
                            name,
                            key_type,
                            value_type,
                        } && head_is(s, h, annotation, public, name) && refers_to(
                            key_type,
                            s.subrange(k0, k1),
                        ) && refers_to(value_type, s.subrange(v0, v1)) && e == end,
                        None => match enumeration_at(s, i) {
                            Some(m) => enumeration_is(s, m, t) && e == m.3,
                            None => false,
                        },
                    },
                },
            },
        },
    }
}

/// Where the type definition found at `i` in `s` ends.
pub open spec fn type_end(s: Seq<char>, i: int) -> Option<int> {
    match typedef_at(s, i) {
        Some(m) => Some(m.4),
        None => match array_type_at(s, i) {
            Some(m) => Some(m.3),
            None => match struct_at(s, i) {
                Some(m) => Some(m.4),
                None => match union_at(s, i) {
                    Some(m) => Some(m.3),
                    None => match map_type_at(s, i) {
                        Some(m) => Some(m.5),
                        None => match enumeration_at(s, i) {
                            Some(m) => Some(m.3),
                            None => None,
                        },
                    },
                },
            },
        },
    }
}

/// Whether no type definition starts at `i` in `s`.
pub open spec fn no_type_at(s: Seq<char>, i: int) -> bool {
    &&& typedef_at(s, i) is None
    &&& array_type_at(s, i) is None
    &&& struct_at(s, i) is None
    &&& union_at(s, i) is None
    &&& map_type_at(s, i) is None
    &&& enumeration_at(s, i) is None
}

/// A type definition: typedef, array, struct, union, map or enumeration,
/// tried in that order.
fn type_def(src: &Src, i: usize) -> (r: Option<(Type, usize)>)
    requires
        src.wf(),
        i <= src@.len(),
    ensures
        r matches Some((t, e)) ==> type_found(src@, i as int, t, e as int) && type_end(
            src@,
            i as int,
        ) == Some(e as int),
        r is None <==> no_type_at(src@, i as int),
        r is None <==> type_end(src@, i as int) is None,
        r matches Some((_, e)) ==> i < e <= src@.len(),
{
    if let Some(p) = typedef(src, i) {
        return Some(p);
    }
    if let Some(p) = array_type(src, i) {
        return Some(p);
    }
    if let Some(p) = struct_type(src, i) {
        return Some(p);
    }
    if let Some(p) = union_type(src, i) {
        return Some(p);
    }
    if let Some(p) = map_type(src, i) {
        return Some(p);
    }
    enumeration(src, i)
}

/// Parses a `typedef` definition.
pub fn parse_typedef<'a>(input: &'a str) -> (r: PResult<'a, Type>)
    ensures
        match typedef_at(input@, 0) {
            Some((h, t0, t1, arr, end)) => r matches Ok(
                (rest, Type::TypeDef { annotation, public, name, array, actual_type }),
            ) && head_is(input@, h, annotation, public, name) && refers_to(
                actual_type,
                input@.subrange(t0, t1),
            ) && array == arr && rest@ == rest_at(input@, end),
            None => r is Err,
        },
{
    let src = Src::new(input);
    finish(&src, typedef(&src, 0))
}

/// Parses an `array` definition.
pub fn parse_array_type<'a>(input: &'a str) -> (r: PResult<'a, Type>)
    ensures
        match array_type_at(input@, 0) {
            Some((h, t0, t1, end)) => r matches Ok(
                (rest, Type::Array { annotation, public, name, element_type }),
            ) && head_is(input@, h, annotation, public, name) && refers_to(
                element_type,
                input@.subrange(t0, t1),
            ) && rest@ == rest_at(input@, end),
            None => r is Err,
        },
{
    let src = Src::new(input);
    finish(&src, array_type(&src, 0))
}

/// Parses a `struct` definition.
pub fn parse_struct_type<'a>(input: &'a str) -> (r: PResult<'a, Type>)
    ensures
        match struct_at(input@, 0) {
            Some(m) => r matches Ok((rest, t)) && struct_is(input@, m, t) && rest@ == rest_at(
                input@,
                m.4,
            ),
            None => r is Err,
        },
{
    let src = Src::new(input);
    finish(&src, struct_type(&src, 0))
}

/// Parses a `union` definition.
pub fn parse_union_type<'a>(input: &'a str) -> (r: PResult<'a, Type>)
    ensures
        match union_at(input@, 0) {
            Some(m) => r matches Ok((rest, t)) && union_is(input@, m, t) && rest@ == rest_at(
                input@,
                m.3,
            ),
            None => r is Err,
        },
{
    let src = Src::new(input);
    finish(&src, union_type(&src, 0))
}

/// Parses a `map` definition.
pub fn parse_map_type<'a>(input: &'a str) -> (r: PResult<'a, Type>)
    ensures
        match map_type_at(input@, 0) {
            Some((h, k0, k1, v0, v1, end)) => r matches Ok(
                (rest, Type::Mapping { annotation, public, name, key_type, value_type }),
            ) && head_is(input@, h, annotation, public, name) && refers_to(
                key_type,
                input@.subrange(k0, k1),
            ) && refers_to(value_type, input@.subrange(v0, v1)) && rest@ == rest_at(input@, end),
            None => r is Err,
        },
{
    let src = Src::new(input);
    finish(&src, map_type(&src, 0))
}

/// Parses an `enumeration` definition.
pub fn parse_enumeration<'a>(input: &'a str) -> (r: PResult<'a, Type>)
    ensures
        match enumeration_at(input@, 0) {
            Some(m) => r matches Ok((rest, t)) && enumeration_is(input@, m, t) && rest@ == rest_at(
                input@,
                m.3,
            ),
            None => r is Err,
        },
{
    let src = Src::new(input);
    finish(&src, enumeration(&src, 0))
}

/// Parses any type definition.
pub fn parse_type<'a>(input: &'a str) -> (r: PResult<'a, Type>)
    ensures
        r matches Ok((rest, t)) ==> type_found(input@, 0, t, input@.len() - rest@.len())
            && suffix_of(rest@, input@),
        r is Err <==> no_type_at(input@, 0),
{
    let src = Src::new(input);
    finish(&src, type_def(&src, 0))
}

// ------------------------------------------------------------- interface

/// An item of an interface body.
#[derive(Clone, PartialEq, Eq, Debug)]
pub enum InterfaceContent {
    Attribute(Attribute),
    Method(Method),
    Broadcast(Broadcast),
    Type(Type),
}

/// A declaration at the top level of a module.
#[derive(Clone, PartialEq, Eq, Debug)]
pub enum ModuleContent {
    Interface(Interface),
    TypeCollection(TypeCollection),
}

/// The modifier keyword of an attribute at `j` (0 for `readonly`, 1 for
/// `noRead`, 2 for `noSubscription`), and the position after it and the
/// whitespace that follows.
pub open spec fn modifier_at(s: Seq<char>, j: int) -> Option<(int, int)> {
    match keyword_end(s, j, "readonly"@) {
        Some(e) => Some((0, ws_end(s, e))),
        None => match keyword_end(s, j, "noRead"@) {
            Some(e) => Some((1, ws_end(s, e))),
            None => match keyword_end(s, j, "noSubscription"@) {
                Some(e) => Some((2, ws_end(s, e))),
                None => None,
            },
        },
    }
}

/// The flags (read-only, no-read, no-subscription) after the modifier
/// keywords from `j`, each keyword setting its own flag, starting from the
/// given flags; and the position where the keywords end.
pub open spec fn modifiers_from(s: Seq<char>, j: int, ro: bool, nr: bool, ns: bool) -> (
    bool,
    bool,
    bool,
    int,
)
    decreases s.len() - j,
{
    match modifier_at(s, j) {
        Some((m, n)) => if j < n <= s.len() {
            modifiers_from(s, n, ro || m == 0, nr || m == 1, ns || m == 2)
        } else {
            (ro, nr, ns, j)
        },
        None => (ro, nr, ns, j),
    }
}

fn modifier(src: &Src, j: usize) -> (r: Option<(u8, usize)>)
    requires
        j <= src@.len(),
    ensures
        match modifier_at(src@, j as int) {
            Some((m, n)) => r matches Some((m2, n2)) && m2 == m && n2 == n,
            None => r is None,
        },
        r matches Some((_, n)) ==> n <= src@.len(),
{
    if let Some(e) = keyword(src, j, "readonly") {
        return Some((0, skip_ws(src, e)));
    }
    if let Some(e) = keyword(src, j, "noRead") {
        return Some((1, skip_ws(src, e)));
    }
    if let Some(e) = keyword(src, j, "noSubscription") {
        return Some((2, skip_ws(src, e)));
    }
    None
}

/// The modifier keywords of an attribute from `i`, in any order and number.
fn modifiers(src: &Src, i: usize) -> (r: (bool, bool, bool, usize))
    requires
        i <= src@.len(),
    ensures
        modifiers_from(src@, i as int, false, false, false) == (r.0, r.1, r.2, r.3 as int),
        i <= r.3 <= src@.len(),
{
    let mut ro = false;
    let mut nr = false;
    let mut ns = false;
    let mut j = i;
    loop
        invariant
            i <= j <= src@.len(),
            modifiers_from(src@, j as int, ro, nr, ns) == modifiers_from(
                src@,
                i as int,
                false,
                false,
                false,
            ),
        ensures
            i <= j <= src@.len(),
            modifiers_from(src@, i as int, false, false, false) == (ro, nr, ns, j as int),
        decreases src@.len() - j,
    {
        match modifier(src, j) {
            Some((m, n)) => {
                if n <= j {
                    break;
                }
                ro = ro || m == 0;
                nr = nr || m == 1;
                ns = ns || m == 2;
                j = n;
            },
            None => break,
        }
    }
    (ro, nr, ns, j)
}

/// An attribute at `i`: optional annotation, `attribute`, type reference,
/// optional array marker, name, modifier keywords. Gives the annotation's
/// span, the type name's span, whether it is an array, the name's span, and
/// the flags and end after the modifiers.
pub open spec fn attribute_at(s: Seq<char>, i: int) -> Option<
    (Option<(int, int)>, int, int, bool, int, int, (bool, bool, bool, int)),
> {
    let (ann, b) = opt_annotation_at(s, i);
    match keyword_end(s, b, "attribute"@) {
        Some(k) => {
            let t0 = ws_end(s, k);
            match fqn_end(s, t0) {
                Some(t1) => {
                    let c = ws_end(s, t1);
                    let (arr, d) = match array_marker_at(s, c) {
                        Some(e) => (true, e),
                        None => (false, c),
                    };
                    let n0 = ws_end(s, d);
                    match ident_end(s, n0) {
                        Some(n1) => Some(
                            (
                                ann,
                                t0,
                                t1,
                                arr,
                                n0,
                                n1,
                                modifiers_from(s, ws_end(s, n1), false, false, false),
                            ),
                        ),
                        None => None,
                    }
                },
                None => None,
            }
        },
        None => None,
    }
}

/// Whether `a` is the attribute `m` found in `s`, and `e` its end.
pub open spec fn attribute_is(
    s: Seq<char>,
    m: (Option<(int, int)>, int, int, bool, int, int, (bool, bool, bool, int)),
    a: Attribute,
    e: int,
) -> bool {
    &&& annotation_is(a.annotation, s, m.0)
    &&& refers_to(a.type_ref, s.subrange(m.1, m.2))
    &&& a.array == m.3
    &&& a.name@ == s.subrange(m.4, m.5)
    &&& (a.read_only, a.no_read, a.no_subscription, e) == m.6
}

/// `attribute Type [[]] name` and its modifier keywords.
fn attribute(src: &Src, i: usize) -> (r: Option<(Attribute, usize)>)
    requires
        src.wf(),
        i <= src@.len(),
    ensures
        match attribute_at(src@, i as int) {
            Some(m) => r matches Some((a, e)) && attribute_is(src@, m, a, e as int),
            None => r is None,
        },
        r matches Some((_, e)) ==> i < e <= src@.len(),
{
    let (annotation, j) = opt_annotation(src, skip_ws(src, i));
    let j = match keyword(src, j, "attribute") {
        Some(k) => k,
        None => return None,
    };
    let (type_ref, j) = match type_ref_ws(src, j) {
        Some(p) => p,
        None => return None,
    };
    let (array, j) = array_marker(src, j);
    let (name, j) = match name(src, j) {
        Some(p) => p,
        None => return None,
    };
    let (read_only, no_read, no_subscription, e) = modifiers(src, j);
    Some((Attribute { annotation, name, array, read_only, no_subscription, no_read, type_ref }, e))
}

/// The keyword of modifier `m`.
pub open spec fn modifier_word(m: int) -> Seq<char> {
    if m == 0 {
        "readonly"@
    } else if m == 1 {
        "noRead"@
    } else {
        "noSubscription"@
    }
}

/// The modifier keywords `ms`, each followed by one space.
pub open spec fn modifier_text(ms: Seq<int>) -> Seq<char>
    decreases ms.len(),
{
    if ms.len() == 0 {
        Seq::empty()
    } else {
        modifier_word(ms[0]) + seq![' '] + modifier_text(ms.skip(1))
    }
}

proof fn lemma_modifier_word(m: int)
    requires
        0 <= m <= 2,
    ensures
        modifier_word(m).len() > 0,
        forall|i: int| 0 <= i < modifier_word(m).len() ==> is_letter(#[trigger] modifier_word(m)[i]),
        (modifier_word(m) == "readonly"@) == (m == 0),
        (modifier_word(m) == "noRead"@) == (m == 1),
        (modifier_word(m) == "noSubscription"@) == (m == 2),
{
    reveal_strlit("readonly");
    reveal_strlit("noRead");
    reveal_strlit("noSubscription");
    assert("readonly"@.len() == 8);
    assert("noRead"@.len() == 6);
    assert("noSubscription"@.len() == 14);
}

proof fn lemma_modifiers_text(
    s: Seq<char>,
    p: int,
    ms: Seq<int>,
    ro: bool,
    nr: bool,
    ns: bool,
)
    requires
        forall|k: int| 0 <= k < ms.len() ==> 0 <= #[trigger] ms[k] <= 2,
        0 <= p,
        p + modifier_text(ms).len() <= s.len(),
        s.subrange(p, p + modifier_text(ms).len()) == modifier_text(ms),
        p + modifier_text(ms).len() < s.len() ==> !is_letter(s[p + modifier_text(ms).len()])
            && !in_class(CharClass::Space, s[p + modifier_text(ms).len()]),
    ensures
        modifiers_from(s, p, ro, nr, ns) == (
            ro || ms.contains(0),
            nr || ms.contains(1),
            ns || ms.contains(2),
            p + modifier_text(ms).len(),
        ),
    decreases ms.len(),
{
    let t = modifier_text(ms);
    if ms.len() == 0 {
        lemma_span_exact(s, p, p, CharClass::Space);
        lemma_span_exact(s, p, p, CharClass::Letter);
        reveal_strlit("readonly");
        reveal_strlit("noRead");
        reveal_strlit("noSubscription");
        assert(s.subrange(p, p).len() == 0);
        assert(!ms.contains(0) && !ms.contains(1) && !ms.contains(2));
    } else {
        let m = ms[0];
        let w = modifier_word(m);
        let l = w.len() as int;
        let rest = ms.skip(1);
        let tr = modifier_text(rest);
        lemma_modifier_word(m);
        assert(t == w + seq![' '] + tr);
        assert forall|i: int| 0 <= i < l implies s[p + i] == w[i] by {
            assert(s.subrange(p, p + t.len())[i] == t[i]);
        }
        assert(s[p + l] == ' ') by {
            assert(s.subrange(p, p + t.len())[l] == t[l]);
        }
        assert(s.subrange(p + l + 1, p + l + 1 + tr.len()) =~= tr) by {
            assert forall|i: int| 0 <= i < tr.len() implies s[p + l + 1 + i] == tr[i] by {
                assert(s.subrange(p, p + t.len())[l + 1 + i] == t[l + 1 + i]);
            }
        }
        // the keyword: no leading whitespace, then exactly the word's letters
        assert(s[p] == w[0] && is_letter(w[0]));
        lemma_span_exact(s, p, p, CharClass::Space);
        assert forall|j: int| p <= j < p + l implies in_class(CharClass::Letter, #[trigger] s[j]) by {
            assert(s[j] == w[j - p]);
        }
        lemma_span_exact(s, p, p + l, CharClass::Letter);
        assert(s.subrange(p, p + l) =~= w);
        // the one space after it
        if tr.len() > 0 {
            lemma_modifier_word(rest[0]);
            assert(tr[0] == modifier_word(rest[0])[0]);
            assert(s[p + l + 1] == tr[0]);
        }
        lemma_span_exact(s, p + l + 1, p + l + 1, CharClass::Space);
        lemma_span_exact(s, p + l, p + l + 1, CharClass::Space);
        assert(modifier_at(s, p) == Some((m, p + l + 1)));
        lemma_modifiers_text(s, p + l + 1, rest, ro || m == 0, nr || m == 1, ns || m == 2);
        assert(ms =~= seq![m] + rest);
        assert(ms.contains(0) == (m == 0 || rest.contains(0))) by {
            if rest.contains(0) {
                let k = choose|k: int| 0 <= k < rest.len() && rest[k] == 0;
                assert(ms[k + 1] == 0);
            }
            if ms.contains(0) && m != 0 {
                let k = choose|k: int| 0 <= k < ms.len() && ms[k] == 0;
                assert(rest[k - 1] == 0);
            }
        }
        assert(ms.contains(1) == (m == 1 || rest.contains(1))) by {
            if rest.contains(1) {
                let k = choose|k: int| 0 <= k < rest.len() && rest[k] == 1;
                assert(ms[k + 1] == 1);
            }
            if ms.contains(1) && m != 1 {
                let k = choose|k: int| 0 <= k < ms.len() && ms[k] == 1;
                assert(rest[k - 1] == 1);
            }
        }
        assert(ms.contains(2) == (m == 2 || rest.contains(2))) by {
            if rest.contains(2) {
                let k = choose|k: int| 0 <= k < rest.len() && rest[k] == 2;
                assert(ms[k + 1] == 2);
            }
            if ms.contains(2) && m != 2 {
                let k = choose|k: int| 0 <= k < ms.len() && ms[k] == 2;
                assert(rest[k - 1] == 2);
            }
        }
    }
}

/// The modifiers of an attribute are independent: after any sequence `ms` of
/// the keywords `readonly` (0), `noRead` (1) and `noSubscription` (2), in any
/// order and with repeats, each flag is set exactly where its keyword occurs,
/// and the keywords are all consumed. `rest` is what follows; it must not
/// start with a letter or whitespace, which would run on from the last word.
pub proof fn lemma_modifiers_independent(ms: Seq<int>, rest: Seq<char>)
    requires
        forall|k: int| 0 <= k < ms.len() ==> 0 <= #[trigger] ms[k] <= 2,
        rest.len() > 0 ==> !is_letter(rest[0]) && !in_class(CharClass::Space, rest[0]),
    ensures
        modifiers_from(modifier_text(ms) + rest, 0, false, false, false) == (
            ms.contains(0),
            ms.contains(1),
            ms.contains(2),
            modifier_text(ms).len() as int,
        ),
{
    let s = modifier_text(ms) + rest;
    assert(s.subrange(0, modifier_text(ms).len() as int) =~= modifier_text(ms));
    lemma_modifiers_text(s, 0, ms, false, false, false);
}

proof fn lemma_attribute_head(t: Seq<char>, n: Seq<char>, tail: Seq<char>)
    requires
        fqn_end(t, 0) == Some(t.len() as int),
        ident_end(n, 0) == Some(n.len() as int),
        tail.len() > 0 ==> !in_class(CharClass::Space, tail[0]),
    ensures
        ({
            let s = "attribute"@ + seq![' '] + t + seq![' '] + n + seq![' '] + tail;
            &&& attribute_at(s, 0) is Some
            &&& (attribute_at(s, 0)->0).6 == modifiers_from(
                s,
                t.len() + n.len() + 12int,
                false,
                false,
                false,
            )
        }),
{
    reveal_strlit("attribute");
    let s = "attribute"@ + seq![' '] + t + seq![' '] + n + seq![' '] + tail;
    let t0 = 10int;
    let t1 = t0 + t.len();
    let n0 = t1 + 1;
    let n1 = n0 + n.len();
    let p = n1 + 1;
    assert(s[0] == 'a');
    lemma_span_exact(s, 0, 0, CharClass::Space);
    assert forall|j: int| 0 <= j < 9 implies in_class(CharClass::Letter, #[trigger] s[j]) by {
        assert(s[j] == "attribute"@[j]);
    }
    assert(s[9] == ' ');
    lemma_span_exact(s, 0, 9, CharClass::Letter);
    assert(s.subrange(0, 9) =~= "attribute"@);
    assert(s.subrange(t0, t1) =~= t);
    assert(s[t1] == ' ');
    lemma_fqn_shift(t, s, t0);
    assert(s[t0] == t[0]);
    lemma_span_exact(s, 9, t0, CharClass::Space);
    assert(s.subrange(n0, n1) =~= n);
    assert(s[n0] == n[0]);
    assert(!in_class(CharClass::Space, n[0]) && n[0] != '[');
    lemma_span_exact(s, t1, n0, CharClass::Space);
    lemma_span_exact(s, n0, n0, CharClass::Space);
    assert(s[n1] == ' ');
    lemma_ident_shift(n, s, n0, 0);
    if p < s.len() {
        assert(s[p] == tail[0]);
    }
    lemma_span_exact(s, n1, p, CharClass::Space);
}

/// The modifiers of an attribute declaration are independent:
/// `attribute T N` followed by any sequence `ms` of the keywords `readonly`
/// (0), `noRead` (1) and `noSubscription` (2), in any order and with
/// repeats, each followed by a space, parses as an attribute whose flags are
/// set exactly where their keyword occurs, and ends before `rest`. `T` is a
/// fully qualified name, `N` a name, and `rest` must not start with a letter
/// or whitespace, which would run on from the declaration.
#[verifier::rlimit(60)]
pub proof fn lemma_attribute_modifiers(t: Seq<char>, n: Seq<char>, ms: Seq<int>, rest: Seq<char>)
    requires
        fqn_end(t, 0) == Some(t.len() as int),
        ident_end(n, 0) == Some(n.len() as int),
        forall|k: int| 0 <= k < ms.len() ==> 0 <= #[trigger] ms[k] <= 2,
        rest.len() > 0 ==> !is_letter(rest[0]) && !in_class(CharClass::Space, rest[0]),
    ensures
        ({
            let s = "attribute"@ + seq![' '] + t + seq![' '] + n + seq![' '] + modifier_text(ms)
                + rest;
            &&& attribute_at(s, 0) is Some
            &&& (attribute_at(s, 0)->0).6 == (
                ms.contains(0),
                ms.contains(1),
                ms.contains(2),
                s.len() - rest.len(),
            )
        }),
{
    let mt = modifier_text(ms);
    let head = "attribute"@ + seq![' '] + t + seq![' '] + n + seq![' '];
    let tail = mt + rest;
    let s = head + mt + rest;
    let p = t.len() + n.len() + 12int;
    assert(head.len() == p) by {
        reveal_strlit("attribute");
    }
    assert(s =~= head + tail);
    assert(tail.len() > 0 ==> !in_class(CharClass::Space, tail[0])) by {
        if tail.len() > 0 {
            if mt.len() > 0 {
                lemma_modifier_word(ms[0]);
                assert(mt[0] == modifier_word(ms[0])[0]);
                assert(tail[0] == mt[0]);
            } else {
                assert(tail[0] == rest[0]);
            }
        }
    }
    lemma_attribute_head(t, n, tail);
    assert(modifiers_from(s, p, false, false, false) == (
        ms.contains(0),
        ms.contains(1),
        ms.contains(2),
        p + mt.len(),
    )) by {
        assert(s.subrange(p, p + mt.len()) =~= mt);
        if p + mt.len() < s.len() {
            assert(s[p + mt.len()] == rest[0]);
        }
        lemma_modifiers_text(s, p, ms, false, false, false);
    }
}

/// Parses an attribute declaration with its modifiers `readonly`, `noRead`
/// and `noSubscription`.
pub fn parse_attribute<'a>(input: &'a str) -> (r: PResult<'a, InterfaceContent>)
    ensures
        match attribute_at(input@, 0) {
            Some(m) => r matches Ok((rest, InterfaceContent::Attribute(a))) && attribute_is(
                input@,
                m,
                a,
                input@.len() - rest@.len(),
            ) && rest@ == rest_at(input@, (m.6).3),
            None => r is Err,
        },
{
    let src = Src::new(input);
    match attribute(&src, 0) {
        Some((a, e)) => Ok((src.rest(e), InterfaceContent::Attribute(a))),
        None => Err(Mismatch),
    }
}

/// An optional `: selector` at `i`: the selector's span and the position
/// after it, or nothing and `i` itself.
pub open spec fn selector_at(s: Seq<char>, i: int) -> (Option<(int, int)>, int) {
    let a = ws_end(s, i);
    if char_at(s, a, ':') {
        let n0 = ws_end(s, a + 1);
        match ident_end(s, n0) {
            Some(n1) => (Some((n0, n1)), ws_end(s, n1)),
            None => (None, i),
        }
    } else {
        (None, i)
    }
}

fn opt_selector(src: &Src, i: usize) -> (r: (Option<String>, usize))
    requires
        src.wf(),
        i <= src@.len(),
    ensures
        name_is(r.0, src@, selector_at(src@, i as int).0),
        r.1 == selector_at(src@, i as int).1,
        i <= r.1 <= src@.len(),
{
    match punct(src, i, ':') {
        Some(c) => match name(src, c) {
            Some((n, e)) => (Some(n), e),
            None => (None, i),
        },
        None => (None, i),
    }
}

/// An optional block `kw { arguments }` at `i`: its arguments and the
/// position after it, or none and `i` itself.
pub open spec fn arg_block_at(s: Seq<char>, i: int, kw: Seq<char>) -> (
    Seq<(Option<(int, int)>, int, int, bool, int, int, int)>,
    int,
) {
    match keyword_end(s, i, kw) {
        Some(k) => {
            let a = ws_end(s, k);
            if char_at(s, a, '{') {
                let (ms, d) = members_from(s, a + 1);
                match close_brace_at(s, d) {
                    Some(e) => (ms, e),
                    None => (Seq::empty(), i),
                }
            } else {
                (Seq::empty(), i)
            }
        },
        None => (Seq::empty(), i),
    }
}

fn opt_arg_block(src: &Src, i: usize, kw: &str) -> (r: (Vec<Argument>, usize))
    requires
        src.wf(),
        i <= src@.len(),
    ensures
        arguments_are(src@, arg_block_at(src@, i as int, kw@).0, r.0@),
        r.1 == arg_block_at(src@, i as int, kw@).1,
        i <= r.1 <= src@.len(),
{
    let j = match keyword(src, i, kw) {
        Some(k) => k,
        None => return (Vec::new(), i),
    };
    let j = match punct(src, j, '{') {
        Some(k) => k,
        None => return (Vec::new(), i),
    };
    let (args, j) = arguments(src, j);
    match close_brace(src, j) {
        Some(e) => (args, e),
        None => (Vec::new(), i),
    }
}

/// `error <fqn>` at `i`: the annotation's span, the name's span and the end.
/// The bare word `extends` opens an inline enumeration instead and is no
/// reference.
pub open spec fn error_ref_at(s: Seq<char>, i: int) -> Option<(Option<(int, int)>, int, int, int)> {
    let (ann, b) = opt_annotation_at(s, i);
    match keyword_end(s, b, "error"@) {
        Some(k) => {
            let a = ws_end(s, k);
            match fqn_end(s, a) {
                Some(f) => if s.subrange(a, f) == "extends"@ {
                    None
                } else {
                    Some((ann, a, f, ws_end(s, f)))
                },
                None => None,
            }
        },
        None => None,
    }
}

/// `error [extends Type] { enumerators }` at `i`: the annotation's span, the
/// base type's span, the enumerators and the end.
pub open spec fn error_body_at(s: Seq<char>, i: int) -> Option<
    (Option<(int, int)>, Option<(int, int)>, Seq<(Option<(int, int)>, int, int, Option<nat>, int)>, int),
> {
    let (ann, b) = opt_annotation_at(s, i);
    match keyword_end(s, b, "error"@) {
        Some(k) => {
            let (base, c) = extends_type_at(s, k);
            let a = ws_end(s, c);
            if char_at(s, a, '{') {
                let (ms, d) = enumerators_from(s, a + 1);
                if ms.len() > 0 {
                    match close_brace_at(s, d) {
                        Some(e) => Some((ann, base, ms, e)),
                        None => None,
                    }
                } else {
                    None
                }
            } else {
                None
            }
        },
        None => None,
    }
}

/// Whether `v` is the optional error of a method at `j` in `s`: the reference
/// form, else the inline form, else none.
pub open spec fn error_found(s: Seq<char>, j: int, v: Option<MethodErrorSpec>) -> bool {
    match error_ref_at(s, j) {
        Some(m) => v matches Some(MethodErrorSpec::Reference { annotation, fqn })
            && annotation_is(annotation, s, m.0) && fqn@ == s.subrange(m.1, m.2),
        None => match error_body_at(s, j) {
            Some(m) => v matches Some(
                MethodErrorSpec::EnumerationBody { annotation, extends, enumerators },
            ) && annotation_is(annotation, s, m.0) && type_is(extends, s, m.1) && enumerators_are(
                s,
                m.2,
                enumerators@,
            ),
            None => v is None,
        },
    }
}

/// Where the optional error of a method at `j` ends.
pub open spec fn error_end(s: Seq<char>, j: int) -> int {
    match error_ref_at(s, j) {
        Some(m) => m.3,
        None => match error_body_at(s, j) {
            Some(m) => m.3,
            None => j,
        },
    }
}

fn error_ref(src: &Src, i: usize) -> (r: Option<(MethodErrorSpec, usize)>)
    requires
        src.wf(),
        i <= src@.len(),
    ensures
        match error_ref_at(src@, i as int) {
            Some(m) => r matches Some((v, e)) && error_found(src@, i as int, Some(v)) && e == m.3,
            None => r is None,
        },
        r matches Some((_, e)) ==> i < e <= src@.len(),
{
    let (annotation, j) = opt_annotation(src, skip_ws(src, i));
    let j = match keyword(src, j, "error") {
        Some(k) => k,
        None => return None,
    };
    let a = skip_ws(src, j);
    let f = match fqn(src, a) {
        Some(f) => f,
        None => return None,
    };
    if same_chars(src, a, f, "extends") {
        return None;
    }
    Some((MethodErrorSpec::Reference { annotation, fqn: src.slice(a, f) }, skip_ws(src, f)))
}

fn error_body(src: &Src, i: usize) -> (r: Option<(MethodErrorSpec, usize)>)
    requires
        src.wf(),
        i <= src@.len(),
    ensures
        error_ref_at(src@, i as int) is None ==> match error_body_at(src@, i as int) {
            Some(m) => r matches Some((v, e)) && error_found(src@, i as int, Some(v)) && e == m.3,
            None => r is None,
        },
        r matches Some((_, e)) ==> i < e <= src@.len(),
{
    let (annotation, j) = opt_annotation(src, skip_ws(src, i));
    let j = match keyword(src, j, "error") {
        Some(k) => k,
        None => return None,
    };
    let (extends, j) = opt_extends_type(src, j);
    let j = match punct(src, j, '{') {
        Some(k) => k,
        None => return None,
    };
    let (enumerators, j) = match enumerators(src, j) {
        Some(p) => p,
        None => return None,
    };
    match close_brace(src, j) {
        Some(e) => Some((MethodErrorSpec::EnumerationBody { annotation, extends, enumerators }, e)),
        None => None,
    }
}

/// A method at `i`: optional annotation, `method`, name, optional selector,
/// optional `fireAndForget`, `{`, optional `in` and `out` blocks, optional
/// error, `}`. Gives the annotation's span, the name's span, the selector's
/// span, the flag, the input and output arguments, where the error starts,
/// and the end.
pub open spec fn method_at(s: Seq<char>, i: int) -> Option<
    (
        Option<(int, int)>,
        int,
        int,
        Option<(int, int)>,
        bool,
        Seq<(Option<(int, int)>, int, int, bool, int, int, int)>,
        Seq<(Option<(int, int)>, int, int, bool, int, int, int)>,
        int,
        int,
    ),
> {
    let (ann, b) = opt_annotation_at(s, i);
    match keyword_end(s, b, "method"@) {
        Some(k) => {
            let n0 = ws_end(s, k);
            match ident_end(s, n0) {
                Some(n1) => {
                    let (sel, c) = selector_at(s, ws_end(s, n1));
                    let (faf, d) = match keyword_end(s, c, "fireAndForget"@) {
                        Some(e) => (true, ws_end(s, e)),
                        None => (false, c),
                    };
                    let a = ws_end(s, d);
                    if char_at(s, a, '{') {
                        let (ins, f) = arg_block_at(s, a + 1, "in"@);
                        let (outs, g) = arg_block_at(s, f, "out"@);
                        match close_brace_at(s, error_end(s, g)) {
                            Some(e) => Some((ann, n0, n1, sel, faf, ins, outs, g, e)),
                            None => None,
                        }
                    } else {
                        None
                    }
                },
                None => None,
            }
        },
        None => None,
    }
}

/// Whether `v` is the method `m` found in `s`.
pub open spec fn method_is(
    s: Seq<char>,
    m: (
        Option<(int, int)>,
        int,
        int,
        Option<(int, int)>,
        bool,
        Seq<(Option<(int, int)>, int, int, bool, int, int, int)>,
        Seq<(Option<(int, int)>, int, int, bool, int, int, int)>,
        int,
        int,
    ),
    v: Method,
) -> bool {
    &&& annotation_is(v.annotation, s, m.0)
    &&& v.name@ == s.subrange(m.1, m.2)
    &&& name_is(v.selector, s, m.3)
    &&& v.fire_and_forget == m.4
    &&& arguments_are(s, m.5, v.in_args@)
    &&& arguments_are(s, m.6, v.out_args@)
    &&& error_found(s, m.7, v.error)
}

/// `method name [: selector] [fireAndForget] { [in {..}] [out {..}] [error ..] }`.
fn method(src: &Src, i: usize) -> (r: Option<(Method, usize)>)
    requires
        src.wf(),
        i <= src@.len(),
    ensures
        match method_at(src@, i as int) {
            Some(m) => r matches Some((v, e)) && method_is(src@, m, v) && e == m.8,
            None => r is None,
        },
        r matches Some((_, e)) ==> i < e <= src@.len(),
{
    let (annotation, j) = opt_annotation(src, skip_ws(src, i));
    let j = match keyword(src, j, "method") {
        Some(k) => k,
        None => return None,
    };
    let (name, j) = match name(src, j) {
        Some(p) => p,
        None => return None,
    };
    let (selector, j) = opt_selector(src, j);
    let (fire_and_forget, j) = opt_keyword(src, j, "fireAndForget");
    let j = match punct(src, j, '{') {
        Some(k) => k,
        None => return None,
    };
    let (in_args, j) = opt_arg_block(src, j, "in");
    let (out_args, j) = opt_arg_block(src, j, "out");
    let (error, j) = match error_ref(src, j) {
        Some((m, e)) => (Some(m), e),
        None => match error_body(src, j) {
            Some((m, e)) => (Some(m), e),
            None => (None, j),
        },
    };
    match close_brace(src, j) {
        Some(e) => Some(
            (Method { annotation, name, selector, fire_and_forget, in_args, out_args, error }, e),
        ),
        None => None,
    }
}

/// Parses a method declaration.
pub fn parse_method<'a>(input: &'a str) -> (r: PResult<'a, InterfaceContent>)
    ensures
        match method_at(input@, 0) {
            Some(m) => r matches Ok((rest, InterfaceContent::Method(v))) && method_is(input@, m, v)
                && rest@ == rest_at(input@, m.8),
            None => r is Err,
        },
{
    let src = Src::new(input);
    match method(&src, 0) {
        Some((m, e)) => Ok((src.rest(e), InterfaceContent::Method(m))),
        None => Err(Mismatch),
    }
}

/// A broadcast at `i`: optional annotation, `broadcast`, name, optional
/// selector, optional `selective`, `{`, optional `out` block, `}`. Gives the
/// annotation's span, the name's span, the selector's span, the flag, the
/// output arguments, and the end.
pub open spec fn broadcast_at(s: Seq<char>, i: int) -> Option<
    (
        Option<(int, int)>,
        int,
        int,
        Option<(int, int)>,
        bool,
        Seq<(Option<(int, int)>, int, int, bool, int, int, int)>,
        int,
    ),
> {
    let (ann, b) = opt_annotation_at(s, i);
    match keyword_end(s, b, "broadcast"@) {
        Some(k) => {
            let n0 = ws_end(s, k);
            match ident_end(s, n0) {
                Some(n1) => {
                    let (sel, c) = selector_at(s, ws_end(s, n1));
                    let (selective, d) = match keyword_end(s, c, "selective"@) {
                        Some(e) => (true, ws_end(s, e)),
                        None => (false, c),
                    };
                    let a = ws_end(s, d);
                    if char_at(s, a, '{') {
                        let (outs, g) = arg_block_at(s, a + 1, "out"@);
                        match close_brace_at(s, g) {
                            Some(e) => Some((ann, n0, n1, sel, selective, outs, e)),
                            None => None,
                        }
                    } else {
                        None
                    }
                },
                None => None,
            }
        },
        None => None,
    }
}

/// Whether `v` is the broadcast `m` found in `s`.
pub open spec fn broadcast_is(
    s: Seq<char>,
    m: (
        Option<(int, int)>,
        int,
        int,
        Option<(int, int)>,
        bool,
        Seq<(Option<(int, int)>, int, int, bool, int, int, int)>,
        int,
    ),
    v: Broadcast,
) -> bool {
    &&& annotation_is(v.annotation, s, m.0)
    &&& v.name@ == s.subrange(m.1, m.2)
    &&& name_is(v.selector, s, m.3)
    &&& v.selective == m.4
    &&& arguments_are(s, m.5, v.out_args@)
}

/// `broadcast name [: selector] [selective] { [out {..}] }`.
fn broadcast(src: &Src, i: usize) -> (r: Option<(Broadcast, usize)>)
    requires
        src.wf(),
        i <= src@.len(),
    ensures
        match broadcast_at(src@, i as int) {
            Some(m) => r matches Some((v, e)) && broadcast_is(src@, m, v) && e == m.6,
            None => r is None,
        },
        r matches Some((_, e)) ==> i < e <= src@.len(),
{
    let (annotation, j) = opt_annotation(src, skip_ws(src, i));
    let j = match keyword(src, j, "broadcast") {
        Some(k) => k,
        None => return None,
    };
    let (name, j) = match name(src, j) {
        Some(p) => p,
        None => return None,
    };
    let (selector, j) = opt_selector(src, j);
    let (selective, j) = opt_keyword(src, j, "selective");
    let j = match punct(src, j, '{') {
        Some(k) => k,
        None => return None,
    };
    let (out_args, j) = opt_arg_block(src, j, "out");
    match close_brace(src, j) {
        Some(e) => Some((Broadcast { annotation, name, selector, selective, out_args }, e)),
        None => None,
    }
}

/// Parses a broadcast declaration.
pub fn parse_broadcast<'a>(input: &'a str) -> (r: PResult<'a, InterfaceContent>)
    ensures
        match broadcast_at(input@, 0) {
            Some(m) => r matches Ok((rest, InterfaceContent::Broadcast(v))) && broadcast_is(
                input@,
                m,
                v,
            ) && rest@ == rest_at(input@, m.6),
            None => r is Err,
        },
{
    let src = Src::new(input);
    match broadcast(&src, 0) {
        Some((b, e)) => Ok((src.rest(e), InterfaceContent::Broadcast(b))),
        None => Err(Mismatch),
    }
}

/// Where the interface item found at `i` in `s` ends: an attribute, else a
/// type definition, else a broadcast, else a method.
pub open spec fn item_end(s: Seq<char>, i: int) -> Option<int> {
    match attribute_at(s, i) {
        Some(m) => Some((m.6).3),
        None => match type_end(s, i) {
            Some(e) => Some(e),
            None => match broadcast_at(s, i) {
                Some(m) => Some(m.6),
                None => match method_at(s, i) {
                    Some(m) => Some(m.8),
                    None => None,
                },
            },
        },
    }
}

/// Whether `c` is the interface item found at `i` in `s`.
#[verifier::opaque]
pub open spec fn item_found(s: Seq<char>, i: int, c: InterfaceContent) -> bool {
    match attribute_at(s, i) {
        Some(m) => c matches InterfaceContent::Attribute(a) && attribute_is(s, m, a, (m.6).3),
        None => match type_end(s, i) {
            Some(e) => c matches InterfaceContent::Type(t) && type_found(s, i, t, e),
            None => match broadcast_at(s, i) {
                Some(m) => c matches InterfaceContent::Broadcast(b) && broadcast_is(s, m, b),
                None => match method_at(s, i) {
                    Some(m) => c matches InterfaceContent::Method(v) && method_is(s, m, v),
                    None => false,
                },
            },
        },
    }
}

/// One item of an interface body: attribute, type, broadcast or method, tried
/// in that order.
fn interface_item(src: &Src, i: usize) -> (r: Option<(InterfaceContent, usize)>)
    requires
        src.wf(),
        i <= src@.len(),
    ensures
        match item_end(src@, i as int) {
            Some(e) => r matches Some((c, e2)) && e2 == e && item_found(src@, i as int, c),
            None => r is None,
        },
        r matches Some((_, e)) ==> i < e <= src@.len(),
{
    reveal(item_found);
    if let Some((a, e)) = attribute(src, i) {
        return Some((InterfaceContent::Attribute(a), e));
    }
    if let Some((t, e)) = type_def(src, i) {
        return Some((InterfaceContent::Type(t), e));
    }
    if let Some((b, e)) = broadcast(src, i) {
        return Some((InterfaceContent::Broadcast(b), e));
    }
    match method(src, i) {
        Some((m, e)) => Some((InterfaceContent::Method(m), e)),
        None => None,
    }
}

/// The positions of the interface items that follow one another from `j`,
/// and where they end.
pub open spec fn items_from(s: Seq<char>, j: int) -> (Seq<int>, int)
    decreases s.len() - j,
{
    match item_end(s, j) {
        Some(e) => if j < e <= s.len() {
            let (ps, f) = items_from(s, e);
            (seq![j] + ps, f)
        } else {
            (Seq::empty(), j)
        },
        None => (Seq::empty(), j),
    }
}

/// The attributes among `items`, in order.
pub open spec fn attributes_of(items: Seq<InterfaceContent>) -> Seq<Attribute>
    decreases items.len(),
{
    if items.len() == 0 {
        Seq::empty()
    } else {
        match items.last() {
            InterfaceContent::Attribute(a) => attributes_of(items.drop_last()).push(a),
            _ => attributes_of(items.drop_last()),
        }
    }
}

/// The type definitions among `items`, in order.
pub open spec fn types_of(items: Seq<InterfaceContent>) -> Seq<Type>
    decreases items.len(),
{
    if items.len() == 0 {
        Seq::empty()
    } else {
        match items.last() {
            InterfaceContent::Type(t) => types_of(items.drop_last()).push(t),
            _ => types_of(items.drop_last()),
        }
    }
}

/// The broadcasts among `items`, in order.
pub open spec fn broadcasts_of(items: Seq<InterfaceContent>) -> Seq<Broadcast>
    decreases items.len(),
{
    if items.len() == 0 {
        Seq::empty()
    } else {
        match items.last() {
            InterfaceContent::Broadcast(b) => broadcasts_of(items.drop_last()).push(b),
            _ => broadcasts_of(items.drop_last()),
        }
    }
}

/// The methods among `items`, in order.
pub open spec fn methods_of(items: Seq<InterfaceContent>) -> Seq<Method>
    decreases items.len(),
{
    if items.len() == 0 {
        Seq::empty()
    } else {
        match items.last() {
            InterfaceContent::Method(m) => methods_of(items.drop_last()).push(m),
            _ => methods_of(items.drop_last()),
        }
    }
}

/// An optional version block at `i`: what it holds, and the position after
/// it, or `i` itself.
pub open spec fn version_end(s: Seq<char>, i: int) -> int {
    match version_at(s, i) {
        Some((_, _, e)) => e,
        None => i,
    }
}

/// Whether `v` is the optional version block found at `i` in `s`.
pub open spec fn version_is(v: Option<(u32, u32)>, s: Seq<char>, i: int) -> bool {
    match version_at(s, i) {
        Some((ma, mi, _)) => v == Some((ma as u32, mi as u32)),
        None => v is None,
    }
}

/// An interface at `i`: optional annotation, `interface`, name, `{`, optional
/// version, items, `}`. Gives the annotation's span, the name's span, where
/// the version starts, the positions of the items, and the end.
pub open spec fn interface_at(s: Seq<char>, i: int) -> Option<
    (Option<(int, int)>, int, int, int, Seq<int>, int),
> {
    let (ann, b) = opt_annotation_at(s, i);
    match keyword_end(s, b, "interface"@) {
        Some(k) => {
            let n0 = ws_end(s, k);
            match ident_end(s, n0) {
                Some(n1) => {
                    let a = ws_end(s, ws_end(s, n1));
                    if char_at(s, a, '{') {
                        let v = ws_end(s, a + 1);
                        let (ps, f) = items_from(s, version_end(s, v));
                        match close_brace_at(s, f) {
                            Some(e) => Some((ann, n0, n1, v, ps, e)),
                            None => None,
                        }
                    } else {
                        None
                    }
                },
                None => None,
            }
        },
        None => None,
    }
}

/// Whether `v` is the interface `m` found in `s`, `items` being its items in
/// the order they stand: each list holds the items of its kind, in order.
#[verifier::opaque]
pub open spec fn interface_is(
    s: Seq<char>,
    m: (Option<(int, int)>, int, int, int, Seq<int>, int),
    v: Interface,
    items: Seq<InterfaceContent>,
) -> bool {
    &&& annotation_is(v.annotation, s, m.0)
    &&& v.name@ == s.subrange(m.1, m.2)
    &&& version_is(v.version, s, m.3)
    &&& items.len() == m.4.len()
    &&& forall|k: int| 0 <= k < items.len() ==> item_found(s, m.4[k], #[trigger] items[k])
    &&& v.attributes@ == attributes_of(items)
    &&& v.types@ == types_of(items)
    &&& v.broadcasts@ == broadcasts_of(items)
    &&& v.methods@ == methods_of(items)
    &&& v.extends is None
    &&& v.manages is None
}

/// `interface Name { [version] items }`, each item routed to the list of its
/// kind in the order met.
#[verifier::rlimit(80)]
fn interface(src: &Src, i: usize) -> (r: Option<(Interface, usize)>)
    requires
        src.wf(),
        i <= src@.len(),
    ensures
        match interface_at(src@, i as int) {
            Some(m) => r matches Some((v, e)) && e == m.5 && exists|items: Seq<InterfaceContent>|
                interface_is(src@, m, v, items),
            None => r is None,
        },
        r matches Some((_, e)) ==> i < e <= src@.len(),
{
    let (annotation, j) = opt_annotation(src, skip_ws(src, i));
    let j = match keyword(src, j, "interface") {
        Some(k) => k,
        None => return None,
    };
    let (name, j) = match name(src, j) {
        Some(p) => p,
        None => return None,
    };
    let j = match punct(src, j, '{') {
        Some(k) => k,
        None => return None,
    };
    let (version, j) = opt_version(src, skip_ws(src, j));
    let j0 = j;
    let mut attributes: Vec<Attribute> = Vec::new();
    let mut types: Vec<Type> = Vec::new();
    let mut broadcasts: Vec<Broadcast> = Vec::new();
    let mut methods: Vec<Method> = Vec::new();
    let ghost items: Seq<InterfaceContent> = Seq::empty();
    let ghost done: Seq<int> = Seq::empty();
    let mut j = j;
    loop
        invariant
            src.wf(),
            i < j0 <= j <= src@.len(),
            items.len() == done.len(),
            forall|k: int| 0 <= k < items.len() ==> item_found(src@, done[k], #[trigger] items[k]),
            attributes@ == attributes_of(items),
            types@ == types_of(items),
            broadcasts@ == broadcasts_of(items),
            methods@ == methods_of(items),
            items_from(src@, j0 as int) == (
                done + items_from(src@, j as int).0,
                items_from(src@, j as int).1,
            ),
        ensures
            i < j0 <= j <= src@.len(),
            items.len() == done.len(),
            forall|k: int| 0 <= k < items.len() ==> item_found(src@, done[k], #[trigger] items[k]),
            attributes@ == attributes_of(items),
            types@ == types_of(items),
            broadcasts@ == broadcasts_of(items),
            methods@ == methods_of(items),
            items_from(src@, j0 as int) == (done, j as int),
        decreases src@.len() - j,
    {
        match interface_item(src, j) {
            Some((item, e)) => {
                let ghost rest = items_from(src@, e as int).0;
                assert(done + (seq![j as int] + rest) =~= done.push(j as int) + rest);
                let ghost old_items = items;
                proof {
                    done = done.push(j as int);
                    items = items.push(item);
                    assert(items.drop_last() =~= old_items);
                }
                match item {
                    InterfaceContent::Attribute(a) => attributes.push(a),
                    InterfaceContent::Type(t) => types.push(t),
                    InterfaceContent::Broadcast(b) => broadcasts.push(b),
                    InterfaceContent::Method(m) => methods.push(m),
                }
                j = e;
            },
            None => {
                assert(done + Seq::empty() =~= done);
                break;
            },
        }
    }
    match close_brace(src, j) {
        Some(e) => {
            let v = Interface {
                annotation,
                name,
                version,
                attributes,
                types,
                broadcasts,
                methods,
                extends: None,
                manages: None,
            };
            assert(interface_is(src@, interface_at(src@, i as int)->0, v, items)) by {
                reveal(interface_is);
            }
            Some((v, e))
        },
        None => None,
    }
}

/// Parses an interface.
#[verifier::rlimit(30)]
pub fn parse_interface<'a>(input: &'a str) -> (r: PResult<'a, ModuleContent>)
    ensures
        match interface_at(input@, 0) {
            Some(m) => r matches Ok((rest, ModuleContent::Interface(v))) && rest@ == rest_at(
                input@,
                m.5,
            ) && exists|items: Seq<InterfaceContent>| interface_is(input@, m, v, items),
            None => r is Err,
        },
{
    let src = Src::new(input);
    let r = interface(&src, 0);
    match r {
        Some((it, e)) => Ok((src.rest(e), ModuleContent::Interface(it))),
        None => Err(Mismatch),
    }
}

/// The positions of the type definitions that follow one another from `j`,
/// and where they end.
pub open spec fn types_from(s: Seq<char>, j: int) -> (Seq<int>, int)
    decreases s.len() - j,
{
    match type_end(s, j) {
        Some(e) => if j < e <= s.len() {
            let (ps, f) = types_from(s, e);
            (seq![j] + ps, f)
        } else {
            (Seq::empty(), j)
        },
        None => (Seq::empty(), j),
    }
}

/// Whether the types `v` are the type definitions found in `s` at the
/// positions `ps`, one for one.
pub open spec fn types_are(s: Seq<char>, ps: Seq<int>, v: Seq<Type>) -> bool {
    &&& v.len() == ps.len()
    &&& forall|k: int|
        0 <= k < v.len() ==> (type_end(s, #[trigger] ps[k]) matches Some(e) && type_found(
            s,
            ps[k],
            v[k],
            e,
        ))
}

/// A type collection at `i`: optional annotation, `typeCollection`, optional
/// name, `{`, optional version, type definitions, `}`. Gives the annotation's
/// span, the name's span, where the version starts, the positions of the
/// types, and the end.
pub open spec fn type_collection_at(s: Seq<char>, i: int) -> Option<
    (Option<(int, int)>, Option<(int, int)>, int, Seq<int>, int),
> {
    let (ann, b) = opt_annotation_at(s, i);
    match keyword_end(s, b, "typeCollection"@) {
        Some(k) => {
            let n0 = ws_end(s, k);
            let (nm, c) = match ident_end(s, n0) {
                Some(n1) => (Some((n0, n1)), ws_end(s, n1)),
                None => (None, k),
            };
            let a = ws_end(s, c);
            if char_at(s, a, '{') {
                let v = ws_end(s, a + 1);
                let (ps, f) = types_from(s, version_end(s, v));
                match close_brace_at(s, f) {
                    Some(e) => Some((ann, nm, v, ps, e)),
                    None => None,
                }
            } else {
                None
            }
        },
        None => None,
    }
}

/// Whether `v` is the type collection `m` found in `s`.
pub open spec fn type_collection_is(
    s: Seq<char>,
    m: (Option<(int, int)>, Option<(int, int)>, int, Seq<int>, int),
    v: TypeCollection,
) -> bool {
    &&& annotation_is(v.annotation, s, m.0)
    &&& name_is(v.name, s, m.1)
    &&& version_is(v.version, s, m.2)
    &&& types_are(s, m.3, v.types@)
}

/// `typeCollection [Name] { [version] types }`.
fn type_collection(src: &Src, i: usize) -> (r: Option<(TypeCollection, usize)>)
    requires
        src.wf(),
        i <= src@.len(),
    ensures
        match type_collection_at(src@, i as int) {
            Some(m) => r matches Some((v, e)) && type_collection_is(src@, m, v) && e == m.4,
            None => r is None,
        },
        r matches Some((_, e)) ==> i < e <= src@.len(),
{
    let (annotation, j) = opt_annotation(src, skip_ws(src, i));
    let j = match keyword(src, j, "typeCollection") {
        Some(k) => k,
        None => return None,
    };
    let (name, j) = match name(src, j) {
        Some((n, e)) => (Some(n), e),
        None => (None, j),
    };
    let j = match punct(src, j, '{') {
        Some(k) => k,
        None => return None,
    };
    let (version, j) = opt_version(src, skip_ws(src, j));
    let j0 = j;
    let mut types: Vec<Type> = Vec::new();
    let ghost done: Seq<int> = Seq::empty();
    let mut j = j;
    loop
        invariant
            src.wf(),
            i < j0 <= j <= src@.len(),
            types_are(src@, done, types@),
            types_from(src@, j0 as int) == (
                done + types_from(src@, j as int).0,
                types_from(src@, j as int).1,
            ),
        ensures
            i < j0 <= j <= src@.len(),
            types_are(src@, done, types@),
            types_from(src@, j0 as int) == (done, j as int),
        decreases src@.len() - j,
    {
        match type_def(src, j) {
            Some((t, e)) => {
                let ghost rest = types_from(src@, e as int).0;
                assert(done + (seq![j as int] + rest) =~= done.push(j as int) + rest);
                proof {
                    done = done.push(j as int);
                }
                types.push(t);
                j = e;
            },
            None => {
                assert(done + Seq::empty() =~= done);
                break;
            },
        }
    }
    match close_brace(src, j) {
        Some(e) => Some((TypeCollection { annotation, name, version, types }, e)),
        None => None,
    }
}

/// Parses a type collection.
pub fn parse_type_collection<'a>(input: &'a str) -> (r: PResult<'a, ModuleContent>)
    ensures
        match type_collection_at(input@, 0) {
            Some(m) => r matches Ok((rest, ModuleContent::TypeCollection(v)))
                && type_collection_is(input@, m, v) && rest@ == rest_at(input@, m.4),
            None => r is Err,
        },
{
    let src = Src::new(input);
    match type_collection(&src, 0) {
        Some((tc, e)) => Ok((src.rest(e), ModuleContent::TypeCollection(tc))),
        None => Err(Mismatch),
    }
}

// ---------------------------------------------------------------- module

/// `import model '<uri>'` at `i`: the span of the uri and the end.
pub open spec fn import_model_at(s: Seq<char>, i: int) -> Option<(int, int, int)> {
    match keyword_end(s, i, "import"@) {
        Some(k1) => match keyword_end(s, k1, "model"@) {
            Some(k2) => {
                let a = ws_end(s, k2);
                match quoted_at(s, a) {
                    Some((c, e)) => Some((a + 1, c, e)),
                    None => None,
                }
            },
            None => None,
        },
        None => None,
    }
}

/// `import <namespace> from '<uri>'` at `i`: the spans of the namespace and of
/// the uri, and the end.
pub open spec fn import_from_at(s: Seq<char>, i: int) -> Option<(int, int, int, int, int)> {
    match keyword_end(s, i, "import"@) {
        Some(k1) => {
            let a = ws_end(s, k1);
            match imported_fqn_at(s, a) {
                Some((f, g)) => match keyword_end(s, g, "from"@) {
                    Some(k2) => {
                        let b = ws_end(s, k2);
                        match quoted_at(s, b) {
                            Some((c, e)) => Some((a, f, b + 1, c, e)),
                            None => None,
                        }
                    },
                    None => None,
                },
                None => None,
            }
        },
        None => None,
    }
}

/// An import at `i`, the namespace form tried first: its namespace (empty for
/// a whole module), its uri, and the end.
pub open spec fn import_at(s: Seq<char>, i: int) -> Option<(Seq<char>, Seq<char>, int)> {
    match import_from_at(s, i) {
        Some((a, f, b, c, e)) => Some((s.subrange(a, f), s.subrange(b, c), e)),
        None => match import_model_at(s, i) {
            Some((b, c, e)) => Some((Seq::empty(), s.subrange(b, c), e)),
            None => None,
        },
    }
}

fn import_from(src: &Src, i: usize) -> (r: Option<(Import, usize)>)
    requires
        src.wf(),
        i <= src@.len(),
    ensures
        match import_from_at(src@, i as int) {
            Some((a, f, b, c, e)) => r matches Some((imp, e2)) && imp.namespace@
                == src@.subrange(a, f) && imp.uri@ == src@.subrange(b, c) && e2 == e,
            None => r is None,
        },
        r matches Some((_, e)) ==> i < e <= src@.len(),
{
    let k1 = match keyword(src, i, "import") {
        Some(k) => k,
        None => return None,
    };
    let a = skip_ws(src, k1);
    let (f, g) = match imported_fqn(src, a) {
        Some(p) => p,
        None => return None,
    };
    let k2 = match keyword(src, g, "from") {
        Some(k) => k,
        None => return None,
    };
    let b = skip_ws(src, k2);
    match quoted(src, b) {
        Some((c, e)) => Some((Import { namespace: src.slice(a, f), uri: src.slice(b + 1, c) }, e)),
        None => None,
    }
}

fn import_model(src: &Src, i: usize) -> (r: Option<(Import, usize)>)
    requires
        src.wf(),
        i <= src@.len(),
    ensures
        match import_model_at(src@, i as int) {
            Some((b, c, e)) => r matches Some((imp, e2)) && imp.namespace@.len() == 0
                && imp.uri@ == src@.subrange(b, c) && e2 == e,
            None => r is None,
        },
        r matches Some((_, e)) ==> i < e <= src@.len(),
{
    let k1 = match keyword(src, i, "import") {
        Some(k) => k,
        None => return None,
    };
    let k2 = match keyword(src, k1, "model") {
        Some(k) => k,
        None => return None,
    };
    let a = skip_ws(src, k2);
    match quoted(src, a) {
        Some((c, e)) => Some((Import { namespace: String::new(), uri: src.slice(a + 1, c) }, e)),
        None => None,
    }
}

fn import(src: &Src, i: usize) -> (r: Option<(Import, usize)>)
    requires
        src.wf(),
        i <= src@.len(),
    ensures
        match import_at(src@, i as int) {
            Some((ns, uri, e)) => r matches Some((imp, e2)) && imp.namespace@ == ns && imp.uri@
                == uri && e2 == e,
            None => r is None,
        },
        r matches Some((_, e)) ==> i < e <= src@.len(),
{
    match import_from(src, i) {
        Some(p) => Some(p),
        None => {
            let r = import_model(src, i);
            proof {
                if r is Some {
                    let found = r->0;
                    assert(found.0.namespace@ =~= Seq::<char>::empty());
                }
            }
            r
        },
    }
}

/// Parses an import: `import <namespace>[.*] from '<uri>'`, or
/// `import model '<uri>'` with an empty namespace.
pub fn parse_import<'a>(input: &'a str) -> (r: PResult<'a, Import>)
    ensures
        match import_at(input@, 0) {
            Some((ns, uri, e)) => r matches Ok((rest, imp)) && imp.namespace@ == ns && imp.uri@
                == uri && rest@ == rest_at(input@, e),
            None => r is Err,
        },
{
    let src = Src::new(input);
    finish(&src, import(&src, 0))
}

/// The imports that follow one another from `j`, each with the whitespace
/// after it: namespace and uri of each, and where they end.
pub open spec fn imports_from(s: Seq<char>, j: int) -> (Seq<(Seq<char>, Seq<char>)>, int)
    decreases s.len() - j,
{
    match import_at(s, j) {
        Some((ns, uri, e)) => {
            let n = ws_end(s, e);
            if j < n <= s.len() {
                let (is, f) = imports_from(s, n);
                (seq![(ns, uri)] + is, f)
            } else {
                (Seq::empty(), j)
            }
        },
        None => (Seq::empty(), j),
    }
}

/// Whether the imports `v` are `is`, one for one.
pub open spec fn imports_are(is: Seq<(Seq<char>, Seq<char>)>, v: Seq<Import>) -> bool {
    &&& v.len() == is.len()
    &&& forall|k: int|
        0 <= k < v.len() ==> v[k].namespace@ == (#[trigger] is[k]).0 && v[k].uri@ == is[k].1
}

/// Where the top-level declaration found at `i` in `s` ends: an interface,
/// else a type collection.
pub open spec fn declaration_end(s: Seq<char>, i: int) -> Option<int> {
    match interface_at(s, i) {
        Some(m) => Some(m.5),
        None => match type_collection_at(s, i) {
            Some(m) => Some(m.4),
            None => None,
        },
    }
}

/// Whether `c` is the top-level declaration found at `i` in `s`.
#[verifier::opaque]
pub open spec fn declaration_found(s: Seq<char>, i: int, c: ModuleContent) -> bool {
    match interface_at(s, i) {
        Some(m) => c matches ModuleContent::Interface(v) && exists|items: Seq<InterfaceContent>|
            interface_is(s, m, v, items),
        None => match type_collection_at(s, i) {
            Some(m) => c matches ModuleContent::TypeCollection(v) && type_collection_is(s, m, v),
            None => false,
        },
    }
}

/// The positions of the top-level declarations that follow one another from
/// `j`, and where they end.
pub open spec fn declarations_from(s: Seq<char>, j: int) -> (Seq<int>, int)
    decreases s.len() - j,
{
    match declaration_end(s, j) {
        Some(e) => if j < e <= s.len() {
            let (ps, f) = declarations_from(s, e);
            (seq![j] + ps, f)
        } else {
            (Seq::empty(), j)
        },
        None => (Seq::empty(), j),
    }
}

/// The interfaces among `items`, in order.
pub open spec fn interfaces_of(items: Seq<ModuleContent>) -> Seq<Interface>
    decreases items.len(),
{
    if items.len() == 0 {
        Seq::empty()
    } else {
        match items.last() {
            ModuleContent::Interface(v) => interfaces_of(items.drop_last()).push(v),
            _ => interfaces_of(items.drop_last()),
        }
    }
}

/// The type collections among `items`, in order.
pub open spec fn collections_of(items: Seq<ModuleContent>) -> Seq<TypeCollection>
    decreases items.len(),
{
    if items.len() == 0 {
        Seq::empty()
    } else {
        match items.last() {
            ModuleContent::TypeCollection(v) => collections_of(items.drop_last()).push(v),
            _ => collections_of(items.drop_last()),
        }
    }
}

/// A top-level declaration: an interface, else a type collection.
fn module_item(src: &Src, i: usize) -> (r: Option<(ModuleContent, usize)>)
    requires
        src.wf(),
        i <= src@.len(),
    ensures
        match declaration_end(src@, i as int) {
            Some(e) => r matches Some((c, e2)) && e2 == e && declaration_found(src@, i as int, c),
            None => r is None,
        },
        r matches Some((_, e)) ==> i < e <= src@.len(),
{
    reveal(declaration_found);
    if let Some((it, e)) = interface(src, i) {
        return Some((ModuleContent::Interface(it), e));
    }
    match type_collection(src, i) {
        Some((tc, e)) => Some((ModuleContent::TypeCollection(tc), e)),
        None => None,
    }
}

/// A whole source text at `s`: the package declaration, the imports, then
/// interfaces and type collections in any order, and nothing left over but
/// whitespace. Gives the package name's span, the imports, and the positions
/// of the declarations.
pub open spec fn module_at(s: Seq<char>) -> Option<(int, int, Seq<(Seq<char>, Seq<char>)>, Seq<int>)> {
    match package_at(s, 0) {
        Some((a, f, p)) => {
            let (is, q) = imports_from(s, p);
            let (ps, t) = declarations_from(s, q);
            if ws_end(s, t) == s.len() {
                Some((a, f, is, ps))
            } else {
                None
            }
        },
        None => None,
    }
}

/// Whether `v` is the module `m` found in `s`, `items` being its
/// declarations in the order they stand.
#[verifier::opaque]
pub open spec fn module_is(
    s: Seq<char>,
    m: (int, int, Seq<(Seq<char>, Seq<char>)>, Seq<int>),
    v: Module,
    items: Seq<ModuleContent>,
) -> bool {
    &&& v.package@ == s.subrange(m.0, m.1)
    &&& imports_are(m.2, v.imports@)
    &&& items.len() == m.3.len()
    &&& forall|k: int| 0 <= k < items.len() ==> declaration_found(s, m.3[k], #[trigger] items[k])
    &&& v.interfaces@ == interfaces_of(items)
    &&& v.type_collections@ == collections_of(items)
}

/// The imports from `start`, each with the whitespace after it.
fn imports(src: &Src, start: usize) -> (r: (Vec<Import>, usize))
    requires
        src.wf(),
        start <= src@.len(),
    ensures
        imports_are(imports_from(src@, start as int).0, r.0@),
        r.1 == imports_from(src@, start as int).1,
        start <= r.1 <= src@.len(),
{
    let mut imports: Vec<Import> = Vec::new();
    let ghost imps: Seq<(Seq<char>, Seq<char>)> = Seq::empty();
    let mut j = start;
    loop
        invariant
            src.wf(),
            start <= j <= src@.len(),
            imports_are(imps, imports@),
            imports_from(src@, start as int) == (
                imps + imports_from(src@, j as int).0,
                imports_from(src@, j as int).1,
            ),
        ensures
            start <= j <= src@.len(),
            imports_are(imps, imports@),
            imports_from(src@, start as int) == (imps, j as int),
        decreases src@.len() - j,
    {
        match import(src, j) {
            Some((imp, e)) => {
                let n = skip_ws(src, e);
                let ghost one = (imp.namespace@, imp.uri@);
                let ghost rest = imports_from(src@, n as int).0;
                assert(imps + (seq![one] + rest) =~= imps.push(one) + rest);
                proof {
                    imps = imps.push(one);
                }
                imports.push(imp);
                j = n;
            },
            None => {
                assert(imps + Seq::empty() =~= imps);
                break;
            },
        }
    }
    (imports, j)
}

/// The interfaces and type collections from `from`, with the declarations in
/// the order they stand.
#[verifier::rlimit(40)]
fn declarations(src: &Src, from: usize) -> (r: (
    Vec<Interface>,
    Vec<TypeCollection>,
    usize,
    Ghost<Seq<ModuleContent>>,
))
    requires
        src.wf(),
        from <= src@.len(),
    ensures
        r.3@.len() == declarations_from(src@, from as int).0.len(),
        forall|k: int|
            0 <= k < r.3@.len() ==> declaration_found(
                src@,
                declarations_from(src@, from as int).0[k],
                #[trigger] r.3@[k],
            ),
        r.0@ == interfaces_of(r.3@),
        r.1@ == collections_of(r.3@),
        r.2 == declarations_from(src@, from as int).1,
        from <= r.2 <= src@.len(),
{
    let mut interfaces: Vec<Interface> = Vec::new();
    let mut type_collections: Vec<TypeCollection> = Vec::new();
    let ghost items: Seq<ModuleContent> = Seq::empty();
    let ghost done: Seq<int> = Seq::empty();
    let mut j = from;
    loop
        invariant
            src.wf(),
            from <= j <= src@.len(),
            items.len() == done.len(),
            forall|k: int|
                0 <= k < items.len() ==> declaration_found(src@, done[k], #[trigger] items[k]),
            interfaces@ == interfaces_of(items),
            type_collections@ == collections_of(items),
            declarations_from(src@, from as int) == (
                done + declarations_from(src@, j as int).0,
                declarations_from(src@, j as int).1,
            ),
        ensures
            from <= j <= src@.len(),
            items.len() == done.len(),
            forall|k: int|
                0 <= k < items.len() ==> declaration_found(src@, done[k], #[trigger] items[k]),
            interfaces@ == interfaces_of(items),
            type_collections@ == collections_of(items),
            declarations_from(src@, from as int) == (done, j as int),
        decreases src@.len() - j,
    {
        match module_item(src, j) {
            Some((item, e)) => {
                let ghost rest = declarations_from(src@, e as int).0;
                assert(done + (seq![j as int] + rest) =~= done.push(j as int) + rest);
                let ghost old_items = items;
                proof {
                    done = done.push(j as int);
                    items = items.push(item);
                    assert(items.drop_last() =~= old_items);
                }
                match item {
                    ModuleContent::Interface(it) => interfaces.push(it),
                    ModuleContent::TypeCollection(tc) => type_collections.push(tc),
                }
                j = e;
            },
            None => {
                assert(done + Seq::empty() =~= done);
                break;
            },
        }
    }
    (interfaces, type_collections, j, Ghost(items))
}

/// Whether `v` is the module that the text `s` holds: `module_is` holds of it
/// with the declarations taken in the order they stand.
pub open spec fn module_parsed(s: Seq<char>, v: Module) -> bool {
    exists|items: Seq<ModuleContent>| module_is(s, module_at(s)->0, v, items)
}

/// The characters of an optional string.
pub open spec fn opt_chars(v: Option<String>) -> Option<Seq<char>> {
    match v {
        Some(t) => Some(t@),
        None => None,
    }
}

/// Whether two interfaces have the same name, annotation and version, and as
/// many attributes, types, broadcasts and methods.
pub open spec fn interface_heads_agree(x: Interface, y: Interface) -> bool {
    &&& x.name@ == y.name@
    &&& opt_chars(x.annotation) == opt_chars(y.annotation)
    &&& x.version == y.version
    &&& x.attributes.len() == y.attributes.len()
    &&& x.types.len() == y.types.len()
    &&& x.broadcasts.len() == y.broadcasts.len()
    &&& x.methods.len() == y.methods.len()
}

proof fn lemma_items_agree(s: Seq<char>, ps: Seq<int>, a: Seq<InterfaceContent>, b: Seq<InterfaceContent>)
    requires
        a.len() == ps.len(),
        b.len() == ps.len(),
        forall|k: int| 0 <= k < a.len() ==> item_found(s, ps[k], #[trigger] a[k]),
        forall|k: int| 0 <= k < b.len() ==> item_found(s, ps[k], #[trigger] b[k]),
    ensures
        attributes_of(a).len() == attributes_of(b).len(),
        types_of(a).len() == types_of(b).len(),
        broadcasts_of(a).len() == broadcasts_of(b).len(),
        methods_of(a).len() == methods_of(b).len(),
    decreases ps.len(),
{
    if ps.len() > 0 {
        let n = ps.len() - 1;
        lemma_items_agree(s, ps.drop_last(), a.drop_last(), b.drop_last());
        assert(item_found(s, ps[n], a[n]) && item_found(s, ps[n], b[n]));
        reveal(item_found);
        assert(a.last() is Attribute <==> b.last() is Attribute);
        assert(a.last() is Type <==> b.last() is Type);
        assert(a.last() is Broadcast <==> b.last() is Broadcast);
        assert(a.last() is Method <==> b.last() is Method);
    }
}

/// Whether two type collections have the same name, annotation, version and
/// number of types.
pub open spec fn collection_heads_agree(x: TypeCollection, y: TypeCollection) -> bool {
    &&& opt_chars(x.name) == opt_chars(y.name)
    &&& opt_chars(x.annotation) == opt_chars(y.annotation)
    &&& x.version == y.version
    &&& x.types.len() == y.types.len()
}

proof fn lemma_annotations_agree(s: Seq<char>, span: Option<(int, int)>, x: Option<String>, y: Option<String>)
    requires
        annotation_is(x, s, span),
        annotation_is(y, s, span),
    ensures
        opt_chars(x) == opt_chars(y),
{
}

proof fn lemma_kinds_agree(s: Seq<char>, ps: Seq<int>, a: Seq<ModuleContent>, b: Seq<ModuleContent>)
    requires
        a.len() == ps.len(),
        b.len() == ps.len(),
        forall|k: int| 0 <= k < a.len() ==> declaration_found(s, ps[k], #[trigger] a[k]),
        forall|k: int| 0 <= k < b.len() ==> declaration_found(s, ps[k], #[trigger] b[k]),
    ensures
        interfaces_of(a).len() == interfaces_of(b).len(),
        collections_of(a).len() == collections_of(b).len(),
        forall|k: int|
            0 <= k < interfaces_of(a).len() ==> interface_heads_agree(
                #[trigger] interfaces_of(a)[k],
                interfaces_of(b)[k],
            ),
        forall|k: int|
            0 <= k < collections_of(a).len() ==> collection_heads_agree(
                #[trigger] collections_of(a)[k],
                collections_of(b)[k],
            ),
    decreases ps.len(),
{
    if ps.len() > 0 {
        let n = ps.len() - 1;
        let (a0, b0) = (a.drop_last(), b.drop_last());
        lemma_kinds_agree(s, ps.drop_last(), a0, b0);
        assert(declaration_found(s, ps[n], a[n]) && declaration_found(s, ps[n], b[n]));
        reveal(declaration_found);
        assert(a.last() is Interface <==> b.last() is Interface);
        match (a.last(), b.last()) {
            (ModuleContent::Interface(x), ModuleContent::Interface(y)) => {
                let m = interface_at(s, ps[n])->0;
                let ix = choose|items: Seq<InterfaceContent>| interface_is(s, m, x, items);
                let iy = choose|items: Seq<InterfaceContent>| interface_is(s, m, y, items);
                reveal(interface_is);
                lemma_annotations_agree(s, m.0, x.annotation, y.annotation);
                lemma_items_agree(s, m.4, ix, iy);
                assert(interface_heads_agree(x, y));
                assert forall|k: int| 0 <= k < interfaces_of(a).len() implies interface_heads_agree(
                    #[trigger] interfaces_of(a)[k],
                    interfaces_of(b)[k],
                ) by {
                    if k < interfaces_of(a0).len() {
                        assert(interfaces_of(a)[k] == interfaces_of(a0)[k]);
                        assert(interfaces_of(b)[k] == interfaces_of(b0)[k]);
                    }
                }
            },
            (ModuleContent::TypeCollection(x), ModuleContent::TypeCollection(y)) => {
                let m = type_collection_at(s, ps[n])->0;
                lemma_annotations_agree(s, m.0, x.annotation, y.annotation);
                assert(collection_heads_agree(x, y));
                assert forall|k: int|
                    0 <= k < collections_of(a).len() implies collection_heads_agree(
                    #[trigger] collections_of(a)[k],
                    collections_of(b)[k],
                ) by {
                    if k < collections_of(a0).len() {
                        assert(collections_of(a)[k] == collections_of(a0)[k]);
                        assert(collections_of(b)[k] == collections_of(b0)[k]);
                    }
                }
            },
            _ => {},
        }
    }
}

/// Parsing is a function of the text: two parses of one text both hold the
/// same package and the same imports, in order, and as many interfaces and
/// as many type collections, which agree one by one: each interface in its
/// name, annotation and version and in how many attributes, types,
/// broadcasts and methods it holds, each type collection in its name,
/// annotation, version and number of types.
pub proof fn lemma_parses_agree(s: Seq<char>, v1: Module, v2: Module)
    requires
        module_parsed(s, v1),
        module_parsed(s, v2),
    ensures
        v1.package@ == v2.package@,
        v1.imports.len() == v2.imports.len(),
        forall|k: int|
            0 <= k < v1.imports.len() ==> (#[trigger] v1.imports[k]).namespace@
                == v2.imports[k].namespace@ && v1.imports[k].uri@ == v2.imports[k].uri@,
        v1.interfaces.len() == v2.interfaces.len(),
        v1.type_collections.len() == v2.type_collections.len(),
        forall|k: int|
            0 <= k < v1.interfaces.len() ==> interface_heads_agree(
                #[trigger] v1.interfaces[k],
                v2.interfaces[k],
            ),
        forall|k: int|
            0 <= k < v1.type_collections.len() ==> collection_heads_agree(
                #[trigger] v1.type_collections[k],
                v2.type_collections[k],
            ),
{
    let m = module_at(s)->0;
    let a = choose|items: Seq<ModuleContent>| module_is(s, m, v1, items);
    let b = choose|items: Seq<ModuleContent>| module_is(s, m, v2, items);
    reveal(module_is);
    assert forall|k: int| 0 <= k < v1.imports.len() implies (#[trigger] v1.imports[k]).namespace@
        == v2.imports[k].namespace@ && v1.imports[k].uri@ == v2.imports[k].uri@ by {
        let one = m.2[k];
        assert(v1.imports@[k].namespace@ == one.0 && v1.imports@[k].uri@ == one.1);
        assert(v2.imports@[k].namespace@ == one.0 && v2.imports@[k].uri@ == one.1);
    }
    lemma_kinds_agree(s, m.3, a, b);
    assert forall|k: int| 0 <= k < v1.interfaces.len() implies interface_heads_agree(
        #[trigger] v1.interfaces[k],
        v2.interfaces[k],
    ) by {
        assert(v1.interfaces@[k] == interfaces_of(a)[k]);
        assert(v2.interfaces@[k] == interfaces_of(b)[k]);
    }
    assert forall|k: int| 0 <= k < v1.type_collections.len() implies collection_heads_agree(
        #[trigger] v1.type_collections[k],
        v2.type_collections[k],
    ) by {
        assert(v1.type_collections@[k] == collections_of(a)[k]);
        assert(v2.type_collections@[k] == collections_of(b)[k]);
    }
}

/// The module that a text holds has as many imports as `module_at` finds.
pub proof fn lemma_module_imports(s: Seq<char>, v: Module)
    requires
        module_parsed(s, v),
    ensures
        v.imports@.len() == (module_at(s)->0).2.len(),
{
    reveal(module_is);
}

/// The whole text as a module: package declaration, imports, then interfaces
/// and type collections in any order, with nothing left over. Gives the
/// declarations too, in the order they stand.
#[verifier::rlimit(40)]
fn module(src: &Src) -> (r: Option<(Module, Ghost<Seq<ModuleContent>>)>)
    requires
        src.wf(),
    ensures
        match module_at(src@) {
            Some(m) => r matches Some((v, items)) && module_is(src@, m, v, items@),
            None => r is None,
        },
{
    let (package, p) = match package(src, 0) {
        Some(p) => p,
        None => return None,
    };
    let (imports, q) = imports(src, p);
    let (interfaces, type_collections, t, items) = declarations(src, q);
    if skip_ws(src, t) == src.len() {
        let v = Module { package, imports, interfaces, type_collections };
        assert(module_is(src@, module_at(src@)->0, v, items@)) by {
            reveal(module_is);
        }
        Some((v, items))
    } else {
        None
    }
}

/// Parses the text of a whole source file. Fails where the package
/// declaration is missing or malformed, or where anything is left that the
/// grammar does not take.
pub fn parse_module<'a>(input: &'a str) -> (r: PResult<'a, Module>)
    ensures
        module_at(input@) is Some ==> (r matches Ok((rest, v)) && rest@.len() == 0
            && module_parsed(input@, v)),
        module_at(input@) is None ==> r is Err,
        package_at(input@, 0) is None ==> r is Err,
{
    let src = Src::new(input);
    match module(&src) {
        Some((m, items)) => {
            assert(module_is(input@, module_at(input@)->0, m, items@));
            assert(module_parsed(input@, m));
            Ok((src.rest(src.len()), m))
        },
        None => Err(Mismatch),
    }
}

} // verus!
