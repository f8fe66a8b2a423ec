//! Lexical primitives of the interface-definition language, over the
//! characters of one source text addressed by position.
use vstd::prelude::*;
use vstd::std_specs::iter::IteratorSpec;

verus! {

/// The characters of `s`, in order, for indexed access.
pub fn chars_of(s: &str) -> (r: Vec<char>)
    ensures
        r@ == s@,
{
    let mut r: Vec<char> = Vec::new();
    for c in it: s.chars()
        invariant
            r@ == it.seq().take(it.index() as int),
    {
        r.push(c);
    }
    r
}

/// A source text together with its characters.
pub struct Src<'a> {
    pub text: &'a str,
    pub chars: Vec<char>,
}

impl<'a> Src<'a> {
    pub open spec fn wf(&self) -> bool {
        self.chars@ == self.text@
    }

    pub open spec fn view(&self) -> Seq<char> {
        self.chars@
    }

    pub fn new(text: &'a str) -> (r: Src<'a>)
        ensures
            r.wf(),
            r.text == text,
            r@ == text@,
    {
        Src { text, chars: chars_of(text) }
    }

    pub fn len(&self) -> (r: usize)
        ensures
            r == self@.len(),
    {
        self.chars.len()
    }

    /// The characters between positions `a` and `b` as a new string.
    pub fn slice(&self, a: usize, b: usize) -> (r: String)
        requires
            self.wf(),
            a <= b <= self@.len(),
        ensures
            r@ == self@.subrange(a as int, b as int),
    {
        String::from_str(self.text.substring_char(a, b))
    }

    /// The characters between positions `a` and `b`, borrowed.
    pub fn part(&self, a: usize, b: usize) -> (r: &'a str)
        requires
            self.wf(),
            a <= b <= self@.len(),
        ensures
            r@ == self@.subrange(a as int, b as int),
    {
        self.text.substring_char(a, b)
    }

    /// The text that follows position `a`.
    pub fn rest(&self, a: usize) -> (r: &'a str)
        requires
            self.wf(),
            a <= self@.len(),
        ensures
            r@ == self@.subrange(a as int, self@.len() as int),
    {
        self.text.substring_char(a, self.chars.len())
    }

    /// Whether the character at `i` is `c`.
    pub fn is_at(&self, i: usize, c: char) -> (r: bool)
        ensures
            r == char_at(self@, i as int, c),
            self@.len() == self.chars.len() <= usize::MAX,
    {
        i < self.chars.len() && self.chars[i] == c
    }
}

/// The classes of characters that the grammar distinguishes.
#[derive(Clone, Copy, PartialEq, Eq, Debug)]
pub enum CharClass {
    Space,
    Letter,
    Digit,
    HexDigit,
    BinDigit,
    Word,
}

pub open spec fn is_letter(c: char) -> bool {
    ('a' <= c && c <= 'z') || ('A' <= c && c <= 'Z')
}

pub open spec fn is_digit(c: char) -> bool {
    '0' <= c && c <= '9'
}

pub open spec fn in_class(k: CharClass, c: char) -> bool {
    match k {
        CharClass::Space => c == ' ' || c == '\t' || c == '\n' || c == '\r',
        CharClass::Letter => is_letter(c),
        CharClass::Digit => is_digit(c),
        CharClass::HexDigit => is_digit(c) || ('a' <= c && c <= 'f') || ('A' <= c && c <= 'F'),
        CharClass::BinDigit => c == '0' || c == '1',
        CharClass::Word => is_letter(c) || is_digit(c) || c == '_',
    }
}

pub fn class_has(k: CharClass, c: char) -> (r: bool)
    ensures
        r == in_class(k, c),
{
    match k {
        CharClass::Space => c == ' ' || c == '\t' || c == '\n' || c == '\r',
        CharClass::Letter => ('a' <= c && c <= 'z') || ('A' <= c && c <= 'Z'),
        CharClass::Digit => '0' <= c && c <= '9',
        CharClass::HexDigit => ('0' <= c && c <= '9') || ('a' <= c && c <= 'f') || ('A' <= c
            && c <= 'F'),
        CharClass::BinDigit => c == '0' || c == '1',
        CharClass::Word => ('a' <= c && c <= 'z') || ('A' <= c && c <= 'Z') || ('0' <= c && c
            <= '9') || c == '_',
    }
}

/// A position handed back by an executable parser, as an integer.
pub open spec fn pos_of(r: Option<usize>) -> Option<int> {
    match r {
        Some(e) => Some(e as int),
        None => None,
    }
}

pub open spec fn char_at(s: Seq<char>, i: int, c: char) -> bool {
    0 <= i < s.len() && s[i] == c
}

/// The end of the longest run of characters of class `k` that starts at `i`.
pub open spec fn span_end(s: Seq<char>, i: int, k: CharClass) -> int
    decreases s.len() - i,
{
    if 0 <= i < s.len() && in_class(k, s[i]) {
        span_end(s, i + 1, k)
    } else {
        i
    }
}

pub proof fn lemma_span_bounds(s: Seq<char>, i: int, k: CharClass)
    requires
        0 <= i <= s.len(),
    ensures
        i <= span_end(s, i, k) <= s.len(),
        forall|j: int| i <= j < span_end(s, i, k) ==> in_class(k, #[trigger] s[j]),
        span_end(s, i, k) < s.len() ==> !in_class(k, s[span_end(s, i, k)]),
    decreases s.len() - i,
{
    if i < s.len() && in_class(k, s[i]) {
        lemma_span_bounds(s, i + 1, k);
    }
}

/// Position after the run of class `k` that starts at `i`.
pub fn span(src: &Src, i: usize, k: CharClass) -> (e: usize)
    requires
        i <= src@.len(),
    ensures
        e == span_end(src@, i as int, k),
        i <= e <= src@.len(),
{
    proof {
        lemma_span_bounds(src@, i as int, k);
    }
    let mut j = i;
    while j < src.chars.len() && class_has(k, src.chars[j])
        invariant
            i <= j <= src@.len(),
            span_end(src@, j as int, k) == span_end(src@, i as int, k),
        decreases src@.len() - j,
    {
        j = j + 1;
    }
    j
}

/// Position after the whitespace that starts at `i`.
pub open spec fn ws_end(s: Seq<char>, i: int) -> int {
    span_end(s, i, CharClass::Space)
}

pub fn skip_ws(src: &Src, i: usize) -> (e: usize)
    requires
        i <= src@.len(),
    ensures
        e == ws_end(src@, i as int),
        i <= e <= src@.len(),
{
    span(src, i, CharClass::Space)
}

/// End of an identifier at `i`: an optional `^`, a letter or `_`, then letters,
/// digits and `_`.
pub open spec fn ident_end(s: Seq<char>, i: int) -> Option<int> {
    let j = if char_at(s, i, '^') {
        i + 1
    } else {
        i
    };
    if 0 <= j < s.len() && (is_letter(s[j]) || s[j] == '_') {
        Some(span_end(s, j + 1, CharClass::Word))
    } else {
        None
    }
}

pub proof fn lemma_ident_bounds(s: Seq<char>, i: int)
    requires
        0 <= i <= s.len(),
    ensures
        ident_end(s, i) matches Some(e) ==> i < e <= s.len(),
{
    let j = if char_at(s, i, '^') {
        i + 1
    } else {
        i
    };
    if 0 <= j < s.len() {
        lemma_span_bounds(s, j + 1, CharClass::Word);
    }
}

pub fn ident(src: &Src, i: usize) -> (r: Option<usize>)
    requires
        i <= src@.len(),
    ensures
        pos_of(r) == ident_end(src@, i as int),
        r matches Some(e) ==> i < e <= src@.len(),
{
    proof {
        lemma_ident_bounds(src@, i as int);
    }
    let j = if src.is_at(i, '^') {
        i + 1
    } else {
        i
    };
    if j < src.len() && (class_has(CharClass::Letter, src.chars[j]) || src.chars[j] == '_') {
        Some(span(src, j + 1, CharClass::Word))
    } else {
        None
    }
}

/// End of the `.identifier` segments that follow position `j`.
pub open spec fn fqn_tail(s: Seq<char>, j: int) -> int
    decreases s.len() - j,
{
    if char_at(s, j, '.') {
        match ident_end(s, j + 1) {
            Some(e) => if j < e <= s.len() {
                fqn_tail(s, e)
            } else {
                j
            },
            None => j,
        }
    } else {
        j
    }
}

/// End of a fully qualified name at `i`: identifiers joined by dots.
pub open spec fn fqn_end(s: Seq<char>, i: int) -> Option<int> {
    match ident_end(s, i) {
        Some(e) => Some(fqn_tail(s, e)),
        None => None,
    }
}

pub proof fn lemma_fqn_tail_bounds(s: Seq<char>, j: int)
    requires
        0 <= j <= s.len(),
    ensures
        j <= fqn_tail(s, j) <= s.len(),
    decreases s.len() - j,
{
    if char_at(s, j, '.') {
        lemma_ident_bounds(s, j + 1);
        if let Some(e) = ident_end(s, j + 1) {
            lemma_fqn_tail_bounds(s, e);
        }
    }
}

pub fn fqn(src: &Src, i: usize) -> (r: Option<usize>)
    requires
        i <= src@.len(),
    ensures
        pos_of(r) == fqn_end(src@, i as int),
        r matches Some(e) ==> i < e <= src@.len(),
{
    match ident(src, i) {
        None => None,
        Some(e0) => {
            proof {
                lemma_fqn_tail_bounds(src@, e0 as int);
            }
            let mut j = e0;
            loop
                invariant
                    i < e0 <= j <= src@.len(),
                    fqn_tail(src@, j as int) == fqn_tail(src@, e0 as int),
                ensures
                    i < e0 <= j <= src@.len(),
                    fqn_tail(src@, j as int) == fqn_tail(src@, e0 as int),
                    fqn_tail(src@, j as int) == j,
                decreases src@.len() - j,
            {
                if !src.is_at(j, '.') {
                    break;
                }
                match ident(src, j + 1) {
                    Some(e) => {
                        j = e;
                    },
                    None => {
                        break;
                    },
                }
            }
            Some(j)
        },
    }
}

/// Whether a word ends at `e`: no letter, digit, `_` or `^` follows, which
/// would run on into a name.
pub open spec fn word_ends(s: Seq<char>, e: int) -> bool {
    !(0 <= e < s.len() && (in_class(CharClass::Word, s[e]) || s[e] == '^'))
}

/// End of a keyword `w` at `i`: leading whitespace, then a run of letters that
/// is exactly `w`, not followed by anything that would continue a name.
pub open spec fn keyword_end(s: Seq<char>, i: int, w: Seq<char>) -> Option<int> {
    let a = ws_end(s, i);
    let e = span_end(s, a, CharClass::Letter);
    if s.subrange(a, e) == w && word_ends(s, e) {
        Some(e)
    } else {
        None
    }
}

pub fn keyword(src: &Src, i: usize, w: &str) -> (r: Option<usize>)
    requires
        i <= src@.len(),
    ensures
        pos_of(r) == keyword_end(src@, i as int, w@),
        r matches Some(e) ==> i <= ws_end(src@, i as int) <= e <= src@.len(),
{
    let a = skip_ws(src, i);
    let e = span(src, a, CharClass::Letter);
    let ends = e >= src.len() || !(class_has(CharClass::Word, src.chars[e]) || src.chars[e] == '^');
    if same_chars(src, a, e, w) && ends {
        Some(e)
    } else {
        None
    }
}

/// Position after a quoted string at `i`, with the span of its content: a
/// quote, anything up to the next quote of the same kind, and that quote.
pub open spec fn find_char(s: Seq<char>, j: int, c: char) -> Option<int>
    decreases s.len() - j,
{
    if 0 <= j < s.len() {
        if s[j] == c {
            Some(j)
        } else {
            find_char(s, j + 1, c)
        }
    } else {
        None
    }
}

pub proof fn lemma_find_char_bounds(s: Seq<char>, j: int, c: char)
    requires
        0 <= j,
    ensures
        find_char(s, j, c) matches Some(e) ==> j <= e < s.len() && s[e] == c,
    decreases s.len() - j,
{
    if 0 <= j < s.len() && s[j] != c {
        lemma_find_char_bounds(s, j + 1, c);
    }
}

/// Content span and end of a string quoted with `'` or `"` at `i`.
pub open spec fn quoted_at(s: Seq<char>, i: int) -> Option<(int, int)> {
    if 0 <= i < s.len() && (s[i] == '"' || s[i] == '\'') {
        match find_char(s, i + 1, s[i]) {
            Some(c) => Some((c, c + 1)),
            None => None,
        }
    } else {
        None
    }
}

pub fn quoted(src: &Src, i: usize) -> (r: Option<(usize, usize)>)
    requires
        i <= src@.len(),
    ensures
        match quoted_at(src@, i as int) {
            Some((c, e)) => r matches Some((c2, e2)) && c2 == c && e2 == e,
            None => r is None,
        },
        r matches Some((c, e)) ==> i < c && c + 1 == e && e <= src@.len(),
{
    if i >= src.len() {
        return None;
    }
    let q = src.chars[i];
    if q != '"' && q != '\'' {
        return None;
    }
    proof {
        lemma_find_char_bounds(src@, i + 1, q);
    }
    let mut j = i + 1;
    while j < src.len() && src.chars[j] != q
        invariant
            i < j <= src@.len(),
            find_char(src@, j as int, q) == find_char(src@, i + 1, q),
        decreases src@.len() - j,
    {
        j = j + 1;
    }
    if j < src.len() {
        Some((j, j + 1))
    } else {
        None
    }
}

/// Position of the first `**>` at or after `j`.
pub open spec fn close_at(s: Seq<char>, j: int) -> Option<int>
    decreases s.len() - j,
{
    if 0 <= j && j + 3 <= s.len() {
        if s[j] == '*' && s[j + 1] == '*' && s[j + 2] == '>' {
            Some(j)
        } else {
            close_at(s, j + 1)
        }
    } else {
        None
    }
}

pub proof fn lemma_close_bounds(s: Seq<char>, j: int)
    requires
        0 <= j,
    ensures
        close_at(s, j) matches Some(c) ==> j <= c && c + 3 <= s.len(),
    decreases s.len() - j,
{
    if 0 <= j && j + 3 <= s.len() && !(s[j] == '*' && s[j + 1] == '*' && s[j + 2] == '>') {
        lemma_close_bounds(s, j + 1);
    }
}

/// An annotation block at `i`: `<**`, its text up to the first `**>`, that
/// `**>` and the whitespace after it. Gives the text's span and the end.
pub open spec fn annotation_at(s: Seq<char>, i: int) -> Option<(int, int, int)> {
    if char_at(s, i, '<') && char_at(s, i + 1, '*') && char_at(s, i + 2, '*') {
        match close_at(s, i + 3) {
            Some(c) => Some((i + 3, c, ws_end(s, c + 3))),
            None => None,
        }
    } else {
        None
    }
}

pub fn annotation(src: &Src, i: usize) -> (r: Option<(usize, usize, usize)>)
    requires
        i <= src@.len(),
    ensures
        match annotation_at(src@, i as int) {
            Some((a, c, e)) => r matches Some((a2, c2, e2)) && a2 == a && c2 == c && e2 == e,
            None => r is None,
        },
        r matches Some((a, c, e)) ==> i + 3 == a && a <= c && c + 3 <= e && e <= src@.len(),
{
    if !(src.is_at(i, '<') && src.is_at(i + 1, '*') && src.is_at(i + 2, '*')) {
        return None;
    }
    proof {
        lemma_close_bounds(src@, i + 3);
    }
    let n = src.len();
    let mut j = i + 3;
    while n - j >= 3 && !(src.chars[j] == '*' && src.chars[j + 1] == '*' && src.chars[j
        + 2] == '>')
        invariant
            i + 3 <= j,
            j <= src@.len(),
            n == src@.len(),
            close_at(src@, j as int) == close_at(src@, i + 3),
        decreases src@.len() - j,
    {
        j = j + 1;
    }
    if n - j >= 3 {
        Some((i + 3, j, skip_ws(src, j + 3)))
    } else {
        None
    }
}

/// The value of one digit in base 16 (and so in bases 10 and 2).
pub open spec fn digit_value(c: char) -> nat {
    if '0' <= c && c <= '9' {
        ((c as int) - ('0' as int)) as nat
    } else if 'a' <= c && c <= 'f' {
        ((c as int) - ('a' as int) + 10) as nat
    } else if 'A' <= c && c <= 'F' {
        ((c as int) - ('A' as int) + 10) as nat
    } else {
        0
    }
}

/// The number that the digits `d` write in base `b`, most significant first.
pub open spec fn digits_value(d: Seq<char>, b: nat) -> nat
    decreases d.len(),
{
    if d.len() == 0 {
        0
    } else {
        digits_value(d.drop_last(), b) * b + digit_value(d.last())
    }
}

pub fn digit_of(c: char) -> (r: u64)
    ensures
        r == digit_value(c),
        r < 16,
{
    if '0' <= c && c <= '9' {
        (c as u64) - ('0' as u64)
    } else if 'a' <= c && c <= 'f' {
        (c as u64) - ('a' as u64) + 10
    } else if 'A' <= c && c <= 'F' {
        (c as u64) - ('A' as u64) + 10
    } else {
        0
    }
}

pub proof fn lemma_digits_prefix_le(d: Seq<char>, k: int, b: nat)
    requires
        0 <= k <= d.len(),
        b >= 1,
    ensures
        digits_value(d.take(k), b) <= digits_value(d, b),
    decreases d.len() - k,
{
    if k < d.len() {
        lemma_digits_prefix_le(d, k + 1, b);
        assert(d.take(k + 1).drop_last() =~= d.take(k));
        let v = digits_value(d.take(k), b);
        assert(v * b >= v) by (nonlinear_arith)
            requires
                b >= 1,
        ;
    } else {
        assert(d.take(k) =~= d);
    }
}

/// The value of the digits between `a` and `e` in base `b`, where it fits in
/// 64 bits.
pub fn digits_u64(src: &Src, a: usize, e: usize, b: u64) -> (r: Option<u64>)
    requires
        a <= e <= src@.len(),
        b == 2 || b == 10 || b == 16,
    ensures
        r matches Some(v) ==> v == digits_value(src@.subrange(a as int, e as int), b as nat),
        r is None ==> digits_value(src@.subrange(a as int, e as int), b as nat) > u64::MAX,
{
    let ghost d = src@.subrange(a as int, e as int);
    let mut v: u64 = 0;
    let mut j = a;
    while j < e
        invariant
            a <= j <= e <= src@.len(),
            d == src@.subrange(a as int, e as int),
            b == 2 || b == 10 || b == 16,
            v == digits_value(d.take(j - a), b as nat),
        decreases e - j,
    {
        let dv = digit_of(src.chars[j]);
        proof {
            assert(d.take(j - a + 1).drop_last() =~= d.take(j - a));
            assert(d.take(j - a + 1).last() == src@[j as int]);
        }
        let lim = (u64::MAX - dv) / b;
        if v > lim {
            proof {
                assert(v * b + dv > u64::MAX) by (nonlinear_arith)
                    requires
                        v > lim,
                        lim == (u64::MAX - dv) as int / b as int,
                        b > 0,
                        dv < 16,
                ;
                lemma_digits_prefix_le(d, j - a + 1, b as nat);
            }
            return None;
        }
        proof {
            assert(v * b + dv <= u64::MAX) by (nonlinear_arith)
                requires
                    v <= lim,
                    lim == (u64::MAX - dv) as int / b as int,
                    b > 0,
                    dv < 16,
            ;
        }
        v = v * b + dv;
        j = j + 1;
    }
    assert(d.take(e - a) =~= d);
    Some(v)
}

} // verus!

verus! {

/// Whether the characters between `a` and `e` are exactly `w`.
pub fn same_chars(src: &Src, a: usize, e: usize, w: &str) -> (r: bool)
    requires
        a <= e <= src@.len(),
    ensures
        r == (src@.subrange(a as int, e as int) == w@),
{
    let n = w.unicode_len();
    if e - a != n {
        assert(src@.subrange(a as int, e as int).len() != w@.len());
        return false;
    }
    let mut k: usize = 0;
    while k < n
        invariant
            a <= e <= src@.len(),
            e - a == n,
            n == w@.len(),
            k <= n,
            forall|m: int| 0 <= m < k ==> src@[a + m] == w@[m],
        decreases n - k,
    {
        if src.chars[a + k] != w.get_char(k) {
            assert(src@.subrange(a as int, e as int)[k as int] != w@[k as int]);
            return false;
        }
        k = k + 1;
    }
    assert(src@.subrange(a as int, e as int) =~= w@);
    true
}

} // verus!

verus! {

/// A run of class `k` from `a` to `b` that the next character ends.
pub proof fn lemma_span_exact(s: Seq<char>, a: int, b: int, k: CharClass)
    requires
        0 <= a <= b <= s.len(),
        forall|j: int| a <= j < b ==> in_class(k, #[trigger] s[j]),
        b < s.len() ==> !in_class(k, s[b]),
    ensures
        span_end(s, a, k) == b,
    decreases b - a,
{
    if a < b {
        lemma_span_exact(s, a + 1, b, k);
    }
}

/// Whether `t` holds no `**>`.
pub open spec fn no_close(t: Seq<char>) -> bool {
    forall|k: int| 0 <= k && k + 3 <= t.len() ==> !(#[trigger] t[k] == '*' && t[k + 1] == '*' && t[k
        + 2] == '>')
}

proof fn lemma_close_scan(s: Seq<char>, j: int, c: int)
    requires
        0 <= j <= c,
        c + 3 <= s.len(),
        s[c] == '*' && s[c + 1] == '*' && s[c + 2] == '>',
        forall|k: int| j <= k < c ==> !(#[trigger] s[k] == '*' && s[k + 1] == '*' && s[k + 2] == '>'),
    ensures
        close_at(s, j) == Some(c),
    decreases c - j,
{
    if j < c {
        lemma_close_scan(s, j + 1, c);
    }
}

/// An annotation block `<** text **>` whose text holds no `**>`: the captured
/// text is `text` itself, newlines and all, and parsing resumes right after
/// the `**>`, past the whitespace that follows it.
pub proof fn lemma_annotation_verbatim(text: Seq<char>, rest: Seq<char>)
    requires
        no_close(text),
    ensures
        ({
            let s = "<**"@ + text + "**>"@ + rest;
            let c = 3 + text.len() as int;
            &&& annotation_at(s, 0) == Some((3int, c, ws_end(s, c + 3)))
            &&& s.subrange(3, c) == text
            &&& s.subrange(c, c + 3) == "**>"@
        }),
{
    reveal_strlit("<**");
    reveal_strlit("**>");
    let s = "<**"@ + text + "**>"@ + rest;
    let c = 3 + text.len() as int;
    assert(s[c] == '*' && s[c + 1] == '*' && s[c + 2] == '>');
    assert forall|k: int| 3 <= k < c implies !(#[trigger] s[k] == '*' && s[k + 1] == '*' && s[k
        + 2] == '>') by {
        if k + 3 <= c {
            assert(s[k] == text[k - 3] && s[k + 1] == text[k - 2] && s[k + 2] == text[k - 1]);
        } else {
            assert(s[k + 2] == '*');
        }
    }
    lemma_close_scan(s, 3, c);
    assert(s.subrange(3, c) =~= text);
    assert(s.subrange(c, c + 3) =~= "**>"@);
}

} // verus!

verus! {

/// Whether every character of `w` is whitespace.
pub open spec fn all_space(w: Seq<char>) -> bool {
    forall|i: int| 0 <= i < w.len() ==> in_class(CharClass::Space, #[trigger] w[i])
}

/// `f` stands in `s` at `p`.
pub open spec fn placed(f: Seq<char>, s: Seq<char>, p: int) -> bool {
    0 <= p && p + f.len() <= s.len() && s.subrange(p, p + f.len()) == f
}

/// A run of class `k` inside `f` ends at the same place inside `s`, where
/// `f` stands, if the character after `f` in `s` is not of class `k`.
pub proof fn lemma_span_shift(f: Seq<char>, s: Seq<char>, p: int, x: int, k: CharClass)
    requires
        placed(f, s, p),
        0 <= x <= f.len(),
        p + f.len() < s.len() ==> !in_class(k, s[p + f.len()]),
    ensures
        span_end(s, p + x, k) == p + span_end(f, x, k),
    decreases f.len() - x,
{
    if x < f.len() {
        assert(s[p + x] == s.subrange(p, p + f.len())[x]);
        if in_class(k, f[x]) {
            lemma_span_shift(f, s, p, x + 1, k);
        }
    }
}

pub proof fn lemma_ident_shift(f: Seq<char>, s: Seq<char>, p: int, x: int)
    requires
        placed(f, s, p),
        0 <= x <= f.len(),
        p + f.len() < s.len() ==> !in_class(CharClass::Word, s[p + f.len()]),
    ensures
        ident_end(f, x) matches Some(e) ==> ident_end(s, p + x) == Some(p + e),
{
    if x < f.len() {
        assert(s[p + x] == s.subrange(p, p + f.len())[x]);
        let j = if char_at(f, x, '^') {
            x + 1
        } else {
            x
        };
        if j < f.len() {
            assert(s[p + j] == s.subrange(p, p + f.len())[j]);
            lemma_span_shift(f, s, p, j + 1, CharClass::Word);
        }
    }
}

proof fn lemma_fqn_tail_shift(f: Seq<char>, s: Seq<char>, p: int, j: int)
    requires
        placed(f, s, p),
        0 <= j <= f.len(),
        fqn_tail(f, j) == f.len(),
        p + f.len() < s.len() ==> !in_class(CharClass::Word, s[p + f.len()]) && s[p + f.len()]
            != '.',
    ensures
        fqn_tail(s, p + j) == p + f.len(),
    decreases f.len() - j,
{
    if j < f.len() {
        assert(s[p + j] == s.subrange(p, p + f.len())[j]);
        lemma_ident_bounds(f, j + 1);
        if char_at(f, j, '.') {
            if let Some(e) = ident_end(f, j + 1) {
                lemma_ident_shift(f, s, p, j + 1);
                lemma_fqn_tail_shift(f, s, p, e);
            }
        }
    }
}

/// A fully qualified name `f` keeps its extent inside `s`, where it stands at
/// `p`, if no character of a name or dot follows it there.
pub proof fn lemma_fqn_shift(f: Seq<char>, s: Seq<char>, p: int)
    requires
        placed(f, s, p),
        fqn_end(f, 0) == Some(f.len() as int),
        p + f.len() < s.len() ==> !in_class(CharClass::Word, s[p + f.len()]) && s[p + f.len()]
            != '.',
    ensures
        fqn_end(s, p) == Some(p + f.len()),
        f.len() > 0 && !in_class(CharClass::Space, f[0]),
{
    lemma_ident_bounds(f, 0);
    let e = ident_end(f, 0)->0;
    lemma_ident_shift(f, s, p, 0);
    lemma_fqn_tail_shift(f, s, p, e);
}

} // verus!
