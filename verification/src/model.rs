//! The mathematical model of the scanner: character classification, the
//! greedy run boundaries, numeric-literal values, keyword lookup, and the
//! specification-level scan that the executable tokenizer is proved against.

use crate::token::Keyword;
use crate::token::ScanError;
use crate::token::TokenInfoView;
use crate::token::TokenView;
use crate::token::TokenWithInfo;
use vstd::prelude::*;

verus! {

// ------------------------------------------------------------------
// Character classification
// ------------------------------------------------------------------
/// An ASCII letter or underscore: the first character of an identifier.
pub open spec fn is_ident_start(c: char) -> bool {
    ||| ('a' as u32 <= c as u32 && c as u32 <= 'z' as u32)
    ||| ('A' as u32 <= c as u32 && c as u32 <= 'Z' as u32)
    ||| c == '_'
}

/// An ASCII decimal digit.
pub open spec fn is_digit(c: char) -> bool {
    '0' as u32 <= c as u32 && c as u32 <= '9' as u32
}

/// A character that may continue an identifier.
pub open spec fn is_ident_char(c: char) -> bool {
    is_ident_start(c) || is_digit(c)
}

/// An ASCII hexadecimal digit, either case.
pub open spec fn is_hex_digit(c: char) -> bool {
    ||| is_digit(c)
    ||| ('a' as u32 <= c as u32 && c as u32 <= 'f' as u32)
    ||| ('A' as u32 <= c as u32 && c as u32 <= 'F' as u32)
}

/// One of the six bracket characters, open and close undistinguished.
pub open spec fn is_paren(c: char) -> bool {
    c == '{' || c == '}' || c == '(' || c == ')' || c == '[' || c == ']'
}

/// A string delimiter: single quote, double quote, or backtick.
pub open spec fn is_quote(c: char) -> bool {
    c == '\'' || c == '"' || c == '`'
}

/// Printable ASCII punctuation that starts an operator symbol: the ranges
/// `!`..=`/`, `:`..=`@`, `[`..=`` ` ``, `{`..=`~`, minus the characters the
/// scanner has already classified as parentheses or quotes.
pub open spec fn is_symbol_start(c: char) -> bool {
    &&& {
        ||| ('!' as u32 <= c as u32 && c as u32 <= '/' as u32)
        ||| (':' as u32 <= c as u32 && c as u32 <= '@' as u32)
        ||| ('[' as u32 <= c as u32 && c as u32 <= '`' as u32)
        ||| ('{' as u32 <= c as u32 && c as u32 <= '~' as u32)
    }
    &&& !is_paren(c)
    &&& !is_quote(c)
}

/// A character the scanner consumes without emitting a token: space, tab,
/// and any character no classification rule matches.
pub open spec fn is_skipped(c: char) -> bool {
    !(c == '\n' || is_ident_start(c) || is_digit(c) || is_paren(c) || is_quote(c)
        || is_symbol_start(c))
}

/// The fixed allow-list of two-character operator symbols.
pub open spec fn is_symbol_pair(a: char, b: char) -> bool {
    ||| (a == '>' && b == '>')
    ||| (a == '<' && b == '<')
    ||| (a == '=' && b == '=')
    ||| (a == '!' && b == '=')
    ||| (a == '<' && b == '=')
    ||| (a == '>' && b == '=')
    ||| (a == '&' && b == '&')
    ||| (a == '|' && b == '|')
    ||| (a == '+' && b == '=')
    ||| (a == '-' && b == '=')
}

// ------------------------------------------------------------------
// Greedy run boundaries
// ------------------------------------------------------------------
/// The index just past the maximal run of identifier characters from `i`.
pub open spec fn ident_end(s: Seq<char>, i: int) -> int
    decreases s.len() - i,
    when 0 <= i <= s.len()
{
    if i < s.len() && is_ident_char(s[i]) {
        ident_end(s, i + 1)
    } else {
        i
    }
}

/// The index just past the maximal run of decimal digits from `i`.
pub open spec fn dec_end(s: Seq<char>, i: int) -> int
    decreases s.len() - i,
    when 0 <= i <= s.len()
{
    if i < s.len() && is_digit(s[i]) {
        dec_end(s, i + 1)
    } else {
        i
    }
}

/// The index just past the maximal run of hexadecimal digits from `i`.
pub open spec fn hex_end(s: Seq<char>, i: int) -> int
    decreases s.len() - i,
    when 0 <= i <= s.len()
{
    if i < s.len() && is_hex_digit(s[i]) {
        hex_end(s, i + 1)
    } else {
        i
    }
}

/// Scanning from `i` for the closing quote `q`: the index just past the
/// first occurrence of `q`, or the end of the input when the string is
/// unterminated.
pub open spec fn string_end(s: Seq<char>, i: int, q: char) -> int
    decreases s.len() - i,
    when 0 <= i <= s.len()
{
    if i >= s.len() {
        i
    } else if s[i] == q {
        i + 1
    } else {
        string_end(s, i + 1, q)
    }
}

pub proof fn lemma_ident_end_bounds(s: Seq<char>, i: int)
    requires
        0 <= i <= s.len(),
    ensures
        i <= ident_end(s, i) <= s.len(),
        forall|k: int| i <= k < ident_end(s, i) ==> is_ident_char(s[k]),
        ident_end(s, i) < s.len() ==> !is_ident_char(s[ident_end(s, i)]),
    decreases s.len() - i,
{
    if i < s.len() && is_ident_char(s[i]) {
        lemma_ident_end_bounds(s, i + 1);
    }
}

pub proof fn lemma_dec_end_bounds(s: Seq<char>, i: int)
    requires
        0 <= i <= s.len(),
    ensures
        i <= dec_end(s, i) <= s.len(),
        forall|k: int| i <= k < dec_end(s, i) ==> is_digit(s[k]),
        dec_end(s, i) < s.len() ==> !is_digit(s[dec_end(s, i)]),
    decreases s.len() - i,
{
    if i < s.len() && is_digit(s[i]) {
        lemma_dec_end_bounds(s, i + 1);
    }
}

pub proof fn lemma_hex_end_bounds(s: Seq<char>, i: int)
    requires
        0 <= i <= s.len(),
    ensures
        i <= hex_end(s, i) <= s.len(),
        forall|k: int| i <= k < hex_end(s, i) ==> is_hex_digit(s[k]),
        hex_end(s, i) < s.len() ==> !is_hex_digit(s[hex_end(s, i)]),
    decreases s.len() - i,
{
    if i < s.len() && is_hex_digit(s[i]) {
        lemma_hex_end_bounds(s, i + 1);
    }
}

pub proof fn lemma_string_end_bounds(s: Seq<char>, i: int, q: char)
    requires
        0 <= i <= s.len(),
    ensures
        i <= string_end(s, i, q) <= s.len(),
        forall|k: int| i <= k < string_end(s, i, q) - 1 ==> s[k] != q,
        string_end(s, i, q) < s.len() ==> s[string_end(s, i, q) - 1] == q,
        string_end(s, i, q) == s.len() ==> (s[string_end(s, i, q) - 1] == q || forall|k: int|
            i <= k < s.len() ==> s[k] != q),
    decreases s.len() - i,
{
    if i < s.len() && s[i] != q {
        lemma_string_end_bounds(s, i + 1, q);
    }
}

// ------------------------------------------------------------------
// Numeric-literal values and keyword lookup
// ------------------------------------------------------------------
/// The value of a decimal digit character.
pub open spec fn digit_val(c: char) -> int {
    c as u32 - '0' as u32
}

/// The value of a hexadecimal digit character, either case.
pub open spec fn hex_digit_val(c: char) -> int {
    if is_digit(c) {
        c as u32 - '0' as u32
    } else if 'a' as u32 <= c as u32 && c as u32 <= 'f' as u32 {
        c as u32 - 'a' as u32 + 10
    } else {
        c as u32 - 'A' as u32 + 10
    }
}

/// The value of a run of decimal digits, most significant first.
pub open spec fn dec_val(s: Seq<char>) -> int
    decreases s.len(),
{
    if s.len() == 0 {
        0
    } else {
        dec_val(s.drop_last()) * 10 + digit_val(s.last())
    }
}

/// The value of a run of hexadecimal digits, most significant first.
pub open spec fn hex_val(s: Seq<char>) -> int
    decreases s.len(),
{
    if s.len() == 0 {
        0
    } else {
        hex_val(s.drop_last()) * 16 + hex_digit_val(s.last())
    }
}

pub proof fn lemma_dec_val_nonneg(s: Seq<char>)
    requires
        forall|k: int| 0 <= k < s.len() ==> is_digit(s[k]),
    ensures
        0 <= dec_val(s),
    decreases s.len(),
{
    if s.len() > 0 {
        lemma_dec_val_nonneg(s.drop_last());
    }
}

/// A run of digits is worth at least any of its prefixes: once a prefix
/// overflows, the whole literal does.
pub proof fn lemma_dec_val_prefix(s: Seq<char>, a: int, m: int, b: int)
    requires
        0 <= a <= m <= b <= s.len(),
        forall|k: int| a <= k < b ==> is_digit(s[k]),
    ensures
        dec_val(s.subrange(a, m)) <= dec_val(s.subrange(a, b)),
    decreases b - m,
{
    if m < b {
        lemma_dec_val_prefix(s, a, m, b - 1);
        assert(s.subrange(a, b).drop_last() =~= s.subrange(a, b - 1));
        lemma_dec_val_nonneg(s.subrange(a, b - 1));
        assert(forall|k: int| 0 <= k < s.subrange(a, b).len() ==> is_digit(s.subrange(a, b)[k]));
        assert(is_digit(s.subrange(a, b).last()));
    }
}

pub proof fn lemma_hex_val_nonneg(s: Seq<char>)
    requires
        forall|k: int| 0 <= k < s.len() ==> is_hex_digit(s[k]),
    ensures
        0 <= hex_val(s),
    decreases s.len(),
{
    if s.len() > 0 {
        lemma_hex_val_nonneg(s.drop_last());
    }
}

/// A run of hexadecimal digits is worth at least any of its prefixes.
pub proof fn lemma_hex_val_prefix(s: Seq<char>, a: int, m: int, b: int)
    requires
        0 <= a <= m <= b <= s.len(),
        forall|k: int| a <= k < b ==> is_hex_digit(s[k]),
    ensures
        hex_val(s.subrange(a, m)) <= hex_val(s.subrange(a, b)),
    decreases b - m,
{
    if m < b {
        lemma_hex_val_prefix(s, a, m, b - 1);
        assert(s.subrange(a, b).drop_last() =~= s.subrange(a, b - 1));
        lemma_hex_val_nonneg(s.subrange(a, b - 1));
        assert(forall|k: int|
            0 <= k < s.subrange(a, b).len() ==> is_hex_digit(s.subrange(a, b)[k]));
        assert(is_hex_digit(s.subrange(a, b).last()));
    }
}

/// The spelling of a keyword.
pub open spec fn keyword_name(k: Keyword) -> Seq<char> {
    match k {
        Keyword::If => seq!['i', 'f'],
        Keyword::Fi => seq!['f', 'i'],
    }
}

/// Exact lookup in the fixed keyword table.
pub open spec fn keyword_of(t: Seq<char>) -> Option<Keyword> {
    if t == keyword_name(Keyword::If) {
        Some(Keyword::If)
    } else if t == keyword_name(Keyword::Fi) {
        Some(Keyword::Fi)
    } else {
        None
    }
}

// ------------------------------------------------------------------
// The scan itself
// ------------------------------------------------------------------
/// A token covering `[start, end)`.
pub open spec fn spanned(start: int, end: int, token: TokenView) -> TokenInfoView {
    TokenInfoView { start, end, token }
}

/// Prepends a token to the result of scanning the rest of the input; an
/// error aborts the whole scan unchanged.
pub open spec fn with_front(
    t: TokenInfoView,
    r: Result<Seq<TokenInfoView>, ScanError>,
) -> Result<Seq<TokenInfoView>, ScanError> {
    match r {
        Ok(rest) => Ok(seq![t] + rest),
        Err(e) => Err(e),
    }
}

/// The whole scan from index `i` on line `line`: dispatch on the current
/// character, emit the token it starts (if any), and continue after it.
/// Mirrors one forward pass with one-character lookahead and no
/// backtracking.
pub open spec fn scan(s: Seq<char>, i: int, line: int) -> Result<Seq<TokenInfoView>, ScanError>
    decreases s.len() - i,
    when 0 <= i <= s.len()
    via scan_decreases
{
    if i >= s.len() {
        Ok(Seq::empty())
    } else {
        let c = s[i];
        if c == '\n' {
            with_front(spanned(i, i + 1, TokenView::Newline(line)), scan(s, i + 1, line + 1))
        } else if is_ident_start(c) {
            let j = ident_end(s, i + 1);
            let text = s.subrange(i, j);
            let t = match keyword_of(text) {
                Some(k) => TokenView::Keyword(k),
                None => TokenView::Identifier(text),
            };
            with_front(spanned(i, j, t), scan(s, j, line))
        } else if is_digit(c) {
            if i + 1 < s.len() && s[i + 1] == 'x' {
                let j = hex_end(s, i + 2);
                if j == i + 2 {
                    Err(ScanError::MalformedHexInteger { start: i })
                } else if hex_val(s.subrange(i + 2, j)) > i64::MAX {
                    Err(ScanError::IntegerOverflow { start: i, raw: s.subrange(i, j) })
                } else {
                    with_front(
                        spanned(i, j, TokenView::Integer(hex_val(s.subrange(i + 2, j)))),
                        scan(s, j, line),
                    )
                }
            } else {
                let j = dec_end(s, i);
                if dec_val(s.subrange(i, j)) > i64::MAX {
                    Err(ScanError::IntegerOverflow { start: i, raw: s.subrange(i, j) })
                } else {
                    with_front(
                        spanned(i, j, TokenView::Integer(dec_val(s.subrange(i, j)))),
                        scan(s, j, line),
                    )
                }
            }
        } else if is_paren(c) {
            with_front(spanned(i, i + 1, TokenView::Paren(c)), scan(s, i + 1, line))
        } else if is_quote(c) {
            let j = string_end(s, i + 1, c);
            with_front(spanned(i, j, TokenView::Str(s.subrange(i, j), c)), scan(s, j, line))
        } else if is_symbol_start(c) {
            let j = if i + 1 < s.len() && is_symbol_pair(c, s[i + 1]) {
                i + 2
            } else {
                i + 1
            };
            with_front(spanned(i, j, TokenView::Symbol(s.subrange(i, j))), scan(s, j, line))
        } else {
            scan(s, i + 1, line)
        }
    }
}

/// The views of a vector of emitted tokens, in order.
pub open spec fn views_of(toks: Seq<TokenWithInfo>) -> Seq<TokenInfoView> {
    toks.map_values(|t: TokenWithInfo| t@)
}

/// The tokens already emitted, followed by whatever the rest of the scan
/// yields; an error anywhere aborts the whole pass.
pub open spec fn prepend_all(
    p: Seq<TokenInfoView>,
    r: Result<Seq<TokenInfoView>, ScanError>,
) -> Result<Seq<TokenInfoView>, ScanError> {
    match r {
        Ok(rest) => Ok(p + rest),
        Err(e) => Err(e),
    }
}

/// Emitting one more token commutes with prepending the tokens emitted
/// before it.
pub proof fn lemma_prepend_with_front(
    p: Seq<TokenInfoView>,
    t: TokenInfoView,
    r: Result<Seq<TokenInfoView>, ScanError>,
)
    ensures
        prepend_all(p, with_front(t, r)) == prepend_all(p.push(t), r),
{
    match r {
        Ok(rest) => {
            assert(p + (seq![t] + rest) =~= p.push(t) + rest);
        },
        Err(_) => {},
    }
}

#[via_fn]
proof fn scan_decreases(s: Seq<char>, i: int, line: int) {
    if 0 <= i && i < s.len() {
        lemma_ident_end_bounds(s, i + 1);
        if is_digit(s[i]) {
            lemma_dec_end_bounds(s, i + 1);
            assert(dec_end(s, i) == dec_end(s, i + 1));
            if i + 2 <= s.len() {
                lemma_hex_end_bounds(s, i + 2);
            }
        }
        lemma_string_end_bounds(s, i + 1, s[i]);
    }
}

} // verus!
