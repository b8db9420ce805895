//! Laws of the scanner, stated over the mathematical model and proved for
//! every input: whitespace-only inputs, line-number bookkeeping, the
//! correspondence between each token and its source span, and the
//! accounting of every character position.

use crate::model::dec_end;
use crate::model::dec_val;
use crate::model::hex_end;
use crate::model::hex_val;
use crate::model::ident_end;
use crate::model::is_digit;
use crate::model::is_hex_digit;
use crate::model::is_ident_char;
use crate::model::is_ident_start;
use crate::model::is_paren;
use crate::model::is_quote;
use crate::model::is_skipped;
use crate::model::is_symbol_pair;
use crate::model::is_symbol_start;
use crate::model::keyword_of;
use crate::model::lemma_dec_end_bounds;
use crate::model::lemma_hex_end_bounds;
use crate::model::lemma_ident_end_bounds;
use crate::model::lemma_string_end_bounds;
use crate::model::scan;
use crate::model::spanned;
use crate::model::string_end;
use crate::model::with_front;
use crate::token::Keyword;
use crate::token::ScanError;
use crate::token::TokenInfoView;
use crate::token::TokenView;
use vstd::prelude::*;

verus! {

// ------------------------------------------------------------------
// Whitespace-only inputs
// ------------------------------------------------------------------
/// An input consisting solely of spaces and tabs yields zero tokens.
pub proof fn lemma_whitespace_only_no_tokens(s: Seq<char>)
    requires
        forall|k: int| 0 <= k < s.len() ==> (s[k] == ' ' || s[k] == '\t'),
    ensures
        scan(s, 0, 1) == Ok::<Seq<TokenInfoView>, ScanError>(Seq::<TokenInfoView>::empty()),
{
    lemma_whitespace_scan(s, 0, 1);
}

proof fn lemma_whitespace_scan(s: Seq<char>, i: int, line: int)
    requires
        0 <= i <= s.len(),
        forall|k: int| 0 <= k < s.len() ==> (s[k] == ' ' || s[k] == '\t'),
    ensures
        scan(s, i, line) == Ok::<Seq<TokenInfoView>, ScanError>(Seq::<TokenInfoView>::empty()),
    decreases s.len() - i,
{
    if i < s.len() {
        assert(is_skipped(s[i]));
        lemma_whitespace_scan(s, i + 1, line);
    }
}

// ------------------------------------------------------------------
// Line-number bookkeeping
// ------------------------------------------------------------------
/// The number of `\n` characters in `s` from index `i` on.
pub open spec fn newline_count(s: Seq<char>, i: int) -> int
    decreases s.len() - i,
    when 0 <= i <= s.len()
{
    if i >= s.len() {
        0
    } else {
        (if s[i] == '\n' {
            1int
        } else {
            0int
        }) + newline_count(s, i + 1)
    }
}

/// The payloads of the `Newline` tokens of `toks`, in order.
pub open spec fn newline_payloads(toks: Seq<TokenInfoView>) -> Seq<int>
    decreases toks.len(),
{
    if toks.len() == 0 {
        Seq::empty()
    } else {
        match toks[0].token {
            TokenView::Newline(ln) => seq![ln] + newline_payloads(toks.drop_first()),
            _ => newline_payloads(toks.drop_first()),
        }
    }
}

/// Does no string token of `toks` span a line break? A string literal may
/// swallow line breaks up to its closing quote; such a line break is part
/// of the string's raw text and is not announced by a `Newline` token.
pub open spec fn no_multiline_string(toks: Seq<TokenInfoView>) -> bool {
    forall|k: int|
        0 <= k < toks.len() ==> match (#[trigger] toks[k]).token {
            TokenView::Str(raw, _) => !raw.contains('\n'),
            _ => true,
        }
}

/// The `Newline` payloads of a successful scan form the strictly
/// increasing sequence 1, 2, 3, ...; and as long as no string literal
/// swallows a line break, there are exactly as many `Newline` tokens as
/// `\n` characters in the input.
pub proof fn lemma_newline_tokens(s: Seq<char>)
    ensures
        match scan(s, 0, 1) {
            Ok(toks) => newline_payloads(toks) == Seq::new(
                newline_payloads(toks).len(),
                |k: int| k + 1,
            ) && (no_multiline_string(toks) ==> newline_payloads(toks).len() == newline_count(
                s,
                0,
            )),
            Err(_) => true,
        },
{
    lemma_newline_scan(s, 0, 1);
}

/// No `\n` occurs in `s[i..j]`, so skipping that range skips no line.
proof fn lemma_newline_count_same(s: Seq<char>, i: int, j: int)
    requires
        0 <= i <= j <= s.len(),
        forall|k: int| i <= k < j ==> s[k] != '\n',
    ensures
        newline_count(s, i) == newline_count(s, j),
    decreases j - i,
{
    if i < j {
        lemma_newline_count_same(s, i + 1, j);
    }
}

proof fn lemma_newline_scan(s: Seq<char>, i: int, line: int)
    requires
        0 <= i <= s.len(),
    ensures
        match scan(s, i, line) {
            Ok(toks) => newline_payloads(toks) == Seq::new(
                newline_payloads(toks).len(),
                |k: int| line + k,
            ) && (no_multiline_string(toks) ==> newline_payloads(toks).len() == newline_count(
                s,
                i,
            )),
            Err(_) => true,
        },
    decreases s.len() - i,
{
    if i >= s.len() {
        assert(newline_payloads(Seq::<TokenInfoView>::empty()) =~= Seq::new(
            0,
            |k: int| line + k,
        ));
    } else {
        let c = s[i];
        if c == '\n' {
            lemma_newline_scan(s, i + 1, line + 1);
            lemma_newline_step(s, i, line, i + 1, line + 1, TokenView::Newline(line));
        } else if is_ident_start(c) {
            let j = ident_end(s, i + 1);
            lemma_ident_end_bounds(s, i + 1);
            lemma_newline_scan(s, j, line);
            let text = s.subrange(i, j);
            let t = match keyword_of(text) {
                Some(k) => TokenView::Keyword(k),
                None => TokenView::Identifier(text),
            };
            assert(forall|k: int| i <= k < j ==> s[k] != '\n') by {
                assert(forall|k: int| i + 1 <= k < j ==> is_ident_char(#[trigger] s[k]));
            }
            lemma_newline_count_same(s, i, j);
            lemma_newline_step(s, i, line, j, line, t);
        } else if is_digit(c) {
            if i + 1 < s.len() && s[i + 1] == 'x' {
                let j = hex_end(s, i + 2);
                lemma_hex_end_bounds(s, i + 2);
                if j != i + 2 && !(hex_val(s.subrange(i + 2, j)) > i64::MAX) {
                    lemma_newline_scan(s, j, line);
                    assert(forall|k: int| i <= k < j ==> s[k] != '\n') by {
                        assert(forall|k: int| i + 2 <= k < j ==> is_hex_digit(#[trigger] s[k]));
                    }
                    lemma_newline_count_same(s, i, j);
                    lemma_newline_step(
                        s,
                        i,
                        line,
                        j,
                        line,
                        TokenView::Integer(hex_val(s.subrange(i + 2, j))),
                    );
                }
            } else {
                let j = dec_end(s, i);
                lemma_dec_end_bounds(s, i);
                if !(dec_val(s.subrange(i, j)) > i64::MAX) {
                    lemma_newline_scan(s, j, line);
                    assert(forall|k: int| i <= k < j ==> s[k] != '\n') by {
                        assert(forall|k: int| i <= k < j ==> is_digit(#[trigger] s[k]));
                    }
                    lemma_newline_count_same(s, i, j);
                    lemma_newline_step(
                        s,
                        i,
                        line,
                        j,
                        line,
                        TokenView::Integer(dec_val(s.subrange(i, j))),
                    );
                }
            }
        } else if is_paren(c) {
            lemma_newline_scan(s, i + 1, line);
            lemma_newline_count_same(s, i, i + 1);
            lemma_newline_step(s, i, line, i + 1, line, TokenView::Paren(c));
        } else if is_quote(c) {
            let j = string_end(s, i + 1, c);
            lemma_string_end_bounds(s, i + 1, c);
            lemma_newline_scan(s, j, line);
            let raw = s.subrange(i, j);
            if !raw.contains('\n') {
                assert forall|k: int| i <= k < j implies s[k] != '\n' by {
                    if s[k] == '\n' {
                        assert(raw[k - i] == '\n');
                        assert(raw.contains('\n'));
                    }
                }
                lemma_newline_count_same(s, i, j);
            }
            lemma_newline_step(s, i, line, j, line, TokenView::Str(raw, c));
        } else if is_symbol_start(c) {
            let j = if i + 1 < s.len() && is_symbol_pair(c, s[i + 1]) {
                i + 2
            } else {
                i + 1
            };
            lemma_newline_scan(s, j, line);
            assert(forall|k: int| i <= k < j ==> s[k] != '\n');
            lemma_newline_count_same(s, i, j);
            lemma_newline_step(s, i, line, j, line, TokenView::Symbol(s.subrange(i, j)));
        } else {
            lemma_newline_scan(s, i + 1, line);
            lemma_newline_count_same(s, i, i + 1);
        }
    }
}

/// One step of the newline bookkeeping: a token emitted at `[i, j)` with
/// the rest of the scan already accounted for.
proof fn lemma_newline_step(s: Seq<char>, i: int, line: int, j: int, line2: int, t: TokenView)
    requires
        0 <= i <= s.len(),
        0 <= j <= s.len(),
        scan(s, i, line) == with_front(
            spanned(i, j, t),
            scan(s, j, line2),
        ),
        (t matches TokenView::Newline(ln) ==> ln == line && line2 == line + 1 && newline_count(
            s,
            i,
        ) == 1 + newline_count(s, j)),
        !(t is Newline) ==> line2 == line,
        match scan(s, j, line2) {
            Ok(rest) => newline_payloads(rest) == Seq::new(
                newline_payloads(rest).len(),
                |k: int| line2 + k,
            ) && (no_multiline_string(rest) ==> newline_payloads(rest).len() == newline_count(
                s,
                j,
            )),
            Err(_) => true,
        },
        !(t is Newline) && !(t matches TokenView::Str(raw, _)) ==> newline_count(s, i)
            == newline_count(s, j),
        t matches TokenView::Str(raw, q) ==> (!raw.contains('\n') ==> newline_count(s, i)
            == newline_count(s, j)),
    ensures
        match scan(s, i, line) {
            Ok(toks) => newline_payloads(toks) == Seq::new(
                newline_payloads(toks).len(),
                |k: int| line + k,
            ) && (no_multiline_string(toks) ==> newline_payloads(toks).len() == newline_count(
                s,
                i,
            )),
            Err(_) => true,
        },
{
    let tv = spanned(i, j, t);
    match scan(s, j, line2) {
        Ok(rest) => {
            let toks = seq![tv] + rest;
            assert(toks.drop_first() =~= rest);
            assert(toks[0] == tv);
            let pls = newline_payloads(toks);
            let rpls = newline_payloads(rest);
            match t {
                TokenView::Newline(ln) => {
                    assert(pls == seq![line as int] + rpls);
                    assert(pls =~= Seq::new(pls.len(), |k: int| line + k));
                    if no_multiline_string(toks) {
                        assert(no_multiline_string(rest)) by {
                            assert(forall|k: int|
                                0 <= k < rest.len() ==> rest[k] == toks[k + 1]);
                        }
                    }
                },
                _ => {
                    assert(pls == rpls);
                    assert(pls =~= Seq::new(pls.len(), |k: int| line + k));
                    if no_multiline_string(toks) {
                        assert(no_multiline_string(rest)) by {
                            assert(forall|k: int|
                                0 <= k < rest.len() ==> rest[k] == toks[k + 1]);
                        }
                        match t {
                            TokenView::Str(raw, _) => {
                                assert(!raw.contains('\n')) by {
                                    assert(toks[0].token == t);
                                }
                            },
                            _ => {},
                        }
                    }
                },
            }
        },
        Err(_) => {},
    }
}

// ------------------------------------------------------------------
// Tokens reproduce their source spans
// ------------------------------------------------------------------
/// Does the integer value `v` match the literal at `s[start..end]`, read
/// as hexadecimal when the second character is the `x` of a `0x` prefix
/// and as decimal otherwise?
pub open spec fn int_literal_matches(s: Seq<char>, start: int, end: int, v: int) -> bool {
    if start + 1 < end && s[start + 1] == 'x' {
        v == hex_val(s.subrange(start + 2, end))
    } else {
        v == dec_val(s.subrange(start, end))
    }
}

/// The token's span `[start, end)` lies inside the buffer and reproduces
/// the token: string, symbol, paren and newline tokens carry (or are) the
/// exact source text of their span, an identifier or keyword carries the
/// identifier text, and an integer carries the value of the literal text.
pub open spec fn token_matches_source(s: Seq<char>, t: TokenInfoView) -> bool {
    &&& 0 <= t.start < t.end <= s.len()
    &&& match t.token {
        TokenView::Keyword(k) => keyword_of(s.subrange(t.start, t.end)) == Some(k),
        TokenView::Identifier(text) => text == s.subrange(t.start, t.end) && keyword_of(text)
            == None::<Keyword>,
        TokenView::Integer(v) => int_literal_matches(s, t.start, t.end, v),
        TokenView::Str(raw, q) => raw == s.subrange(t.start, t.end) && s[t.start] == q,
        TokenView::Paren(c) => t.end == t.start + 1 && s[t.start] == c,
        TokenView::Symbol(text) => text == s.subrange(t.start, t.end),
        TokenView::Newline(_) => t.end == t.start + 1 && s[t.start] == '\n',
    }
}

/// Every token of a successful scan reproduces its source span.
pub proof fn lemma_tokens_match_source(s: Seq<char>)
    ensures
        match scan(s, 0, 1) {
            Ok(toks) => forall|k: int|
                0 <= k < toks.len() ==> token_matches_source(s, #[trigger] toks[k]),
            Err(_) => true,
        },
{
    lemma_match_scan(s, 0, 1);
}

proof fn lemma_cons_all(t: TokenInfoView, rest: Seq<TokenInfoView>, s: Seq<char>)
    requires
        token_matches_source(s, t),
        forall|k: int| 0 <= k < rest.len() ==> token_matches_source(s, #[trigger] rest[k]),
    ensures
        forall|k: int|
            0 <= k < (seq![t] + rest).len() ==> token_matches_source(
                s,
                #[trigger] (seq![t] + rest)[k],
            ),
{
    let toks = seq![t] + rest;
    assert forall|k: int| 0 <= k < toks.len() implies token_matches_source(s, toks[k]) by {
        if k == 0 {
            assert(toks[0] == t);
        } else {
            assert(toks[k] == rest[k - 1]);
        }
    }
}

proof fn lemma_match_scan(s: Seq<char>, i: int, line: int)
    requires
        0 <= i <= s.len(),
    ensures
        match scan(s, i, line) {
            Ok(toks) => forall|k: int|
                0 <= k < toks.len() ==> token_matches_source(s, #[trigger] toks[k]),
            Err(_) => true,
        },
    decreases s.len() - i,
{
    if i < s.len() {
        let c = s[i];
        if c == '\n' {
            lemma_match_scan(s, i + 1, line + 1);
            if let Ok(rest) = scan(s, i + 1, line + 1) {
                lemma_cons_all(
                    spanned(i, i + 1, TokenView::Newline(line)),
                    rest,
                    s,
                );
            }
        } else if is_ident_start(c) {
            let j = ident_end(s, i + 1);
            lemma_ident_end_bounds(s, i + 1);
            lemma_match_scan(s, j, line);
            let text = s.subrange(i, j);
            let t = match keyword_of(text) {
                Some(k) => TokenView::Keyword(k),
                None => TokenView::Identifier(text),
            };
            if let Ok(rest) = scan(s, j, line) {
                lemma_cons_all(spanned(i, j, t), rest, s);
            }
        } else if is_digit(c) {
            if i + 1 < s.len() && s[i + 1] == 'x' {
                let j = hex_end(s, i + 2);
                lemma_hex_end_bounds(s, i + 2);
                if j != i + 2 && !(hex_val(s.subrange(i + 2, j)) > i64::MAX) {
                    lemma_match_scan(s, j, line);
                    let t = TokenView::Integer(hex_val(s.subrange(i + 2, j)));
                    if let Ok(rest) = scan(s, j, line) {
                        lemma_cons_all(spanned(i, j, t), rest, s);
                    }
                }
            } else {
                let j = dec_end(s, i);
                lemma_dec_end_bounds(s, i);
                assert(dec_end(s, i) == dec_end(s, i + 1));
                if !(dec_val(s.subrange(i, j)) > i64::MAX) {
                    lemma_match_scan(s, j, line);
                    let t = TokenView::Integer(dec_val(s.subrange(i, j)));
                    assert(int_literal_matches(s, i, j, dec_val(s.subrange(i, j)))) by {
                        if i + 1 < j {
                            assert(is_digit(s[i + 1]));
                        }
                    }
                    if let Ok(rest) = scan(s, j, line) {
                        lemma_cons_all(spanned(i, j, t), rest, s);
                    }
                }
            }
        } else if is_paren(c) {
            lemma_match_scan(s, i + 1, line);
            if let Ok(rest) = scan(s, i + 1, line) {
                lemma_cons_all(spanned(i, i + 1, TokenView::Paren(c)), rest, s);
            }
        } else if is_quote(c) {
            let j = string_end(s, i + 1, c);
            lemma_string_end_bounds(s, i + 1, c);
            lemma_match_scan(s, j, line);
            if let Ok(rest) = scan(s, j, line) {
                lemma_cons_all(
                    spanned(i, j, TokenView::Str(s.subrange(i, j), c)),
                    rest,
                    s,
                );
            }
        } else if is_symbol_start(c) {
            let j = if i + 1 < s.len() && is_symbol_pair(c, s[i + 1]) {
                i + 2
            } else {
                i + 1
            };
            lemma_match_scan(s, j, line);
            if let Ok(rest) = scan(s, j, line) {
                lemma_cons_all(
                    spanned(i, j, TokenView::Symbol(s.subrange(i, j))),
                    rest,
                    s,
                );
            }
        } else {
            lemma_match_scan(s, i + 1, line);
        }
    }
}

// ------------------------------------------------------------------
// Every character position is accounted for
// ------------------------------------------------------------------
/// The tokens cover the input from position `i` on, in order and without
/// overlap: each token covers the next span, every position between and
/// around the spans holds a character the scanner skips, and nothing else
/// is left over.
pub open spec fn covers(s: Seq<char>, toks: Seq<TokenInfoView>, i: int) -> bool
    decreases toks.len(),
{
    if toks.len() == 0 {
        forall|k: int| i <= k < s.len() ==> is_skipped(#[trigger] s[k])
    } else {
        let t = toks[0];
        &&& i <= t.start
        &&& forall|k: int| i <= k < t.start ==> is_skipped(#[trigger] s[k])
        &&& t.start < t.end <= s.len()
        &&& covers(s, toks.drop_first(), t.end)
    }
}

/// Round trip: the spans of a successful scan account for every character
/// position of the input exactly once — in order, without gaps other than
/// skipped characters and without overlaps. Re-concatenating the source
/// span of every token, interleaved with the skipped characters, thus
/// reproduces the input.
pub proof fn lemma_scan_covers(s: Seq<char>)
    ensures
        match scan(s, 0, 1) {
            Ok(toks) => covers(s, toks, 0),
            Err(_) => true,
        },
{
    lemma_covers_scan(s, 0, 1);
}

proof fn lemma_covers_cons(t: TokenInfoView, rest: Seq<TokenInfoView>, s: Seq<char>, i: int)
    requires
        i == t.start,
        t.start < t.end <= s.len(),
        covers(s, rest, t.end),
    ensures
        covers(s, seq![t] + rest, i),
{
    let toks = seq![t] + rest;
    assert(toks[0] == t);
    assert(toks.drop_first() =~= rest);
}

proof fn lemma_covers_skip(s: Seq<char>, toks: Seq<TokenInfoView>, i: int)
    requires
        0 <= i,
        i + 1 <= s.len(),
        is_skipped(s[i]),
        covers(s, toks, i + 1),
    ensures
        covers(s, toks, i),
{
}

proof fn lemma_covers_scan(s: Seq<char>, i: int, line: int)
    requires
        0 <= i <= s.len(),
    ensures
        match scan(s, i, line) {
            Ok(toks) => covers(s, toks, i),
            Err(_) => true,
        },
    decreases s.len() - i,
{
    if i < s.len() {
        let c = s[i];
        if c == '\n' {
            lemma_covers_scan(s, i + 1, line + 1);
            if let Ok(rest) = scan(s, i + 1, line + 1) {
                lemma_covers_cons(
                    spanned(i, i + 1, TokenView::Newline(line)),
                    rest,
                    s,
                    i,
                );
            }
        } else if is_ident_start(c) {
            let j = ident_end(s, i + 1);
            lemma_ident_end_bounds(s, i + 1);
            lemma_covers_scan(s, j, line);
            let text = s.subrange(i, j);
            let t = match keyword_of(text) {
                Some(k) => TokenView::Keyword(k),
                None => TokenView::Identifier(text),
            };
            if let Ok(rest) = scan(s, j, line) {
                lemma_covers_cons(spanned(i, j, t), rest, s, i);
            }
        } else if is_digit(c) {
            if i + 1 < s.len() && s[i + 1] == 'x' {
                let j = hex_end(s, i + 2);
                lemma_hex_end_bounds(s, i + 2);
                if j != i + 2 && !(hex_val(s.subrange(i + 2, j)) > i64::MAX) {
                    lemma_covers_scan(s, j, line);
                    if let Ok(rest) = scan(s, j, line) {
                        lemma_covers_cons(
                            spanned(
                                i,
                                j,
                                TokenView::Integer(hex_val(s.subrange(i + 2, j))),
                            ),
                            rest,
                            s,
                            i,
                        );
                    }
                }
            } else {
                let j = dec_end(s, i);
                lemma_dec_end_bounds(s, i);
                assert(dec_end(s, i) == dec_end(s, i + 1));
                if !(dec_val(s.subrange(i, j)) > i64::MAX) {
                    lemma_covers_scan(s, j, line);
                    if let Ok(rest) = scan(s, j, line) {
                        lemma_covers_cons(
                            spanned(
                                i,
                                j,
                                TokenView::Integer(dec_val(s.subrange(i, j))),
                            ),
                            rest,
                            s,
                            i,
                        );
                    }
                }
            }
        } else if is_paren(c) {
            lemma_covers_scan(s, i + 1, line);
            if let Ok(rest) = scan(s, i + 1, line) {
                lemma_covers_cons(
                    spanned(i, i + 1, TokenView::Paren(c)),
                    rest,
                    s,
                    i,
                );
            }
        } else if is_quote(c) {
            let j = string_end(s, i + 1, c);
            lemma_string_end_bounds(s, i + 1, c);
            lemma_covers_scan(s, j, line);
            if let Ok(rest) = scan(s, j, line) {
                lemma_covers_cons(
                    spanned(i, j, TokenView::Str(s.subrange(i, j), c)),
                    rest,
                    s,
                    i,
                );
            }
        } else if is_symbol_start(c) {
            let j = if i + 1 < s.len() && is_symbol_pair(c, s[i + 1]) {
                i + 2
            } else {
                i + 1
            };
            lemma_covers_scan(s, j, line);
            if let Ok(rest) = scan(s, j, line) {
                lemma_covers_cons(
                    spanned(i, j, TokenView::Symbol(s.subrange(i, j))),
                    rest,
                    s,
                    i,
                );
            }
        } else {
            lemma_covers_scan(s, i + 1, line);
            if let Ok(toks) = scan(s, i + 1, line) {
                lemma_covers_skip(s, toks, i);
            }
        }
    }
}

} // verus!
