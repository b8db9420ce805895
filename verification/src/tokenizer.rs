//! The executable scanner: one forward pass over the input with
//! one-character lookahead, proved to produce exactly the token sequence
//! that [`crate::model::scan`] describes.

use crate::model::dec_end;
use crate::model::dec_val;
use crate::model::hex_end;
use crate::model::hex_val;
use crate::model::ident_end;
use crate::model::is_digit;
use crate::model::is_hex_digit;
use crate::model::is_ident_char;
use crate::model::is_ident_start;
use crate::model::is_paren;
use crate::model::is_quote;
use crate::model::is_symbol_pair;
use crate::model::is_symbol_start;
use crate::model::keyword_name;
use crate::model::keyword_of;
use crate::model::lemma_dec_end_bounds;
use crate::model::lemma_dec_val_prefix;
use crate::model::lemma_hex_end_bounds;
use crate::model::lemma_hex_val_prefix;
use crate::model::lemma_ident_end_bounds;
use crate::model::lemma_prepend_with_front;
use crate::model::lemma_string_end_bounds;
use crate::model::prepend_all;
use crate::model::scan;
use crate::model::string_end;
use crate::model::views_of;
use crate::token::Keyword;
use crate::token::ScanError;
use crate::token::Token;
use crate::token::TokenInfoView;
use crate::token::TokenWithInfo;
use crate::token::TokenizeError;
use std::rc::Rc;
use vstd::prelude::*;
use vstd::string::StrSliceExecFns;

verus! {

/// Is `c` an ASCII letter or underscore?
pub fn ident_start(c: char) -> (r: bool)
    ensures
        r == is_ident_start(c),
{
    let u = c as u32;
    ('a' as u32 <= u && u <= 'z' as u32) || ('A' as u32 <= u && u <= 'Z' as u32) || c == '_'
}

/// Is `c` an ASCII decimal digit?
pub fn digit(c: char) -> (r: bool)
    ensures
        r == is_digit(c),
{
    let u = c as u32;
    '0' as u32 <= u && u <= '9' as u32
}

/// May `c` continue an identifier?
pub fn ident_char(c: char) -> (r: bool)
    ensures
        r == is_ident_char(c),
{
    ident_start(c) || digit(c)
}

/// Is `c` a bracket character?
pub fn paren(c: char) -> (r: bool)
    ensures
        r == is_paren(c),
{
    c == '{' || c == '}' || c == '(' || c == ')' || c == '[' || c == ']'
}

/// Is `c` a string delimiter?
pub fn quote(c: char) -> (r: bool)
    ensures
        r == is_quote(c),
{
    c == '\'' || c == '"' || c == '`'
}

/// Does `c` start an operator symbol?
pub fn symbol_start(c: char) -> (r: bool)
    ensures
        r == is_symbol_start(c),
{
    let u = c as u32;
    (('!' as u32 <= u && u <= '/' as u32) || (':' as u32 <= u && u <= '@' as u32) || ('[' as u32
        <= u && u <= '`' as u32) || ('{' as u32 <= u && u <= '~' as u32)) && !paren(c) && !quote(c)
}

/// Do `a` and `b` combine into a two-character operator symbol?
pub fn symbol_pair(a: char, b: char) -> (r: bool)
    ensures
        r == is_symbol_pair(a, b),
{
    (a == '>' && b == '>') || (a == '<' && b == '<') || (a == '=' && b == '=') || (a == '!' && b
        == '=') || (a == '<' && b == '=') || (a == '>' && b == '=') || (a == '&' && b == '&') || (a
        == '|' && b == '|') || (a == '+' && b == '=') || (a == '-' && b == '=')
}

/// Relies on `Rc`'s `Deref` impl: a shared handle reads the value it
/// points to.
#[verifier::external_body]
fn rc_deref(s: &Rc<String>) -> (r: &String)
    ensures
        r@ == s@,
{
    s
}

/// Relies on `Rc::clone`: the clone is another handle to the same value.
#[verifier::external_body]
fn rc_clone(s: &Rc<String>) -> (r: Rc<String>)
    ensures
        r == *s,
{
    Rc::clone(s)
}

/// Relies on `String::push`: appends the given character to the end of the
/// string.
#[verifier::external_body]
fn push_char(s: &mut String, c: char)
    ensures
        final(s)@ == old(s)@.push(c),
{
    s.push(c);
}

/// The characters of `s`, in order, as a vector.
fn chars_of(s: &str) -> (r: Vec<char>)
    ensures
        r@ == s@,
{
    let n = s.unicode_len();
    let mut r: Vec<char> = Vec::new();
    let mut k: usize = 0;
    while k < n
        invariant
            n == s@.len(),
            k <= n,
            r@ == s@.subrange(0, k as int),
        decreases n - k,
    {
        r.push(s.get_char(k));
        k = k + 1;
        proof {
            assert(r@ =~= s@.subrange(0, k as int));
        }
    }
    proof {
        assert(r@ =~= s@);
    }
    r
}

/// The string holding exactly `chars[a..b]`.
fn string_of_range(chars: &Vec<char>, a: usize, b: usize) -> (r: String)
    requires
        a <= b <= chars@.len(),
    ensures
        r@ == chars@.subrange(a as int, b as int),
{
    let mut r = String::new();
    let mut k = a;
    while k < b
        invariant
            a <= k <= b <= chars@.len(),
            r@ == chars@.subrange(a as int, k as int),
        decreases b - k,
    {
        push_char(&mut r, chars[k]);
        k = k + 1;
        proof {
            assert(r@ =~= chars@.subrange(a as int, k as int));
        }
    }
    r
}

/// Greedily consumes identifier characters from `i`.
fn scan_ident_end(chars: &Vec<char>, i: usize) -> (j: usize)
    requires
        i <= chars@.len(),
    ensures
        j == ident_end(chars@, i as int),
{
    let n = chars.len();
    let mut j = i;
    while j < n && ident_char(chars[j])
        invariant
            i <= j <= n,
            n == chars@.len(),
            ident_end(chars@, i as int) == ident_end(chars@, j as int),
        decreases n - j,
    {
        j = j + 1;
    }
    j
}

/// Greedily consumes decimal digits from `i`.
fn scan_dec_end(chars: &Vec<char>, i: usize) -> (j: usize)
    requires
        i <= chars@.len(),
    ensures
        j == dec_end(chars@, i as int),
{
    let n = chars.len();
    let mut j = i;
    while j < n && digit(chars[j])
        invariant
            i <= j <= n,
            n == chars@.len(),
            dec_end(chars@, i as int) == dec_end(chars@, j as int),
        decreases n - j,
    {
        j = j + 1;
    }
    j
}

/// Is `c` an ASCII hexadecimal digit?
pub fn hex_digit(c: char) -> (r: bool)
    ensures
        r == is_hex_digit(c),
{
    let u = c as u32;
    digit(c) || ('a' as u32 <= u && u <= 'f' as u32) || ('A' as u32 <= u && u <= 'F' as u32)
}

/// Greedily consumes hexadecimal digits from `i`.
fn scan_hex_end(chars: &Vec<char>, i: usize) -> (j: usize)
    requires
        i <= chars@.len(),
    ensures
        j == hex_end(chars@, i as int),
{
    let n = chars.len();
    let mut j = i;
    while j < n && hex_digit(chars[j])
        invariant
            i <= j <= n,
            n == chars@.len(),
            hex_end(chars@, i as int) == hex_end(chars@, j as int),
        decreases n - j,
    {
        j = j + 1;
    }
    j
}

/// Consumes up to and including the closing quote `q`, or to the end of
/// the input when the string is unterminated.
fn scan_string_end(chars: &Vec<char>, i: usize, q: char) -> (j: usize)
    requires
        i <= chars@.len(),
    ensures
        j == string_end(chars@, i as int, q),
{
    let n = chars.len();
    let mut j = i;
    loop
        invariant
            i <= j <= n,
            n == chars@.len(),
            string_end(chars@, i as int, q) == string_end(chars@, j as int, q),
        decreases n - j,
    {
        if j >= n {
            return j;
        }
        if chars[j] == q {
            return j + 1;
        }
        j = j + 1;
    }
}

/// Exact lookup of `chars[a..b]` in the fixed keyword table.
fn keyword_lookup(chars: &Vec<char>, a: usize, b: usize) -> (r: Option<Keyword>)
    requires
        a <= b <= chars@.len(),
    ensures
        r == keyword_of(chars@.subrange(a as int, b as int)),
{
    let ghost t = chars@.subrange(a as int, b as int);
    if b - a == 2 {
        let c0 = chars[a];
        let c1 = chars[a + 1];
        proof {
            assert(t.len() == 2 && t[0] == c0 && t[1] == c1);
        }
        if c0 == 'i' && c1 == 'f' {
            proof {
                assert(t =~= keyword_name(Keyword::If));
            }
            Some(Keyword::If)
        } else if c0 == 'f' && c1 == 'i' {
            proof {
                assert(t =~= keyword_name(Keyword::Fi));
                assert(t != keyword_name(Keyword::If));
            }
            Some(Keyword::Fi)
        } else {
            proof {
                assert(t != keyword_name(Keyword::If));
                assert(t != keyword_name(Keyword::Fi));
            }
            None
        }
    } else {
        proof {
            assert(t.len() != 2);
            assert(t != keyword_name(Keyword::If));
            assert(t != keyword_name(Keyword::Fi));
        }
        None
    }
}

/// Parses `chars[a..b]` as a decimal integer, or reports that it exceeds
/// the signed 64-bit range.
fn parse_dec(chars: &Vec<char>, a: usize, b: usize) -> (r: Option<i64>)
    requires
        a <= b <= chars@.len(),
        forall|k: int| a <= k < b ==> is_digit(chars@[k]),
    ensures
        match r {
            Some(v) => dec_val(chars@.subrange(a as int, b as int)) == v as int,
            None => dec_val(chars@.subrange(a as int, b as int)) > i64::MAX,
        },
{
    let mut acc: u128 = 0;
    let mut k = a;
    while k < b
        invariant
            a <= k <= b <= chars@.len(),
            forall|m: int| a <= m < b ==> is_digit(chars@[m]),
            acc <= i64::MAX as u128,
            acc as int == dec_val(chars@.subrange(a as int, k as int)),
        decreases b - k,
    {
        let c = chars[k];
        let d: u128 = (c as u32 - '0' as u32) as u128;
        let next: u128 = acc * 10 + d;
        proof {
            assert(chars@.subrange(a as int, k + 1 as int).drop_last() =~= chars@.subrange(
                a as int,
                k as int,
            ));
            assert(chars@.subrange(a as int, k + 1 as int).last() == chars@[k as int]);
        }
        if next > i64::MAX as u128 {
            proof {
                lemma_dec_val_prefix(chars@, a as int, k + 1 as int, b as int);
            }
            return None;
        }
        acc = next;
        k = k + 1;
    }
    Some(acc as i64)
}

/// Parses `chars[a..b]` as a hexadecimal integer, or reports that it
/// exceeds the signed 64-bit range.
fn parse_hex(chars: &Vec<char>, a: usize, b: usize) -> (r: Option<i64>)
    requires
        a <= b <= chars@.len(),
        forall|k: int| a <= k < b ==> is_hex_digit(chars@[k]),
    ensures
        match r {
            Some(v) => hex_val(chars@.subrange(a as int, b as int)) == v as int,
            None => hex_val(chars@.subrange(a as int, b as int)) > i64::MAX,
        },
{
    let mut acc: u128 = 0;
    let mut k = a;
    while k < b
        invariant
            a <= k <= b <= chars@.len(),
            forall|m: int| a <= m < b ==> is_hex_digit(chars@[m]),
            acc <= i64::MAX as u128,
            acc as int == hex_val(chars@.subrange(a as int, k as int)),
        decreases b - k,
    {
        let c = chars[k];
        let u = c as u32;
        let d: u128 = if digit(c) {
            (u - '0' as u32) as u128
        } else if 'a' as u32 <= u && u <= 'f' as u32 {
            (u - 'a' as u32 + 10) as u128
        } else {
            (u - 'A' as u32 + 10) as u128
        };
        let next: u128 = acc * 16 + d;
        proof {
            assert(chars@.subrange(a as int, k + 1 as int).drop_last() =~= chars@.subrange(
                a as int,
                k as int,
            ));
            assert(chars@.subrange(a as int, k + 1 as int).last() == chars@[k as int]);
        }
        if next > i64::MAX as u128 {
            proof {
                lemma_hex_val_prefix(chars@, a as int, k + 1 as int, b as int);
            }
            return None;
        }
        acc = next;
        k = k + 1;
    }
    Some(acc as i64)
}

/// Tokenizes the whole source buffer in one forward pass.
///
/// On success the returned sequence is exactly what [`scan`] describes for
/// the input, every token sharing the given buffer. The pass fails fast:
/// the first numeric literal out of the signed 64-bit range, or a
/// hexadecimal prefix with no digits after it, aborts the scan with the
/// corresponding error. The length bound is a machine limit: line numbers
/// are kept in a `usize`.
pub fn tokenize(string: Rc<String>) -> (r: Result<Vec<TokenWithInfo>, TokenizeError>)
    requires
        string@.len() < usize::MAX,
    ensures
        match r {
            Ok(toks) => scan(string@, 0, 1) == Ok::<Seq<TokenInfoView>, ScanError>(
                views_of(toks@),
            ) && forall|k: int| 0 <= k < toks@.len() ==> (#[trigger] toks@[k]).buffer@ == string@,
            Err(e) => scan(string@, 0, 1) == Err::<Seq<TokenInfoView>, ScanError>(e@),
        },
{
    let ghost s = string@;
    let chars: Vec<char> = chars_of(rc_deref(&string).as_str());
    let n = chars.len();
    let mut toks: Vec<TokenWithInfo> = Vec::new();
    let mut i: usize = 0;
    let mut line: usize = 1;
    proof {
        assert(views_of(toks@) =~= Seq::<TokenInfoView>::empty());
    }
    while i < n
        invariant
            s == string@,
            chars@ == s,
            n == chars@.len(),
            n < usize::MAX,
            i <= n,
            1 <= line <= i + 1,
            scan(s, 0, 1) == prepend_all(views_of(toks@), scan(s, i as int, line as int)),
            forall|k: int| 0 <= k < toks@.len() ==> (#[trigger] toks@[k]).buffer@ == string@,
        decreases n - i,
    {
        let ghost p = views_of(toks@);
        let c = chars[i];
        if c == '\n' {
            let tk = TokenWithInfo {
                start: i,
                end: i + 1,
                buffer: rc_clone(&string),
                token: Token::Newline(line),
            };
            proof {
                lemma_prepend_with_front(p, tk@, scan(s, i + 1, line + 1));
                assert(views_of(toks@.push(tk)) =~= p.push(tk@));
            }
            toks.push(tk);
            i = i + 1;
            line = line + 1;
        } else if ident_start(c) {
            let j = scan_ident_end(&chars, i + 1);
            proof {
                lemma_ident_end_bounds(s, i + 1);
            }
            let token = match keyword_lookup(&chars, i, j) {
                Some(k) => Token::Keyword(k),
                None => Token::Identifier(string_of_range(&chars, i, j)),
            };
            let tk = TokenWithInfo { start: i, end: j, buffer: rc_clone(&string), token };
            proof {
                lemma_prepend_with_front(p, tk@, scan(s, j as int, line as int));
                assert(views_of(toks@.push(tk)) =~= p.push(tk@));
            }
            toks.push(tk);
            i = j;
        } else if digit(c) {
            if i + 1 < n && chars[i + 1] == 'x' {
                let j = scan_hex_end(&chars, i + 2);
                proof {
                    lemma_hex_end_bounds(s, i + 2);
                }
                if j == i + 2 {
                    let e = TokenizeError::MalformedHexInteger { start: i };
                    proof {
                        assert(scan(s, i as int, line as int) == Err::<
                            Seq<TokenInfoView>,
                            ScanError,
                        >(e@));
                    }
                    return Err(e);
                }
                match parse_hex(&chars, i + 2, j) {
                    Some(v) => {
                        let tk = TokenWithInfo {
                            start: i,
                            end: j,
                            buffer: rc_clone(&string),
                            token: Token::Integer(v),
                        };
                        proof {
                            lemma_prepend_with_front(p, tk@, scan(s, j as int, line as int));
                            assert(views_of(toks@.push(tk)) =~= p.push(tk@));
                        }
                        toks.push(tk);
                        i = j;
                    },
                    None => {
                        let e = TokenizeError::IntegerOverflow {
                            start: i,
                            raw: string_of_range(&chars, i, j),
                        };
                        proof {
                            assert(scan(s, i as int, line as int) == Err::<
                                Seq<TokenInfoView>,
                                ScanError,
                            >(e@));
                        }
                        return Err(e);
                    },
                }
            } else {
                let j = scan_dec_end(&chars, i);
                proof {
                    assert(dec_end(s, i as int) == dec_end(s, i + 1));
                    lemma_dec_end_bounds(s, i + 1);
                }
                match parse_dec(&chars, i, j) {
                    Some(v) => {
                        let tk = TokenWithInfo {
                            start: i,
                            end: j,
                            buffer: rc_clone(&string),
                            token: Token::Integer(v),
                        };
                        proof {
                            lemma_prepend_with_front(p, tk@, scan(s, j as int, line as int));
                            assert(views_of(toks@.push(tk)) =~= p.push(tk@));
                        }
                        toks.push(tk);
                        i = j;
                    },
                    None => {
                        let e = TokenizeError::IntegerOverflow {
                            start: i,
                            raw: string_of_range(&chars, i, j),
                        };
                        proof {
                            assert(scan(s, i as int, line as int) == Err::<
                                Seq<TokenInfoView>,
                                ScanError,
                            >(e@));
                        }
                        return Err(e);
                    },
                }
            }
        } else if paren(c) {
            let tk = TokenWithInfo {
                start: i,
                end: i + 1,
                buffer: rc_clone(&string),
                token: Token::Paren(c),
            };
            proof {
                lemma_prepend_with_front(p, tk@, scan(s, i + 1, line as int));
                assert(views_of(toks@.push(tk)) =~= p.push(tk@));
            }
            toks.push(tk);
            i = i + 1;
        } else if quote(c) {
            let j = scan_string_end(&chars, i + 1, c);
            proof {
                lemma_string_end_bounds(s, i + 1, c);
            }
            let tk = TokenWithInfo {
                start: i,
                end: j,
                buffer: rc_clone(&string),
                token: Token::String(string_of_range(&chars, i, j), c),
            };
            proof {
                lemma_prepend_with_front(p, tk@, scan(s, j as int, line as int));
                assert(views_of(toks@.push(tk)) =~= p.push(tk@));
            }
            toks.push(tk);
            i = j;
        } else if symbol_start(c) {
            let j = if i + 1 < n && symbol_pair(c, chars[i + 1]) {
                i + 2
            } else {
                i + 1
            };
            let tk = TokenWithInfo {
                start: i,
                end: j,
                buffer: rc_clone(&string),
                token: Token::Symbol(string_of_range(&chars, i, j)),
            };
            proof {
                lemma_prepend_with_front(p, tk@, scan(s, j as int, line as int));
                assert(views_of(toks@.push(tk)) =~= p.push(tk@));
            }
            toks.push(tk);
            i = j;
        } else {
            proof {
                assert(scan(s, i as int, line as int) == scan(s, i + 1, line as int));
            }
            i = i + 1;
        }
    }
    proof {
        assert(scan(s, i as int, line as int) == Ok::<Seq<TokenInfoView>, ScanError>(Seq::empty()));
        assert(views_of(toks@) + Seq::<TokenInfoView>::empty() =~= views_of(toks@));
    }
    Ok(toks)
}

} // verus!
