//! The lexical scanner: one forward pass over the input characters, with a
//! single character of lookahead, producing the token sequence or the first
//! error.
//!
//! `spec_tokenize` is the mathematical statement of the scan; `tokenize` is
//! the executable scanner, proved to return exactly what `spec_tokenize`
//! says for every input.

use vstd::prelude::*;

use crate::token::JsonError;
use crate::token::Lexeme;
use crate::token::Token;
use crate::token::lex_of;
use crate::token::lex_seq;

verus! {

/// A decimal digit.
pub open spec fn is_digit(c: char) -> bool {
    48 <= c as u32 && c as u32 <= 57
}

/// A character that may appear in a numeric run.  The scanner is greedy and
/// grammatically coarse here: dots and signs are collected wherever they
/// stand, and validation is deferred to the number grammar itself.
pub open spec fn is_number_char(c: char) -> bool {
    is_digit(c) || c == '.' || c == 'e' || c == 'E' || c == '+' || c == '-'
}

/// Whether a character has the Unicode white-space property.  The property
/// is a large table, so it is named rather than written out; the one
/// executable gateway to it is `is_whitespace_char`.
pub uninterp spec fn whitespace_char(c: char) -> bool;

/// Relies on char::is_whitespace: whether a character has the Unicode
/// white-space property depends on the character alone.
#[verifier::external_body]
fn is_whitespace_char(c: char) -> (r: bool)
    ensures
        r == whitespace_char(c),
{
    c.is_whitespace()
}

/// The position after the maximal run of decimal digits starting at `i`.
pub open spec fn digits_end(s: Seq<char>, i: int) -> int
    decreases s.len() - i,
{
    if i < s.len() && is_digit(s[i]) {
        digits_end(s, i + 1)
    } else {
        i
    }
}

/// A well-formed exponent part fills the rest of the run from `i` on: an
/// `e` or `E`, an optional sign, and at least one digit.
pub open spec fn exponent_at(s: Seq<char>, i: int) -> bool {
    i < s.len() && (s[i] == 'e' || s[i] == 'E') && {
        let b = if i + 1 < s.len() && (s[i + 1] == '+' || s[i + 1] == '-') {
            i + 2
        } else {
            i + 1
        };
        digits_end(s, b) == s.len() && digits_end(s, b) > b
    }
}

/// The grammar of the 64-bit float type's text form, restricted to the
/// characters a numeric run can hold: an optional sign, then digits with an
/// optional fraction or a fraction alone, then an optional exponent.  (The
/// word forms of that grammar — infinities and the not-a-number value — are
/// written with letters a numeric run can never contain, so they need no
/// case here.)
pub open spec fn valid_number_run(s: Seq<char>) -> bool {
    let b: int = if s.len() > 0 && (s[0] == '+' || s[0] == '-') {
        1
    } else {
        0
    };
    let m = digits_end(s, b);
    let has_dot = m < s.len() && s[m] == '.';
    let f = if has_dot {
        digits_end(s, m + 1)
    } else {
        m
    };
    let digits_present = m > b || (has_dot && f > m + 1);
    digits_present && (f == s.len() || exponent_at(s, f))
}

/// Relies on String's FromIterator impl: collecting characters yields the
/// string of exactly those characters, in order.
#[verifier::external_body]
fn chars_to_string(cs: &Vec<char>) -> (r: String)
    ensures
        r@ == cs@,
{
    cs.iter().collect()
}

/// Relies on str::chars: the characters of a string, in order.
#[verifier::external_body]
fn str_chars(s: &str) -> (r: Vec<char>)
    ensures
        r@ == s@,
{
    s.chars().collect()
}

/// What a backslash escape decodes to, or nothing if the escape is not one
/// of the eight recognized ones.
pub open spec fn unescaped(c: char) -> Option<char> {
    if c == '"' {
        Some('"')
    } else if c == '\\' {
        Some('\\')
    } else if c == '/' {
        Some('/')
    } else if c == 'b' {
        Some('\u{8}')
    } else if c == 'f' {
        Some('\u{c}')
    } else if c == 'n' {
        Some('\n')
    } else if c == 'r' {
        Some('\r')
    } else if c == 't' {
        Some('\t')
    } else {
        None
    }
}

/// Prepend one decoded character to the content of a string scan.
pub open spec fn scan_cons(c: char, r: Result<(Seq<char>, int), JsonError>) -> Result<
    (Seq<char>, int),
    JsonError,
> {
    match r {
        Ok((content, j)) => Ok((seq![c] + content, j)),
        Err(e) => Err(e),
    }
}

/// The body of a string token beginning at `i`, just after the opening
/// quote: the decoded content and the position after the closing quote.
/// Input that ends before a closing quote (even right after a backslash)
/// yields the content read so far: the scanner accepts it, and it is the
/// parser's business what the token means.
pub open spec fn scan_string(s: Seq<char>, i: int) -> Result<(Seq<char>, int), JsonError>
    decreases s.len() - i,
{
    if i >= s.len() {
        Ok((Seq::empty(), s.len() as int))
    } else if s[i] == '"' {
        Ok((Seq::empty(), i + 1))
    } else if s[i] == '\\' {
        if i + 1 >= s.len() {
            Ok((Seq::empty(), s.len() as int))
        } else {
            match unescaped(s[i + 1]) {
                Some(c) => scan_cons(c, scan_string(s, i + 2)),
                None => Err(JsonError::InvalidEscape((i + 1) as usize)),
            }
        }
    } else {
        scan_cons(s[i], scan_string(s, i + 1))
    }
}

/// The position after the maximal run of number characters starting at `i`.
pub open spec fn number_run_end(s: Seq<char>, i: int) -> int
    decreases s.len() - i,
{
    if i < s.len() && is_number_char(s[i]) {
        number_run_end(s, i + 1)
    } else {
        i
    }
}

/// The exact text of the literal `true`.
pub open spec fn true_run() -> Seq<char> {
    seq!['t', 'r', 'u', 'e']
}

/// The exact text of the literal `false`.
pub open spec fn false_run() -> Seq<char> {
    seq!['f', 'a', 'l', 's', 'e']
}

/// The exact text of the literal `null`.
pub open spec fn null_run() -> Seq<char> {
    seq!['n', 'u', 'l', 'l']
}

/// A fixed-length literal stands at `i`: enough input remains and the
/// characters match exactly.  Nothing is required of what follows it.
pub open spec fn literal_at(s: Seq<char>, i: int, lit: Seq<char>) -> bool {
    i + lit.len() <= s.len() && s.subrange(i, i + lit.len()) == lit
}

/// Prepend one token to the result of a scan.
pub open spec fn cons_lexeme(t: Lexeme, r: Result<Seq<Lexeme>, JsonError>) -> Result<
    Seq<Lexeme>,
    JsonError,
> {
    match r {
        Ok(rest) => Ok(seq![t] + rest),
        Err(e) => Err(e),
    }
}

/// The token sequence of the input from position `i` on, or the first
/// scanning error.  Dispatch is by the character at `i`, in the scanner's
/// order: white space, structural markers, string, number, literal.
pub open spec fn spec_tokenize(s: Seq<char>, i: int) -> Result<Seq<Lexeme>, JsonError>
    decreases s.len() - i,
    via spec_tokenize_decreases
{
    if i >= s.len() {
        Ok(Seq::empty())
    } else if whitespace_char(s[i]) {
        spec_tokenize(s, i + 1)
    } else if s[i] == '{' {
        cons_lexeme(Lexeme::LeftBrace, spec_tokenize(s, i + 1))
    } else if s[i] == '}' {
        cons_lexeme(Lexeme::RightBrace, spec_tokenize(s, i + 1))
    } else if s[i] == '[' {
        cons_lexeme(Lexeme::LeftBracket, spec_tokenize(s, i + 1))
    } else if s[i] == ']' {
        cons_lexeme(Lexeme::RightBracket, spec_tokenize(s, i + 1))
    } else if s[i] == ':' {
        cons_lexeme(Lexeme::Colon, spec_tokenize(s, i + 1))
    } else if s[i] == ',' {
        cons_lexeme(Lexeme::Comma, spec_tokenize(s, i + 1))
    } else if s[i] == '"' {
        match scan_string(s, i + 1) {
            Ok((content, j)) => cons_lexeme(Lexeme::Strng(content), spec_tokenize(s, j)),
            Err(e) => Err(e),
        }
    } else if is_digit(s[i]) || s[i] == '-' {
        if valid_number_run(s.subrange(i, number_run_end(s, i))) {
            cons_lexeme(
                Lexeme::Number(s.subrange(i, number_run_end(s, i))),
                spec_tokenize(s, number_run_end(s, i)),
            )
        } else {
            Err(JsonError::InvalidNumber(i as usize))
        }
    } else if s[i] == 't' {
        if literal_at(s, i, true_run()) {
            cons_lexeme(Lexeme::Boolean(true), spec_tokenize(s, i + 4))
        } else {
            Err(JsonError::BadLiteral(i as usize))
        }
    } else if s[i] == 'f' {
        if literal_at(s, i, false_run()) {
            cons_lexeme(Lexeme::Boolean(false), spec_tokenize(s, i + 5))
        } else {
            Err(JsonError::BadLiteral(i as usize))
        }
    } else if s[i] == 'n' {
        if literal_at(s, i, null_run()) {
            cons_lexeme(Lexeme::Null, spec_tokenize(s, i + 4))
        } else {
            Err(JsonError::BadLiteral(i as usize))
        }
    } else {
        Err(JsonError::UnexpectedChar(i as usize))
    }
}

#[via_fn]
proof fn spec_tokenize_decreases(s: Seq<char>, i: int) {
    if i < s.len() {
        lemma_scan_string_bounds(s, i + 1);
        lemma_number_run_end_bounds(s, i + 1);
    }
}

/// A string scan never moves backward nor past the end of the input.
pub proof fn lemma_scan_string_bounds(s: Seq<char>, i: int)
    requires
        i <= s.len(),
    ensures
        scan_string(s, i) matches Ok((content, j)) ==> i <= j <= s.len(),
    decreases s.len() - i,
{
    if i < s.len() && s[i] == '"' {
    } else if i < s.len() && s[i] == '\\' && i + 1 < s.len() {
        lemma_scan_string_bounds(s, i + 2);
    } else if i < s.len() && s[i] != '"' && s[i] != '\\' {
        lemma_scan_string_bounds(s, i + 1);
    }
}

/// A numeric run never moves backward nor past the end of the input.
pub proof fn lemma_number_run_end_bounds(s: Seq<char>, i: int)
    requires
        i <= s.len(),
    ensures
        i <= number_run_end(s, i) <= s.len(),
    decreases s.len() - i,
{
    if i < s.len() && is_number_char(s[i]) {
        lemma_number_run_end_bounds(s, i + 1);
    }
}

/// A run of number characters that cannot be extended is the maximal run.
proof fn lemma_number_run_end_at(s: Seq<char>, a: int, b: int)
    requires
        0 <= a <= b <= s.len(),
        forall|k: int| a <= k < b ==> is_number_char(#[trigger] s[k]),
        b == s.len() || !is_number_char(s[b]),
    ensures
        number_run_end(s, a) == b,
    decreases b - a,
{
    if a < b {
        lemma_number_run_end_at(s, a + 1, b);
    }
}

/// Concatenate already-produced tokens with the outcome of the rest of the
/// scan.
pub open spec fn cat_lexemes(pre: Seq<Lexeme>, r: Result<Seq<Lexeme>, JsonError>) -> Result<
    Seq<Lexeme>,
    JsonError,
> {
    match r {
        Ok(rest) => Ok(pre + rest),
        Err(e) => Err(e),
    }
}

proof fn lemma_cat_lexemes_empty(r: Result<Seq<Lexeme>, JsonError>)
    ensures
        cat_lexemes(Seq::empty(), r) == r,
{
    match r {
        Ok(rest) => {
            assert(Seq::<Lexeme>::empty() + rest =~= rest);
        },
        Err(_) => {},
    }
}

proof fn lemma_cat_lexemes_cons(pre: Seq<Lexeme>, t: Lexeme, r: Result<Seq<Lexeme>, JsonError>)
    ensures
        cat_lexemes(pre, cons_lexeme(t, r)) == cat_lexemes(pre.push(t), r),
{
    match r {
        Ok(rest) => {
            assert(pre + (seq![t] + rest) =~= pre.push(t) + rest);
        },
        Err(_) => {},
    }
}

proof fn lemma_lex_seq_push(ts: Seq<Token>, t: Token)
    ensures
        lex_seq(ts.push(t)) =~= lex_seq(ts).push(lex_of(t)),
{
}

/// Concatenate already-decoded content with the outcome of the rest of a
/// string scan.
pub open spec fn scan_cat(pre: Seq<char>, r: Result<(Seq<char>, int), JsonError>) -> Result<
    (Seq<char>, int),
    JsonError,
> {
    match r {
        Ok((content, j)) => Ok((pre + content, j)),
        Err(e) => Err(e),
    }
}

proof fn lemma_scan_cat_empty(r: Result<(Seq<char>, int), JsonError>)
    ensures
        scan_cat(Seq::empty(), r) == r,
{
    match r {
        Ok((content, j)) => {
            assert(Seq::<char>::empty() + content =~= content);
        },
        Err(_) => {},
    }
}

proof fn lemma_scan_cat_cons(pre: Seq<char>, c: char, r: Result<(Seq<char>, int), JsonError>)
    ensures
        scan_cat(pre, scan_cons(c, r)) == scan_cat(pre.push(c), r),
{
    match r {
        Ok((content, j)) => {
            assert(pre + (seq![c] + content) =~= pre.push(c) + content);
        },
        Err(_) => {},
    }
}

/// Scan the body of one string token: `start` points just after the opening
/// quote.  Returns the decoded content and the position after the token.
fn scan_string_body(chars: &Vec<char>, start: usize) -> (r: Result<(Vec<char>, usize), JsonError>)
    requires
        start <= chars@.len(),
    ensures
        match r {
            Ok(p) => scan_string(chars@, start as int) == Ok::<(Seq<char>, int), JsonError>(
                (p.0@, p.1 as int),
            ) && start <= p.1 <= chars@.len(),
            Err(e) => scan_string(chars@, start as int) == Err::<(Seq<char>, int), JsonError>(e),
        },
{
    let n = chars.len();
    let mut content: Vec<char> = Vec::new();
    let mut i: usize = start;
    proof {
        lemma_scan_cat_empty(scan_string(chars@, start as int));
        assert(content@ =~= Seq::<char>::empty());
    }
    loop
        invariant
            start <= i <= n,
            n == chars@.len(),
            scan_string(chars@, start as int) == scan_cat(content@, scan_string(chars@, i as int)),
        decreases n - i,
    {
        if i >= n {
            // the input ended before a closing quote: the content so far is
            // the token
            return Ok((content, n));
        }
        let c = chars[i];
        if c == '"' {
            return Ok((content, i + 1));
        } else if c == '\\' {
            if i + 1 >= n {
                // the input ended right after the escape character
                return Ok((content, n));
            }
            let e = chars[i + 1];
            let decoded: char = if e == '"' {
                '"'
            } else if e == '\\' {
                '\\'
            } else if e == '/' {
                '/'
            } else if e == 'b' {
                '\u{8}'
            } else if e == 'f' {
                '\u{c}'
            } else if e == 'n' {
                '\n'
            } else if e == 'r' {
                '\r'
            } else if e == 't' {
                '\t'
            } else {
                return Err(JsonError::InvalidEscape(i + 1));
            };
            proof {
                lemma_scan_cat_cons(content@, decoded, scan_string(chars@, i + 2));
            }
            content.push(decoded);
            i = i + 2;
        } else {
            proof {
                lemma_scan_cat_cons(content@, c, scan_string(chars@, i + 1));
            }
            content.push(c);
            i = i + 1;
        }
    }
}

fn is_digit_char(c: char) -> (r: bool)
    ensures
        r == is_digit(c),
{
    let u: u32 = c as u32;
    48 <= u && u <= 57
}

fn is_number_char_exec(c: char) -> (r: bool)
    ensures
        r == is_number_char(c),
{
    is_digit_char(c) || c == '.' || c == 'e' || c == 'E' || c == '+' || c == '-'
}

/// Walk past the digits starting at `i`.
fn digits_end_exec(v: &Vec<char>, i: usize) -> (r: usize)
    requires
        i <= v@.len(),
    ensures
        r as int == digits_end(v@, i as int),
        i <= r <= v@.len(),
{
    let n = v.len();
    let mut j: usize = i;
    while j < n && is_digit_char(v[j])
        invariant
            i <= j <= n,
            n == v@.len(),
            digits_end(v@, i as int) == digits_end(v@, j as int),
        decreases n - j,
    {
        j = j + 1;
    }
    j
}

/// Decide `valid_number_run` for a scanned run.
fn is_valid_number_run(v: &Vec<char>) -> (r: bool)
    ensures
        r == valid_number_run(v@),
{
    let n = v.len();
    let mut b: usize = 0;
    if n > 0 && (v[0] == '+' || v[0] == '-') {
        b = 1;
    }
    let m = digits_end_exec(v, b);
    let has_dot = m < n && v[m] == '.';
    let f = if has_dot {
        digits_end_exec(v, m + 1)
    } else {
        m
    };
    let digits_present = m > b || (has_dot && f > m + 1);
    if !digits_present {
        return false;
    }
    if f == n {
        return true;
    }
    let c = v[f];
    if !(c == 'e' || c == 'E') {
        return false;
    }
    let mut g: usize = f + 1;
    if g < n && (v[g] == '+' || v[g] == '-') {
        g = g + 1;
    }
    let d = digits_end_exec(v, g);
    d == n && d > g
}

/// Scan the whole input into its token sequence, or return the first error.
/// The result is exactly what `spec_tokenize` states, from the start of the
/// input.
pub fn tokenize(input: &str) -> (r: Result<Vec<Token>, JsonError>)
    ensures
        match r {
            Ok(tokens) => spec_tokenize(input@, 0) == Ok::<Seq<Lexeme>, JsonError>(
                lex_seq(tokens@),
            ),
            Err(e) => spec_tokenize(input@, 0) == Err::<Seq<Lexeme>, JsonError>(e),
        },
{
    let chars = str_chars(input);
    let n = chars.len();
    let mut tokens: Vec<Token> = Vec::new();
    let mut i: usize = 0;
    proof {
        lemma_cat_lexemes_empty(spec_tokenize(input@, 0));
        assert(lex_seq(tokens@) =~= Seq::<Lexeme>::empty());
    }
    while i < n
        invariant
            i <= n,
            n == chars@.len(),
            chars@ == input@,
            spec_tokenize(input@, 0) == cat_lexemes(
                lex_seq(tokens@),
                spec_tokenize(input@, i as int),
            ),
        decreases n - i,
    {
        let c = chars[i];
        if is_whitespace_char(c) {
            i = i + 1;
        } else if c == '{' {
            proof {
                lemma_cat_lexemes_cons(
                    lex_seq(tokens@),
                    Lexeme::LeftBrace,
                    spec_tokenize(input@, i + 1),
                );
                lemma_lex_seq_push(tokens@, Token::LeftBrace);
            }
            tokens.push(Token::LeftBrace);
            i = i + 1;
        } else if c == '}' {
            proof {
                lemma_cat_lexemes_cons(
                    lex_seq(tokens@),
                    Lexeme::RightBrace,
                    spec_tokenize(input@, i + 1),
                );
                lemma_lex_seq_push(tokens@, Token::RightBrace);
            }
            tokens.push(Token::RightBrace);
            i = i + 1;
        } else if c == '[' {
            proof {
                lemma_cat_lexemes_cons(
                    lex_seq(tokens@),
                    Lexeme::LeftBracket,
                    spec_tokenize(input@, i + 1),
                );
                lemma_lex_seq_push(tokens@, Token::LeftBracket);
            }
            tokens.push(Token::LeftBracket);
            i = i + 1;
        } else if c == ']' {
            proof {
                lemma_cat_lexemes_cons(
                    lex_seq(tokens@),
                    Lexeme::RightBracket,
                    spec_tokenize(input@, i + 1),
                );
                lemma_lex_seq_push(tokens@, Token::RightBracket);
            }
            tokens.push(Token::RightBracket);
            i = i + 1;
        } else if c == ':' {
            proof {
                lemma_cat_lexemes_cons(
                    lex_seq(tokens@),
                    Lexeme::Colon,
                    spec_tokenize(input@, i + 1),
                );
                lemma_lex_seq_push(tokens@, Token::Colon);
            }
            tokens.push(Token::Colon);
            i = i + 1;
        } else if c == ',' {
            proof {
                lemma_cat_lexemes_cons(
                    lex_seq(tokens@),
                    Lexeme::Comma,
                    spec_tokenize(input@, i + 1),
                );
                lemma_lex_seq_push(tokens@, Token::Comma);
            }
            tokens.push(Token::Comma);
            i = i + 1;
        } else if c == '"' {
            match scan_string_body(&chars, i + 1) {
                Ok(p) => {
                    let (content, j) = p;
                    let text = chars_to_string(&content);
                    proof {
                        lemma_cat_lexemes_cons(
                            lex_seq(tokens@),
                            Lexeme::Strng(content@),
                            spec_tokenize(input@, j as int),
                        );
                        lemma_lex_seq_push(tokens@, Token::String(text));
                    }
                    tokens.push(Token::String(text));
                    i = j;
                },
                Err(e) => {
                    return Err(e);
                },
            }
        } else if is_digit_char(c) || c == '-' {
            let start = i;
            let mut run: Vec<char> = Vec::new();
            proof {
                assert(run@ =~= input@.subrange(start as int, i as int));
            }
            while i < n && is_number_char_exec(chars[i])
                invariant
                    start <= i <= n,
                    n == chars@.len(),
                    chars@ == input@,
                    run@ == input@.subrange(start as int, i as int),
                    forall|k: int| start <= k < i ==> is_number_char(#[trigger] input@[k]),
                decreases n - i,
            {
                let ghost prev = i as int;
                run.push(chars[i]);
                i = i + 1;
                proof {
                    assert(input@.subrange(start as int, i as int) =~= input@.subrange(
                        start as int,
                        prev,
                    ).push(input@[prev]));
                }
            }
            proof {
                lemma_number_run_end_at(input@, start as int, i as int);
            }
            if is_valid_number_run(&run) {
                let text = chars_to_string(&run);
                proof {
                    lemma_cat_lexemes_cons(
                        lex_seq(tokens@),
                        Lexeme::Number(text@),
                        spec_tokenize(input@, i as int),
                    );
                    lemma_lex_seq_push(tokens@, Token::Number(text));
                }
                tokens.push(Token::Number(text));
            } else {
                return Err(JsonError::InvalidNumber(start));
            }
        } else if c == 't' {
            if n - i >= 4 && chars[i + 1] == 'r' && chars[i + 2] == 'u' && chars[i + 3] == 'e' {
                proof {
                    assert(input@.subrange(i as int, i + 4) =~= true_run());
                    lemma_cat_lexemes_cons(
                        lex_seq(tokens@),
                        Lexeme::Boolean(true),
                        spec_tokenize(input@, i + 4),
                    );
                    lemma_lex_seq_push(tokens@, Token::Boolean(true));
                }
                tokens.push(Token::Boolean(true));
                i = i + 4;
            } else {
                proof {
                    if literal_at(input@, i as int, true_run()) {
                        assert(input@.subrange(i as int, i + 4)[1] == input@[i + 1]);
                        assert(input@.subrange(i as int, i + 4)[2] == input@[i + 2]);
                        assert(input@.subrange(i as int, i + 4)[3] == input@[i + 3]);
                    }
                }
                return Err(JsonError::BadLiteral(i));
            }
        } else if c == 'f' {
            if n - i >= 5 && chars[i + 1] == 'a' && chars[i + 2] == 'l' && chars[i + 3] == 's'
                && chars[i + 4] == 'e' {
                proof {
                    assert(input@.subrange(i as int, i + 5) =~= false_run());
                    lemma_cat_lexemes_cons(
                        lex_seq(tokens@),
                        Lexeme::Boolean(false),
                        spec_tokenize(input@, i + 5),
                    );
                    lemma_lex_seq_push(tokens@, Token::Boolean(false));
                }
                tokens.push(Token::Boolean(false));
                i = i + 5;
            } else {
                proof {
                    if literal_at(input@, i as int, false_run()) {
                        assert(input@.subrange(i as int, i + 5)[1] == input@[i + 1]);
                        assert(input@.subrange(i as int, i + 5)[2] == input@[i + 2]);
                        assert(input@.subrange(i as int, i + 5)[3] == input@[i + 3]);
                        assert(input@.subrange(i as int, i + 5)[4] == input@[i + 4]);
                    }
                }
                return Err(JsonError::BadLiteral(i));
            }
        } else if c == 'n' {
            if n - i >= 4 && chars[i + 1] == 'u' && chars[i + 2] == 'l' && chars[i + 3] == 'l' {
                proof {
                    assert(input@.subrange(i as int, i + 4) =~= null_run());
                    lemma_cat_lexemes_cons(
                        lex_seq(tokens@),
                        Lexeme::Null,
                        spec_tokenize(input@, i + 4),
                    );
                    lemma_lex_seq_push(tokens@, Token::Null);
                }
                tokens.push(Token::Null);
                i = i + 4;
            } else {
                proof {
                    if literal_at(input@, i as int, null_run()) {
                        assert(input@.subrange(i as int, i + 4)[1] == input@[i + 1]);
                        assert(input@.subrange(i as int, i + 4)[2] == input@[i + 2]);
                        assert(input@.subrange(i as int, i + 4)[3] == input@[i + 3]);
                    }
                }
                return Err(JsonError::BadLiteral(i));
            }
        } else {
            return Err(JsonError::UnexpectedChar(i));
        }
    }
    proof {
        assert(spec_tokenize(input@, i as int) == Ok::<Seq<Lexeme>, JsonError>(Seq::empty()));
        assert(lex_seq(tokens@) + Seq::<Lexeme>::empty() =~= lex_seq(tokens@));
    }
    Ok(tokens)
}

} // verus!
