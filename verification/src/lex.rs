//! The lexer: a single left-to-right pass over the source text with one
//! character of lookahead and no backtracking.
//!
//! * a digit starts a run of digit-like characters that must form an
//!   unsigned integer literal (a decimal point makes it malformed),
//! * a letter starts a maximal run of alphanumeric characters, emitted as an
//!   `Identifier` token,
//! * `(` and `)` become the two paren tokens,
//! * the single-character operator symbols `+ - * = [ ]` become
//!   `Identifier` tokens so they can be looked up as ordinary procedures,
//! * every other character is a silent separator.

use vstd::prelude::*;

use crate::errors::SyntaxError;

verus! {

/// An atomic lexical unit of the source text.
#[derive(Debug, Clone, PartialEq, Eq)]
pub enum Token {
    Integer(usize),
    Identifier(String),
    OpenParen,
    CloseParen,
}

/// The mathematical image of a [`Token`]: integers as `nat`, names as
/// character sequences.
pub enum TokenModel {
    Integer(nat),
    Identifier(Seq<char>),
    OpenParen,
    CloseParen,
}

impl View for Token {
    type V = TokenModel;

    open spec fn view(&self) -> TokenModel {
        match self {
            Token::Integer(n) => TokenModel::Integer(*n as nat),
            Token::Identifier(s) => TokenModel::Identifier(s@),
            Token::OpenParen => TokenModel::OpenParen,
            Token::CloseParen => TokenModel::CloseParen,
        }
    }
}

impl DeepView for Token {
    type V = TokenModel;

    open spec fn deep_view(&self) -> TokenModel {
        self.view()
    }
}

/// `c` is an ASCII decimal digit.
pub open spec fn is_digit(c: char) -> bool {
    48 <= (c as u32) && (c as u32) <= 57
}

/// `c` is an ASCII letter.
pub open spec fn is_letter(c: char) -> bool {
    (65 <= (c as u32) && (c as u32) <= 90) || (97 <= (c as u32) && (c as u32) <= 122)
}

/// `c` may continue an identifier: a letter or a digit.
pub open spec fn is_ident_char(c: char) -> bool {
    is_letter(c) || is_digit(c)
}

/// `c` belongs to a numeric run: a digit or a decimal point.
pub open spec fn is_number_char(c: char) -> bool {
    is_digit(c) || c == '.'
}

/// `c` is one of the single-character operator symbols that lex as
/// one-character identifiers.
pub open spec fn is_operator_char(c: char) -> bool {
    c == '+' || c == '-' || c == '*' || c == '=' || c == '[' || c == ']'
}

/// The numeric value of a digit character.
pub open spec fn digit_value(c: char) -> nat {
    ((c as u32) - 48) as nat
}

/// The value of a sequence of decimal digits, most significant first.
pub open spec fn digits_value(ds: Seq<char>) -> nat
    decreases ds.len(),
{
    if ds.len() == 0 {
        0
    } else {
        digits_value(ds.drop_last()) * 10 + digit_value(ds.last())
    }
}

/// How many number-run characters stand at position `i` and onwards.
pub open spec fn number_run_len(s: Seq<char>, i: int) -> nat
    decreases rest_len(s, i),
{
    if 0 <= i && i < s.len() && is_number_char(s[i]) {
        1 + number_run_len(s, i + 1)
    } else {
        0
    }
}

/// How many identifier characters stand at position `i` and onwards.
pub open spec fn ident_run_len(s: Seq<char>, i: int) -> nat
    decreases rest_len(s, i),
{
    if 0 <= i && i < s.len() && is_ident_char(s[i]) {
        1 + ident_run_len(s, i + 1)
    } else {
        0
    }
}

/// The number of characters of `s` at or after position `i`; the measure for
/// the left-to-right recursions of this module.
pub open spec fn rest_len(s: Seq<char>, i: int) -> nat {
    if i <= s.len() {
        (s.len() - i) as nat
    } else {
        0
    }
}

/// Appending digits to a digit string never shrinks its value.
pub proof fn lemma_digits_value_prefix(ds: Seq<char>, n: int)
    requires
        0 <= n <= ds.len(),
    ensures
        digits_value(ds.subrange(0, n)) <= digits_value(ds),
    decreases ds.len() - n,
{
    if n < ds.len() {
        lemma_digits_value_prefix(ds, n + 1);
        let a = ds.subrange(0, n);
        let b = ds.subrange(0, n + 1);
        assert(b.drop_last() =~= a);
        assert(digits_value(b) == digits_value(a) * 10 + digit_value(ds[n]));
        assert(digits_value(a) <= digits_value(a) * 10) by (nonlinear_arith)
            requires digits_value(a) >= 0,
        ;
    } else {
        assert(ds.subrange(0, n) =~= ds);
    }
}

/// The token stream of `s` from position `i` on.
pub open spec fn spec_lex_from(s: Seq<char>, i: int) -> Result<Seq<TokenModel>, SyntaxError>
    decreases rest_len(s, i),
{
    if !(0 <= i && i < s.len()) {
        Ok(Seq::empty())
    } else {
        let c = s[i];
        if is_digit(c) {
            let j = i + 1 + number_run_len(s, i + 1);
            let ds = s.subrange(i, j);
            if exists|k: int| 0 <= k < ds.len() && !is_digit(ds[k]) {
                Err(SyntaxError::MalformedNumber)
            } else if digits_value(ds) > usize::MAX {
                Err(SyntaxError::MalformedNumber)
            } else {
                lex_prepend(TokenModel::Integer(digits_value(ds)), spec_lex_from(s, j))
            }
        } else if c == '(' {
            lex_prepend(TokenModel::OpenParen, spec_lex_from(s, i + 1))
        } else if c == ')' {
            lex_prepend(TokenModel::CloseParen, spec_lex_from(s, i + 1))
        } else if is_operator_char(c) {
            lex_prepend(TokenModel::Identifier(seq![c]), spec_lex_from(s, i + 1))
        } else if is_letter(c) {
            let j = i + 1 + ident_run_len(s, i + 1);
            lex_prepend(TokenModel::Identifier(s.subrange(i, j)), spec_lex_from(s, j))
        } else {
            spec_lex_from(s, i + 1)
        }
    }
}

/// Put one token in front of a lexing result, keeping an error as it is.
pub open spec fn lex_prepend(
    t: TokenModel,
    r: Result<Seq<TokenModel>, SyntaxError>,
) -> Result<Seq<TokenModel>, SyntaxError> {
    match r {
        Ok(ts) => Ok(seq![t] + ts),
        Err(e) => Err(e),
    }
}

/// The token stream of the whole of `s`.
pub open spec fn spec_lex(s: Seq<char>) -> Result<Seq<TokenModel>, SyntaxError> {
    spec_lex_from(s, 0)
}

/// Put a sequence of already-emitted tokens in front of a lexing result.
pub open spec fn lex_emitted(
    ts: Seq<TokenModel>,
    r: Result<Seq<TokenModel>, SyntaxError>,
) -> Result<Seq<TokenModel>, SyntaxError> {
    match r {
        Ok(rest) => Ok(ts + rest),
        Err(e) => Err(e),
    }
}

/// The exec image of a lexing result.
pub open spec fn lex_result_view(
    r: Result<Vec<Token>, SyntaxError>,
) -> Result<Seq<TokenModel>, SyntaxError> {
    match r {
        Ok(v) => Ok(v.deep_view()),
        Err(e) => Err(e),
    }
}

/// Decide [`is_digit`] executably.
fn digit(c: char) -> (b: bool)
    ensures
        b == is_digit(c),
{
    let u = c as u32;
    48 <= u && u <= 57
}

/// Decide [`is_letter`] executably.
fn letter(c: char) -> (b: bool)
    ensures
        b == is_letter(c),
{
    let u = c as u32;
    (65 <= u && u <= 90) || (97 <= u && u <= 122)
}

/// Decide [`is_number_char`] executably.
fn number_char(c: char) -> (b: bool)
    ensures
        b == is_number_char(c),
{
    digit(c) || c == '.'
}

/// Decide [`is_ident_char`] executably.
fn ident_char(c: char) -> (b: bool)
    ensures
        b == is_ident_char(c),
{
    letter(c) || digit(c)
}

/// The characters of `s`, as a vector.
pub(crate) fn chars_of(s: &str) -> (r: Vec<char>)
    ensures
        r@ == s@,
{
    let n = s.unicode_len();
    let mut r: Vec<char> = Vec::new();
    let mut i: usize = 0;
    while i < n
        invariant
            i <= n,
            n == s@.len(),
            r@ =~= s@.subrange(0, i as int),
        decreases n - i,
    {
        r.push(s.get_char(i));
        i = i + 1;
    }
    assert(r@ =~= s@);
    r
}

/// Turn raw source text into a flat token sequence, left to right.
///
/// Fails exactly when a numeric run is malformed: it contains a decimal
/// point, or its value exceeds the machine integer range.
pub fn lex(input: &String) -> (r: Result<Vec<Token>, SyntaxError>)
    ensures
        lex_result_view(r) == spec_lex(input@),
{
    let ghost s = input@;
    let chars = chars_of(input.as_str());
    let n = chars.len();
    let mut toks: Vec<Token> = Vec::new();
    let mut i: usize = 0;
    while i < n
        invariant
            i <= n,
            n == s.len(),
            s == input@,
            chars@ == s,
            spec_lex(s) == lex_emitted(toks.deep_view(), spec_lex_from(s, i as int)),
        decreases n - i,
    {
        let ghost toks_before = toks.deep_view();
        let c = chars[i];
        if digit(c) {
            // A numeric run: scan its digit-like extent first.
            let mut j: usize = i + 1;
            while j < n && number_char(chars[j])
                invariant
                    i + 1 <= j <= n,
                    n == s.len(),
                    chars@ == s,
                    forall|k: int| i + 1 <= k < j ==> is_number_char(#[trigger] s[k]),
                    number_run_len(s, i + 1) == number_run_len(s, j as int) + j - i - 1,
                decreases n - j,
            {
                assert(number_run_len(s, j as int) == 1 + number_run_len(s, j as int + 1));
                j = j + 1;
            }
            assert(number_run_len(s, j as int) == 0);
            assert(j == i + 1 + number_run_len(s, i + 1));
            let ghost ds = s.subrange(i as int, j as int);
            // The run is maximal, so the spec's extent is exactly `j`.
            // Fold the digits into a machine integer, rejecting dots and
            // overflow as malformed.
            let mut acc: usize = 0;
            let mut k: usize = i;
            let mut bad: bool = false;
            while k < j && !bad
                invariant
                    i <= k <= j <= n,
                    n == s.len(),
                    chars@ == s,
                    ds == s.subrange(i as int, j as int),
                    !bad ==> {
                        &&& forall|m: int| i <= m < k ==> is_digit(#[trigger] s[m])
                        &&& acc == digits_value(s.subrange(i as int, k as int))
                    },
                    bad ==> (exists|m: int| 0 <= m < ds.len() && !is_digit(ds[m]))
                        || digits_value(ds) > usize::MAX,
                decreases j - k,
            {
                let d = chars[k];
                let du = d as u32;
                if 48 <= du && du <= 57 {
                    let dv = (du - 48) as usize;
                    let ghost prefix = s.subrange(i as int, k as int);
                    let ghost prefix1 = s.subrange(i as int, k + 1);
                    assert(prefix1.drop_last() =~= prefix);
                    match acc.checked_mul(10) {
                        Some(a10) => match a10.checked_add(dv) {
                            Some(a) => {
                                acc = a;
                            },
                            None => {
                                proof {
                                    lemma_digits_value_prefix(ds, k + 1 - i);
                                    assert(ds.subrange(0, k + 1 - i) =~= prefix1);
                                }
                                bad = true;
                            },
                        },
                        None => {
                            proof {
                                lemma_digits_value_prefix(ds, k + 1 - i);
                                assert(ds.subrange(0, k + 1 - i) =~= prefix1);
                            }
                            bad = true;
                        },
                    }
                } else {
                    assert(!is_digit(ds[k - i]));
                    bad = true;
                }
                k = k + 1;
            }
            if bad {
                proof {
                    assert(spec_lex_from(s, i as int) == Err::<Seq<TokenModel>, SyntaxError>(
                        SyntaxError::MalformedNumber,
                    ));
                    assert(lex_emitted(toks.deep_view(), spec_lex_from(s, i as int))
                        == Err::<Seq<TokenModel>, SyntaxError>(SyntaxError::MalformedNumber));
                    assert(spec_lex(input@) == Err::<Seq<TokenModel>, SyntaxError>(
                        SyntaxError::MalformedNumber,
                    ));
                }
                return Err(SyntaxError::MalformedNumber);
            }
            assert(s.subrange(i as int, k as int) =~= ds);
            assert(forall|m: int| 0 <= m < ds.len() ==> is_digit(#[trigger] ds[m])) by {
                assert(forall|m: int| 0 <= m < ds.len() ==> ds[m] == s[i + m]);
            }
            assert(spec_lex_from(s, i as int) == lex_prepend(
                TokenModel::Integer(digits_value(ds)),
                spec_lex_from(s, j as int),
            ));
            toks.push(Token::Integer(acc));
            proof {
                assert(toks.deep_view() =~= toks_before.push(TokenModel::Integer(acc as nat)));
                lemma_lex_emitted_step(
                    toks_before,
                    TokenModel::Integer(acc as nat),
                    spec_lex_from(s, j as int),
                );
            }
            i = j;
        } else if c == '(' {
            toks.push(Token::OpenParen);
            proof {
                assert(toks.deep_view() =~= toks_before.push(TokenModel::OpenParen));
                lemma_lex_emitted_step(toks_before, TokenModel::OpenParen, spec_lex_from(s, i + 1));
            }
            i = i + 1;
        } else if c == ')' {
            toks.push(Token::CloseParen);
            proof {
                assert(toks.deep_view() =~= toks_before.push(TokenModel::CloseParen));
                lemma_lex_emitted_step(toks_before, TokenModel::CloseParen, spec_lex_from(s, i + 1));
            }
            i = i + 1;
        } else if c == '+' || c == '-' || c == '*' || c == '=' || c == '[' || c == ']' {
            let name = match c {
                '+' => "+".to_owned(),
                '-' => "-".to_owned(),
                '*' => "*".to_owned(),
                '=' => "=".to_owned(),
                '[' => "[".to_owned(),
                _ => "]".to_owned(),
            };
            proof {
                reveal_strlit("+");
                reveal_strlit("-");
                reveal_strlit("*");
                reveal_strlit("=");
                reveal_strlit("[");
                reveal_strlit("]");
                assert(name@ =~= seq![c]);
            }
            toks.push(Token::Identifier(name));
            proof {
                assert(toks.deep_view() =~= toks_before.push(TokenModel::Identifier(seq![c])));
                lemma_lex_emitted_step(
                    toks_before,
                    TokenModel::Identifier(seq![c]),
                    spec_lex_from(s, i + 1),
                );
            }
            i = i + 1;
        } else if letter(c) {
            // An identifier: a maximal alphanumeric run.
            let mut j: usize = i + 1;
            while j < n && ident_char(chars[j])
                invariant
                    i + 1 <= j <= n,
                    n == s.len(),
                    chars@ == s,
                    ident_run_len(s, i + 1) == ident_run_len(s, j as int) + j - i - 1,
                decreases n - j,
            {
                assert(ident_run_len(s, j as int) == 1 + ident_run_len(s, j as int + 1));
                j = j + 1;
            }
            assert(ident_run_len(s, j as int) == 0);
            assert(j == i + 1 + ident_run_len(s, i + 1));
            let sstr = input.as_str();
            assert(sstr@ == s);
            let name = sstr.substring_char(i, j).to_owned();
            toks.push(Token::Identifier(name));
            proof {
                let nm = s.subrange(i as int, j as int);
                assert(toks.deep_view() =~= toks_before.push(TokenModel::Identifier(nm)));
                lemma_lex_emitted_step(
                    toks_before,
                    TokenModel::Identifier(nm),
                    spec_lex_from(s, j as int),
                );
            }
            i = j;
        } else {
            i = i + 1;
        }
    }
    assert(spec_lex_from(s, i as int) == Ok::<Seq<TokenModel>, SyntaxError>(Seq::empty()));
    assert(toks.deep_view() + Seq::<TokenModel>::empty() =~= toks.deep_view());
    Ok(toks)
}

/// A run of characters that are all number-like spans the rest of `s`.
pub proof fn lemma_number_run_full(s: Seq<char>, i: int)
    requires
        0 <= i <= s.len(),
        forall|k: int| i <= k < s.len() ==> is_number_char(#[trigger] s[k]),
    ensures
        number_run_len(s, i) == s.len() - i,
    decreases s.len() - i,
{
    if i < s.len() {
        lemma_number_run_full(s, i + 1);
    }
}

/// Lexing a nonempty run of digits whose value fits the machine yields
/// exactly one `Integer` token holding that value.
pub proof fn lemma_lex_digit_run(s: Seq<char>)
    requires
        s.len() > 0,
        forall|k: int| 0 <= k < s.len() ==> is_digit(#[trigger] s[k]),
        digits_value(s) <= usize::MAX,
    ensures
        spec_lex(s) == Ok::<Seq<TokenModel>, SyntaxError>(
            seq![TokenModel::Integer(digits_value(s))],
        ),
{
    lemma_number_run_full(s, 1);
    let j: int = 1 + number_run_len(s, 1) as int;
    assert(j == s.len());
    let ds = s.subrange(0, j);
    assert(ds =~= s);
    assert(spec_lex_from(s, j) == Ok::<Seq<TokenModel>, SyntaxError>(Seq::empty()));
    assert(seq![TokenModel::Integer(digits_value(s))] + Seq::<TokenModel>::empty() =~= seq![
        TokenModel::Integer(digits_value(s)),
    ]);
}

/// Folding one more token into the emitted prefix commutes with prepending
/// it to the remainder of the stream.
proof fn lemma_lex_emitted_step(
    ts: Seq<TokenModel>,
    t: TokenModel,
    r: Result<Seq<TokenModel>, SyntaxError>,
)
    ensures
        lex_emitted(ts, lex_prepend(t, r)) == lex_emitted(ts.push(t), r),
{
    match r {
        Ok(rest) => {
            assert(ts + (seq![t] + rest) =~= ts.push(t) + rest);
        },
        Err(_) => {},
    }
}

} // verus!
