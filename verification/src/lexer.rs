//! The lexer: consumes the source string once, character by character, and
//! produces the ordered token sequence, keeping an in-progress identifier
//! buffer that is flushed through the keyword lookup on every delimiter,
//! operator, digit run or whitespace.

use vstd::prelude::*;
use crate::errors::CompileError;
use crate::token::{Token, TokenModel, keyword_token, process_identifier, tview};
use crate::resolver::{preprocessor_firstpass, spec_resolve};

verus! {

/// Whether `c` is in the Unicode class Alphabetic.
pub uninterp spec fn is_alpha(c: char) -> bool;

/// Whether `c` is Unicode whitespace.
pub uninterp spec fn is_white(c: char) -> bool;

/// Relies on char::is_alphabetic of std: whether a character belongs to the
/// Unicode class Alphabetic depends on the character alone.
pub assume_specification[ char::is_alphabetic ](c: char) -> (r: bool)
    ensures
        r == is_alpha(c),
;

/// Relies on char::is_whitespace of std: whether a character has the Unicode
/// White_Space property depends on the character alone.
pub assume_specification[ char::is_whitespace ](c: char) -> (r: bool)
    ensures
        r == is_white(c),
;

/// Relies on String's FromIterator over characters: collecting yields
/// exactly the characters of the buffer, in order.
#[verifier::external_body]
fn chars_to_string(v: &Vec<char>) -> (r: String)
    ensures
        r@ == v@,
{
    v.iter().collect()
}

/// An ASCII decimal digit.
pub open spec fn is_digit(c: char) -> bool {
    48 <= (c as u32) && (c as u32) <= 57
}

/// The value of one decimal digit.
pub open spec fn digit_val(c: char) -> nat {
    ((c as u32) - 48) as nat
}

/// The value of a run of decimal digits, most significant first.
pub open spec fn digits_val(s: Seq<char>) -> nat
    decreases s.len(),
{
    if s.len() == 0 {
        0
    } else {
        digits_val(s.drop_last()) * 10 + digit_val(s.last())
    }
}

/// The first position at or after `i` that does not hold a digit, or the end
/// of the input.
pub open spec fn digit_run_end(s: Seq<char>, i: int) -> int
    decreases s.len() - i,
{
    if i < 0 || i >= s.len() || !is_digit(s[i]) {
        i
    } else {
        digit_run_end(s, i + 1)
    }
}

/// The first line terminator at or after `i`, or the end of the input.
pub open spec fn line_end(s: Seq<char>, i: int) -> int
    decreases s.len() - i,
{
    if i < 0 || i >= s.len() || s[i] == '\n' || s[i] == '\r' {
        i
    } else {
        line_end(s, i + 1)
    }
}

/// A digit run ends at or after where it starts, within the input.
pub proof fn lemma_digit_run_end_bounds(s: Seq<char>, i: int)
    requires
        0 <= i <= s.len(),
    ensures
        i <= digit_run_end(s, i) <= s.len(),
    decreases s.len() - i,
{
    if i < s.len() && is_digit(s[i]) {
        lemma_digit_run_end_bounds(s, i + 1);
    }
}

/// A line ends at or after where the search starts, within the input.
pub proof fn lemma_line_end_bounds(s: Seq<char>, i: int)
    requires
        0 <= i <= s.len(),
    ensures
        i <= line_end(s, i) <= s.len(),
    decreases s.len() - i,
{
    if i < s.len() && s[i] != '\n' && s[i] != '\r' {
        lemma_line_end_bounds(s, i + 1);
    }
}

/// The tokens an identifier buffer flushes to: one keyword-looked-up token
/// when the buffer is non-empty, none otherwise.
pub open spec fn flushed(buf: Seq<char>) -> Seq<TokenModel> {
    if buf.len() > 0 {
        seq![keyword_token(buf)]
    } else {
        Seq::empty()
    }
}

/// Prepends already-produced tokens to the outcome of lexing the rest.
pub open spec fn with_prefix(
    pre: Seq<TokenModel>,
    r: Result<Seq<TokenModel>, CompileError>,
) -> Result<Seq<TokenModel>, CompileError> {
    match r {
        Ok(ts) => Ok(pre + ts),
        Err(e) => Err(e),
    }
}

/// Prefixing twice is prefixing with the concatenation.
pub proof fn lemma_with_prefix_assoc(
    a: Seq<TokenModel>,
    b: Seq<TokenModel>,
    r: Result<Seq<TokenModel>, CompileError>,
)
    ensures
        with_prefix(a, with_prefix(b, r)) == with_prefix(a + b, r),
{
    match r {
        Ok(ts) => {
            assert(a + (b + ts) =~= (a + b) + ts);
        },
        Err(_) => {},
    }
}

/// The tokens of the source from position `i` on, with `buf` as the pending
/// identifier buffer. Each case mirrors one lexer rule; a pending buffer
/// left at the end of the input is discarded.
pub open spec fn spec_lex_from(s: Seq<char>, i: int, buf: Seq<char>) -> Result<
    Seq<TokenModel>,
    CompileError,
>
    decreases s.len() - i,
    via spec_lex_from_dec
{
    if i < 0 || i >= s.len() {
        Ok(Seq::empty())
    } else {
        let c = s[i];
        if c == '=' {
            if i + 1 >= s.len() {
                Err(CompileError::UnexpectedEndAfterAssignment)
            } else if s[i + 1] == '=' {
                with_prefix(
                    flushed(buf).push(TokenModel::Equality),
                    spec_lex_from(s, i + 2, Seq::empty()),
                )
            } else {
                with_prefix(
                    flushed(buf).push(TokenModel::Assignment),
                    spec_lex_from(
                        s,
                        i + 2,
                        if is_white(s[i + 1]) {
                            Seq::empty()
                        } else {
                            seq![s[i + 1]]
                        },
                    ),
                )
            }
        } else if is_digit(c) {
            let j = digit_run_end(s, i);
            if j >= s.len() {
                Ok(flushed(buf))
            } else if digits_val(s.subrange(i, j)) > usize::MAX {
                Err(CompileError::LiteralTooLarge)
            } else {
                with_prefix(
                    flushed(buf).push(
                        TokenModel::SizedLiteral(digits_val(s.subrange(i, j)) as usize),
                    ),
                    spec_lex_from(
                        s,
                        j + 1,
                        if !is_white(s[j]) && s[j] != ';' {
                            seq![s[j]]
                        } else {
                            Seq::empty()
                        },
                    ),
                )
            }
        } else if c == ';' {
            with_prefix(seq![keyword_token(buf)], spec_lex_from(s, i + 1, Seq::empty()))
        } else if c == '{' {
            with_prefix(
                flushed(buf).push(TokenModel::BlockStart(0)),
                spec_lex_from(s, i + 1, Seq::empty()),
            )
        } else if c == '}' {
            with_prefix(flushed(buf).push(TokenModel::BlockEnd), spec_lex_from(s, i + 1, Seq::empty()))
        } else if c == '(' {
            with_prefix(
                flushed(buf).push(TokenModel::ExprStart(0)),
                spec_lex_from(s, i + 1, Seq::empty()),
            )
        } else if c == ')' {
            with_prefix(flushed(buf).push(TokenModel::ExprEnd), spec_lex_from(s, i + 1, Seq::empty()))
        } else if c == '#' {
            let j = line_end(s, i + 1);
            with_prefix(
                flushed(buf).push(TokenModel::PreprocessorDirective(s.subrange(i + 1, j))),
                spec_lex_from(
                    s,
                    if j < s.len() {
                        j + 1
                    } else {
                        j
                    },
                    Seq::empty(),
                ),
            )
        } else if c == '\\' {
            let j = line_end(s, i + 1);
            spec_lex_from(
                s,
                if j < s.len() {
                    j + 1
                } else {
                    j
                },
                buf,
            )
        } else if is_white(c) {
            with_prefix(flushed(buf), spec_lex_from(s, i + 1, Seq::empty()))
        } else if is_alpha(c) {
            spec_lex_from(s, i + 1, buf.push(c))
        } else {
            Err(CompileError::UnrecognizedCharacter(c))
        }
    }
}

#[via_fn]
proof fn spec_lex_from_dec(s: Seq<char>, i: int, buf: Seq<char>) {
    if 0 <= i < s.len() {
        lemma_digit_run_end_bounds(s, i);
        if i + 1 <= s.len() {
            lemma_line_end_bounds(s, i + 1);
        }
        if is_digit(s[i]) {
            assert(digit_run_end(s, i) == digit_run_end(s, i + 1));
        }
    }
}

/// The tokens of a whole source string.
pub open spec fn spec_lex(s: Seq<char>) -> Result<Seq<TokenModel>, CompileError> {
    spec_lex_from(s, 0, Seq::empty())
}

/// Lexing then bracket resolution.
pub open spec fn spec_parse(s: Seq<char>) -> Result<Seq<TokenModel>, CompileError> {
    match spec_lex(s) {
        Ok(ts) => spec_resolve(ts),
        Err(e) => Err(e),
    }
}

/// The lexer emits at most two tokens per consumed character.
pub proof fn lemma_lex_token_bound(s: Seq<char>, i: int, buf: Seq<char>)
    requires
        0 <= i <= s.len(),
    ensures
        spec_lex_from(s, i, buf) matches Ok(ts) ==> ts.len() <= 2 * (s.len() - i),
    decreases s.len() - i,
{
    if i >= s.len() {
    } else {
        let c = s[i];
        lemma_digit_run_end_bounds(s, i);
        lemma_line_end_bounds(s, i + 1);
        if c == '=' {
            if i + 1 < s.len() {
                if s[i + 1] == '=' {
                    lemma_lex_token_bound(s, i + 2, Seq::empty());
                } else {
                    lemma_lex_token_bound(
                        s,
                        i + 2,
                        if is_white(s[i + 1]) {
                            Seq::empty()
                        } else {
                            seq![s[i + 1]]
                        },
                    );
                }
            }
        } else if is_digit(c) {
            let j = digit_run_end(s, i);
            assert(digit_run_end(s, i) == digit_run_end(s, i + 1));
            lemma_digit_run_end_bounds(s, i + 1);
            if j < s.len() {
                lemma_lex_token_bound(
                    s,
                    j + 1,
                    if !is_white(s[j]) && s[j] != ';' {
                        seq![s[j]]
                    } else {
                        Seq::empty()
                    },
                );
            }
        } else if c == ';' || c == '{' || c == '}' || c == '(' || c == ')' {
            lemma_lex_token_bound(s, i + 1, Seq::empty());
        } else if c == '#' {
            let j = line_end(s, i + 1);
            lemma_lex_token_bound(
                s,
                if j < s.len() {
                    j + 1
                } else {
                    j
                },
                Seq::empty(),
            );
        } else if c == '\\' {
            let j = line_end(s, i + 1);
            lemma_lex_token_bound(
                s,
                if j < s.len() {
                    j + 1
                } else {
                    j
                },
                buf,
            );
        } else if is_white(c) {
            lemma_lex_token_bound(s, i + 1, Seq::empty());
        } else if is_alpha(c) {
            lemma_lex_token_bound(s, i + 1, buf.push(c));
        }
    }
}

/// Whether `c` is an ASCII decimal digit.
fn is_digit_char(c: char) -> (b: bool)
    ensures
        b == is_digit(c),
{
    let u = c as u32;
    48 <= u && u <= 57
}

/// Flushes the pending identifier buffer through the keyword lookup,
/// emitting nothing when it is empty.
fn flush_current(vec: &mut Vec<Token>, current: &mut Vec<char>)
    ensures
        tview(final(vec)@) == tview(old(vec)@) + flushed(old(current)@),
        final(current)@ == Seq::<char>::empty(),
{
    broadcast use crate::token::lemma_tview_push;

    if current.len() > 0 {
        let name = chars_to_string(current);
        let t = process_identifier(name);
        vec.push(t);
        current.clear();
    } else {
        proof {
            assert(tview(vec@) =~= tview(vec@) + flushed(current@));
        }
    }
}

/// Lexes the whole source string.
fn lex(s: &str) -> (r: Result<Vec<Token>, CompileError>)
    ensures
        match r {
            Ok(v) => spec_lex(s@) == Ok::<Seq<TokenModel>, CompileError>(tview(v@)),
            Err(e) => spec_lex(s@) == Err::<Seq<TokenModel>, CompileError>(e),
        },
{
    broadcast use crate::token::lemma_tview_push;

    let n = s.unicode_len();
    let mut vec: Vec<Token> = Vec::new();
    let mut current: Vec<char> = Vec::new();
    let mut i: usize = 0;
    while i < n
        invariant
            n == s@.len(),
            0 <= i <= n,
            with_prefix(tview(vec@), spec_lex_from(s@, i as int, current@)) == spec_lex(s@),
        decreases n - i,
    {
        let ghost pre_vec = tview(vec@);
        let ghost pre_buf = current@;
        let ghost ii = i as int;
        let c = s.get_char(i);
        if c == '=' {
            flush_current(&mut vec, &mut current);
            if i + 1 >= n {
                return Err(CompileError::UnexpectedEndAfterAssignment);
            }
            let next = s.get_char(i + 1);
            if next == '=' {
                let ghost mid = vec@;
                vec.push(Token::Equality);
                proof {
                    assert(tview(vec@) =~= tview(mid).push(TokenModel::Equality));
                    lemma_with_prefix_assoc(
                        pre_vec,
                        flushed(pre_buf).push(TokenModel::Equality),
                        spec_lex_from(s@, ii + 2, Seq::empty()),
                    );
                    assert(tview(mid).push(TokenModel::Equality) =~= pre_vec + flushed(
                        pre_buf,
                    ).push(TokenModel::Equality));
                }
            } else {
                if !next.is_whitespace() {
                    current.push(next);
                }
                let ghost mid = vec@;
                vec.push(Token::Assignment);
                proof {
                    assert(tview(vec@) =~= tview(mid).push(TokenModel::Assignment));
                    lemma_with_prefix_assoc(
                        pre_vec,
                        flushed(pre_buf).push(TokenModel::Assignment),
                        spec_lex_from(s@, ii + 2, current@),
                    );
                    assert(tview(mid).push(TokenModel::Assignment) =~= pre_vec + flushed(
                        pre_buf,
                    ).push(TokenModel::Assignment));
                    if !is_white(s@[ii + 1]) {
                        assert(current@ =~= seq![s@[ii + 1]]);
                    } else {
                        assert(current@ =~= Seq::<char>::empty());
                    }
                }
            }
            i += 2;
        } else if is_digit_char(c) {
            flush_current(&mut vec, &mut current);
            let mut j = i;
            let mut acc: usize = 0;
            let mut big = false;
            proof {
                assert(s@.subrange(ii, ii) =~= Seq::<char>::empty());
            }
            while j < n && is_digit_char(s.get_char(j))
                invariant
                    n == s@.len(),
                    0 <= ii <= j <= n,
                    ii < n,
                    is_digit(s@[ii]),
                    forall|k: int| ii <= k < j ==> is_digit(s@[k]),
                    digit_run_end(s@, ii) == digit_run_end(s@, j as int),
                    !big ==> acc == digits_val(s@.subrange(ii, j as int)),
                    big ==> digits_val(s@.subrange(ii, j as int)) > usize::MAX,
                decreases n - j,
            {
                let d = ((s.get_char(j) as u32) - 48) as usize;
                let ghost pre_run = s@.subrange(ii, j as int);
                proof {
                    assert(s@.subrange(ii, j as int + 1).drop_last() =~= pre_run);
                    assert(s@.subrange(ii, j as int + 1).last() == s@[j as int]);
                }
                if big || acc > (usize::MAX - d) / 10 {
                    proof {
                        let v = digits_val(pre_run);
                        let v2 = digits_val(s@.subrange(ii, j as int + 1));
                        assert(v2 == v * 10 + digit_val(s@[j as int]));
                        if big {
                            assert(v * 10 + digit_val(s@[j as int]) > usize::MAX) by (nonlinear_arith)
                                requires
                                    v > usize::MAX,
                            ;
                        } else {
                            let dd = digit_val(s@[j as int]);
                            assert(dd == d);
                            assert(v * 10 + dd > usize::MAX) by (nonlinear_arith)
                                requires
                                    v > (usize::MAX - dd) / 10,
                                    dd < 10,
                            ;
                        }
                    }
                    big = true;
                } else {
                    proof {
                        let dd = digit_val(s@[j as int]);
                        assert(dd == d);
                        assert(acc * 10 + dd <= usize::MAX) by (nonlinear_arith)
                            requires
                                acc <= (usize::MAX - dd) / 10,
                                dd < 10,
                        ;
                        assert(digits_val(s@.subrange(ii, j as int + 1)) == digits_val(pre_run) * 10
                            + dd);
                    }
                    acc = acc * 10 + d;
                }
                j += 1;
                proof {
                    assert(digit_run_end(s@, j - 1) == digit_run_end(s@, j as int));
                }
            }
            proof {
                assert(digit_run_end(s@, j as int) == j as int);
                assert(digit_run_end(s@, ii) == j as int);
            }
            if j >= n {
                proof {
                    assert(spec_lex_from(s@, ii, pre_buf) == Ok::<Seq<TokenModel>, CompileError>(
                        flushed(pre_buf),
                    ));
                    assert(tview(vec@) =~= (pre_vec + flushed(pre_buf)) + Seq::<
                        TokenModel,
                    >::empty());
                }
                return Ok(vec);
            }
            if big {
                return Err(CompileError::LiteralTooLarge);
            }
            let ghost mid = vec@;
            vec.push(Token::SizedLiteral(acc));
            proof {
                assert(tview(vec@) =~= tview(mid).push(TokenModel::SizedLiteral(acc)));
            }
            let t = s.get_char(j);
            if !t.is_whitespace() && t != ';' {
                current.push(t);
            }
            proof {
                let e = flushed(pre_buf).push(
                    TokenModel::SizedLiteral(digits_val(s@.subrange(ii, j as int)) as usize),
                );
                lemma_with_prefix_assoc(pre_vec, e, spec_lex_from(s@, j + 1, current@));
                assert(tview(mid).push(TokenModel::SizedLiteral(acc)) =~= pre_vec + e);
                if !is_white(s@[j as int]) && s@[j as int] != ';' {
                    assert(current@ =~= seq![s@[j as int]]);
                } else {
                    assert(current@ =~= Seq::<char>::empty());
                }
            }
            i = j + 1;
        } else if c == ';' {
            let name = chars_to_string(&current);
            let t = process_identifier(name);
            let ghost mid = vec@;
            vec.push(t);
            current.clear();
            proof {
                assert(tview(vec@) =~= tview(mid).push(keyword_token(pre_buf)));
                lemma_with_prefix_assoc(
                    pre_vec,
                    seq![keyword_token(pre_buf)],
                    spec_lex_from(s@, ii + 1, Seq::empty()),
                );
                assert(tview(mid).push(keyword_token(pre_buf)) =~= pre_vec + seq![
                    keyword_token(pre_buf),
                ]);
            }
            i += 1;
        } else if c == '{' {
            flush_current(&mut vec, &mut current);
            let ghost mid = vec@;
            vec.push(Token::BlockStart(0));
            proof {
                assert(tview(vec@) =~= tview(mid).push(TokenModel::BlockStart(0)));
                lemma_with_prefix_assoc(
                    pre_vec,
                    flushed(pre_buf).push(TokenModel::BlockStart(0)),
                    spec_lex_from(s@, ii + 1, Seq::empty()),
                );
                assert(tview(mid).push(TokenModel::BlockStart(0)) =~= pre_vec + flushed(pre_buf).push(
                    TokenModel::BlockStart(0),
                ));
            }
            i += 1;
        } else if c == '}' {
            flush_current(&mut vec, &mut current);
            let ghost mid = vec@;
            vec.push(Token::BlockEnd);
            proof {
                assert(tview(vec@) =~= tview(mid).push(TokenModel::BlockEnd));
                lemma_with_prefix_assoc(
                    pre_vec,
                    flushed(pre_buf).push(TokenModel::BlockEnd),
                    spec_lex_from(s@, ii + 1, Seq::empty()),
                );
                assert(tview(mid).push(TokenModel::BlockEnd) =~= pre_vec + flushed(pre_buf).push(
                    TokenModel::BlockEnd,
                ));
            }
            i += 1;
        } else if c == '(' {
            flush_current(&mut vec, &mut current);
            let ghost mid = vec@;
            vec.push(Token::ExprStart(0));
            proof {
                assert(tview(vec@) =~= tview(mid).push(TokenModel::ExprStart(0)));
                lemma_with_prefix_assoc(
                    pre_vec,
                    flushed(pre_buf).push(TokenModel::ExprStart(0)),
                    spec_lex_from(s@, ii + 1, Seq::empty()),
                );
                assert(tview(mid).push(TokenModel::ExprStart(0)) =~= pre_vec + flushed(pre_buf).push(
                    TokenModel::ExprStart(0),
                ));
            }
            i += 1;
        } else if c == ')' {
            flush_current(&mut vec, &mut current);
            let ghost mid = vec@;
            vec.push(Token::ExprEnd);
            proof {
                assert(tview(vec@) =~= tview(mid).push(TokenModel::ExprEnd));
                lemma_with_prefix_assoc(
                    pre_vec,
                    flushed(pre_buf).push(TokenModel::ExprEnd),
                    spec_lex_from(s@, ii + 1, Seq::empty()),
                );
                assert(tview(mid).push(TokenModel::ExprEnd) =~= pre_vec + flushed(pre_buf).push(
                    TokenModel::ExprEnd,
                ));
            }
            i += 1;
        } else if c == '#' {
            flush_current(&mut vec, &mut current);
            let mut dir: Vec<char> = Vec::new();
            let mut j = i + 1;
            proof {
                assert(s@.subrange(ii + 1, ii + 1) =~= Seq::<char>::empty());
            }
            while j < n && s.get_char(j) != '\n' && s.get_char(j) != '\r'
                invariant
                    n == s@.len(),
                    0 <= ii + 1 <= j <= n,
                    line_end(s@, ii + 1) == line_end(s@, j as int),
                    dir@ == s@.subrange(ii + 1, j as int),
                decreases n - j,
            {
                dir.push(s.get_char(j));
                j += 1;
                proof {
                    assert(line_end(s@, j - 1) == line_end(s@, j as int));
                    assert(s@.subrange(ii + 1, j as int) =~= s@.subrange(ii + 1, j - 1).push(
                        s@[j - 1],
                    ));
                }
            }
            proof {
                assert(line_end(s@, j as int) == j as int);
                assert(line_end(s@, ii + 1) == j as int);
            }
            let text = chars_to_string(&dir);
            let ghost mid = vec@;
            vec.push(Token::PreprocessorDirective(text));
            proof {
                let e = flushed(pre_buf).push(
                    TokenModel::PreprocessorDirective(s@.subrange(ii + 1, j as int)),
                );
                assert(tview(vec@) =~= tview(mid).push(
                    TokenModel::PreprocessorDirective(s@.subrange(ii + 1, j as int)),
                ));
                let inext = if (j as int) < s@.len() {
                    j as int + 1
                } else {
                    j as int
                };
                lemma_with_prefix_assoc(pre_vec, e, spec_lex_from(s@, inext, Seq::empty()));
                assert(tview(mid).push(
                    TokenModel::PreprocessorDirective(s@.subrange(ii + 1, j as int)),
                ) =~= pre_vec + e);
            }
            i = if j < n {
                j + 1
            } else {
                j
            };
        } else if c == '\\' {
            let mut j = i + 1;
            while j < n && s.get_char(j) != '\n' && s.get_char(j) != '\r'
                invariant
                    n == s@.len(),
                    0 <= ii + 1 <= j <= n,
                    line_end(s@, ii + 1) == line_end(s@, j as int),
                decreases n - j,
            {
                j += 1;
                proof {
                    assert(line_end(s@, j - 1) == line_end(s@, j as int));
                }
            }
            proof {
                assert(line_end(s@, j as int) == j as int);
                assert(line_end(s@, ii + 1) == j as int);
            }
            i = if j < n {
                j + 1
            } else {
                j
            };
        } else if c.is_whitespace() {
            flush_current(&mut vec, &mut current);
            proof {
                lemma_with_prefix_assoc(
                    pre_vec,
                    flushed(pre_buf),
                    spec_lex_from(s@, ii + 1, Seq::empty()),
                );
            }
            i += 1;
        } else if c.is_alphabetic() {
            current.push(c);
            i += 1;
        } else {
            return Err(CompileError::UnrecognizedCharacter(c));
        }
    }
    proof {
        assert(tview(vec@) + Seq::<TokenModel>::empty() =~= tview(vec@));
    }
    Ok(vec)
}

/// Lexes the source and resolves its brackets, handing back the resolved
/// token sequence.
pub fn parse(file: String) -> (r: Result<Vec<Token>, CompileError>)
    ensures
        match r {
            Ok(v) => spec_parse(file@) == Ok::<Seq<TokenModel>, CompileError>(tview(v@)),
            Err(e) => spec_parse(file@) == Err::<Seq<TokenModel>, CompileError>(e),
        },
{
    match lex(file.as_str()) {
        Ok(mut vec) => match preprocessor_firstpass(&mut vec) {
            Ok(()) => Ok(vec),
            Err(e) => Err(e),
        },
        Err(e) => Err(e),
    }
}

} // verus!
