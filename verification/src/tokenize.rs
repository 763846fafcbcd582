//! Lexical scanning of source text into tokens.
//!
//! Variables start with an ASCII uppercase letter or an underscore, atoms
//! with an ASCII lowercase letter; both continue through ASCII alphanumerics
//! and underscores.  Parentheses, the period, the comma and `:-` are
//! punctuation; whitespace separates tokens; any other character is an
//! error.

use vstd::prelude::*;

use crate::terms::Token;
use crate::terms::TokenV;
use vstd::string::StringExecFns;
use vstd::string::StrSliceExecFns;

verus! {

broadcast use vstd::seq::group_seq_axioms;

/// The Unicode White_Space property, the set `char::is_whitespace` tests:
/// the ASCII blanks (tab through carriage return, and space), next line,
/// no-break space, ogham space mark, the typographic spaces, the two line
/// and paragraph separators, narrow and medium mathematical spaces, and the
/// ideographic space.
pub open spec fn is_space(c: char) -> bool {
    ||| (0x09 <= (c as u32) && (c as u32) <= 0x0D)
    ||| c == ' '
    ||| c == '\u{85}'
    ||| c == '\u{A0}'
    ||| c == '\u{1680}'
    ||| (0x2000 <= (c as u32) && (c as u32) <= 0x200A)
    ||| c == '\u{2028}'
    ||| c == '\u{2029}'
    ||| c == '\u{202F}'
    ||| c == '\u{205F}'
    ||| c == '\u{3000}'
}

/// Relies on char::is_whitespace: true exactly for characters with the
/// Unicode White_Space property, the set `is_space` writes out.
#[verifier::external_body]
fn is_space_char(c: char) -> (r: bool)
    ensures
        r == is_space(c),
{
    c.is_whitespace()
}

/// An ASCII uppercase letter.
pub open spec fn is_upper(c: char) -> bool {
    ('A' as u32) <= (c as u32) && (c as u32) <= ('Z' as u32)
}

/// An ASCII lowercase letter.
pub open spec fn is_lower(c: char) -> bool {
    ('a' as u32) <= (c as u32) && (c as u32) <= ('z' as u32)
}

/// An ASCII digit.
pub open spec fn is_digit_char(c: char) -> bool {
    ('0' as u32) <= (c as u32) && (c as u32) <= ('9' as u32)
}

/// A character that may continue a variable or atom name.
pub open spec fn is_ident(c: char) -> bool {
    is_upper(c) || is_lower(c) || is_digit_char(c) || c == '_'
}

fn is_upper_exec(c: char) -> (r: bool)
    ensures
        r == is_upper(c),
{
    (c as u32) >= ('A' as u32) && (c as u32) <= ('Z' as u32)
}

fn is_lower_exec(c: char) -> (r: bool)
    ensures
        r == is_lower(c),
{
    (c as u32) >= ('a' as u32) && (c as u32) <= ('z' as u32)
}

fn is_ident_exec(c: char) -> (r: bool)
    ensures
        r == is_ident(c),
{
    is_upper_exec(c) || is_lower_exec(c) || ((c as u32) >= ('0' as u32) && (c as u32)
        <= ('9' as u32)) || c == '_'
}

/// The position just past the maximal run of name characters from `i`.
pub open spec fn ident_end(s: Seq<char>, i: int) -> int
    decreases s.len() - i,
{
    if i < s.len() && 0 <= i && is_ident(s[i]) {
        ident_end(s, i + 1)
    } else {
        i
    }
}

pub proof fn lemma_ident_end_bounds(s: Seq<char>, i: int)
    requires
        0 <= i <= s.len(),
    ensures
        i <= ident_end(s, i) <= s.len(),
    decreases s.len() - i,
{
    if i < s.len() && is_ident(s[i]) {
        lemma_ident_end_bounds(s, i + 1);
    }
}

/// The view of a token list.
pub open spec fn token_seq_view(ts: Seq<Token>) -> Seq<TokenV> {
    Seq::new(ts.len(), |i: int| ts[i]@)
}

/// The meaning of scanning from position `i` on: the tokens of the rest of
/// the text, or `None` at the first unexpected character.
pub open spec fn tokenize_rec(s: Seq<char>, i: int) -> Option<Seq<TokenV>>
    decreases s.len() - i,
    when 0 <= i
    via tokenize_rec_decreases
{
    if i >= s.len() {
        Option::Some(Seq::empty())
    } else {
        let c = s[i];
        if is_upper(c) || c == '_' {
            let j = ident_end(s, i);
            match tokenize_rec(s, j) {
                Option::Some(ts) => Option::Some(seq![TokenV::Var(s.subrange(i, j))] + ts),
                Option::None => Option::None,
            }
        } else if is_lower(c) {
            let j = ident_end(s, i);
            match tokenize_rec(s, j) {
                Option::Some(ts) => Option::Some(seq![TokenV::Atom(s.subrange(i, j))] + ts),
                Option::None => Option::None,
            }
        } else if c == '(' {
            prepend(TokenV::LeftParen, tokenize_rec(s, i + 1))
        } else if c == ')' {
            prepend(TokenV::RightParen, tokenize_rec(s, i + 1))
        } else if c == '.' {
            prepend(TokenV::Period, tokenize_rec(s, i + 1))
        } else if c == ',' {
            prepend(TokenV::Comma, tokenize_rec(s, i + 1))
        } else if c == ':' {
            if i + 1 < s.len() && s[i + 1] == '-' {
                prepend(TokenV::ColonHyphen, tokenize_rec(s, i + 2))
            } else {
                Option::None
            }
        } else if is_space(c) {
            tokenize_rec(s, i + 1)
        } else {
            Option::None
        }
    }
}

#[via_fn]
proof fn tokenize_rec_decreases(s: Seq<char>, i: int) {
    if 0 <= i < s.len() {
        let c = s[i];
        if is_upper(c) || c == '_' || is_lower(c) {
            lemma_ident_end_bounds(s, i + 1);
        }
    }
}

/// Law: scanning skips whitespace; text that is whitespace from some
/// position on contributes no tokens, so whitespace-only input scans to the
/// empty token list.
pub proof fn lemma_tokenize_rec_spaces(s: Seq<char>, i: int)
    requires
        0 <= i <= s.len(),
        forall|j: int| i <= j < s.len() ==> is_space(s[j]),
    ensures
        tokenize_rec(s, i) == Option::Some(Seq::<TokenV>::empty()),
    decreases s.len() - i,
{
    if i < s.len() {
        lemma_tokenize_rec_spaces(s, i + 1);
    }
}

/// Prepends a token to a scan result, keeping a failure a failure.
pub open spec fn prepend(t: TokenV, rest: Option<Seq<TokenV>>) -> Option<Seq<TokenV>> {
    match rest {
        Option::Some(ts) => Option::Some(seq![t] + ts),
        Option::None => Option::None,
    }
}

/// Scans source text into tokens, or reports the first unexpected
/// character.
#[verifier::loop_isolation(false)]
pub fn tokenize(input: &str) -> (res: Result<Vec<Token>, String>)
    ensures
        (match res {
            Result::Ok(ts) => tokenize_rec(input@, 0) == Option::Some(token_seq_view(ts@)),
            Result::Err(_) => tokenize_rec(input@, 0) is None,
        }),
{
    let mut tokens: Vec<Token> = Vec::new();
    let len = input.unicode_len();
    let mut i: usize = 0;
    proof {
        assert(token_seq_view(tokens@) =~= Seq::<TokenV>::empty());
    }
    while i < len
        invariant
            i <= len,
            len == input@.len(),
            (match tokenize_rec(input@, i as int) {
                Option::Some(ts) => tokenize_rec(input@, 0) == Option::Some(
                    token_seq_view(tokens@) + ts,
                ),
                Option::None => tokenize_rec(input@, 0) is None,
            }),
        decreases len - i,
    {
        let c = input.get_char(i);
        if is_upper_exec(c) || c == '_' || is_lower_exec(c) {
            let mut j: usize = i + 1;
            while j < len && is_ident_exec(input.get_char(j))
                invariant
                    i < j <= len,
                    ident_end(input@, i as int) == ident_end(input@, j as int),
                decreases len - j,
            {
                j += 1;
            }
            proof {
                assert(ident_end(input@, j as int) == j);
            }
            let name = String::from_str(input.substring_char(i, j));
            let tk = if is_upper_exec(c) || c == '_' {
                Token::Var(name)
            } else {
                Token::Atom(name)
            };
            let ghost prev = tokens@;
            tokens.push(tk);
            proof {
                assert(token_seq_view(tokens@) =~= token_seq_view(prev).push(tokens@.last()@));
            }
            i = j;
        } else if c == '(' {
            let ghost prev = tokens@;
            tokens.push(Token::LeftParen);
            proof {
                assert(token_seq_view(tokens@) =~= token_seq_view(prev).push(tokens@.last()@));
            }
            i += 1;
        } else if c == ')' {
            let ghost prev = tokens@;
            tokens.push(Token::RightParen);
            proof {
                assert(token_seq_view(tokens@) =~= token_seq_view(prev).push(tokens@.last()@));
            }
            i += 1;
        } else if c == '.' {
            let ghost prev = tokens@;
            tokens.push(Token::Period);
            proof {
                assert(token_seq_view(tokens@) =~= token_seq_view(prev).push(tokens@.last()@));
            }
            i += 1;
        } else if c == ',' {
            let ghost prev = tokens@;
            tokens.push(Token::Comma);
            proof {
                assert(token_seq_view(tokens@) =~= token_seq_view(prev).push(tokens@.last()@));
            }
            i += 1;
        } else if c == ':' {
            if i + 1 < len && input.get_char(i + 1) == '-' {
                let ghost prev = tokens@;
                tokens.push(Token::ColonHyphen);
                proof {
                    assert(token_seq_view(tokens@) =~= token_seq_view(prev).push(tokens@.last()@));
                }
                i += 2;
            } else {
                return Err(String::from_str("unexpected character: ':'"));
            }
        } else if is_space_char(c) {
            i += 1;
        } else {
            let mut msg = String::from_str("unexpected character: '");
            msg.append(input.substring_char(i, i + 1));
            msg.append("'");
            return Err(msg);
        }
    }
    proof {
        assert(token_seq_view(tokens@) + Seq::<TokenV>::empty() =~= token_seq_view(tokens@));
    }
    Ok(tokens)
}

} // verus!
