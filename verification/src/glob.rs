use vstd::prelude::*;

use crate::text::{char_at, chars_of};

verus! {

/// One token of a pattern: a character that stands for itself, `*` for
/// any run of characters but `/`, `**` for any run of characters, `?` for
/// one character but `/`.
#[derive(Copy, Clone, Debug, PartialEq, Eq, Structural)]
pub enum GlobToken {
    Literal(char),
    Star,
    DoubleStar,
    Question,
}

/// Where the run of `*` that holds the offset `i` ends.
pub open spec fn star_run_end(p: Seq<char>, i: int) -> int
    decreases p.len() - i,
{
    if 0 <= i < p.len() && p[i] == '*' {
        star_run_end(p, i + 1)
    } else {
        i
    }
}

pub proof fn lemma_star_run_end(p: Seq<char>, i: int)
    requires
        0 <= i <= p.len(),
    ensures
        i <= star_run_end(p, i) <= p.len(),
        i < p.len() && p[i] == '*' ==> i < star_run_end(p, i),
    decreases p.len() - i,
{
    if i < p.len() && p[i] == '*' {
        lemma_star_run_end(p, i + 1);
    }
}

/// The tokens of the pattern from the offset `i` on: a run of two or more
/// `*` is one `**`.
pub open spec fn tokens_from(p: Seq<char>, i: int) -> Seq<GlobToken>
    decreases p.len() - i,
{
    if i < 0 || i >= p.len() {
        Seq::empty()
    } else if p[i] == '*' {
        let end = star_run_end(p, i);
        proof {
            lemma_star_run_end(p, i);
        }
        seq![
            if end - i >= 2 {
                GlobToken::DoubleStar
            } else {
                GlobToken::Star
            },
        ] + tokens_from(p, end)
    } else if p[i] == '?' {
        seq![GlobToken::Question] + tokens_from(p, i + 1)
    } else {
        seq![GlobToken::Literal(p[i])] + tokens_from(p, i + 1)
    }
}

/// The tokens of a pattern.
pub open spec fn glob_tokens(p: Seq<char>) -> Seq<GlobToken> {
    tokens_from(p, 0)
}

/// Reads a pattern: `*` stands for any run of characters, `?` for one
/// character, any other character for itself.
pub fn parse_glob_tokens(pattern: &str) -> (r: Vec<GlobToken>)
    ensures
        r@ == glob_tokens(pattern@),
{
    let chars = chars_of(pattern);
    let mut tokens: Vec<GlobToken> = Vec::new();
    let mut i: usize = 0;
    assert(tokens@ + tokens_from(chars@, 0) =~= glob_tokens(pattern@));
    while i < chars.len()
        invariant
            i <= chars.len(),
            chars@ == pattern@,
            tokens@ + tokens_from(chars@, i as int) == glob_tokens(pattern@),
        decreases chars.len() - i,
    {
        let ghost before = tokens@;
        let c = char_at(&chars, i);
        if c == '*' {
            let mut end = i + 1;
            proof {
                lemma_star_run_end(chars@, i as int);
            }
            while end < chars.len() && chars[end] == '*'
                invariant
                    i < end <= chars.len(),
                    star_run_end(chars@, end as int) == star_run_end(chars@, i as int),
                decreases chars.len() - end,
            {
                end += 1;
            }
            let token = if end - i >= 2 {
                GlobToken::DoubleStar
            } else {
                GlobToken::Star
            };
            tokens.push(token);
            assert(tokens_from(chars@, i as int) == seq![token] + tokens_from(chars@, end as int));
            assert(tokens@ =~= before + seq![token]);
            assert((before + seq![token]) + tokens_from(chars@, end as int) =~= before + (
            seq![token] + tokens_from(chars@, end as int)));
            i = end;
        } else if c == '?' {
            let token = GlobToken::Question;
            tokens.push(token);
            assert(tokens_from(chars@, i as int) == seq![token] + tokens_from(chars@, i + 1));
            assert(tokens@ =~= before + seq![token]);
            assert((before + seq![token]) + tokens_from(chars@, i + 1) =~= before + (seq![token]
                + tokens_from(chars@, i + 1)));
            i += 1;
        } else {
            let token = GlobToken::Literal(c);
            tokens.push(token);
            assert(tokens_from(chars@, i as int) == seq![token] + tokens_from(chars@, i + 1));
            assert(tokens@ =~= before + seq![token]);
            assert((before + seq![token]) + tokens_from(chars@, i + 1) =~= before + (seq![token]
                + tokens_from(chars@, i + 1)));
            i += 1;
        }
    }
    assert(tokens@ + tokens_from(chars@, i as int) =~= tokens@);
    tokens
}

/// Whether the tokens from `t` on match the text from `v` on, all of it.
pub open spec fn glob_match(tokens: Seq<GlobToken>, t: int, value: Seq<char>, v: int) -> bool
    decreases tokens.len() - t, value.len() - v,
{
    if t < 0 || t >= tokens.len() {
        v == value.len()
    } else {
        match tokens[t] {
            GlobToken::Literal(c) => 0 <= v < value.len() && value[v] == c && glob_match(
                tokens,
                t + 1,
                value,
                v + 1,
            ),
            GlobToken::Question => 0 <= v < value.len() && value[v] != '/' && glob_match(
                tokens,
                t + 1,
                value,
                v + 1,
            ),
            GlobToken::Star => glob_match(tokens, t + 1, value, v) || (0 <= v < value.len()
                && value[v] != '/' && glob_match(tokens, t, value, v + 1)),
            GlobToken::DoubleStar => glob_match(tokens, t + 1, value, v) || (0 <= v < value.len()
                && glob_match(tokens, t, value, v + 1)),
        }
    }
}

/// What the table holds is true of the tokens and the text.
pub open spec fn memo_ok(memo: Seq<Vec<Option<bool>>>, tokens: Seq<GlobToken>, value: Seq<char>) -> bool {
    &&& memo.len() == tokens.len() + 1
    &&& forall|t: int| 0 <= t < memo.len() ==> (#[trigger] memo[t]).len() == value.len() + 1
    &&& forall|t: int, v: int|
        0 <= t < memo.len() && 0 <= v <= value.len() ==> match #[trigger] memo[t][v] {
            Some(b) => b == glob_match(tokens, t, value, v),
            None => true,
        }
}

fn glob_matches_from(
    tokens: &Vec<GlobToken>,
    value: &Vec<char>,
    token_idx: usize,
    value_idx: usize,
    memo: &mut Vec<Vec<Option<bool>>>,
) -> (r: bool)
    requires
        token_idx <= tokens.len(),
        value_idx <= value.len(),
        memo_ok(old(memo)@, tokens@, value@),
    ensures
        r == glob_match(tokens@, token_idx as int, value@, value_idx as int),
        memo_ok(final(memo)@, tokens@, value@),
    decreases tokens.len() - token_idx, value.len() - value_idx,
{
    match memo[token_idx][value_idx] {
        Some(cached) => {
            return cached;
        },
        None => {},
    }
    let matched = if token_idx == tokens.len() {
        value_idx == value.len()
    } else {
        match tokens[token_idx] {
            GlobToken::Literal(expected) => {
                value_idx < value.len() && value[value_idx] == expected && glob_matches_from(
                    tokens,
                    value,
                    token_idx + 1,
                    value_idx + 1,
                    memo,
                )
            },
            GlobToken::Question => {
                value_idx < value.len() && value[value_idx] != '/' && glob_matches_from(
                    tokens,
                    value,
                    token_idx + 1,
                    value_idx + 1,
                    memo,
                )
            },
            GlobToken::Star => {
                let mut idx = value_idx;
                let mut found = false;
                let mut done = false;
                while !done
                    invariant
                        value_idx <= idx <= value.len(),
                        token_idx < tokens.len(),
                        tokens[token_idx as int] == GlobToken::Star,
                        memo_ok(memo@, tokens@, value@),
                        done ==> found == glob_match(
                            tokens@,
                            token_idx as int,
                            value@,
                            value_idx as int,
                        ),
                        !done ==> !found,
                        !done ==> glob_match(tokens@, token_idx as int, value@, idx as int)
                            == glob_match(tokens@, token_idx as int, value@, value_idx as int),
                    decreases value.len() - idx + if done {
                        0int
                    } else {
                        1int
                    },
                {
                    assert(glob_match(tokens@, token_idx as int, value@, idx as int) == (
                    glob_match(tokens@, token_idx + 1, value@, idx as int) || (0 <= idx
                        < value.len() && value@[idx as int] != '/' && glob_match(
                        tokens@,
                        token_idx as int,
                        value@,
                        idx + 1,
                    ))));
                    let here = glob_matches_from(tokens, value, token_idx + 1, idx, memo);
                    if here {
                        found = true;
                        done = true;
                    } else if idx >= value.len() {
                        done = true;
                    } else if char_at(value, idx) == '/' {
                        done = true;
                    } else {
                        idx += 1;
                    }
                }
                found
            },
            GlobToken::DoubleStar => {
                let mut idx = value_idx;
                let mut found = false;
                let mut done = false;
                while !done
                    invariant
                        value_idx <= idx <= value.len(),
                        token_idx < tokens.len(),
                        tokens[token_idx as int] == GlobToken::DoubleStar,
                        memo_ok(memo@, tokens@, value@),
                        done ==> found == glob_match(
                            tokens@,
                            token_idx as int,
                            value@,
                            value_idx as int,
                        ),
                        !done ==> !found,
                        !done ==> glob_match(tokens@, token_idx as int, value@, idx as int)
                            == glob_match(tokens@, token_idx as int, value@, value_idx as int),
                    decreases value.len() - idx + if done {
                        0int
                    } else {
                        1int
                    },
                {
                    assert(glob_match(tokens@, token_idx as int, value@, idx as int) == (
                    glob_match(tokens@, token_idx + 1, value@, idx as int) || (0 <= idx
                        < value.len() && glob_match(
                        tokens@,
                        token_idx as int,
                        value@,
                        idx + 1,
                    ))));
                    let here = glob_matches_from(tokens, value, token_idx + 1, idx, memo);
                    if here {
                        found = true;
                        done = true;
                    } else if idx >= value.len() {
                        done = true;
                    } else {
                        idx += 1;
                    }
                }
                found
            },
        }
    };
    let ghost before = memo@;
    memo[token_idx][value_idx] = Some(matched);
    proof {
        assert forall|t: int, v: int|
            0 <= t < memo@.len() && 0 <= v <= value.len() implies match #[trigger] memo@[t][v] {
            Some(b) => b == glob_match(tokens@, t, value@, v),
            None => true,
        } by {
            if t != token_idx {
                assert(memo@[t] == before[t]);
            }
            assert(before[t][v] is Some ==> before[t][v].unwrap() == glob_match(
                tokens@,
                t,
                value@,
                v,
            ));
        }
        assert forall|t: int| 0 <= t < memo@.len() implies (#[trigger] memo@[t]).len()
            == value.len() + 1 by {
            assert(before[t].len() == value.len() + 1);
        }
    }
    matched
}

/// Whether the text, all of it, matches the tokens.
pub open spec fn glob_accepts(tokens: Seq<GlobToken>, value: Seq<char>) -> bool {
    glob_match(tokens, 0, value, 0)
}

/// A row of a table for a text of `n` characters, with nothing in it.
fn empty_row(n: usize) -> (row: Vec<Option<bool>>)
    ensures
        row.len() == n + 1,
        forall|j: int| 0 <= j <= n ==> (#[trigger] row[j]) is None,
{
    let mut row: Vec<Option<bool>> = Vec::new();
    row.push(None);
    let mut v: usize = 0;
    while v < n
        invariant
            v <= n,
            row.len() == v + 1,
            forall|j: int| 0 <= j <= v ==> (#[trigger] row[j]) is None,
        decreases n - v,
    {
        row.push(None);
        v += 1;
    }
    row
}

/// Whether the pattern matches the whole value.
pub fn glob_matches(tokens: &Vec<GlobToken>, value: &str) -> (r: bool)
    ensures
        r == glob_accepts(tokens@, value@),
{
    let chars = chars_of(value);
    let mut memo: Vec<Vec<Option<bool>>> = Vec::new();
    memo.push(empty_row(chars.len()));
    let mut t: usize = 0;
    while t < tokens.len()
        invariant
            t <= tokens.len(),
            memo.len() == t + 1,
            forall|i: int| 0 <= i <= t ==> (#[trigger] memo[i]).len() == chars.len() + 1,
            forall|i: int, v: int|
                0 <= i <= t && 0 <= v <= chars.len() ==> (#[trigger] memo[i][v]) is None,
        decreases tokens.len() - t,
    {
        memo.push(empty_row(chars.len()));
        t += 1;
    }
    glob_matches_from(tokens, &chars, 0, 0, &mut memo)
}

} // verus!
