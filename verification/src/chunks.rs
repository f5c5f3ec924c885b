//! Syntax scoring of bracketed chunk lines: a stack machine that finds the
//! first corrupting closer, or prices the closers a truncated line still
//! owes.

use vstd::prelude::*;

verus! {

/// An opening delimiter.
#[derive(Clone, Copy, Debug, PartialEq, Eq, Structural)]
pub enum Opener {
    Parenthesis,
    Bracket,
    CurlyBrace,
    LessThan,
}

/// The closer each opener expects.
pub open spec fn closer_of(o: Opener) -> char {
    match o {
        Opener::Parenthesis => ')',
        Opener::Bracket => ']',
        Opener::CurlyBrace => '}',
        Opener::LessThan => '>',
    }
}

/// Each opener's completion price.
pub open spec fn closing_score_of(o: Opener) -> int {
    match o {
        Opener::Parenthesis => 1,
        Opener::Bracket => 2,
        Opener::CurlyBrace => 3,
        Opener::LessThan => 4,
    }
}

/// The opener a character denotes, if any.
pub open spec fn opener_of(c: char) -> Option<Opener> {
    if c == '(' {
        Some(Opener::Parenthesis)
    } else if c == '[' {
        Some(Opener::Bracket)
    } else if c == '{' {
        Some(Opener::CurlyBrace)
    } else if c == '<' {
        Some(Opener::LessThan)
    } else {
        None
    }
}

/// The corruption price of a closing character (0 for any other).
pub open spec fn char_score_of(c: char) -> int {
    if c == ')' {
        3
    } else if c == ']' {
        57
    } else if c == '}' {
        1197
    } else if c == '>' {
        25137
    } else {
        0
    }
}

impl Opener {
    pub fn expected_closer(&self) -> (r: char)
        ensures
            r == closer_of(*self),
    {
        match self {
            Opener::Parenthesis => ')',
            Opener::Bracket => ']',
            Opener::CurlyBrace => '}',
            Opener::LessThan => '>',
        }
    }

    pub fn closing_score(&self) -> (r: u64)
        ensures
            r == closing_score_of(*self),
    {
        match self {
            Opener::Parenthesis => 1,
            Opener::Bracket => 2,
            Opener::CurlyBrace => 3,
            Opener::LessThan => 4,
        }
    }
}

/// The opener a character denotes, if any.
pub fn opener_for(c: char) -> (r: Option<Opener>)
    ensures
        r == opener_of(c),
{
    match c {
        '(' => Some(Opener::Parenthesis),
        '[' => Some(Opener::Bracket),
        '{' => Some(Opener::CurlyBrace),
        '<' => Some(Opener::LessThan),
        _ => None,
    }
}

/// The corruption price of a closing character.
pub fn character_score(ch: &char) -> (r: u64)
    ensures
        r == char_score_of(*ch),
{
    match ch {
        ')' => 3,
        ']' => 57,
        '}' => 1197,
        '>' => 25137,
        _ => 0,
    }
}

/// Running the stack machine from position `i`: openers push, matching
/// closers pop, a mismatched closer is the corrupting character (`Err`), and
/// a character that closes an empty stack is ignored.  Returns the openers
/// still unclosed at the end of the line.
pub open spec fn run_stack(line: Seq<char>, i: int, stack: Seq<Opener>) -> Result<Seq<Opener>, char>
    decreases line.len() - i,
{
    if i < 0 || i >= line.len() {
        Ok(stack)
    } else {
        match opener_of(line[i]) {
            Some(o) => run_stack(line, i + 1, stack.push(o)),
            None => {
                if stack.len() == 0 {
                    run_stack(line, i + 1, stack)
                } else if line[i] == closer_of(stack.last()) {
                    run_stack(line, i + 1, stack.drop_last())
                } else {
                    Err(line[i])
                }
            },
        }
    }
}

/// The completion price of the unclosed openers: each contributes its price
/// at a base-5 place, innermost opener most significant.
pub open spec fn completion_score(stack: Seq<Opener>) -> int
    decreases stack.len(),
{
    if stack.len() == 0 {
        0
    } else {
        5 * completion_score(stack.drop_first()) + closing_score_of(stack.first())
    }
}

/// The completion price is never negative.
proof fn lemma_completion_score_nonneg(stack: Seq<Opener>)
    ensures
        completion_score(stack) >= 0,
    decreases stack.len(),
{
    if stack.len() > 0 {
        lemma_completion_score_nonneg(stack.drop_first());
    }
}

/// Dropping elements from the front cannot raise the completion price.
proof fn lemma_completion_score_suffix(stack: Seq<Opener>, k: int)
    requires
        0 <= k <= stack.len(),
    ensures
        completion_score(stack.skip(k)) <= completion_score(stack),
    decreases k,
{
    if k > 0 {
        lemma_completion_score_suffix(stack, k - 1);
        let s1 = stack.skip(k - 1);
        assert(s1.len() > 0);
        assert(s1.drop_first() =~= stack.skip(k));
        lemma_completion_score_nonneg(stack.skip(k));
        assert(completion_score(s1) == 5 * completion_score(stack.skip(k)) + closing_score_of(
            s1.first(),
        ));
        assert(closing_score_of(s1.first()) >= 1) by {
            let o = s1.first();
            assert(o is Parenthesis || o is Bracket || o is CurlyBrace || o is LessThan);
        }
    } else {
        assert(stack.skip(0) =~= stack);
    }
}

/// The ways a chunk line can fail.
#[derive(Clone, Copy, Debug, PartialEq, Eq, Structural)]
pub enum LineParseError {
    /// The line is corrupted: this closer does not match the open chunk.
    UnexpectedCloser(char),
    /// The line is merely incomplete; this is its completion score.
    UnexpectedEndOfLine(u64),
}

/// Checks one chunk line: `Ok` when every chunk closes, the corrupting
/// character when a closer mismatches, and the completion score when the
/// line ends with chunks still open.
pub fn parse_line(line: &Vec<char>) -> (r: Result<(), LineParseError>)
    requires
        ({
            match run_stack(line@, 0, Seq::empty()) {
                Ok(stack) => completion_score(stack) <= u64::MAX,
                Err(c) => true,
            }
        }),
    ensures
        ({
            match run_stack(line@, 0, Seq::empty()) {
                Ok(stack) => if stack.len() == 0 {
                    r == Result::<(), LineParseError>::Ok(())
                } else {
                    match r {
                        Ok(u) => false,
                        Err(e) => match e {
                            LineParseError::UnexpectedCloser(c) => false,
                            LineParseError::UnexpectedEndOfLine(score) => score
                                == completion_score(stack),
                        },
                    }
                },
                Err(c) => r == Result::<(), LineParseError>::Err(
                    LineParseError::UnexpectedCloser(c),
                ),
            }
        }),
{
    let n = line.len();
    let mut stack: Vec<Opener> = Vec::new();
    let mut i: usize = 0;
    while i < n
        invariant
            n == line@.len(),
            i <= n,
            run_stack(line@, 0, Seq::empty()) == run_stack(line@, i as int, stack@),
        decreases n - i,
    {
        let c = line[i];
        match opener_for(c) {
            Some(opener) => {
                stack.push(opener);
            },
            None => {
                if stack.len() > 0 {
                    let top = stack[stack.len() - 1];
                    if c == top.expected_closer() {
                        stack.pop();
                    } else {
                        return Err(LineParseError::UnexpectedCloser(c));
                    }
                }
            },
        }
        i = i + 1;
    }
    let ghost final_stack = stack@;
    assert(run_stack(line@, 0, Seq::empty()) == Ok::<Seq<Opener>, char>(final_stack));
    if stack.is_empty() {
        Ok(())
    } else {
        let mut score: u64 = 0;
        let mut j: usize = stack.len();
        proof {
            assert(final_stack.skip(j as int) =~= Seq::<Opener>::empty());
        }
        while j > 0
            invariant
                final_stack == stack@,
                j <= stack@.len(),
                completion_score(final_stack) <= u64::MAX,
                score == completion_score(final_stack.skip(j as int)),
            decreases j,
        {
            proof {
                lemma_completion_score_suffix(final_stack, j as int - 1);
                lemma_completion_score_nonneg(final_stack.skip(j as int));
                let s1 = final_stack.skip(j as int - 1);
                assert(s1.len() > 0);
                assert(s1.drop_first() =~= final_stack.skip(j as int));
                assert(completion_score(s1) == 5 * completion_score(final_stack.skip(j as int))
                    + closing_score_of(s1.first()));
                assert(s1.first() == final_stack[j as int - 1]);
            }
            j = j - 1;
            let top = stack[j];
            score = score * 5 + top.closing_score();
        }
        proof {
            assert(final_stack.skip(0) =~= final_stack);
        }
        Err(LineParseError::UnexpectedEndOfLine(score))
    }
}

} // verus!
