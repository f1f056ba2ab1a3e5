use vstd::prelude::*;

verus! {

/// Per-letter feedback classes: `Green` marks an exact-position match,
/// `Yellow` a letter present elsewhere in the answer, `Gray` a letter
/// with no remaining occurrence in the answer.
#[derive(Debug, Clone, Copy, PartialEq, Eq, Structural)]
pub enum Feedback {
    Green,
    Yellow,
    Gray,
}

/// The class a single symbol character denotes, case-insensitively;
/// `None` for any unrecognized character.
pub open spec fn feedback_from_char(c: char) -> Option<Feedback> {
    if c == 'g' || c == 'G' {
        Some(Feedback::Green)
    } else if c == 'y' || c == 'Y' {
        Some(Feedback::Yellow)
    } else if c == 'b' || c == 'B' {
        Some(Feedback::Gray)
    } else {
        None
    }
}

/// The canonical lower-case symbol for a feedback class.
pub open spec fn symbol_of(f: Feedback) -> char {
    match f {
        Feedback::Green => 'g',
        Feedback::Yellow => 'y',
        Feedback::Gray => 'b',
    }
}

impl Feedback {
    /// Parse a single feedback symbol, case-insensitively; any other
    /// character yields no value.
    pub fn from_char(c: char) -> (r: Option<Feedback>)
        ensures
            r == feedback_from_char(c),
    {
        if c == 'g' || c == 'G' {
            Some(Feedback::Green)
        } else if c == 'y' || c == 'Y' {
            Some(Feedback::Yellow)
        } else if c == 'b' || c == 'B' {
            Some(Feedback::Gray)
        } else {
            None
        }
    }
}

/// Every entry of the sequence is an exact-position match.
pub open spec fn all_green(f: Seq<Feedback>) -> bool {
    forall|i: int| 0 <= i < f.len() ==> f[i] == Feedback::Green
}

/// True exactly when every entry of `f` is `Green`: the round solved the puzzle.
pub fn is_all_green(f: &Vec<Feedback>) -> (r: bool)
    ensures
        r == all_green(f@),
{
    let mut i: usize = 0;
    while i < f.len()
        invariant
            0 <= i <= f@.len(),
            forall|k: int| 0 <= k < i ==> f@[k] == Feedback::Green,
        decreases f@.len() - i,
    {
        if f[i] != Feedback::Green {
            return false;
        }
        i += 1;
    }
    true
}

/// The round of symbols parses as a whole feedback line: exactly five
/// characters, each one a recognized symbol.
pub open spec fn parses_as_feedback(s: Seq<char>) -> bool {
    s.len() == 5 && forall|i: int| 0 <= i < s.len() ==> feedback_from_char(s[i]) is Some
}

/// The feedback sequence denoted by a line of recognized symbols.
pub open spec fn feedback_of_line(s: Seq<char>) -> Seq<Feedback> {
    Seq::new(s.len(), |i: int| feedback_from_char(s[i])->0)
}

/// Parse a whole feedback line given as characters: succeeds exactly when the
/// line is five recognized symbols, and then returns their classes in order.
pub fn parse_feedback_chars(s: &Vec<char>) -> (r: Option<Vec<Feedback>>)
    ensures
        r is Some <==> parses_as_feedback(s@),
        r is Some ==> r->0@ == feedback_of_line(s@),
{
    if s.len() != 5 {
        return None;
    }
    let mut out: Vec<Feedback> = Vec::new();
    let mut i: usize = 0;
    while i < s.len()
        invariant
            0 <= i <= s@.len(),
            s@.len() == 5,
            out@.len() == i,
            forall|k: int| 0 <= k < i ==> feedback_from_char(s@[k]) is Some,
            forall|k: int| 0 <= k < i ==> out@[k] == feedback_from_char(s@[k])->0,
        decreases s@.len() - i,
    {
        match Feedback::from_char(s[i]) {
            Some(f) => {
                out.push(f);
            },
            None => {
                return None;
            },
        }
        i += 1;
    }
    assert(out@ =~= feedback_of_line(s@));
    Some(out)
}

/// Parse a whole feedback line: succeeds exactly when the line is five
/// recognized symbols, and then returns their classes in order.
pub fn parse_feedback(s: &str) -> (r: Option<Vec<Feedback>>)
    ensures
        r is Some <==> parses_as_feedback(s@),
        r is Some ==> r->0@ == feedback_of_line(s@),
{
    let chars = crate::words::chars_of(s);
    parse_feedback_chars(&chars)
}

} // verus!
