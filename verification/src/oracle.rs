use vstd::prelude::*;
use crate::feedback::Feedback;
use crate::words::chars_of;

verus! {

/// First pass of the oracle: every exact-position agreement is Green, all
/// other positions start as Gray.
pub open spec fn pass1_marks(g: Seq<char>, a: Seq<char>) -> Seq<Feedback> {
    Seq::new(
        g.len(),
        |i: int|
            if g[i] == a[i] {
                Feedback::Green
            } else {
                Feedback::Gray
            },
    )
}

/// The answer letters still available after the first pass: each exactly
/// matched letter is consumed.
pub open spec fn pass1_avail(g: Seq<char>, a: Seq<char>) -> Seq<Option<char>> {
    Seq::new(
        a.len(),
        |i: int|
            if g[i] == a[i] {
                None
            } else {
                Some(a[i])
            },
    )
}

/// The first slot at or after `from` that still holds letter `c`, if any.
pub open spec fn find_avail(rem: Seq<Option<char>>, c: char, from: int) -> Option<int>
    decreases rem.len() - from,
{
    if from < 0 || from >= rem.len() {
        None
    } else if rem[from] == Some(c) {
        Some(from)
    } else {
        find_avail(rem, c, from + 1)
    }
}

/// Second pass of the oracle over the first `n` positions: each position
/// still Gray turns Yellow if its letter is still available, consuming the
/// first available slot; otherwise it stays Gray.
pub open spec fn pass2(
    marks: Seq<Feedback>,
    rem: Seq<Option<char>>,
    g: Seq<char>,
    n: int,
) -> (Seq<Feedback>, Seq<Option<char>>)
    decreases n,
{
    if n <= 0 {
        (marks, rem)
    } else {
        let pr = pass2(marks, rem, g, n - 1);
        if pr.0[n - 1] == Feedback::Gray {
            match find_avail(pr.1, g[n - 1], 0) {
                Some(p) => (pr.0.update(n - 1, Feedback::Yellow), pr.1.update(p, None)),
                None => pr,
            }
        } else {
            pr
        }
    }
}

/// The feedback the oracle owes a guess against a hidden answer: exact
/// matches first, then misplacements, each consuming one occurrence, so a
/// repeated guess letter is never credited beyond its true occurrence
/// count in the answer.
pub open spec fn feedback_spec(g: Seq<char>, a: Seq<char>) -> Seq<Feedback> {
    pass2(pass1_marks(g, a), pass1_avail(g, a), g, g.len() as int).0
}

/// The second pass leaves a round without Gray positions untouched.
proof fn lemma_pass2_keeps_marks(marks: Seq<Feedback>, rem: Seq<Option<char>>, g: Seq<char>, n: int)
    requires
        n <= marks.len(),
        forall|i: int| 0 <= i < marks.len() ==> marks[i] != Feedback::Gray,
    ensures
        pass2(marks, rem, g, n) == (marks, rem),
    decreases n,
{
    if n > 0 {
        lemma_pass2_keeps_marks(marks, rem, g, n - 1);
    }
}

/// A guess identical to the answer earns an all-exact round.
pub proof fn lemma_oracle_exact(g: Seq<char>)
    requires
        g.len() == 5,
    ensures
        feedback_spec(g, g) == Seq::new(5, |i: int| Feedback::Green),
        crate::feedback::all_green(feedback_spec(g, g)),
{
    let marks = pass1_marks(g, g);
    assert(marks =~= Seq::new(5, |i: int| Feedback::Green));
    lemma_pass2_keeps_marks(marks, pass1_avail(g, g), g, 5);
}

/// While no slot before `j` holds `c`, the first available slot overall is
/// the first one at or after `j`.
proof fn lemma_find_avail_skip(rem: Seq<Option<char>>, c: char, j: int)
    requires
        0 <= j <= rem.len(),
        forall|k: int| 0 <= k < j ==> rem[k] != Some(c),
    ensures
        find_avail(rem, c, 0) == find_avail(rem, c, j),
    decreases j,
{
    if j > 0 {
        lemma_find_avail_skip(rem, c, j - 1);
    }
}

/// The first slot that still holds `c`, if any.
fn find_first_avail(rem: &Vec<Option<char>>, c: char) -> (r: Option<usize>)
    ensures
        r is Some ==> find_avail(rem@, c, 0) == Some((r->0) as int),
        r is Some ==> (r->0) < rem@.len(),
        r is None ==> find_avail(rem@, c, 0) is None,
{
    let mut j: usize = 0;
    while j < rem.len()
        invariant
            0 <= j <= rem@.len(),
            forall|k: int| 0 <= k < j ==> rem@[k] != Some(c),
        decreases rem@.len() - j,
    {
        match rem[j] {
            Some(d) => {
                if d == c {
                    proof {
                        lemma_find_avail_skip(rem@, c, j as int);
                    }
                    return Some(j);
                }
            },
            None => {},
        }
        j += 1;
    }
    proof {
        lemma_find_avail_skip(rem@, c, rem@.len() as int);
    }
    None
}

/// Produce the oracle's feedback for `guess` against the hidden `answer`,
/// by the two-pass consumption discipline: exact matches are marked and
/// consumed first; each remaining position turns Yellow only while an
/// unconsumed occurrence of its letter is left, so repeated letters are
/// never over-credited.
pub fn generate_feedback(guess: &str, answer: &str) -> (r: Vec<Feedback>)
    requires
        guess@.len() == 5,
        answer@.len() == 5,
    ensures
        r@ == feedback_spec(guess@, answer@),
        r@.len() == 5,
{
    let g = chars_of(guess);
    let a = chars_of(answer);
    let ghost gs = guess@;
    let ghost asq = answer@;
    let mut marks: Vec<Feedback> = Vec::new();
    let mut rem: Vec<Option<char>> = Vec::new();
    let mut i: usize = 0;
    while i < 5
        invariant
            0 <= i <= 5,
            g@ == gs,
            a@ == asq,
            gs.len() == 5,
            asq.len() == 5,
            marks@.len() == i,
            rem@.len() == i,
            forall|k: int| 0 <= k < i ==> marks@[k] == pass1_marks(gs, asq)[k],
            forall|k: int| 0 <= k < i ==> rem@[k] == pass1_avail(gs, asq)[k],
        decreases 5 - i,
    {
        if g[i] == a[i] {
            marks.push(Feedback::Green);
            rem.push(None);
        } else {
            marks.push(Feedback::Gray);
            rem.push(Some(a[i]));
        }
        i += 1;
    }
    proof {
        assert(marks@ =~= pass1_marks(gs, asq));
        assert(rem@ =~= pass1_avail(gs, asq));
    }
    let ghost p1m = pass1_marks(gs, asq);
    let ghost p1r = pass1_avail(gs, asq);
    let mut i: usize = 0;
    while i < 5
        invariant
            0 <= i <= 5,
            g@ == gs,
            gs.len() == 5,
            asq.len() == 5,
            marks@ == pass2(p1m, p1r, gs, i as int).0,
            rem@ == pass2(p1m, p1r, gs, i as int).1,
            marks@.len() == 5,
            rem@.len() == 5,
        decreases 5 - i,
    {
        if marks[i] == Feedback::Gray {
            match find_first_avail(&rem, g[i]) {
                Some(p) => {
                    marks[i] = Feedback::Yellow;
                    rem[p] = None;
                    proof {
                        assert(marks@ =~= pass2(p1m, p1r, gs, i as int).0.update(
                            i as int,
                            Feedback::Yellow,
                        ));
                        assert(rem@ =~= pass2(p1m, p1r, gs, i as int).1.update(p as int, None));
                    }
                },
                None => {},
            }
        }
        i += 1;
    }
    marks
}

} // verus!
