use vstd::prelude::*;
use crate::words::chars_of;
use crate::words::words_view;

verus! {

/// The fixed vowel class the scoring heuristic rewards.
pub open spec fn is_vowel(c: char) -> bool {
    c == 'a' || c == 'e' || c == 'i' || c == 'o' || c == 'u' || c == 'y'
}

/// Number of distinct letters among the first `n` characters of `w`.
pub open spec fn distinct_up_to(w: Seq<char>, n: int) -> nat
    decreases n,
{
    if n <= 0 {
        0
    } else {
        distinct_up_to(w, n - 1) + (if w.subrange(0, n - 1).contains(w[n - 1]) {
            0nat
        } else {
            1nat
        })
    }
}

/// Number of distinct vowel-class letters among the first `n` characters of `w`.
pub open spec fn distinct_vowels_up_to(w: Seq<char>, n: int) -> nat
    decreases n,
{
    if n <= 0 {
        0
    } else {
        distinct_vowels_up_to(w, n - 1) + (if is_vowel(w[n - 1]) && !w.subrange(0, n - 1).contains(
            w[n - 1],
        ) {
            1nat
        } else {
            0nat
        })
    }
}

/// The heuristic score of a candidate: its number of distinct letters plus
/// its number of distinct vowel-class letters.
pub open spec fn score(w: Seq<char>) -> nat {
    distinct_up_to(w, w.len() as int) + distinct_vowels_up_to(w, w.len() as int)
}

/// The index of the first candidate among the first `n` that attains the
/// highest score: a later candidate displaces the incumbent only on a
/// strictly higher score.
pub open spec fn best_index(ws: Seq<Seq<char>>, n: int) -> int
    decreases n,
{
    if n <= 1 {
        0
    } else {
        let b = best_index(ws, n - 1);
        if score(ws[n - 1]) > score(ws[b]) {
            n - 1
        } else {
            b
        }
    }
}

/// The chosen index is in range, attains the maximum score, and is the
/// first index to do so: ties are broken by original order.
pub proof fn lemma_best_index_first_max(ws: Seq<Seq<char>>, n: int)
    requires
        1 <= n <= ws.len(),
    ensures
        0 <= best_index(ws, n) < n,
        forall|j: int| 0 <= j < n ==> score(#[trigger] ws[j]) <= score(ws[best_index(ws, n)]),
        forall|j: int|
            0 <= j < best_index(ws, n) ==> score(#[trigger] ws[j]) < score(ws[best_index(ws, n)]),
    decreases n,
{
    if n > 1 {
        lemma_best_index_first_max(ws, n - 1);
    }
}

/// The heuristic score of one word, computed by counting first occurrences.
fn score_word(w: &Vec<char>) -> (s: usize)
    requires
        w@.len() == 5,
    ensures
        s as nat == score(w@),
{
    let mut uniq: usize = 0;
    let mut vow: usize = 0;
    let mut i: usize = 0;
    while i < w.len()
        invariant
            0 <= i <= w@.len(),
            w@.len() == 5,
            uniq as nat == distinct_up_to(w@, i as int),
            vow as nat == distinct_vowels_up_to(w@, i as int),
            uniq <= i,
            vow <= i,
        decreases w@.len() - i,
    {
        let c = w[i];
        let mut seen = false;
        let mut j: usize = 0;
        while j < i
            invariant
                0 <= j <= i <= w@.len(),
                c == w@[i as int],
                seen == w@.subrange(0, j as int).contains(c),
            decreases i - j,
        {
            proof {
                assert(w@.subrange(0, j as int + 1).drop_last() =~= w@.subrange(0, j as int));
            }
            if w[j] == c {
                seen = true;
                proof {
                    assert(w@.subrange(0, j as int + 1).last() == c);
                    assert(w@.subrange(0, j as int + 1).contains(c)) by {
                        assert(w@.subrange(0, j as int + 1)[j as int] == c);
                    }
                }
            } else {
                proof {
                    if w@.subrange(0, j as int + 1).contains(c) {
                        let k = choose|k: int|
                            0 <= k < j + 1 && #[trigger] w@.subrange(0, j as int + 1)[k] == c;
                        if k == j {
                            assert(false);
                        } else {
                            assert(w@.subrange(0, j as int)[k] == c);
                        }
                    }
                }
            }
            j += 1;
        }
        if !seen {
            uniq += 1;
            if c == 'a' || c == 'e' || c == 'i' || c == 'o' || c == 'u' || c == 'y' {
                vow += 1;
            }
        }
        i += 1;
    }
    uniq + vow
}

/// Choose the highest-scoring candidate, or report that there are none.
/// Returns the chosen word together with the number of candidates observed
/// at selection time. The choice is a function of the candidate list alone:
/// the first candidate attaining the maximum score always wins.
pub fn select_guess(candidates: &Vec<String>) -> (r: Option<(String, usize)>)
    requires
        forall|i: int| 0 <= i < candidates@.len() ==> (#[trigger] candidates@[i])@.len() == 5,
    ensures
        (r is Some) <==> candidates@.len() > 0,
        r is Some ==> (r->0).1 == candidates@.len(),
        r is Some ==> ((r->0).0)@ == candidates@[best_index(
            words_view(candidates@),
            candidates@.len() as int,
        )]@,
{
    if candidates.len() == 0 {
        return None;
    }
    let ghost ws = words_view(candidates@);
    let mut best_idx: usize = 0;
    let mut best_score: usize = 0;
    let mut i: usize = 0;
    while i < candidates.len()
        invariant
            0 <= i <= candidates@.len(),
            candidates@.len() > 0,
            ws == words_view(candidates@),
            forall|k: int| 0 <= k < candidates@.len() ==> (#[trigger] candidates@[k])@.len() == 5,
            best_idx < candidates@.len(),
            i > 0 ==> best_idx as int == best_index(ws, i as int),
            i > 0 ==> best_score as nat == score(ws[best_idx as int]),
            i == 0 ==> best_idx == 0 && best_score == 0,
        decreases candidates@.len() - i,
    {
        let wchars = chars_of(candidates[i].as_str());
        let s = score_word(&wchars);
        if s > best_score {
            best_idx = i;
            best_score = s;
        }
        proof {
            if i == 0 {
                assert(best_index(ws, 1) == 0);
            }
        }
        i += 1;
    }
    let chosen = candidates[best_idx].clone();
    Some((chosen, candidates.len()))
}

} // verus!
