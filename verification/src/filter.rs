use vstd::prelude::*;
use crate::feedback::Feedback;
use crate::state::ConstraintState;
use crate::state::StateModel;
use crate::state::apply_spec;
use crate::state::gray_merge;
use crate::state::green_update;
use crate::state::merge_mins;
use crate::state::mins_lookup;
use crate::state::round_tally;
use crate::state::tallied;
use crate::state::unique_keys;
use crate::state::upsert_max;
use crate::state::yellow_adds;
use crate::state::lemma_lookup_exists;
use crate::state::lemma_upsert_max_lookup;
use crate::state::lemma_merge_mins_unique;
use crate::state::lemma_round_tally_le;
use crate::words::chars_of;
use crate::words::contains_char;
use crate::words::count_char;
use crate::words::occurrences;
use crate::words::words_view;

verus! {

/// A candidate word satisfies every accumulated constraint: each fixed
/// letter stands at its position, each misplaced letter occurs somewhere
/// else than its banned position, each excluded letter without a recorded
/// minimum is absent, and each recorded minimum count is met.
pub open spec fn word_matches(w: Seq<char>, m: StateModel) -> bool {
    &&& w.len() == 5
    &&& (forall|i: int|
        0 <= i < m.green.len() && m.green[i] is Some ==> w[i] == (#[trigger] m.green[i])->0)
    &&& (forall|k: int|
        0 <= k < m.yellow.len() ==> w.contains((#[trigger] m.yellow[k]).0) && w[m.yellow[k].1 as int]
            != m.yellow[k].0)
    &&& (forall|k: int|
        0 <= k < m.gray.len() ==> mins_lookup(m.mins, #[trigger] m.gray[k]) is Some || !w.contains(
            m.gray[k],
        ))
    &&& (forall|k: int|
        0 <= k < m.mins.len() ==> occurrences(w, (#[trigger] m.mins[k]).0) >= m.mins[k].1)
}

/// The candidates a dictionary keeps under a constraint state, in their
/// original order.
pub open spec fn filter_spec(words: Seq<Seq<char>>, m: StateModel) -> Seq<Seq<char>> {
    words.filter(|w: Seq<char>| word_matches(w, m))
}

/// Whether some minimum count is recorded for `c`.
pub fn mins_has_key(mins: &Vec<(char, usize)>, c: char) -> (r: bool)
    ensures
        r == (mins_lookup(mins@, c) is Some),
{
    let mut k: usize = 0;
    while k < mins.len()
        invariant
            0 <= k <= mins@.len(),
            forall|j: int| 0 <= j < k ==> (#[trigger] mins@[j]).0 != c,
        decreases mins@.len() - k,
    {
        if mins[k].0 == c {
            proof {
                lemma_lookup_exists(mins@, c);
            }
            return true;
        }
        k += 1;
    }
    proof {
        lemma_lookup_exists(mins@, c);
    }
    false
}

/// Decide whether one word satisfies every accumulated constraint.
pub fn word_matches_exec(w: &Vec<char>, state: &ConstraintState) -> (r: bool)
    requires
        state@.wf(),
    ensures
        r == word_matches(w@, state@),
{
    if w.len() != 5 {
        return false;
    }
    // fixed letters
    let mut i: usize = 0;
    while i < 5
        invariant
            0 <= i <= 5,
            w@.len() == 5,
            state@.wf(),
            forall|k: int|
                0 <= k < i && state@.green[k] is Some ==> w@[k] == (#[trigger] state@.green[k])->0,
        decreases 5 - i,
    {
        match state.green[i] {
            Some(c) => {
                if w[i] != c {
                    return false;
                }
            },
            None => {},
        }
        i += 1;
    }
    // misplaced letters
    let mut k: usize = 0;
    while k < state.yellow.len()
        invariant
            0 <= k <= state@.yellow.len(),
            w@.len() == 5,
            state@.wf(),
            forall|j: int|
                0 <= j < k ==> w@.contains((#[trigger] state@.yellow[j]).0) && w@[state@.yellow[j].1
                    as int] != state@.yellow[j].0,
        decreases state@.yellow.len() - k,
    {
        let pair = state.yellow[k];
        if !contains_char(w, pair.0) {
            return false;
        }
        if w[pair.1] == pair.0 {
            return false;
        }
        k += 1;
    }
    // excluded letters
    let mut k: usize = 0;
    while k < state.gray.len()
        invariant
            0 <= k <= state@.gray.len(),
            w@.len() == 5,
            state@.wf(),
            forall|j: int|
                0 <= j < k ==> mins_lookup(state@.mins, #[trigger] state@.gray[j]) is Some
                    || !w@.contains(state@.gray[j]),
        decreases state@.gray.len() - k,
    {
        let c = state.gray[k];
        if !mins_has_key(&state.min_counts, c) && contains_char(w, c) {
            return false;
        }
        k += 1;
    }
    // minimum occurrence counts
    let mut k: usize = 0;
    while k < state.min_counts.len()
        invariant
            0 <= k <= state@.mins.len(),
            w@.len() == 5,
            state@.wf(),
            forall|j: int|
                0 <= j < k ==> occurrences(w@, (#[trigger] state@.mins[j]).0) >= state@.mins[j].1,
        decreases state@.mins.len() - k,
    {
        let pair = state.min_counts[k];
        let cnt = count_char(w, pair.0);
        if cnt < pair.1 {
            return false;
        }
        k += 1;
    }
    true
}

/// Keep the dictionary words that satisfy every accumulated constraint,
/// preserving the dictionary's order.
pub fn filter_candidates(words: &Vec<String>, state: &ConstraintState) -> (r: Vec<String>)
    requires
        state@.wf(),
    ensures
        words_view(r@) == filter_spec(words_view(words@), state@),
{
    let mut r: Vec<String> = Vec::new();
    let mut i: usize = 0;
    while i < words.len()
        invariant
            0 <= i <= words@.len(),
            state@.wf(),
            words_view(r@) == filter_spec(words_view(words@.subrange(0, i as int)), state@),
        decreases words@.len() - i,
    {
        let ghost prefix = words@.subrange(0, i as int);
        let ghost prefix1 = words@.subrange(0, i as int + 1);
        proof {
            reveal(Seq::filter);
            assert(words_view(prefix1).drop_last() =~= words_view(prefix));
            assert(words_view(prefix1).last() == words@[i as int]@);
        }
        let ghost old_rv = words_view(r@);
        let wchars = chars_of(words[i].as_str());
        if word_matches_exec(&wchars, state) {
            let w = words[i].clone();
            r.push(w);
            proof {
                assert(words_view(r@) =~= old_rv.push(words@[i as int]@));
            }
        }
        i += 1;
    }
    proof {
        assert(words@.subrange(0, words@.len() as int) =~= words@);
    }
    r
}

/// `idx` lists, in strictly increasing order, positions of `ys` whose
/// entries spell out `xs`: a witness that `xs` embeds into `ys` in order.
pub open spec fn subsequence_via<A>(xs: Seq<A>, ys: Seq<A>, idx: Seq<int>) -> bool {
    &&& idx.len() == xs.len()
    &&& (forall|k: int| 0 <= k < idx.len() ==> 0 <= #[trigger] idx[k] < ys.len())
    &&& (forall|k: int| 0 <= k < idx.len() - 1 ==> #[trigger] idx[k] < idx[k + 1])
    &&& (forall|k: int| 0 <= k < idx.len() ==> ys[#[trigger] idx[k]] == xs[k])
}

/// `xs` is a subsequence of `ys`: `ys` with some entries removed and no
/// reordering.
pub open spec fn is_subsequence_of<A>(xs: Seq<A>, ys: Seq<A>) -> bool {
    exists|idx: Seq<int>| subsequence_via(xs, ys, idx)
}

/// Filtering keeps a subsequence: whatever the predicate, the result is the
/// input with some entries removed, in the input's order.
pub proof fn lemma_filter_is_subsequence<A>(s: Seq<A>, p: spec_fn(A) -> bool)
    ensures
        is_subsequence_of(s.filter(p), s),
    decreases s.len(),
{
    reveal(Seq::filter);
    if s.len() == 0 {
        assert(subsequence_via(s.filter(p), s, Seq::<int>::empty()));
    } else {
        let sub = s.drop_last();
        lemma_filter_is_subsequence(sub, p);
        let idx0 = choose|idx: Seq<int>| subsequence_via(sub.filter(p), sub, idx);
        assert forall|k: int| 0 <= k < idx0.len() implies s[#[trigger] idx0[k]] == sub.filter(p)[k] by {
            assert(sub[idx0[k]] == sub.filter(p)[k]);
        }
        if p(s.last()) {
            let idx1 = idx0.push(s.len() - 1);
            assert(subsequence_via(s.filter(p), s, idx1)) by {
                assert forall|k: int| 0 <= k < idx1.len() - 1 implies #[trigger] idx1[k] < idx1[k
                    + 1] by {
                    if k + 1 < idx0.len() {
                        assert(idx1[k] == idx0[k] && idx1[k + 1] == idx0[k + 1]);
                    } else {
                        assert(idx1[k] == idx0[k] && idx1[k + 1] == s.len() - 1);
                        assert(idx0[k] < sub.len());
                    }
                }
                assert forall|k: int| 0 <= k < idx1.len() implies s[#[trigger] idx1[k]] == s.filter(
                    p,
                )[k] by {
                    if k < idx0.len() {
                        assert(s.filter(p)[k] == sub.filter(p)[k]);
                    }
                }
            }
        } else {
            assert(subsequence_via(s.filter(p), s, idx0));
        }
    }
}

/// The candidate filter yields a subsequence of the dictionary, preserving
/// the dictionary's original relative order.
pub proof fn lemma_filter_candidates_subsequence(words: Seq<Seq<char>>, m: StateModel)
    ensures
        is_subsequence_of(filter_spec(words, m), words),
{
    lemma_filter_is_subsequence(words, |w: Seq<char>| word_matches(w, m));
}

/// Filtering the same sequence with predicates that agree on every entry
/// yields the same result.
pub proof fn lemma_filter_congruence<A>(s: Seq<A>, p: spec_fn(A) -> bool, q: spec_fn(A) -> bool)
    requires
        forall|i: int| 0 <= i < s.len() ==> p(#[trigger] s[i]) == q(s[i]),
    ensures
        s.filter(p) == s.filter(q),
    decreases s.len(),
{
    reveal(Seq::filter);
    if s.len() > 0 {
        let sub = s.drop_last();
        assert forall|i: int| 0 <= i < sub.len() implies p(#[trigger] sub[i]) == q(sub[i]) by {
            assert(sub[i] == s[i]);
        }
        lemma_filter_congruence(sub, p, q);
        assert(p(s.last()) == q(s.last()));
    }
}

/// Applying the same round of feedback twice leaves the fixed letters,
/// excluded letters and minimum counts exactly as one application left
/// them, and only inflates the misplacement list with pairs it already
/// holds; so the filtered candidate set is identical.
pub proof fn lemma_apply_twice_same_filter(
    words: Seq<Seq<char>>,
    m: StateModel,
    g: Seq<char>,
    f: Seq<Feedback>,
)
    requires
        m.wf(),
        g.len() == 5,
        f.len() == 5,
    ensures
        filter_spec(words, apply_spec(apply_spec(m, g, f), g, f)) == filter_spec(
            words,
            apply_spec(m, g, f),
        ),
{
    let m1 = apply_spec(m, g, f);
    let m2 = apply_spec(m1, g, f);
    // fixed letters are unchanged by the second application
    assert(m2.green =~= m1.green);
    // excluded letters are unchanged: each Gray letter is already recorded
    lemma_gray_merge_contains_all(m.gray, g, f, 5);
    lemma_gray_merge_noop(m1.gray, g, f, 5);
    assert(m2.gray == m1.gray);
    // minimum counts are unchanged: each tallied letter already meets its tally
    lemma_merge_mins_unique(m.mins, g, f, 5);
    assert forall|i: int| 0 <= i < 5 && tallied(f[i]) implies {
        &&& mins_lookup(m1.mins, g[i]) is Some
        &&& mins_lookup(m1.mins, g[i])->0 >= round_tally(g, f, g[i], i + 1)
    } by {
        lemma_merge_mins_lookup_ge(m.mins, g, f, 5, i);
    }
    lemma_merge_mins_noop(m1.mins, g, f, 5);
    assert(m2.mins == m1.mins);
    // the misplacement list of the second application holds the same pairs
    assert forall|p: (char, usize)| #[trigger] m2.yellow.contains(p) implies m1.yellow.contains(
        p,
    ) by {
        let k = choose|k: int| 0 <= k < m2.yellow.len() && m2.yellow[k] == p;
        if k < m1.yellow.len() {
        } else {
            let j = k - m1.yellow.len();
            assert(m2.yellow[k] == yellow_adds(g, f, 5)[j]);
            assert(m1.yellow[m.yellow.len() + j] == yellow_adds(g, f, 5)[j]);
            assert(m1.yellow.contains(m1.yellow[m.yellow.len() + j]));
        }
    }
    assert forall|p: (char, usize)| #[trigger] m1.yellow.contains(p) implies m2.yellow.contains(
        p,
    ) by {
        let k = choose|k: int| 0 <= k < m1.yellow.len() && m1.yellow[k] == p;
        assert(m2.yellow[k] == m1.yellow[k]);
        assert(m2.yellow.contains(m2.yellow[k]));
    }
    // therefore each word matches one state exactly when it matches the other
    assert forall|i: int| 0 <= i < words.len() implies word_matches(#[trigger] words[i], m2)
        == word_matches(words[i], m1) by {
        lemma_matches_same_yellow_set(words[i], m1, m2);
    }
    lemma_filter_congruence(
        words,
        |w: Seq<char>| word_matches(w, m2),
        |w: Seq<char>| word_matches(w, m1),
    );
}

/// Two states that agree on everything but hold the same set of
/// misplacement pairs are matched by exactly the same words.
proof fn lemma_matches_same_yellow_set(w: Seq<char>, m1: StateModel, m2: StateModel)
    requires
        m1.green == m2.green,
        m1.gray == m2.gray,
        m1.mins == m2.mins,
        forall|p: (char, usize)| m1.yellow.contains(p) == m2.yellow.contains(p),
    ensures
        word_matches(w, m1) == word_matches(w, m2),
{
    if word_matches(w, m1) {
        assert forall|k: int| 0 <= k < m2.yellow.len() implies w.contains(
            (#[trigger] m2.yellow[k]).0,
        ) && w[m2.yellow[k].1 as int] != m2.yellow[k].0 by {
            let p = m2.yellow[k];
            assert(m2.yellow.contains(p));
            assert(m1.yellow.contains(p));
            let j = choose|j: int| 0 <= j < m1.yellow.len() && m1.yellow[j] == p;
        }
    }
    if word_matches(w, m2) {
        assert forall|k: int| 0 <= k < m1.yellow.len() implies w.contains(
            (#[trigger] m1.yellow[k]).0,
        ) && w[m1.yellow[k].1 as int] != m1.yellow[k].0 by {
            let p = m1.yellow[k];
            assert(m1.yellow.contains(p));
            assert(m2.yellow.contains(p));
            let j = choose|j: int| 0 <= j < m2.yellow.len() && m2.yellow[j] == p;
        }
    }
}

/// After a round is merged, every Gray letter of that round is recorded.
proof fn lemma_gray_merge_contains_all(gray: Seq<char>, g: Seq<char>, f: Seq<Feedback>, n: int)
    ensures
        forall|i: int|
            0 <= i < n && f[i] == Feedback::Gray ==> gray_merge(gray, g, f, n).contains(
                #[trigger] g[i],
            ),
    decreases n,
{
    if n > 0 {
        lemma_gray_merge_contains_all(gray, g, f, n - 1);
        let prev = gray_merge(gray, g, f, n - 1);
        let cur = gray_merge(gray, g, f, n);
        assert forall|i: int| 0 <= i < n && f[i] == Feedback::Gray implies cur.contains(
            #[trigger] g[i],
        ) by {
            if i < n - 1 {
                assert(prev.contains(g[i]));
                lemma_contains_after_push(prev, cur, g[i]);
            } else {
                if !prev.contains(g[n - 1]) {
                    assert(cur == prev.push(g[n - 1]));
                    assert(cur[cur.len() - 1] == g[n - 1]);
                    assert(cur.contains(g[n - 1]));
                } else {
                    assert(cur == prev);
                }
            }
        }
    }
}

/// A merge step never loses a recorded letter.
proof fn lemma_contains_after_push(prev: Seq<char>, cur: Seq<char>, c: char)
    requires
        prev.contains(c),
        cur == prev || exists|d: char| cur == prev.push(d),
    ensures
        cur.contains(c),
{
    let k = choose|k: int| 0 <= k < prev.len() && prev[k] == c;
    if cur != prev {
        let d = choose|d: char| cur == prev.push(d);
        assert(cur[k] == c);
    }
}

/// Merging a round whose Gray letters are all recorded already changes
/// nothing.
proof fn lemma_gray_merge_noop(gray: Seq<char>, g: Seq<char>, f: Seq<Feedback>, n: int)
    requires
        forall|i: int| 0 <= i < n && f[i] == Feedback::Gray ==> gray.contains(#[trigger] g[i]),
    ensures
        gray_merge(gray, g, f, n) == gray,
    decreases n,
{
    if n > 0 {
        lemma_gray_merge_noop(gray, g, f, n - 1);
    }
}

/// After a round is merged, each tallied letter's recorded minimum is at
/// least the tally of any prefix of the round that ends at one of its
/// positions.
proof fn lemma_merge_mins_lookup_ge(
    mins: Seq<(char, usize)>,
    g: Seq<char>,
    f: Seq<Feedback>,
    n: int,
    i: int,
)
    requires
        unique_keys(mins),
        0 <= i < n,
        n <= 5,
        g.len() == 5,
        f.len() == 5,
        tallied(f[i]),
    ensures
        mins_lookup(merge_mins(mins, g, f, n), g[i]) is Some,
        mins_lookup(merge_mins(mins, g, f, n), g[i])->0 >= round_tally(g, f, g[i], i + 1),
    decreases n,
{
    let prev = merge_mins(mins, g, f, n - 1);
    lemma_merge_mins_unique(mins, g, f, n - 1);
    lemma_round_tally_le(g, f, g[n - 1], n);
    if i == n - 1 {
        lemma_upsert_max_lookup(prev, g[n - 1], round_tally(g, f, g[n - 1], n) as usize);
    } else {
        lemma_merge_mins_lookup_ge(mins, g, f, n - 1, i);
        if tallied(f[n - 1]) {
            lemma_upsert_max_lookup(prev, g[n - 1], round_tally(g, f, g[n - 1], n) as usize);
            if g[n - 1] == g[i] {
            } else {
            }
        }
    }
}

/// A minimum-count entry that already meets or exceeds the raise is left
/// exactly as it is.
proof fn lemma_upsert_max_noop(mins: Seq<(char, usize)>, c: char, v: usize)
    requires
        mins_lookup(mins, c) is Some,
        mins_lookup(mins, c)->0 >= v,
    ensures
        upsert_max(mins, c, v) == mins,
    decreases mins.len(),
{
    if mins.len() > 0 && mins[0].0 != c {
        lemma_upsert_max_noop(mins.drop_first(), c, v);
        assert(upsert_max(mins, c, v) =~= seq![mins[0]] + mins.drop_first());
        assert(seq![mins[0]] + mins.drop_first() =~= mins);
    }
}

/// Merging a round whose tallied letters all meet their tally already
/// changes nothing.
proof fn lemma_merge_mins_noop(mins: Seq<(char, usize)>, g: Seq<char>, f: Seq<Feedback>, n: int)
    requires
        n <= 5,
        g.len() == 5,
        f.len() == 5,
        forall|i: int|
            0 <= i < n && tallied(f[i]) ==> mins_lookup(mins, #[trigger] g[i]) is Some
                && mins_lookup(mins, g[i])->0 >= round_tally(g, f, g[i], i + 1),
    ensures
        merge_mins(mins, g, f, n) == mins,
    decreases n,
{
    if n > 0 {
        lemma_merge_mins_noop(mins, g, f, n - 1);
        if tallied(f[n - 1]) {
            lemma_upsert_max_noop(mins, g[n - 1], round_tally(g, f, g[n - 1], n) as usize);
        }
    }
}

} // verus!
