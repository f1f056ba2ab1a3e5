use vstd::prelude::*;
use crate::feedback::Feedback;
use crate::words::chars_of;

verus! {

/// Mathematical model of the accumulated constraint state: letters forced at
/// fixed positions, letters known present but banned from one position,
/// letters reported absent, and per-letter minimum occurrence counts.
pub struct StateModel {
    pub green: Seq<Option<char>>,
    pub yellow: Seq<(char, usize)>,
    pub gray: Seq<char>,
    pub mins: Seq<(char, usize)>,
}

/// The knowledge accumulated from every round of feedback seen so far.
/// `min_counts` is an association list with pairwise-distinct keys.
pub struct ConstraintState {
    pub green: Vec<Option<char>>,
    pub yellow: Vec<(char, usize)>,
    pub gray: Vec<char>,
    pub min_counts: Vec<(char, usize)>,
}

impl View for ConstraintState {
    type V = StateModel;

    open spec fn view(&self) -> StateModel {
        StateModel {
            green: self.green@,
            yellow: self.yellow@,
            gray: self.gray@,
            mins: self.min_counts@,
        }
    }
}

/// The keys of an association list are pairwise distinct.
pub open spec fn unique_keys(mins: Seq<(char, usize)>) -> bool {
    forall|i: int, j: int| 0 <= i < j < mins.len() ==> (#[trigger] mins[i]).0 != (#[trigger] mins[j]).0
}

impl StateModel {
    /// Well-formedness: five fixed positions, every misplacement position in
    /// range, and one minimum count per letter.
    pub open spec fn wf(self) -> bool {
        &&& self.green.len() == 5
        &&& forall|k: int| 0 <= k < self.yellow.len() ==> (#[trigger] self.yellow[k]).1 < 5
        &&& unique_keys(self.mins)
    }
}

/// The model of the empty state a game starts from: nothing is known yet.
pub open spec fn empty_model() -> StateModel {
    StateModel {
        green: Seq::new(5, |i: int| None::<char>),
        yellow: Seq::<(char, usize)>::empty(),
        gray: Seq::<char>::empty(),
        mins: Seq::<(char, usize)>::empty(),
    }
}

impl ConstraintState {
    /// The empty state a game starts from.
    pub fn new() -> (r: ConstraintState)
        ensures
            r@.wf(),
            r@ == empty_model(),
    {
        let mut green: Vec<Option<char>> = Vec::new();
        green.push(None);
        green.push(None);
        green.push(None);
        green.push(None);
        green.push(None);
        proof {
            assert(green@ =~= Seq::new(5, |i: int| None::<char>));
        }
        let r = ConstraintState {
            green,
            yellow: Vec::new(),
            gray: Vec::new(),
            min_counts: Vec::new(),
        };
        proof {
            assert(r@ == empty_model());
        }
        r
    }
}

/// The minimum count recorded for `c`, if any.
pub open spec fn mins_lookup(mins: Seq<(char, usize)>, c: char) -> Option<usize>
    decreases mins.len(),
{
    if mins.len() == 0 {
        None
    } else if mins[0].0 == c {
        Some(mins[0].1)
    } else {
        mins_lookup(mins.drop_first(), c)
    }
}

/// A letter has a recorded minimum exactly when some entry carries its key.
pub proof fn lemma_lookup_exists(mins: Seq<(char, usize)>, c: char)
    ensures
        (mins_lookup(mins, c) is Some) <==> exists|j: int|
            0 <= j < mins.len() && (#[trigger] mins[j]).0 == c,
    decreases mins.len(),
{
    if mins.len() > 0 {
        lemma_lookup_exists(mins.drop_first(), c);
        if mins[0].0 == c {
        } else {
            assert forall|j: int| 0 <= j < mins.len() && (#[trigger] mins[j]).0 == c implies
                mins_lookup(mins, c) is Some by {
                if j > 0 {
                    assert(mins.drop_first()[j - 1] == mins[j]);
                }
            }
            if mins_lookup(mins, c) is Some {
                let j = choose|j: int|
                    0 <= j < mins.drop_first().len() && (#[trigger] mins.drop_first()[j]).0 == c;
                assert(mins[j + 1].0 == c);
            }
        }
    }
}

/// Under unique keys, the recorded minimum is the value of whichever entry
/// carries the key.
pub proof fn lemma_lookup_at(mins: Seq<(char, usize)>, j: int)
    requires
        unique_keys(mins),
        0 <= j < mins.len(),
    ensures
        mins_lookup(mins, mins[j].0) == Some(mins[j].1),
    decreases mins.len(),
{
    if j == 0 {
    } else {
        assert(mins[0].0 != mins[j].0);
        lemma_lookup_at(mins.drop_first(), j - 1);
        assert(mins.drop_first()[j - 1] == mins[j]);
    }
}

/// Record that `c` needs at least `v` occurrences: raise an existing entry to
/// the maximum of both values, or append a new entry at the end.
pub open spec fn upsert_max(mins: Seq<(char, usize)>, c: char, v: usize) -> Seq<(char, usize)>
    decreases mins.len(),
{
    if mins.len() == 0 {
        seq![(c, v)]
    } else if mins[0].0 == c {
        if v > mins[0].1 {
            seq![(c, v)] + mins.drop_first()
        } else {
            mins
        }
    } else {
        seq![mins[0]] + upsert_max(mins.drop_first(), c, v)
    }
}

/// `upsert_max` leaves every other key's entry alone, sets the key it was
/// given, and preserves key uniqueness.
pub proof fn lemma_upsert_max_lookup(mins: Seq<(char, usize)>, c: char, v: usize)
    requires
        unique_keys(mins),
    ensures
        unique_keys(upsert_max(mins, c, v)),
        mins_lookup(upsert_max(mins, c, v), c) == (match mins_lookup(mins, c) {
            Some(u) => if v > u { Some(v) } else { Some(u) },
            None => Some(v),
        }),
        forall|d: char| d != c ==> mins_lookup(upsert_max(mins, c, v), d) == mins_lookup(mins, d),
    decreases mins.len(),
{
    let out = upsert_max(mins, c, v);
    if mins.len() == 0 {
        assert(out =~= seq![(c, v)]);
        assert(out.drop_first() =~= Seq::<(char, usize)>::empty());
        assert forall|d: char| d != c implies mins_lookup(out, d) == mins_lookup(mins, d) by {
            assert(mins_lookup(out, d) == mins_lookup(out.drop_first(), d));
        }
    } else if mins[0].0 == c {
        if v > mins[0].1 {
            assert(out =~= seq![(c, v)] + mins.drop_first());
            assert(out.drop_first() =~= mins.drop_first());
            assert forall|d: char| d != c implies mins_lookup(out, d) == mins_lookup(mins, d) by {
                assert(mins_lookup(out, d) == mins_lookup(out.drop_first(), d));
                assert(mins_lookup(mins, d) == mins_lookup(mins.drop_first(), d));
            }
            assert forall|i: int, j: int| 0 <= i < j < out.len() implies (#[trigger] out[i]).0
                != (#[trigger] out[j]).0 by {
                if i > 0 {
                    assert(out[i] == mins[i]);
                    assert(out[j] == mins[j]);
                } else {
                    assert(out[j] == mins[j]);
                }
            }
        }
    } else {
        let sub = mins.drop_first();
        assert(unique_keys(sub)) by {
            assert forall|i: int, j: int| 0 <= i < j < sub.len() implies (#[trigger] sub[i]).0
                != (#[trigger] sub[j]).0 by {
                assert(sub[i] == mins[i + 1]);
                assert(sub[j] == mins[j + 1]);
            }
        }
        lemma_upsert_max_lookup(sub, c, v);
        let subout = upsert_max(sub, c, v);
        assert(out =~= seq![mins[0]] + subout);
        assert(out.drop_first() =~= subout);
        assert(out[0] == mins[0]);
        assert forall|d: char| d != c implies mins_lookup(out, d) == mins_lookup(mins, d) by {
            if d == mins[0].0 {
                assert(mins_lookup(out, d) == Some(out[0].1));
            } else {
                assert(mins_lookup(out, d) == mins_lookup(subout, d));
                assert(mins_lookup(mins, d) == mins_lookup(sub, d));
            }
        }
        assert(mins_lookup(out, c) == mins_lookup(subout, c));
        assert(mins_lookup(mins, c) == mins_lookup(sub, c));
        // the head key is not c, and not any key of subout other than the keys of sub plus c
        assert forall|i: int, j: int| 0 <= i < j < out.len() implies (#[trigger] out[i]).0
            != (#[trigger] out[j]).0 by {
            if i == 0 {
                assert(out[j] == subout[j - 1]);
                if subout[j - 1].0 == mins[0].0 {
                    lemma_lookup_at(subout, j - 1);
                    assert(mins_lookup(subout, mins[0].0) is Some);
                    assert(mins[0].0 != c);
                    assert(mins_lookup(sub, mins[0].0) is Some);
                    lemma_lookup_exists(sub, mins[0].0);
                    let k = choose|k: int|
                        0 <= k < sub.len() && (#[trigger] sub[k]).0 == mins[0].0;
                    assert(mins[k + 1].0 == mins[0].0);
                    assert(false);
                }
            } else {
                assert(out[i] == subout[i - 1]);
                assert(out[j] == subout[j - 1]);
            }
        }
    }
}

/// A feedback class that contributes to the round tally: the letter was seen
/// in the answer, at the right position or elsewhere.
pub open spec fn tallied(f: Feedback) -> bool {
    f == Feedback::Green || f == Feedback::Yellow
}

/// How many of the first `n` positions of the guess carry letter `c` with a
/// tallied (Green or Yellow) class: the per-round occurrence tally.
pub open spec fn round_tally(g: Seq<char>, f: Seq<Feedback>, c: char, n: int) -> nat
    decreases n,
{
    if n <= 0 {
        0
    } else {
        round_tally(g, f, c, n - 1) + (if g[n - 1] == c && tallied(f[n - 1]) {
            1nat
        } else {
            0nat
        })
    }
}

/// The round tally never exceeds the number of positions scanned.
pub proof fn lemma_round_tally_le(g: Seq<char>, f: Seq<Feedback>, c: char, n: int)
    ensures
        round_tally(g, f, c, n) <= (if n <= 0 { 0int } else { n }),
    decreases n,
{
    if n > 0 {
        lemma_round_tally_le(g, f, c, n - 1);
    }
}

/// The fixed letters after a round: positions with Green feedback take the
/// guess's letter, all others keep what they had.
pub open spec fn green_update(green: Seq<Option<char>>, g: Seq<char>, f: Seq<Feedback>) -> Seq<
    Option<char>,
> {
    Seq::new(
        green.len(),
        |i: int|
            if 0 <= i < f.len() && f[i] == Feedback::Green {
                Some(g[i])
            } else {
                green[i]
            },
    )
}

/// The misplacement pairs a round appends: one `(letter, position)` per
/// Yellow position, in position order.
pub open spec fn yellow_adds(g: Seq<char>, f: Seq<Feedback>, n: int) -> Seq<(char, usize)>
    decreases n,
{
    if n <= 0 {
        Seq::empty()
    } else {
        yellow_adds(g, f, n - 1) + (if f[n - 1] == Feedback::Yellow {
            seq![(g[n - 1], (n - 1) as usize)]
        } else {
            Seq::empty()
        })
    }
}

/// The excluded letters after a round: each Gray letter is appended once,
/// in position order, unless already recorded.
pub open spec fn gray_merge(gray: Seq<char>, g: Seq<char>, f: Seq<Feedback>, n: int) -> Seq<char>
    decreases n,
{
    if n <= 0 {
        gray
    } else {
        let prev = gray_merge(gray, g, f, n - 1);
        if f[n - 1] == Feedback::Gray && !prev.contains(g[n - 1]) {
            prev.push(g[n - 1])
        } else {
            prev
        }
    }
}

/// The minimum counts after a round: scanning positions in order, each
/// tallied position raises its letter's recorded minimum to the tally seen
/// so far, so the final value per letter is the maximum of the old minimum
/// and the whole round's tally.
pub open spec fn merge_mins(mins: Seq<(char, usize)>, g: Seq<char>, f: Seq<Feedback>, n: int) -> Seq<
    (char, usize),
>
    decreases n,
{
    if n <= 0 {
        mins
    } else {
        let prev = merge_mins(mins, g, f, n - 1);
        if tallied(f[n - 1]) {
            upsert_max(prev, g[n - 1], round_tally(g, f, g[n - 1], n) as usize)
        } else {
            prev
        }
    }
}

/// What one round of feedback does to the whole constraint state.
pub open spec fn apply_spec(m: StateModel, g: Seq<char>, f: Seq<Feedback>) -> StateModel {
    StateModel {
        green: green_update(m.green, g, f),
        yellow: m.yellow + yellow_adds(g, f, f.len() as int),
        gray: gray_merge(m.gray, g, f, f.len() as int),
        mins: merge_mins(m.mins, g, f, f.len() as int),
    }
}

/// After the round's first `n` positions are merged, the minimum recorded
/// for a letter is the maximum of its old minimum and its tally so far:
/// tallies are never summed across rounds, and a letter never tallied and
/// never seen before stays unrecorded.
pub proof fn lemma_min_count_after_round(
    mins: Seq<(char, usize)>,
    g: Seq<char>,
    f: Seq<Feedback>,
    c: char,
    n: int,
)
    requires
        unique_keys(mins),
        0 <= n <= 5,
        g.len() == 5,
        f.len() == 5,
    ensures
        ({
            let t = round_tally(g, f, c, n);
            let after = mins_lookup(merge_mins(mins, g, f, n), c);
            match mins_lookup(mins, c) {
                Some(u) => after == Some(
                    (if t > u {
                        t
                    } else {
                        u as nat
                    }) as usize,
                ),
                None => if t > 0 {
                    after == Some(t as usize)
                } else {
                    after is None
                },
            }
        }),
    decreases n,
{
    lemma_round_tally_le(g, f, c, n);
    if n > 0 {
        lemma_min_count_after_round(mins, g, f, c, n - 1);
        lemma_round_tally_le(g, f, c, n - 1);
        let prev = merge_mins(mins, g, f, n - 1);
        lemma_merge_mins_unique(mins, g, f, n - 1);
        if tallied(f[n - 1]) {
            lemma_round_tally_le(g, f, g[n - 1], n);
            lemma_upsert_max_lookup(prev, g[n - 1], round_tally(g, f, g[n - 1], n) as usize);
        }
    }
}

/// `merge_mins` keeps keys unique.
pub proof fn lemma_merge_mins_unique(mins: Seq<(char, usize)>, g: Seq<char>, f: Seq<Feedback>, n: int)
    requires
        unique_keys(mins),
    ensures
        unique_keys(merge_mins(mins, g, f, n)),
    decreases n,
{
    if n > 0 {
        lemma_merge_mins_unique(mins, g, f, n - 1);
        if tallied(f[n - 1]) {
            lemma_upsert_max_lookup(merge_mins(mins, g, f, n - 1), g[n - 1], round_tally(g, f, g[n - 1], n) as usize);
        }
    }
}

/// Raise an existing minimum-count entry to at least `v`, or append one.
fn upsert_max_exec(mins: &mut Vec<(char, usize)>, c: char, v: usize)
    ensures
        final(mins)@ == upsert_max(old(mins)@, c, v),
{
    let mut k: usize = 0;
    while k < mins.len()
        invariant
            0 <= k <= mins@.len(),
            mins@ == old(mins)@,
            forall|j: int| 0 <= j < k ==> (#[trigger] mins@[j]).0 != c,
        decreases mins@.len() - k,
    {
        if mins[k].0 == c {
            if v > mins[k].1 {
                let ghost before = mins@;
                mins[k] = (c, v);
                proof {
                    lemma_upsert_skip(before, c, v, k as int);
                    assert(upsert_max(before.subrange(k as int, before.len() as int), c, v)
                        =~= seq![(c, v)] + before.subrange(k as int, before.len() as int).drop_first());
                    assert(mins@ =~= before.subrange(0, k as int) + (seq![(c, v)]
                        + before.subrange(k as int, before.len() as int).drop_first()));
                }
            } else {
                proof {
                    lemma_upsert_skip(mins@, c, v, k as int);
                    assert(upsert_max(mins@.subrange(k as int, mins@.len() as int), c, v)
                        =~= mins@.subrange(k as int, mins@.len() as int));
                    assert(mins@ =~= mins@.subrange(0, k as int) + mins@.subrange(
                        k as int,
                        mins@.len() as int,
                    ));
                }
            }
            return ;
        }
        k += 1;
    }
    let ghost before = mins@;
    mins.push((c, v));
    proof {
        lemma_upsert_skip(before, c, v, before.len() as int);
        assert(upsert_max(before.subrange(before.len() as int, before.len() as int), c, v)
            =~= seq![(c, v)]);
        assert(mins@ =~= before.subrange(0, before.len() as int) + seq![(c, v)]);
    }
}

/// While the key is absent from a prefix, `upsert_max` passes the prefix
/// through unchanged and works on the rest.
proof fn lemma_upsert_skip(mins: Seq<(char, usize)>, c: char, v: usize, k: int)
    requires
        0 <= k <= mins.len(),
        forall|j: int| 0 <= j < k ==> (#[trigger] mins[j]).0 != c,
    ensures
        upsert_max(mins, c, v) == mins.subrange(0, k) + upsert_max(
            mins.subrange(k, mins.len() as int),
            c,
            v,
        ),
    decreases k,
{
    if k == 0 {
        assert(mins.subrange(0, mins.len() as int) =~= mins);
        assert(upsert_max(mins, c, v) =~= mins.subrange(0, 0) + upsert_max(
            mins.subrange(0, mins.len() as int),
            c,
            v,
        ));
    } else {
        let sub = mins.drop_first();
        assert(mins.len() > 0 && mins[0].0 != c);
        assert forall|j: int| 0 <= j < k - 1 implies (#[trigger] sub[j]).0 != c by {
            assert(sub[j] == mins[j + 1]);
        }
        lemma_upsert_skip(sub, c, v, k - 1);
        assert(sub.subrange(k - 1, sub.len() as int) =~= mins.subrange(k, mins.len() as int));
        assert(upsert_max(mins, c, v) == seq![mins[0]] + upsert_max(sub, c, v));
        assert(seq![mins[0]] + (sub.subrange(0, k - 1) + upsert_max(
            mins.subrange(k, mins.len() as int),
            c,
            v,
        )) =~= mins.subrange(0, k) + upsert_max(mins.subrange(k, mins.len() as int), c, v));
    }
}

/// Apply one round of feedback for `guess` to the constraint state, in place:
/// Green positions fix their letter, Yellow positions append a misplacement
/// pair and Gray letters are excluded, and each tallied letter's minimum
/// count is raised to the maximum of its old value and this round's tally.
pub fn apply_feedback(guess: &str, feedback: &Vec<Feedback>, state: &mut ConstraintState)
    requires
        old(state)@.wf(),
        guess@.len() == 5,
        feedback@.len() == 5,
    ensures
        final(state)@ == apply_spec(old(state)@, guess@, feedback@),
        final(state)@.wf(),
{
    let g = chars_of(guess);
    apply_feedback_chars(&g, feedback, state);
}

/// As `apply_feedback`, for a guess already split into characters.
pub fn apply_feedback_chars(g: &Vec<char>, feedback: &Vec<Feedback>, state: &mut ConstraintState)
    requires
        old(state)@.wf(),
        g@.len() == 5,
        feedback@.len() == 5,
    ensures
        final(state)@ == apply_spec(old(state)@, g@, feedback@),
        final(state)@.wf(),
{
    let ghost m0 = state@;
    let ghost gs = g@;
    let ghost fs = feedback@;
    let mut i: usize = 0;
    while i < 5
        invariant
            0 <= i <= 5,
            g@ == gs,
            gs.len() == 5,
            fs.len() == 5,
            feedback@ == fs,
            m0.wf(),
            state@.green.len() == 5,
            forall|k: int| 0 <= k < i && fs[k] == Feedback::Green ==> state@.green[k] == Some(gs[k]),
            forall|k: int| 0 <= k < i && fs[k] != Feedback::Green ==> state@.green[k] == m0.green[k],
            forall|k: int| i <= k < 5 ==> state@.green[k] == m0.green[k],
            state@.yellow == m0.yellow + yellow_adds(gs, fs, i as int),
            state@.gray == gray_merge(m0.gray, gs, fs, i as int),
            state@.mins == merge_mins(m0.mins, gs, fs, i as int),
            unique_keys(state@.mins),
        decreases 5 - i,
    {
        proof {
            lemma_merge_mins_unique(m0.mins, gs, fs, i as int);
        }
        let c = g[i];
        let fb = feedback[i];
        match fb {
            Feedback::Green => {
                state.green[i] = Some(c);
                proof {
                    assert(yellow_adds(gs, fs, i as int + 1) =~= yellow_adds(gs, fs, i as int));
                    assert(state@.yellow =~= m0.yellow + yellow_adds(gs, fs, i as int + 1));
                }
                let cnt = tally_so_far(g, feedback, i);
                proof {
                    lemma_round_tally_le(gs, fs, gs[i as int], i as int + 1);
                }
                upsert_max_exec(&mut state.min_counts, c, cnt);
            },
            Feedback::Yellow => {
                state.yellow.push((c, i));
                proof {
                    assert(yellow_adds(gs, fs, i as int + 1) =~= yellow_adds(gs, fs, i as int)
                        + seq![(gs[i as int], i as usize)]);
                    assert(state@.yellow =~= m0.yellow + yellow_adds(gs, fs, i as int + 1));
                }
                let cnt = tally_so_far(g, feedback, i);
                proof {
                    lemma_round_tally_le(gs, fs, gs[i as int], i as int + 1);
                }
                upsert_max_exec(&mut state.min_counts, c, cnt);
            },
            Feedback::Gray => {
                let seen = crate::words::contains_char(&state.gray, c);
                if !seen {
                    state.gray.push(c);
                }
                proof {
                    assert(yellow_adds(gs, fs, i as int + 1) =~= yellow_adds(gs, fs, i as int));
                    assert(state@.yellow =~= m0.yellow + yellow_adds(gs, fs, i as int + 1));
                }
            },
        }
        proof {
            lemma_merge_mins_unique(m0.mins, gs, fs, i as int + 1);
        }
        i += 1;
    }
    proof {
        assert(state@.green =~= green_update(m0.green, gs, fs));
        assert(state@.wf()) by {
            assert forall|k: int| 0 <= k < state@.yellow.len() implies (#[trigger] state@.yellow[k]).1
                < 5 by {
                lemma_yellow_adds_wf(gs, fs, 5);
                if k >= m0.yellow.len() {
                    assert(state@.yellow[k] == yellow_adds(gs, fs, 5)[k - m0.yellow.len()]);
                }
            }
        }
    }
}

/// Every pair `yellow_adds` produces carries a position below `n`.
pub proof fn lemma_yellow_adds_wf(g: Seq<char>, f: Seq<Feedback>, n: int)
    requires
        n <= 5,
    ensures
        forall|k: int| 0 <= k < yellow_adds(g, f, n).len() ==> (#[trigger] yellow_adds(g, f, n)[k]).1
            < 5,
    decreases n,
{
    if n > 0 {
        lemma_yellow_adds_wf(g, f, n - 1);
        let a = yellow_adds(g, f, n - 1);
        let w = yellow_adds(g, f, n);
        assert forall|k: int| 0 <= k < w.len() implies (#[trigger] w[k]).1 < 5 by {
            if k < a.len() {
                assert(w[k] == a[k]);
            } else {
                assert(w[k] == (g[n - 1], (n - 1) as usize));
            }
        }
    }
}

/// The tally of `g[i]`'s Green and Yellow occurrences among positions `0..=i`.
fn tally_so_far(g: &Vec<char>, feedback: &Vec<Feedback>, i: usize) -> (cnt: usize)
    requires
        g@.len() == 5,
        feedback@.len() == 5,
        i < 5,
    ensures
        cnt as nat == round_tally(g@, feedback@, g@[i as int], i as int + 1),
{
    let c = g[i];
    let mut j: usize = 0;
    let mut cnt: usize = 0;
    while j <= i
        invariant
            0 <= j <= i + 1,
            i < 5,
            g@.len() == 5,
            feedback@.len() == 5,
            c == g@[i as int],
            cnt as nat == round_tally(g@, feedback@, c, j as int),
            cnt <= j,
        decreases i + 1 - j,
    {
        let fb = feedback[j];
        if g[j] == c && (fb == Feedback::Green || fb == Feedback::Yellow) {
            cnt += 1;
        }
        j += 1;
    }
    cnt
}

} // verus!
