use vstd::prelude::*;
use crate::feedback::Feedback;
use crate::feedback::feedback_from_char;
use crate::feedback::symbol_of;
use crate::state::ConstraintState;
use crate::state::StateModel;
use crate::state::apply_spec;
use crate::state::apply_feedback_chars;
use crate::words::chars_of;

verus! {

/// The whitespace ignored around a history entry.
pub open spec fn is_ws(c: char) -> bool {
    c == ' ' || c == '\t' || c == '\n' || c == '\r'
}

/// The first position at or after `from` holding the entry delimiter, or
/// the length if there is none.
pub open spec fn first_comma(s: Seq<char>, from: int) -> int
    decreases s.len() - from,
{
    if from < 0 || from >= s.len() {
        s.len() as int
    } else if s[from] == ',' {
        from
    } else {
        first_comma(s, from + 1)
    }
}

/// The segments between delimiters, in order; a text without a delimiter is
/// one segment, so the empty text is one empty segment.
pub open spec fn split_commas(s: Seq<char>) -> Seq<Seq<char>>
    decreases s.len(),
{
    let i = first_comma(s, 0);
    if 0 <= i < s.len() {
        seq![s.subrange(0, i)] + split_commas(s.subrange(i + 1, s.len() as int))
    } else {
        seq![s]
    }
}

/// The first position at or after `from` holding a non-whitespace
/// character, or the length if there is none.
pub open spec fn first_non_ws(s: Seq<char>, from: int) -> int
    decreases s.len() - from,
{
    if from < 0 || from >= s.len() {
        s.len() as int
    } else if is_ws(s[from]) {
        first_non_ws(s, from + 1)
    } else {
        from
    }
}

/// One past the last non-whitespace position strictly before `upto`, or
/// zero if there is none.
pub open spec fn last_non_ws(s: Seq<char>, upto: int) -> int
    decreases upto,
{
    if upto <= 0 {
        0
    } else if is_ws(s[upto - 1]) {
        last_non_ws(s, upto - 1)
    } else {
        upto
    }
}

/// The segment with its surrounding whitespace removed.
pub open spec fn trim_spec(s: Seq<char>) -> Seq<char> {
    let lo = first_non_ws(s, 0);
    if lo == s.len() {
        Seq::empty()
    } else {
        s.subrange(lo, last_non_ws(s, s.len() as int))
    }
}

/// A trimmed segment is a valid history entry: five guess letters followed
/// by five recognized feedback symbols.
pub open spec fn valid_entry(t: Seq<char>) -> bool {
    t.len() == 10 && forall|i: int| 5 <= i < 10 ==> feedback_from_char(#[trigger] t[i]) is Some
}

/// The guess a valid entry records.
pub open spec fn entry_guess(t: Seq<char>) -> Seq<char> {
    t.subrange(0, 5)
}

/// The feedback a valid entry records.
pub open spec fn entry_feedback(t: Seq<char>) -> Seq<Feedback> {
    Seq::new(5, |i: int| feedback_from_char(t[i + 5])->0)
}

/// The (guess, feedback) pairs of the valid entries of a segment list, in
/// order; invalid segments are skipped.
pub open spec fn pairs_of_segments(segs: Seq<Seq<char>>) -> Seq<(Seq<char>, Seq<Feedback>)> {
    segs.map_values(|e: Seq<char>| trim_spec(e)).filter(|t: Seq<char>| valid_entry(t)).map_values(
        |t: Seq<char>| (entry_guess(t), entry_feedback(t)),
    )
}

/// The (guess, feedback) pairs a serialized history holds.
pub open spec fn entries_of(data: Seq<char>) -> Seq<(Seq<char>, Seq<Feedback>)> {
    pairs_of_segments(split_commas(data))
}

/// The state after applying a list of rounds in order.
pub open spec fn replay_pairs(m: StateModel, ps: Seq<(Seq<char>, Seq<Feedback>)>) -> StateModel
    decreases ps.len(),
{
    if ps.len() == 0 {
        m
    } else {
        replay_pairs(apply_spec(m, ps[0].0, ps[0].1), ps.drop_first())
    }
}

/// Replaying one more round applies it to the state the earlier rounds left.
pub proof fn lemma_replay_snoc(m: StateModel, ps: Seq<(Seq<char>, Seq<Feedback>)>, p: (Seq<char>, Seq<Feedback>))
    ensures
        replay_pairs(m, ps.push(p)) == apply_spec(replay_pairs(m, ps), p.0, p.1),
    decreases ps.len(),
{
    if ps.len() == 0 {
        assert(ps.push(p)[0] == p);
        assert(ps.push(p).drop_first() =~= Seq::<(Seq<char>, Seq<Feedback>)>::empty());
        assert(replay_pairs(m, ps.push(p)) == replay_pairs(
            apply_spec(m, p.0, p.1),
            Seq::<(Seq<char>, Seq<Feedback>)>::empty(),
        ));
        assert(replay_pairs(
            apply_spec(m, p.0, p.1),
            Seq::<(Seq<char>, Seq<Feedback>)>::empty(),
        ) == apply_spec(m, p.0, p.1));
        assert(replay_pairs(m, ps) == m);
    } else {
        assert(ps.push(p)[0] == ps[0]);
        assert(ps.push(p).drop_first() =~= ps.drop_first().push(p));
        lemma_replay_snoc(apply_spec(m, ps[0].0, ps[0].1), ps.drop_first(), p);
        assert(replay_pairs(m, ps.push(p)) == replay_pairs(
            apply_spec(m, ps[0].0, ps[0].1),
            ps.drop_first().push(p),
        ));
        assert(replay_pairs(m, ps) == replay_pairs(
            apply_spec(m, ps[0].0, ps[0].1),
            ps.drop_first(),
        ));
    }
}

/// Splitting distributes over appending one more segment list after a
/// delimiter, when the first part holds no delimiter.
proof fn lemma_first_comma_skip(s: Seq<char>, j: int)
    requires
        0 <= j <= s.len(),
        forall|k: int| 0 <= k < j ==> s[k] != ',',
    ensures
        first_comma(s, 0) == first_comma(s, j),
    decreases j,
{
    if j > 0 {
        lemma_first_comma_skip(s, j - 1);
    }
}

/// Copy the characters `lo..hi` of `v` into a fresh vector.
fn copy_range(v: &Vec<char>, lo: usize, hi: usize) -> (r: Vec<char>)
    requires
        lo <= hi <= v@.len(),
    ensures
        r@ == v@.subrange(lo as int, hi as int),
{
    let mut r: Vec<char> = Vec::new();
    let mut k: usize = lo;
    while k < hi
        invariant
            lo <= k <= hi <= v@.len(),
            r@ == v@.subrange(lo as int, k as int),
        decreases hi - k,
    {
        r.push(v[k]);
        assert(r@ =~= v@.subrange(lo as int, k as int + 1));
        k += 1;
    }
    r
}

/// Replay a comma-separated history of `guess(5)+feedback(5)` entries into
/// the constraint state, skipping malformed entries, and report how many
/// entries were applied and how many were skipped. The remaining budget
/// drops by the number of applied entries, floored at zero.
#[verifier::rlimit(80)]
pub fn load_state(data: &str, state: &mut ConstraintState, remaining: &mut usize) -> (counts: (
    usize,
    usize,
))
    requires
        old(state)@.wf(),
        data@.len() < usize::MAX,
    ensures
        final(state)@ == replay_pairs(old(state)@, entries_of(data@)),
        final(state)@.wf(),
        counts.0 == entries_of(data@).len(),
        counts.1 == split_commas(data@).len() - entries_of(data@).len(),
        *final(remaining) == (if entries_of(data@).len() <= *old(remaining) {
            (*old(remaining) - entries_of(data@).len()) as usize
        } else {
            0usize
        }),
{
    let v = chars_of(data);
    let ghost m0 = state@;
    let n = v.len();
    let mut start: usize = 0;
    let mut applied: usize = 0;
    let mut skipped: usize = 0;
    let ghost mut segs_done: Seq<Seq<char>> = Seq::empty();
    let mut done = false;
    proof {
        assert(pairs_of_segments(segs_done) =~= Seq::<(Seq<char>, Seq<Feedback>)>::empty());
        assert(v@.subrange(0, n as int) =~= v@);
        assert(split_commas(v@) =~= segs_done + split_commas(v@.subrange(0, n as int)));
    }
    while !done
        invariant
            state@.wf(),
            v@.len() == n,
            n < usize::MAX,
            0 <= start <= n,
            done ==> split_commas(v@) == segs_done,
            !done ==> split_commas(v@) == segs_done + split_commas(
                v@.subrange(start as int, n as int),
            ),
            !done ==> segs_done.len() <= start,
            state@ == replay_pairs(m0, pairs_of_segments(segs_done)),
            applied == pairs_of_segments(segs_done).len(),
            applied + skipped == segs_done.len(),
            applied <= segs_done.len(),
        decreases (if done { 0int } else { 1int + n - start }),
    {
        let ghost suffix = v@.subrange(start as int, n as int);
        // find the end of this segment
        let mut end: usize = start;
        while end < n && v[end] != ','
            invariant
                start <= end <= n,
                v@.len() == n,
                forall|k: int| start <= k < end ==> v@[k] != ',',
            decreases n - end,
        {
            end += 1;
        }
        proof {
            assert forall|k: int| 0 <= k < end - start implies suffix[k] != ',' by {
                assert(suffix[k] == v@[start + k]);
            }
            lemma_first_comma_skip(suffix, end - start);
            if end < n {
                assert(suffix[end - start] == v@[end as int]);
                assert(first_comma(suffix, end - start) == end - start);
                assert(first_comma(suffix, 0) == end - start);
            } else {
                assert(first_comma(suffix, end - start) == suffix.len());
                assert(first_comma(suffix, 0) == suffix.len());
            }
        }
        let ghost seg = v@.subrange(start as int, end as int);
        proof {
            assert(suffix.subrange(0, end - start) =~= seg);
            if end < n {
                assert(suffix.subrange(end - start + 1, suffix.len() as int) =~= v@.subrange(
                    end as int + 1,
                    n as int,
                ));
                assert(split_commas(suffix) == seq![seg] + split_commas(
                    v@.subrange(end as int + 1, n as int),
                ));
            } else {
                assert(split_commas(suffix) == seq![suffix]);
                assert(seg =~= suffix);
            }
        }
        // trim the segment
        let mut lo: usize = start;
        while lo < end && (v[lo] == ' ' || v[lo] == '\t' || v[lo] == '\n' || v[lo] == '\r')
            invariant
                start <= lo <= end <= n,
                v@.len() == n,
                forall|k: int| start <= k < lo ==> is_ws(v@[k]),
            decreases end - lo,
        {
            lo += 1;
        }
        let mut hi: usize = end;
        while hi > lo && (v[hi - 1] == ' ' || v[hi - 1] == '\t' || v[hi - 1] == '\n' || v[hi - 1]
            == '\r')
            invariant
                lo <= hi <= end <= n,
                v@.len() == n,
                forall|k: int| hi <= k < end ==> is_ws(v@[k]),
            decreases hi,
        {
            hi -= 1;
        }
        proof {
            assert forall|k: int| 0 <= k < lo - start implies is_ws(#[trigger] seg[k]) by {
                assert(seg[k] == v@[start + k]);
            }
            assert forall|k: int| hi - start <= k < seg.len() implies is_ws(#[trigger] seg[k]) by {
                assert(seg[k] == v@[start + k]);
            }
            if lo < end {
                assert(seg[lo - start] == v@[lo as int]);
            }
            if hi > lo {
                assert(seg[hi - start - 1] == v@[hi - 1]);
            }
            lemma_trim_bounds(seg, lo - start, hi - start);
        }
        let t = copy_range(&v, lo, hi);
        proof {
            assert(t@ =~= trim_spec(seg));
        }
        // parse the entry
        let mut ok = t.len() == 10;
        let mut fvec: Vec<Feedback> = Vec::new();
        if ok {
            let mut j: usize = 5;
            while j < 10 && ok
                invariant
                    5 <= j <= 10,
                    t@.len() == 10,
                    ok ==> fvec@.len() == j - 5,
                    ok ==> forall|i: int|
                        5 <= i < j ==> feedback_from_char(#[trigger] t@[i]) is Some,
                    ok ==> forall|i: int|
                        0 <= i < j - 5 ==> fvec@[i] == feedback_from_char(t@[i + 5])->0,
                    !ok ==> !valid_entry(t@),
                decreases 10 - j,
            {
                match Feedback::from_char(t[j]) {
                    Some(f) => {
                        fvec.push(f);
                    },
                    None => {
                        ok = false;
                    },
                }
                j += 1;
            }
        }
        proof {
            if ok {
                assert(valid_entry(t@));
                assert(fvec@ =~= entry_feedback(t@));
            } else {
                assert(!valid_entry(t@));
            }
        }
        // account for this segment
        let ghost segs_done1 = segs_done.push(seg);
        proof {
            assert(segs_done1.map_values(|e: Seq<char>| trim_spec(e)) =~= segs_done.map_values(
                |e: Seq<char>| trim_spec(e),
            ).push(trim_spec(seg)));
            lemma_filter_push(
                segs_done.map_values(|e: Seq<char>| trim_spec(e)),
                trim_spec(seg),
                |t: Seq<char>| valid_entry(t),
            );
            assert(t@ == trim_spec(seg));
            if valid_entry(t@) {
                assert(pairs_of_segments(segs_done1) =~= pairs_of_segments(segs_done).push(
                    (entry_guess(t@), entry_feedback(t@)),
                ));
            } else {
                assert(pairs_of_segments(segs_done1) =~= pairs_of_segments(segs_done));
            }
        }
        if ok {
            let guess = copy_range(&t, 0, 5);
            proof {
                assert(guess@ =~= entry_guess(t@));
            }
            apply_feedback_chars(&guess, &fvec, state);
            applied += 1;
            proof {
                lemma_replay_snoc(
                    m0,
                    pairs_of_segments(segs_done),
                    (entry_guess(t@), entry_feedback(t@)),
                );
                assert(guess@ == entry_guess(t@));
                assert(fvec@ == entry_feedback(t@));
            }
        } else {
            skipped += 1;
        }
        proof {
            assert(segs_done1 =~= segs_done + seq![seg]);
            if end < n {
                let rest = v@.subrange(end as int + 1, n as int);
                assert((segs_done + (seq![seg] + split_commas(rest))) =~= (segs_done1
                    + split_commas(rest)));
            } else {
                assert((segs_done + seq![seg]) =~= segs_done1);
            }
            segs_done = segs_done1;
        }
        if end < n {
            start = end + 1;
        } else {
            done = true;
        }
    }
    // floor the budget at zero
    if applied >= *remaining {
        *remaining = 0;
    } else {
        *remaining = *remaining - applied;
    }
    (applied, skipped)
}

/// The scanned trim bounds are exactly the specified trim of the segment.
proof fn lemma_trim_bounds(seg: Seq<char>, lo: int, hi: int)
    requires
        0 <= lo <= hi <= seg.len(),
        forall|k: int| 0 <= k < lo ==> is_ws(#[trigger] seg[k]),
        forall|k: int| hi <= k < seg.len() ==> is_ws(#[trigger] seg[k]),
        lo < seg.len() ==> !is_ws(seg[lo]),
        hi > lo ==> !is_ws(seg[hi - 1]),
    ensures
        trim_spec(seg) == seg.subrange(lo, hi),
{
    lemma_first_non_ws_skip(seg, lo);
    if lo < seg.len() {
        assert(first_non_ws(seg, 0) == lo);
        if hi > lo {
            lemma_last_non_ws_skip(seg, hi);
            assert(last_non_ws(seg, seg.len() as int) == last_non_ws(seg, hi));
            assert(last_non_ws(seg, hi) == hi);
        } else {
            // hi == lo, but then seg[lo] would be trailing whitespace
            assert(is_ws(seg[lo]));
            assert(false);
        }
    } else {
        // the whole segment is whitespace: the trim is empty
        assert(first_non_ws(seg, 0) == seg.len());
        assert(trim_spec(seg) == Seq::<char>::empty());
        assert(lo == hi);
        assert(seg.subrange(lo, hi) =~= Seq::<char>::empty());
    }
}

/// Scanning over leading whitespace finds the first non-whitespace position.
proof fn lemma_first_non_ws_skip(s: Seq<char>, j: int)
    requires
        0 <= j <= s.len(),
        forall|k: int| 0 <= k < j ==> is_ws(#[trigger] s[k]),
    ensures
        first_non_ws(s, 0) == first_non_ws(s, j),
    decreases j,
{
    if j > 0 {
        lemma_first_non_ws_skip(s, j - 1);
    }
}

/// Scanning back over trailing whitespace finds one past the last
/// non-whitespace position.
proof fn lemma_last_non_ws_skip(s: Seq<char>, h: int)
    requires
        0 <= h <= s.len(),
        forall|k: int| h <= k < s.len() ==> is_ws(#[trigger] s[k]),
    ensures
        last_non_ws(s, s.len() as int) == last_non_ws(s, h),
    decreases s.len() - h,
{
    if h < s.len() {
        lemma_last_non_ws_skip(s, h + 1);
    }
}

/// A guess fit for a serialized entry: five lower-case letters.
pub open spec fn plain_guess(g: Seq<char>) -> bool {
    g.len() == 5 && forall|i: int| 0 <= i < 5 ==> 'a' <= #[trigger] g[i] <= 'z'
}

/// The serialized form of one round: the guess followed by its five
/// feedback symbols.
pub open spec fn encode_entry(g: Seq<char>, f: Seq<Feedback>) -> Seq<char> {
    g + f.map_values(|x: Feedback| symbol_of(x))
}

/// The serialized form of a history: entries joined by the delimiter.
pub open spec fn encode_history(ps: Seq<(Seq<char>, Seq<Feedback>)>) -> Seq<char>
    decreases ps.len(),
{
    if ps.len() == 0 {
        Seq::empty()
    } else if ps.len() == 1 {
        encode_entry(ps[0].0, ps[0].1)
    } else {
        encode_entry(ps[0].0, ps[0].1) + seq![','] + encode_history(ps.drop_first())
    }
}

/// Each feedback symbol parses back to the class it stands for.
proof fn lemma_symbol_round(x: Feedback)
    ensures
        feedback_from_char(symbol_of(x)) == Some(x),
{
}

/// The serialized form of a valid round is one clean entry: ten characters,
/// none a delimiter or whitespace, that trims to itself, parses as valid,
/// and yields back exactly the round it encodes.
proof fn lemma_entry_facts(g: Seq<char>, f: Seq<Feedback>)
    requires
        plain_guess(g),
        f.len() == 5,
    ensures
        encode_entry(g, f).len() == 10,
        forall|i: int|
            0 <= i < 10 ==> !is_ws(#[trigger] encode_entry(g, f)[i]) && encode_entry(g, f)[i]
                != ',',
        trim_spec(encode_entry(g, f)) == encode_entry(g, f),
        valid_entry(encode_entry(g, f)),
        entry_guess(encode_entry(g, f)) == g,
        entry_feedback(encode_entry(g, f)) == f,
{
    let e = encode_entry(g, f);
    assert(e.len() == 10);
    assert forall|i: int| 0 <= i < 10 implies !is_ws(#[trigger] e[i]) && e[i] != ',' by {
        if i < 5 {
            assert(e[i] == g[i]);
            assert('a' <= g[i] <= 'z');
        } else {
            assert(e[i] == symbol_of(f[i - 5]));
            lemma_symbol_round(f[i - 5]);
        }
    }
    lemma_first_non_ws_skip(e, 0);
    assert(first_non_ws(e, 0) == 0);
    lemma_last_non_ws_skip(e, 10);
    assert(last_non_ws(e, 10) == 10);
    assert(trim_spec(e) =~= e);
    assert forall|i: int| 5 <= i < 10 implies feedback_from_char(#[trigger] e[i]) is Some by {
        assert(e[i] == symbol_of(f[i - 5]));
        lemma_symbol_round(f[i - 5]);
    }
    assert(entry_guess(e) =~= g);
    assert forall|i: int| 0 <= i < 5 implies entry_feedback(e)[i] == f[i] by {
        assert(e[i + 5] == symbol_of(f[i]));
        lemma_symbol_round(f[i]);
    }
    assert(entry_feedback(e) =~= f);
}

/// Segment bookkeeping distributes over concatenation.
proof fn lemma_pairs_concat(a: Seq<Seq<char>>, b: Seq<Seq<char>>)
    ensures
        pairs_of_segments(a + b) == pairs_of_segments(a) + pairs_of_segments(b),
{
    let ta = a.map_values(|e: Seq<char>| trim_spec(e));
    let tb = b.map_values(|e: Seq<char>| trim_spec(e));
    assert((a + b).map_values(|e: Seq<char>| trim_spec(e)) =~= ta + tb);
    Seq::filter_distributes_over_add(ta, tb, |t: Seq<char>| valid_entry(t));
    let fa = ta.filter(|t: Seq<char>| valid_entry(t));
    let fb = tb.filter(|t: Seq<char>| valid_entry(t));
    assert((fa + fb).map_values(|t: Seq<char>| (entry_guess(t), entry_feedback(t))) =~= fa
        .map_values(|t: Seq<char>| (entry_guess(t), entry_feedback(t))) + fb.map_values(
        |t: Seq<char>| (entry_guess(t), entry_feedback(t)),
    ));
}

/// The pairs of a single segment: its trimmed entry if valid, else nothing.
proof fn lemma_pairs_single(e: Seq<char>)
    ensures
        valid_entry(trim_spec(e)) ==> pairs_of_segments(seq![e]) == seq![
            (entry_guess(trim_spec(e)), entry_feedback(trim_spec(e))),
        ],
        !valid_entry(trim_spec(e)) ==> pairs_of_segments(seq![e]) == Seq::<(
            Seq<char>,
            Seq<Feedback>,
        )>::empty(),
{
    reveal(Seq::filter);
    let empty_segs = Seq::<Seq<char>>::empty();
    assert(seq![e] =~= empty_segs.push(e));
    assert(empty_segs.map_values(|e2: Seq<char>| trim_spec(e2)) =~= Seq::<Seq<char>>::empty());
    assert(seq![e].map_values(|e2: Seq<char>| trim_spec(e2)) =~= Seq::<Seq<char>>::empty().push(
        trim_spec(e),
    ));
    lemma_filter_push(Seq::<Seq<char>>::empty(), trim_spec(e), |t: Seq<char>| valid_entry(t));
    assert(Seq::<Seq<char>>::empty().filter(|t: Seq<char>| valid_entry(t))
        =~= Seq::<Seq<char>>::empty());
    if valid_entry(trim_spec(e)) {
        assert(pairs_of_segments(seq![e]) =~= seq![
            (entry_guess(trim_spec(e)), entry_feedback(trim_spec(e))),
        ]);
    } else {
        assert(pairs_of_segments(seq![e]) =~= Seq::<(Seq<char>, Seq<Feedback>)>::empty());
    }
}

/// Replaying a serialized history of valid rounds recovers exactly the
/// rounds it was built from: loading the text reproduces the state that
/// applying the same (guess, feedback) sequence directly would build.
pub proof fn lemma_history_round_trip(ps: Seq<(Seq<char>, Seq<Feedback>)>)
    requires
        forall|k: int|
            0 <= k < ps.len() ==> plain_guess((#[trigger] ps[k]).0) && ps[k].1.len() == 5,
    ensures
        entries_of(encode_history(ps)) == ps,
    decreases ps.len(),
{
    let data = encode_history(ps);
    if ps.len() == 0 {
        assert(first_comma(data, 0) == 0);
        assert(split_commas(data) == seq![data]);
        assert(first_non_ws(data, 0) == 0);
        assert(trim_spec(data) =~= Seq::<char>::empty());
        lemma_pairs_single(data);
        assert(entries_of(data) =~= ps);
    } else {
        let g = ps[0].0;
        let f = ps[0].1;
        let e = encode_entry(g, f);
        lemma_entry_facts(g, f);
        if ps.len() == 1 {
            assert(data == e);
            lemma_first_comma_skip(data, 10);
            assert(first_comma(data, 0) == 10);
            assert(split_commas(data) == seq![data]);
            lemma_pairs_single(data);
            assert(entries_of(data) =~= ps);
        } else {
            let rest = encode_history(ps.drop_first());
            assert(data == e + seq![','] + rest);
            assert(data.len() == 11 + rest.len());
            assert forall|k: int| 0 <= k < 10 implies data[k] != ',' by {
                assert(data[k] == e[k]);
            }
            assert(data[10] == ',');
            lemma_first_comma_skip(data, 10);
            assert(first_comma(data, 10) == 10);
            assert(first_comma(data, 0) == 10);
            assert(data.subrange(0, 10) =~= e);
            assert(data.subrange(11, data.len() as int) =~= rest);
            assert(split_commas(data) == seq![e] + split_commas(rest));
            assert forall|k: int|
                0 <= k < ps.drop_first().len() implies plain_guess(
                (#[trigger] ps.drop_first()[k]).0,
            ) && ps.drop_first()[k].1.len() == 5 by {
                assert(ps.drop_first()[k] == ps[k + 1]);
            }
            lemma_history_round_trip(ps.drop_first());
            lemma_pairs_concat(seq![e], split_commas(rest));
            lemma_pairs_single(e);
            assert(entries_of(data) == seq![(g, f)] + ps.drop_first());
            assert(seq![(g, f)] + ps.drop_first() =~= ps);
        }
    }
}

/// Filtering after appending one entry keeps the old result and appends the
/// entry exactly when it passes.
proof fn lemma_filter_push<A>(s: Seq<A>, x: A, p: spec_fn(A) -> bool)
    ensures
        s.push(x).filter(p) == (if p(x) {
            s.filter(p).push(x)
        } else {
            s.filter(p)
        }),
{
    reveal(Seq::filter);
    assert(s.push(x).drop_last() =~= s);
    assert(s.push(x).last() == x);
}

} // verus!
