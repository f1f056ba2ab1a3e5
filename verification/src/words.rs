use vstd::prelude::*;

verus! {

/// Number of occurrences of `c` among the first `n` characters of `w`.
pub open spec fn occ_up_to(w: Seq<char>, c: char, n: int) -> nat
    decreases n,
{
    if n <= 0 {
        0
    } else {
        occ_up_to(w, c, n - 1) + (if w[n - 1] == c {
            1nat
        } else {
            0nat
        })
    }
}

/// Number of occurrences of `c` in `w`.
pub open spec fn occurrences(w: Seq<char>, c: char) -> nat {
    occ_up_to(w, c, w.len() as int)
}

/// The view of every word in a list.
pub open spec fn words_view(ws: Seq<String>) -> Seq<Seq<char>> {
    ws.map_values(|w: String| w@)
}

/// Collect the characters of a string into a vector.
pub fn chars_of(s: &str) -> (r: Vec<char>)
    ensures
        r@ == s@,
{
    let n = s.unicode_len();
    let mut r: Vec<char> = Vec::new();
    let mut i: usize = 0;
    while i < n
        invariant
            n == s@.len(),
            0 <= i <= n,
            r@ == s@.subrange(0, i as int),
        decreases n - i,
    {
        r.push(s.get_char(i));
        assert(r@ =~= s@.subrange(0, i as int + 1));
        i += 1;
    }
    assert(r@ =~= s@);
    r
}

/// Whether `w` contains the character `c`.
pub fn contains_char(w: &Vec<char>, c: char) -> (r: bool)
    ensures
        r == w@.contains(c),
{
    let mut i: usize = 0;
    while i < w.len()
        invariant
            0 <= i <= w@.len(),
            forall|k: int| 0 <= k < i ==> w@[k] != c,
        decreases w@.len() - i,
    {
        if w[i] == c {
            assert(w@.contains(c));
            return true;
        }
        i += 1;
    }
    assert(!w@.contains(c));
    false
}

/// Count the occurrences of `c` among the first `n` characters of `w`.
pub fn count_char_up_to(w: &Vec<char>, c: char, n: usize) -> (r: usize)
    requires
        n <= w@.len(),
    ensures
        r as nat == occ_up_to(w@, c, n as int),
{
    let mut i: usize = 0;
    let mut r: usize = 0;
    while i < n
        invariant
            0 <= i <= n <= w@.len(),
            r as nat == occ_up_to(w@, c, i as int),
            r <= i,
        decreases n - i,
    {
        if w[i] == c {
            r += 1;
        }
        i += 1;
    }
    r
}

/// Count the occurrences of `c` in `w`.
pub fn count_char(w: &Vec<char>, c: char) -> (r: usize)
    ensures
        r as nat == occurrences(w@, c),
{
    count_char_up_to(w, c, w.len())
}

/// The words of `lines` whose character length is exactly `len`, in their
/// original order: what a dictionary source must supply before play begins.
pub fn filter_by_length(lines: &Vec<String>, len: usize) -> (r: Vec<String>)
    ensures
        words_view(r@) == words_view(lines@).filter(|w: Seq<char>| w.len() == len),
{
    let mut r: Vec<String> = Vec::new();
    let mut i: usize = 0;
    while i < lines.len()
        invariant
            0 <= i <= lines@.len(),
            words_view(r@) == words_view(lines@.subrange(0, i as int)).filter(
                |w: Seq<char>| w.len() == len,
            ),
        decreases lines@.len() - i,
    {
        let ghost prefix = lines@.subrange(0, i as int);
        let ghost prefix1 = lines@.subrange(0, i as int + 1);
        proof {
            reveal(Seq::filter);
            assert(words_view(prefix1).drop_last() =~= words_view(prefix));
            assert(words_view(prefix1).last() == lines@[i as int]@);
        }
        let ghost old_rv = words_view(r@);
        if lines[i].as_str().unicode_len() == len {
            let w = lines[i].clone();
            r.push(w);
            proof {
                assert(words_view(r@) =~= old_rv.push(lines@[i as int]@));
            }
        }
        i += 1;
    }
    proof {
        assert(lines@.subrange(0, lines@.len() as int) =~= lines@);
    }
    r
}

} // verus!
