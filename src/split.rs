use vstd::prelude::*;
use crate::selection::occurs_at;

verus! {

/// Position of the first occurrence of `pat` in `s` at or after `from`.
pub open spec fn find_from(s: Seq<char>, pat: Seq<char>, from: int) -> Option<int>
    decreases s.len() - from,
{
    if from < 0 || from + pat.len() > s.len() {
        None
    } else if pat.len() == 0 || occurs_at(s, pat, from) {
        Some(from)
    } else {
        find_from(s, pat, from + 1)
    }
}

/// `s` cut around the first occurrence of `pat`.
pub open spec fn split_once(s: Seq<char>, pat: Seq<char>) -> Option<(Seq<char>, Seq<char>)> {
    match find_from(s, pat, 0) {
        Some(i) => Some((s.subrange(0, i), s.subrange(i + pat.len(), s.len() as int))),
        None => None,
    }
}

/// The pieces of `s` between occurrences of the non-empty `pat`.
pub open spec fn split_all(s: Seq<char>, pat: Seq<char>) -> Seq<Seq<char>>
    decreases s.len(),
{
    if pat.len() == 0 {
        seq![s]
    } else {
        match find_from(s, pat, 0) {
            Some(i) => if 0 <= i && i + pat.len() <= s.len() {
                seq![s.subrange(0, i)] + split_all(s.subrange(i + pat.len(), s.len() as int), pat)
            } else {
                seq![s]
            },
            None => seq![s],
        }
    }
}

pub proof fn lemma_find_from(s: Seq<char>, pat: Seq<char>, from: int)
    requires
        0 <= from,
    ensures
        match find_from(s, pat, from) {
            Some(i) => from <= i && i + pat.len() <= s.len() && occurs_at(s, pat, i),
            None => true,
        },
    decreases s.len() - from,
{
    if pat.len() == 0 && from <= s.len() {
        assert(s.subrange(from, from) =~= pat);
    }
    if from + pat.len() <= s.len() && pat.len() > 0 && !occurs_at(s, pat, from) {
        lemma_find_from(s, pat, from + 1);
    }
}

/// Whether `pat` occurs in `s` at `at`.
fn matches_at(s: &str, pat: &str, at: usize) -> (r: bool)
    requires
        at + pat@.len() <= s@.len(),
        s@.len() <= usize::MAX,
    ensures
        r == occurs_at(s@, pat@, at as int),
{
    let n = pat.unicode_len();
    let mut j: usize = 0;
    while j < n
        invariant
            n == pat@.len(),
            at + n <= s@.len(),
            s@.len() <= usize::MAX,
            j <= n,
            forall|m: int| 0 <= m < j ==> s@[at + m] == pat@[m],
        decreases n - j,
    {
        if s.get_char(at + j) != pat.get_char(j) {
            proof {
                assert(s@.subrange(at as int, at + n)[j as int] == s@[at + j]);
            }
            return false;
        }
        j = j + 1;
    }
    proof {
        assert(s@.subrange(at as int, at + n) =~= pat@);
    }
    true
}

/// Position of the first occurrence of `pat` in `s`.
pub fn find(s: &str, pat: &str) -> (r: Option<usize>)
    ensures
        match r {
            Some(i) => find_from(s@, pat@, 0) == Some(i as int),
            None => find_from(s@, pat@, 0) is None,
        },
{
    let h = s.unicode_len();
    let n = pat.unicode_len();
    if n > h {
        return None;
    }
    if n == 0 {
        return Some(0);
    }
    let mut at: usize = 0;
    while at <= h - n
        invariant
            h == s@.len(),
            n == pat@.len(),
            0 < n <= h,
            at <= h - n + 1,
            find_from(s@, pat@, 0) == find_from(s@, pat@, at as int),
        decreases h - n + 1 - at,
    {
        if matches_at(s, pat, at) {
            return Some(at);
        }
        at = at + 1;
    }
    None
}

/// Cuts `s` around the first occurrence of `pat`.
pub fn split_once_str<'a>(s: &'a str, pat: &str) -> (r: Option<(&'a str, &'a str)>)
    ensures
        match r {
            Some((a, b)) => split_once(s@, pat@) == Some((a@, b@)),
            None => split_once(s@, pat@) is None,
        },
{
    match find(s, pat) {
        Some(i) => {
            proof {
                lemma_find_from(s@, pat@, 0);
            }
            let n = s.unicode_len();
            let m = pat.unicode_len();
            Some((s.substring_char(0, i), s.substring_char(i + m, n)))
        },
        None => None,
    }
}

/// The pieces of `s` between occurrences of the non-empty `pat`.
pub fn split_all_str<'a>(s: &'a str, pat: &str) -> (r: Vec<&'a str>)
    requires
        pat@.len() > 0,
    ensures
        r@.map_values(|p: &str| p@) == split_all(s@, pat@),
{
    let mut pieces: Vec<&'a str> = Vec::new();
    let mut rest: &'a str = s;
    let m = pat.unicode_len();
    loop
        invariant
            m == pat@.len(),
            m > 0,
            pieces@.map_values(|p: &str| p@) + split_all(rest@, pat@) == split_all(s@, pat@),
        decreases rest@.len(),
    {
        match find(rest, pat) {
            Some(i) => {
                proof {
                    lemma_find_from(rest@, pat@, 0);
                }
                let n = rest.unicode_len();
                let head = rest.substring_char(0, i);
                let tail = rest.substring_char(i + m, n);
                let ghost before = pieces@.map_values(|p: &str| p@);
                pieces.push(head);
                proof {
                    assert(pieces@.map_values(|p: &str| p@) =~= before.push(head@));
                    assert(before + split_all(rest@, pat@) =~= before.push(head@) + split_all(tail@, pat@));
                }
                rest = tail;
            },
            None => {
                let ghost before = pieces@.map_values(|p: &str| p@);
                pieces.push(rest);
                proof {
                    assert(pieces@.map_values(|p: &str| p@) =~= before + split_all(rest@, pat@));
                }
                return pieces;
            },
        }
    }
}

} // verus!
