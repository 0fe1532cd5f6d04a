use vstd::prelude::*;

verus! {

/// `needle` occurs in `hay` at position `at`.
pub open spec fn occurs_at(hay: Seq<char>, needle: Seq<char>, at: int) -> bool {
    0 <= at && at + needle.len() <= hay.len() && hay.subrange(at, at + needle.len()) == needle
}

/// `needle` occurs somewhere in `hay`.
pub open spec fn occurs_in(hay: Seq<char>, needle: Seq<char>) -> bool {
    exists|at: int| occurs_at(hay, needle, at)
}

/// Whether `needle` occurs in `hay`.
pub fn contains_text(hay: &str, needle: &str) -> (r: bool)
    ensures
        r == occurs_in(hay@, needle@),
{
    let h = hay.unicode_len();
    let n = needle.unicode_len();
    if n > h {
        return false;
    }
    let mut at: usize = 0;
    while at <= h - n
        invariant
            h == hay@.len(),
            n == needle@.len(),
            n <= h,
            at <= h - n + 1,
            forall|k: int| 0 <= k < at ==> !occurs_at(hay@, needle@, k),
        decreases h - n + 1 - at,
    {
        let mut j: usize = 0;
        let mut same = true;
        while j < n
            invariant
                h == hay@.len(),
                n == needle@.len(),
                at + n <= h,
                j <= n,
                same == forall|m: int| 0 <= m < j ==> hay@[at + m] == needle@[m],
            decreases n - j,
        {
            if hay.get_char(at + j) != needle.get_char(j) {
                same = false;
            }
            j = j + 1;
        }
        if same {
            proof {
                assert(hay@.subrange(at as int, at + n) =~= needle@);
                assert(occurs_at(hay@, needle@, at as int));
            }
            return true;
        }
        proof {
            let m = choose|m: int| 0 <= m < n && hay@[at + m] != needle@[m];
            assert(hay@.subrange(at as int, at + n)[m] == hay@[at + m]);
        }
        at = at + 1;
    }
    proof {
        assert forall|k: int| !occurs_at(hay@, needle@, k) by {
            if 0 <= k && k + n <= h {
                assert(k < at);
            }
        }
    }
    false
}

/// Whether every phrase occurs in `text`; true when there are none.
pub fn contains_all(text: &str, phrases: &Vec<String>) -> (r: bool)
    ensures
        r == forall|i: int| 0 <= i < phrases@.len() ==> occurs_in(text@, #[trigger] phrases@[i]@),
{
    let mut i: usize = 0;
    while i < phrases.len()
        invariant
            i <= phrases@.len(),
            forall|k: int| 0 <= k < i ==> occurs_in(text@, #[trigger] phrases@[k]@),
        decreases phrases.len() - i,
    {
        if !contains_text(text, phrases[i].as_str()) {
            return false;
        }
        i = i + 1;
    }
    true
}

} // verus!
