use vstd::prelude::*;

verus! {

/// The delimiter that opens and closes a variable marker.
pub const MARKER: char = '%';

/// Position of the first marker character at or after `from`, or `s.len()`
/// when there is none.
pub open spec fn next_marker(s: Seq<char>, from: int) -> int
    decreases s.len() - from,
{
    if from >= s.len() {
        s.len() as int
    } else if from < 0 {
        next_marker(s, 0)
    } else if s[from] == MARKER {
        from
    } else {
        next_marker(s, from + 1)
    }
}

/// The text before the first `%`, the name up to the next `%`, and the rest;
/// `None` when the text holds fewer than two `%`.
pub open spec fn template_marker(s: Seq<char>) -> Option<(Seq<char>, Seq<char>, Seq<char>)> {
    let i = next_marker(s, 0);
    let j = next_marker(s, i + 1);
    if i >= s.len() || j >= s.len() {
        None
    } else {
        Some((s.subrange(0, i), s.subrange(i + 1, j), s.subrange(j + 1, s.len() as int)))
    }
}

pub proof fn lemma_next_marker_bounds(s: Seq<char>, from: int)
    requires
        0 <= from,
    ensures
        from <= next_marker(s, from) <= s.len() || (from > s.len() && next_marker(s, from)
            == s.len()),
        next_marker(s, from) < s.len() ==> s[next_marker(s, from)] == MARKER,
        forall|k: int| from <= k < next_marker(s, from) ==> s[k] != MARKER,
    decreases s.len() - from,
{
    if from < s.len() && s[from] != MARKER {
        lemma_next_marker_bounds(s, from + 1);
    }
}

/// Scans for the next marker character, starting at `from`.
fn find_marker(input: &str, from: usize) -> (r: usize)
    requires
        from <= input@.len(),
    ensures
        r == next_marker(input@, from as int),
{
    let n = input.unicode_len();
    let mut i = from;
    while i < n
        invariant
            n == input@.len(),
            from <= i <= n,
            next_marker(input@, from as int) == next_marker(input@, i as int),
        decreases n - i,
    {
        if input.get_char(i) == MARKER {
            return i;
        }
        i = i + 1;
    }
    i
}

/// Splits `input` at its first variable marker into
/// `(left, variable_name, right)`.
pub fn find_template_marker(input: &str) -> (r: Option<(&str, &str, &str)>)
    ensures
        match r {
            Some((left, name, right)) => template_marker(input@) == Some((left@, name@, right@)),
            None => template_marker(input@) is None,
        },
{
    let n = input.unicode_len();
    let i = find_marker(input, 0);
    if i >= n {
        return None;
    }
    let j = find_marker(input, i + 1);
    if j >= n {
        return None;
    }
    proof {
        lemma_next_marker_bounds(input@, 0);
        lemma_next_marker_bounds(input@, i + 1);
    }
    Some((input.substring_char(0, i), input.substring_char(i + 1, j), input.substring_char(j + 1, n)))
}

} // verus!
