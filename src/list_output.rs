use vstd::prelude::*;
use chrono::{Datelike, Timelike};
use crate::paths::{into_path, unix_separators};
use crate::split::{split_all, split_all_str, split_once, split_once_str};
use crate::text::{str_equals, trim, trimmed};

verus! {

/// How 7-Zip's technical listing writes a time.
pub const DATE_FORMAT: &'static str = "%Y-%m-%d %H:%M:%S";

/// A calendar date and time of day, without a time zone.
#[derive(PartialEq, Eq, Structural, Clone, Copy, Debug)]
pub struct DateTime {
    pub year: i32,
    pub month: u32,
    pub day: u32,
    pub hour: u32,
    pub minute: u32,
    pub second: u32,
}

impl DateTime {
    /// A month of the year, a day of the month, and a time of day.
    pub open spec fn wf(&self) -> bool {
        &&& 1 <= self.month <= 12
        &&& 1 <= self.day <= 31
        &&& self.hour < 24
        &&& self.minute < 60
        &&& self.second < 60
    }
}

/// The dates of an entry are well formed.
pub open spec fn entry_dates_wf(e: ListOutputEntry) -> bool {
    &&& e.modified.wf()
    &&& e.created matches Some(d) ==> d.wf()
}

/// What `chrono::NaiveDateTime::parse_from_str` reads from `text` in
/// `format`, as year, month, day, hour, minute and second.
pub uninterp spec fn parsed_datetime(text: Seq<char>, format: Seq<char>) -> Option<(i32, u32, u32, u32, u32, u32)>;

/// Relies on `chrono::NaiveDateTime::parse_from_str`, which reads a date and
/// time from the text alone, and on its `Datelike` and `Timelike` getters,
/// whose ranges its documentation gives (months and days from 1, hours
/// below 24, minutes and seconds below 60).
#[verifier::external_body]
fn parse_datetime(text: &str, format: &str) -> (r: Option<(i32, u32, u32, u32, u32, u32)>)
    ensures
        r == parsed_datetime(text@, format@),
        r matches Some(d) ==> 1 <= d.1 <= 12 && 1 <= d.2 <= 31 && d.3 < 24 && d.4 < 60 && d.5 < 60,
{
    chrono::NaiveDateTime::parse_from_str(text, format)
        .ok()
        .map(|d| (d.year(), d.month(), d.day(), d.hour(), d.minute(), d.second()))
}

/// One file of a 7-Zip technical listing.
pub struct ListOutputEntry {
    pub modified: DateTime,
    pub original_path: String,
    pub created: Option<DateTime>,
    pub size: u64,
    pub path: String,
}

/// The files of a 7-Zip technical listing (`7z l -slt`), in listing order.
pub struct ListOutput {
    pub entries: Vec<ListOutputEntry>,
}

/// Why a listing could not be read.
pub enum ListError {
    /// The line of dashes that ends the header is missing.
    NoIndicator,
    /// This line of an entry has no `=`.
    NoAttributeIndicator(String),
    /// An entry lacks this attribute, or leaves it empty or `-`.
    MissingField(String),
    /// This attribute of an entry is no date.
    BadDate(String),
    /// The size of an entry is no unsigned integer.
    BadSize,
}

/// The mathematical counterpart of `ListError`.
pub enum ListFailure {
    NoIndicator,
    NoAttributeIndicator(Seq<char>),
    MissingField(Seq<char>),
    BadDate(Seq<char>),
    BadSize,
}

impl View for ListError {
    type V = ListFailure;

    open spec fn view(&self) -> ListFailure {
        match self {
            ListError::NoIndicator => ListFailure::NoIndicator,
            ListError::NoAttributeIndicator(l) => ListFailure::NoAttributeIndicator(l@),
            ListError::MissingField(f) => ListFailure::MissingField(f@),
            ListError::BadDate(f) => ListFailure::BadDate(f@),
            ListError::BadSize => ListFailure::BadSize,
        }
    }
}

/// An entry as plain values.
pub struct EntryView {
    pub modified: (i32, u32, u32, u32, u32, u32),
    pub original_path: Seq<char>,
    pub created: Option<(i32, u32, u32, u32, u32, u32)>,
    pub size: u64,
    pub path: Seq<char>,
}

pub open spec fn date_view(d: DateTime) -> (i32, u32, u32, u32, u32, u32) {
    (d.year, d.month, d.day, d.hour, d.minute, d.second)
}

pub open spec fn entry_view(e: ListOutputEntry) -> EntryView {
    EntryView {
        modified: date_view(e.modified),
        original_path: e.original_path@,
        created: match e.created {
            Some(d) => Some(date_view(d)),
            None => None,
        },
        size: e.size,
        path: e.path@,
    }
}

pub open spec fn is_digit(c: char) -> bool {
    '0' <= c && c <= '9'
}

/// The number that the decimal digits `s` write.
pub open spec fn digits_value(s: Seq<char>) -> int
    decreases s.len(),
{
    if s.len() == 0 {
        0
    } else {
        digits_value(s.drop_last()) * 10 + (s.last() as int - '0' as int)
    }
}

/// `s` without a leading `+`.
pub open spec fn unsigned_digits(s: Seq<char>) -> Seq<char> {
    if s.len() > 0 && s[0] == '+' {
        s.drop_first()
    } else {
        s
    }
}

pub open spec fn all_digits(d: Seq<char>) -> bool {
    forall|i: int| 0 <= i < d.len() ==> is_digit(#[trigger] d[i])
}

/// What `u64::from_str` reads: an optional `+`, then at least one decimal
/// digit, with a value that fits.
pub open spec fn parsed_u64(s: Seq<char>) -> Option<u64> {
    let d = unsigned_digits(s);
    if d.len() > 0 && all_digits(d) && digits_value(d) <= u64::MAX {
        Some(digits_value(d) as u64)
    } else {
        None
    }
}

/// The `key = value` pairs of the lines of an entry, both sides trimmed.
pub open spec fn parse_pairs(lines: Seq<Seq<char>>) -> Result<Seq<(Seq<char>, Seq<char>)>, ListFailure>
    decreases lines.len(),
{
    if lines.len() == 0 {
        Ok(seq![])
    } else {
        match split_once(lines[0], "="@) {
            None => Err(ListFailure::NoAttributeIndicator(lines[0])),
            Some((k, v)) => match parse_pairs(lines.drop_first()) {
                Ok(rest) => Ok(seq![(trimmed(k), trimmed(v))] + rest),
                Err(e) => Err(e),
            },
        }
    }
}

/// The value of the last pair for `key`.
pub open spec fn last_value(pairs: Seq<(Seq<char>, Seq<char>)>, key: Seq<char>) -> Option<Seq<char>>
    decreases pairs.len(),
{
    if pairs.len() == 0 {
        None
    } else if pairs.last().0 == key {
        Some(pairs.last().1)
    } else {
        last_value(pairs.drop_last(), key)
    }
}

/// The value of attribute `key`; an empty value or `-` counts as absent.
pub open spec fn field(pairs: Seq<(Seq<char>, Seq<char>)>, key: Seq<char>) -> Option<Seq<char>> {
    match last_value(pairs, key) {
        Some(v) => if v.len() == 0 || v == "-"@ {
            None
        } else {
            Some(v)
        },
        None => None,
    }
}

/// The optional date attribute `key`.
pub open spec fn optional_date(pairs: Seq<(Seq<char>, Seq<char>)>, key: Seq<char>) -> Result<
    Option<(i32, u32, u32, u32, u32, u32)>,
    ListFailure,
> {
    match field(pairs, key) {
        None => Ok(None),
        Some(t) => match parsed_datetime(t, DATE_FORMAT@) {
            Some(d) => Ok(Some(d)),
            None => Err(ListFailure::BadDate(key)),
        },
    }
}

/// The date attribute `key`, which must be there.
pub open spec fn required_date(pairs: Seq<(Seq<char>, Seq<char>)>, key: Seq<char>) -> Result<
    (i32, u32, u32, u32, u32, u32),
    ListFailure,
> {
    match field(pairs, key) {
        None => Err(ListFailure::MissingField(key)),
        Some(t) => match parsed_datetime(t, DATE_FORMAT@) {
            Some(d) => Ok(d),
            None => Err(ListFailure::BadDate(key)),
        },
    }
}

/// The size attribute, which must be there.
pub open spec fn required_size(pairs: Seq<(Seq<char>, Seq<char>)>) -> Result<u64, ListFailure> {
    match field(pairs, "Size"@) {
        None => Err(ListFailure::MissingField("Size"@)),
        Some(t) => match parsed_u64(t) {
            Some(n) => Ok(n),
            None => Err(ListFailure::BadSize),
        },
    }
}

/// One entry from its trimmed block of lines: the path first, then the
/// creation time if given, the modification time and the size.
pub open spec fn parse_entry(block: Seq<char>) -> Result<EntryView, ListFailure> {
    match parse_pairs(split_all(block, "\n"@)) {
        Err(e) => Err(e),
        Ok(pairs) => match field(pairs, "Path"@) {
            None => Err(ListFailure::MissingField("Path"@)),
            Some(path) => match optional_date(pairs, "Created"@) {
                Err(e) => Err(e),
                Ok(created) => match required_date(pairs, "Modified"@) {
                    Err(e) => Err(e),
                    Ok(modified) => match required_size(pairs) {
                        Err(e) => Err(e),
                        Ok(size) => Ok(
                            EntryView {
                                modified,
                                original_path: path,
                                created,
                                size,
                                path: unix_separators(path),
                            },
                        ),
                    },
                },
            },
        },
    }
}

/// Whether a block is an entry: blocks of two lines or fewer are skipped.
pub open spec fn is_entry_block(block: Seq<char>) -> bool {
    trimmed(block).len() > 0 && split_all(trimmed(block), "\n"@).len() > 2
}

pub open spec fn prepend<E, F>(first: Seq<E>, rest: Result<Seq<E>, F>) -> Result<Seq<E>, F> {
    match rest {
        Ok(xs) => Ok(first + xs),
        Err(e) => Err(e),
    }
}

/// The entries of the blocks, in order; the first entry that fails decides
/// the error.
pub open spec fn parse_blocks(blocks: Seq<Seq<char>>) -> Result<Seq<EntryView>, ListFailure>
    decreases blocks.len(),
{
    if blocks.len() == 0 {
        Ok(seq![])
    } else if !is_entry_block(blocks[0]) {
        parse_blocks(blocks.drop_first())
    } else {
        match parse_entry(trimmed(blocks[0])) {
            Err(e) => Err(e),
            Ok(x) => prepend(seq![x], parse_blocks(blocks.drop_first())),
        }
    }
}

/// A whole listing: after the line of dashes, blocks separated by blank
/// lines.
pub open spec fn parse_listing(s: Seq<char>) -> Result<Seq<EntryView>, ListFailure> {
    match split_once(trimmed(s), "----------"@) {
        None => Err(ListFailure::NoIndicator),
        Some((_header, files)) => parse_blocks(split_all(files, "\n\n"@)),
    }
}

pub proof fn lemma_digits_prefix(s: Seq<char>, k: int)
    requires
        0 <= k <= s.len(),
        forall|i: int| 0 <= i < s.len() ==> is_digit(#[trigger] s[i]),
    ensures
        0 <= digits_value(s.subrange(0, k)) <= digits_value(s),
    decreases s.len(),
{
    if s.len() > 0 {
        let t = s.drop_last();
        if k < s.len() {
            lemma_digits_prefix(t, k);
            assert(t.subrange(0, k) =~= s.subrange(0, k));
        } else {
            assert(s.subrange(0, k) =~= s);
            lemma_digits_prefix(t, t.len() as int);
            assert(t.subrange(0, t.len() as int) =~= t);
        }
        assert(is_digit(s[s.len() - 1]));
    } else {
        assert(s.subrange(0, k) =~= s);
    }
}

pub proof fn lemma_prepend_push<E, F>(acc: Seq<E>, x: E, r: Result<Seq<E>, F>)
    ensures
        prepend(acc, prepend(seq![x], r)) == prepend(acc.push(x), r),
{
    match r {
        Ok(xs) => {
            assert(acc + (seq![x] + xs) =~= acc.push(x) + xs);
        },
        Err(e) => {},
    }
}

/// Reads an unsigned decimal number as `u64::from_str` does.
pub fn parse_u64(s: &str) -> (r: Option<u64>)
    ensures
        r == parsed_u64(s@),
{
    let n = s.unicode_len();
    let start: usize = if n > 0 && s.get_char(0) == '+' {
        1
    } else {
        0
    };
    let ghost d = unsigned_digits(s@);
    proof {
        assert(d =~= s@.subrange(start as int, n as int));
    }
    if start >= n {
        return None;
    }
    let mut val: u64 = 0;
    let mut i: usize = start;
    proof {
        assert(d.subrange(0, 0).len() == 0);
    }
    while i < n
        invariant
            start <= i <= n,
            n == s@.len(),
            start < n,
            d == s@.subrange(start as int, n as int),
            d == unsigned_digits(s@),
            forall|k: int| 0 <= k < i - start ==> is_digit(#[trigger] d[k]),
            val == digits_value(d.subrange(0, i - start)),
        decreases n - i,
    {
        let c = s.get_char(i);
        proof {
            assert(d[i - start] == c);
        }
        if !('0' <= c && c <= '9') {
            proof {
                assert(!is_digit(d[i - start]));
                assert(!all_digits(d));
                assert(parsed_u64(s@) is None);
            }
            return None;
        }
        let dig = (c as u32 - '0' as u32) as u64;
        proof {
            assert(d.subrange(0, i - start + 1).drop_last() =~= d.subrange(0, i - start));
            assert(d.subrange(0, i - start + 1).last() == c);
            assert(digits_value(d.subrange(0, i - start + 1)) == val * 10 + dig);
        }
        if val > 1844674407370955161 || (val == 1844674407370955161 && dig > 5) {
            proof {
                let v = val as int;
                let g = dig as int;
                assert(v * 10 + g > u64::MAX) by (nonlinear_arith)
                    requires
                        v > 1844674407370955161 || (v == 1844674407370955161 && g > 5),
                        0 <= g <= 9,
                ;
                if all_digits(d) {
                    lemma_digits_prefix(d, i - start + 1);
                    assert(digits_value(d) > u64::MAX);
                }
                assert(parsed_u64(s@) is None);
            }
            return None;
        }
        proof {
            let v = val as int;
            let g = dig as int;
            assert(v * 10 + g <= u64::MAX) by (nonlinear_arith)
                requires
                    v < 1844674407370955161 || (v == 1844674407370955161 && g <= 5),
                    0 <= g <= 9,
            ;
        }
        val = val * 10 + dig;
        i = i + 1;
    }
    proof {
        assert(d.subrange(0, n - start) =~= d);
    }
    Some(val)
}

pub open spec fn pair_view(p: (&str, &str)) -> (Seq<char>, Seq<char>) {
    (p.0@, p.1@)
}

pub open spec fn lines_view(lines: Seq<&str>) -> Seq<Seq<char>> {
    lines.map_values(|l: &str| l@)
}

/// The `key = value` pairs of the lines of an entry.
fn parse_lines<'a>(lines: &Vec<&'a str>) -> (r: Result<Vec<(&'a str, &'a str)>, ListError>)
    ensures
        match r {
            Ok(p) => parse_pairs(lines_view(lines@)) == Ok::<Seq<(Seq<char>, Seq<char>)>, ListFailure>(
                p@.map_values(|q: (&str, &str)| pair_view(q)),
            ),
            Err(e) => parse_pairs(lines_view(lines@)) == Err::<Seq<(Seq<char>, Seq<char>)>, ListFailure>(e@),
        },
{
    let ghost all = lines_view(lines@);
    let mut pairs: Vec<(&'a str, &'a str)> = Vec::new();
    let mut i: usize = 0;
    proof {
        assert(all.subrange(0, all.len() as int) =~= all);
        assert(pairs@.map_values(|q: (&str, &str)| pair_view(q)) =~= Seq::<(Seq<char>, Seq<char>)>::empty());
        assert(prepend(Seq::<(Seq<char>, Seq<char>)>::empty(), parse_pairs(all)) == parse_pairs(all)) by {
            match parse_pairs(all) {
                Ok(xs) => {
                    assert(Seq::<(Seq<char>, Seq<char>)>::empty() + xs =~= xs);
                },
                Err(e) => {},
            }
        }
    }
    while i < lines.len()
        invariant
            i <= lines@.len(),
            all == lines_view(lines@),
            parse_pairs(all) == prepend(
                pairs@.map_values(|q: (&str, &str)| pair_view(q)),
                parse_pairs(all.subrange(i as int, all.len() as int)),
            ),
        decreases lines.len() - i,
    {
        let ghost sub = all.subrange(i as int, all.len() as int);
        proof {
            assert(sub[0] == lines@[i as int]@);
            assert(sub.drop_first() =~= all.subrange(i + 1, all.len() as int));
            reveal_strlit("=");
        }
        match split_once_str(lines[i], "=") {
            None => {
                return Err(ListError::NoAttributeIndicator(String::from_str(lines[i])));
            },
            Some((k, v)) => {
                let ghost acc = pairs@.map_values(|q: (&str, &str)| pair_view(q));
                let key = trim(k);
                let value = trim(v);
                pairs.push((key, value));
                proof {
                    assert(pairs@.map_values(|q: (&str, &str)| pair_view(q)) =~= acc.push((key@, value@)));
                    lemma_prepend_push(acc, (key@, value@), parse_pairs(all.subrange(i + 1, all.len() as int)));
                }
            },
        }
        i = i + 1;
    }
    proof {
        assert(all.subrange(i as int, all.len() as int) =~= Seq::<Seq<char>>::empty());
        assert(pairs@.map_values(|q: (&str, &str)| pair_view(q)) + Seq::<(Seq<char>, Seq<char>)>::empty()
            =~= pairs@.map_values(|q: (&str, &str)| pair_view(q)));
    }
    Ok(pairs)
}

/// The value of attribute `key`; an empty value or `-` counts as absent.
fn field_of<'a>(pairs: &Vec<(&'a str, &'a str)>, key: &str) -> (r: Option<&'a str>)
    ensures
        match r {
            Some(v) => field(pairs@.map_values(|q: (&str, &str)| pair_view(q)), key@) == Some(v@),
            None => field(pairs@.map_values(|q: (&str, &str)| pair_view(q)), key@) is None,
        },
{
    let ghost pv = pairs@.map_values(|q: (&str, &str)| pair_view(q));
    let mut found: Option<&'a str> = None;
    let mut i: usize = 0;
    while i < pairs.len()
        invariant
            i <= pairs@.len(),
            pv == pairs@.map_values(|q: (&str, &str)| pair_view(q)),
            match found {
                Some(v) => last_value(pv.subrange(0, i as int), key@) == Some(v@),
                None => last_value(pv.subrange(0, i as int), key@) is None,
            },
        decreases pairs.len() - i,
    {
        proof {
            assert(pv.subrange(0, i + 1).drop_last() =~= pv.subrange(0, i as int));
            assert(pv.subrange(0, i + 1).last() == pv[i as int]);
        }
        if str_equals(pairs[i].0, key) {
            found = Some(pairs[i].1);
        }
        i = i + 1;
    }
    proof {
        assert(pv.subrange(0, pv.len() as int) =~= pv);
    }
    match found {
        Some(v) => {
            if v.unicode_len() == 0 || str_equals(v, "-") {
                None
            } else {
                Some(v)
            }
        },
        None => None,
    }
}

pub open spec fn entry_result_view(r: Result<ListOutputEntry, ListError>) -> Result<EntryView, ListFailure> {
    match r {
        Ok(e) => Ok(entry_view(e)),
        Err(e) => Err(e@),
    }
}

fn to_date(d: (i32, u32, u32, u32, u32, u32)) -> (r: DateTime)
    requires
        1 <= d.1 <= 12 && 1 <= d.2 <= 31 && d.3 < 24 && d.4 < 60 && d.5 < 60,
    ensures
        date_view(r) == d,
        r.wf(),
{
    DateTime { year: d.0, month: d.1, day: d.2, hour: d.3, minute: d.4, second: d.5 }
}

/// Reads one entry from its trimmed block of lines.
fn parse_entry_block(block: &str) -> (r: Result<ListOutputEntry, ListError>)
    ensures
        entry_result_view(r) == parse_entry(block@),
        r matches Ok(e) ==> entry_dates_wf(e),
{
    proof {
        reveal_strlit("\n");
    }
    let lines = split_all_str(block, "\n");
    proof {
        assert(lines_view(lines@) == split_all(block@, "\n"@));
    }
    let pairs = match parse_lines(&lines) {
        Ok(p) => p,
        Err(e) => return Err(e),
    };
    let path = match field_of(&pairs, "Path") {
        Some(p) => p,
        None => return Err(ListError::MissingField(String::from_str("Path"))),
    };
    let created = match field_of(&pairs, "Created") {
        None => None,
        Some(t) => match parse_datetime(t, DATE_FORMAT) {
            Some(d) => Some(to_date(d)),
            None => return Err(ListError::BadDate(String::from_str("Created"))),
        },
    };
    let modified = match field_of(&pairs, "Modified") {
        None => return Err(ListError::MissingField(String::from_str("Modified"))),
        Some(t) => match parse_datetime(t, DATE_FORMAT) {
            Some(d) => to_date(d),
            None => return Err(ListError::BadDate(String::from_str("Modified"))),
        },
    };
    let size = match field_of(&pairs, "Size") {
        None => return Err(ListError::MissingField(String::from_str("Size"))),
        Some(t) => match parse_u64(t) {
            Some(n) => n,
            None => return Err(ListError::BadSize),
        },
    };
    Ok(ListOutputEntry { modified, original_path: String::from_str(path), created, size, path: into_path(path) })
}

impl ListOutput {
    /// Reads a 7-Zip technical listing: the header up to a line of dashes,
    /// then one block of `key = value` lines per file, blocks separated by
    /// blank lines. Blocks of two lines or fewer are skipped; each entry needs
    /// `Path`, `Modified` and `Size`, and may give `Created`.
    pub fn parse(s: &str) -> (r: Result<ListOutput, ListError>)
        ensures
            match r {
                Ok(l) => parse_listing(s@) == Ok::<Seq<EntryView>, ListFailure>(
                    l.entries@.map_values(|e: ListOutputEntry| entry_view(e)),
                ) && forall|i: int| 0 <= i < l.entries@.len() ==> entry_dates_wf(#[trigger] l.entries@[i]),
                Err(e) => parse_listing(s@) == Err::<Seq<EntryView>, ListFailure>(e@),
            },
    {
        let trimmed_input = trim(s);
        let files = match split_once_str(trimmed_input, "----------") {
            Some((_header, files)) => files,
            None => return Err(ListError::NoIndicator),
        };
        proof {
            reveal_strlit("\n\n");
        }
        let blocks = split_all_str(files, "\n\n");
        let ghost all = lines_view(blocks@);
        proof {
            assert(all == split_all(files@, "\n\n"@));
            assert(parse_listing(s@) == parse_blocks(all));
        }
        let mut entries: Vec<ListOutputEntry> = Vec::new();
        let mut i: usize = 0;
        proof {
            assert(all.subrange(0, all.len() as int) =~= all);
            assert(entries@.map_values(|e: ListOutputEntry| entry_view(e)) =~= Seq::<EntryView>::empty());
            assert(prepend(Seq::<EntryView>::empty(), parse_blocks(all)) == parse_blocks(all)) by {
                match parse_blocks(all) {
                    Ok(xs) => {
                        assert(Seq::<EntryView>::empty() + xs =~= xs);
                    },
                    Err(e) => {},
                }
            }
        }
        while i < blocks.len()
            invariant
                i <= blocks@.len(),
                all == lines_view(blocks@),
                parse_listing(s@) == parse_blocks(all),
                forall|k: int| 0 <= k < entries@.len() ==> entry_dates_wf(#[trigger] entries@[k]),
                parse_blocks(all) == prepend(
                    entries@.map_values(|e: ListOutputEntry| entry_view(e)),
                    parse_blocks(all.subrange(i as int, all.len() as int)),
                ),
            decreases blocks.len() - i,
        {
            let ghost sub = all.subrange(i as int, all.len() as int);
            proof {
                assert(sub[0] == blocks@[i as int]@);
                assert(sub.drop_first() =~= all.subrange(i + 1, all.len() as int));
                reveal_strlit("\n");
            }
            let block = trim(blocks[i]);
            let pieces = split_all_str(block, "\n");
            let is_entry = block.unicode_len() > 0 && pieces.len() > 2;
            proof {
                assert(pieces@.len() == split_all(block@, "\n"@).len());
                assert(is_entry == is_entry_block(blocks@[i as int]@));
            }
            if is_entry {
                let ghost acc = entries@.map_values(|e: ListOutputEntry| entry_view(e));
                match parse_entry_block(block) {
                    Ok(entry) => {
                        entries.push(entry);
                        proof {
                            assert(entries@.map_values(|e: ListOutputEntry| entry_view(e)) =~= acc.push(
                                entry_view(entry),
                            ));
                            lemma_prepend_push(acc, entry_view(entry), parse_blocks(all.subrange(i + 1, all.len() as int)));
                        }
                    },
                    Err(e) => return Err(e),
                }
            }
            i = i + 1;
        }
        proof {
            assert(all.subrange(i as int, all.len() as int) =~= Seq::<Seq<char>>::empty());
            assert(entries@.map_values(|e: ListOutputEntry| entry_view(e)) + Seq::<EntryView>::empty()
                =~= entries@.map_values(|e: ListOutputEntry| entry_view(e)));
        }
        Ok(ListOutput { entries })
    }
}

impl std::str::FromStr for ListOutput {
    type Err = ListError;

    fn from_str(s: &str) -> Result<ListOutput, ListError> {
        ListOutput::parse(s)
    }
}

} // verus!
