//! The pure post-pass over crawled entries: substring name filtering and
//! the total size of a selection.

use vstd::prelude::*;
use crate::crawl::{FileEntry, FileEntryV};

verus! {

/// `p` occurs contiguously somewhere in `s`.
pub open spec fn contains_sub(s: Seq<char>, p: Seq<char>) -> bool {
    exists|i: int| 0 <= i && i + p.len() <= s.len() && #[trigger] s.subrange(i, i + p.len()) == p
}

/// Does `pat` occur at position `i` of `s`?
fn match_at(s: &str, pat: &str, i: usize, n: usize, m: usize) -> (r: bool)
    requires
        n == s@.len(),
        m == pat@.len(),
        i + m <= n,
    ensures
        r == (s@.subrange(i as int, i + m) == pat@),
{
    let mut j: usize = 0;
    while j < m
        invariant
            j <= m,
            n == s@.len(),
            m == pat@.len(),
            i + m <= n,
            forall|t: int| 0 <= t < j ==> s@[i + t] == pat@[t],
        decreases m - j,
    {
        if s.get_char(i + j) != pat.get_char(j) {
            proof {
                assert(s@.subrange(i as int, i + m)[j as int] != pat@[j as int]);
            }
            return false;
        }
        j = j + 1;
    }
    proof {
        assert(s@.subrange(i as int, i + m) =~= pat@);
    }
    true
}

/// Whether `needle` occurs contiguously in `hay`.
pub fn contains_token(hay: &str, needle: &str) -> (r: bool)
    ensures
        r == contains_sub(hay@, needle@),
{
    let n = hay.unicode_len();
    let m = needle.unicode_len();
    if m > n {
        return false;
    }
    if m == 0 {
        proof {
            assert(hay@.subrange(0, 0 + needle@.len() as int) =~= needle@);
        }
        return true;
    }
    let mut i: usize = 0;
    while i <= n - m
        invariant
            n == hay@.len(),
            m == needle@.len(),
            1 <= m <= n,
            i <= n - m + 1,
            forall|t: int| 0 <= t < i ==> #[trigger] hay@.subrange(t, t + m) != needle@,
        decreases n - i,
    {
        if match_at(hay, needle, i, n, m) {
            return true;
        }
        i = i + 1;
    }
    false
}

/// An entry is selected by name: it holds one token and avoids the other.
pub open spec fn name_selected(name: Seq<char>, must: Seq<char>, must_not: Seq<char>) -> bool {
    contains_sub(name, must) && !contains_sub(name, must_not)
}

pub open spec fn selected_entries(
    es: Seq<FileEntryV>,
    must: Seq<char>,
    must_not: Seq<char>,
) -> Seq<FileEntryV>
    decreases es.len(),
{
    if es.len() == 0 {
        Seq::empty()
    } else {
        let rest = selected_entries(es.drop_last(), must, must_not);
        if name_selected(es.last().name, must, must_not) {
            rest.push(es.last())
        } else {
            rest
        }
    }
}

/// Keeps the entries whose name holds `must_contain` and avoids
/// `must_not_contain`, in order.
pub fn filter_entries(entries: &Vec<FileEntry>, must_contain: &str, must_not_contain: &str) -> (r:
    Vec<FileEntry>)
    ensures
        r@.map_values(|e: FileEntry| e@) == selected_entries(
            entries@.map_values(|e: FileEntry| e@),
            must_contain@,
            must_not_contain@,
        ),
{
    let ghost es = entries@.map_values(|e: FileEntry| e@);
    let mut out: Vec<FileEntry> = Vec::new();
    let mut i: usize = 0;
    while i < entries.len()
        invariant
            i <= entries.len(),
            es == entries@.map_values(|e: FileEntry| e@),
            out@.map_values(|e: FileEntry| e@) == selected_entries(
                es.take(i as int),
                must_contain@,
                must_not_contain@,
            ),
        decreases entries.len() - i,
    {
        let e = &entries[i];
        proof {
            assert(es.take(i + 1).drop_last() =~= es.take(i as int));
            assert(es.take(i + 1).last() == e@);
        }
        if contains_token(e.name.as_str(), must_contain) && !contains_token(
            e.name.as_str(),
            must_not_contain,
        ) {
            out.push(e.duplicate());
            proof {
                assert(out@.map_values(|e: FileEntry| e@) =~= selected_entries(
                    es.take(i + 1),
                    must_contain@,
                    must_not_contain@,
                ));
            }
        }
        i = i + 1;
    }
    proof {
        assert(es.take(entries@.len() as int) =~= es);
    }
    out
}

/// Adding a size to a running total, stopping at the largest
/// representable count.
pub open spec fn sat_add_u64(a: int, b: int) -> int {
    if a + b > u64::MAX {
        u64::MAX as int
    } else {
        a + b
    }
}

/// The total size of a selection, saturating at the largest representable
/// count.
pub open spec fn total_size_spec(es: Seq<FileEntryV>) -> int
    decreases es.len(),
{
    if es.len() == 0 {
        0
    } else {
        sat_add_u64(total_size_spec(es.drop_last()), es.last().size_bytes as int)
    }
}

/// Sums the sizes of the given entries, saturating instead of
/// overflowing.
pub fn total_size(entries: &Vec<FileEntry>) -> (r: u64)
    ensures
        r == total_size_spec(entries@.map_values(|e: FileEntry| e@)),
{
    let ghost es = entries@.map_values(|e: FileEntry| e@);
    let mut acc: u64 = 0;
    let mut i: usize = 0;
    while i < entries.len()
        invariant
            i <= entries.len(),
            es == entries@.map_values(|e: FileEntry| e@),
            acc == total_size_spec(es.take(i as int)),
        decreases entries.len() - i,
    {
        proof {
            assert(es.take(i + 1).drop_last() =~= es.take(i as int));
            assert(es.take(i + 1).last() == entries@[i as int]@);
        }
        let sz = entries[i].size_bytes;
        if acc <= u64::MAX - sz {
            acc = acc + sz;
        } else {
            acc = u64::MAX;
        }
        i = i + 1;
    }
    proof {
        assert(es.take(entries@.len() as int) =~= es);
    }
    acc
}

} // verus!
