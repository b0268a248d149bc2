//! The directory crawler's logic: turning one listing page's rows into
//! file entries and recursion targets, and the bookkeeping of a crawl —
//! which pages are pending, which URLs were already scheduled (the cycle
//! guard), and which entries were found.
//!
//! Fetching a page and reading its HTML rows is outside work; the crawl
//! driver hands each fetched page's rows in as plain values.

use vstd::prelude::*;
use crate::dates::{SimpleDate, Timestamp, parse_listing_ts_spec, spec_date_after};
use crate::dates::parse_listing_timestamp;
use crate::dates::date_is_after;
use crate::size::{parse_size_spec, string_to_bytes_value};

verus! {

#[derive(Clone, Copy, PartialEq, Eq, Structural, Debug)]
pub enum EntryKind {
    File,
    Directory,
}

/// One file found by the crawl. Directories never become entries: a
/// directory row only ever contributes a recursion edge.
pub struct FileEntry {
    pub name: String,
    pub kind: EntryKind,
    pub size_bytes: u64,
    pub modified: Timestamp,
    pub url: String,
}

pub ghost struct FileEntryV {
    pub name: Seq<char>,
    pub kind: EntryKind,
    pub size_bytes: u64,
    pub modified: Timestamp,
    pub url: Seq<char>,
}

impl View for FileEntry {
    type V = FileEntryV;

    open spec fn view(&self) -> FileEntryV {
        FileEntryV {
            name: self.name@,
            kind: self.kind,
            size_bytes: self.size_bytes,
            modified: self.modified,
            url: self.url@,
        }
    }
}

impl FileEntry {
    /// A copy with the same fields.
    pub fn duplicate(&self) -> (r: FileEntry)
        ensures
            r@ == self@,
    {
        FileEntry {
            name: self.name.clone(),
            kind: self.kind,
            size_bytes: self.size_bytes,
            modified: self.modified,
            url: self.url.clone(),
        }
    }
}

/// One row of a listing page, already reduced to typed cells.
pub struct ListingRow {
    pub name: String,
    pub kind_text: String,
    pub size_text: String,
    pub modified_text: String,
    pub href: Option<String>,
}

pub ghost struct ListingRowV {
    pub name: Seq<char>,
    pub kind_text: Seq<char>,
    pub size_text: Seq<char>,
    pub modified_text: Seq<char>,
    pub href: Option<Seq<char>>,
}

impl View for ListingRow {
    type V = ListingRowV;

    open spec fn view(&self) -> ListingRowV {
        ListingRowV {
            name: self.name@,
            kind_text: self.kind_text@,
            size_text: self.size_text@,
            modified_text: self.modified_text@,
            href: match self.href {
                Some(ref h) => Some(h@),
                None => None,
            },
        }
    }
}

/// The table header and the parent-directory link are not content.
pub open spec fn row_sentinel(r: ListingRowV) -> bool {
    r.name == "Name"@ || r.name == "../"@
}

/// A row is retained when it is no sentinel, has a link, and carries a
/// parseable modification timestamp strictly after the cutoff day.
pub open spec fn row_retained(r: ListingRowV, cutoff: SimpleDate) -> bool {
    &&& !row_sentinel(r)
    &&& parse_listing_ts_spec(r.modified_text) is Some
    &&& spec_date_after(parse_listing_ts_spec(r.modified_text)->0.date, cutoff)
    &&& r.href is Some
}

pub open spec fn row_is_dir(r: ListingRowV) -> bool {
    r.kind_text == "Directory"@
}

/// A retained file row also needs a parseable size to become an entry.
pub open spec fn row_is_file_entry(r: ListingRowV, cutoff: SimpleDate) -> bool {
    &&& row_retained(r, cutoff)
    &&& !row_is_dir(r)
    &&& parse_size_spec(r.size_text) is Some
}

/// A row's link resolved against the page it stands on.
pub open spec fn row_url(r: ListingRowV, base: Seq<char>) -> Seq<char> {
    base + r.href->0
}

pub open spec fn row_entry(r: ListingRowV, base: Seq<char>, cutoff: SimpleDate) -> FileEntryV {
    FileEntryV {
        name: r.name,
        kind: EntryKind::File,
        size_bytes: parse_size_spec(r.size_text)->0,
        modified: parse_listing_ts_spec(r.modified_text)->0,
        url: row_url(r, base),
    }
}

/// The file entries one page's rows yield, in row order.
pub open spec fn listing_files(rows: Seq<ListingRowV>, base: Seq<char>, cutoff: SimpleDate)
    -> Seq<FileEntryV>
    decreases rows.len(),
{
    if rows.len() == 0 {
        Seq::empty()
    } else {
        let rest = listing_files(rows.drop_last(), base, cutoff);
        if row_is_file_entry(rows.last(), cutoff) {
            rest.push(row_entry(rows.last(), base, cutoff))
        } else {
            rest
        }
    }
}

/// The subdirectory URLs one page's rows yield, in row order.
///
/// The cutoff applies to directory rows just as to file rows: a directory
/// modified at or before the cutoff is pruned even if newer files lie
/// beneath it. Callers who want old directories descended must exempt
/// them deliberately.
pub open spec fn listing_dirs(rows: Seq<ListingRowV>, base: Seq<char>, cutoff: SimpleDate)
    -> Seq<Seq<char>>
    decreases rows.len(),
{
    if rows.len() == 0 {
        Seq::empty()
    } else {
        let rest = listing_dirs(rows.drop_last(), base, cutoff);
        if row_retained(rows.last(), cutoff) && row_is_dir(rows.last()) {
            rest.push(row_url(rows.last(), base))
        } else {
            rest
        }
    }
}

/// A directory row only ever contributes a recursion edge: every entry a
/// page yields is a file, and its timestamp lies strictly after the
/// cutoff day.
pub proof fn lemma_listing_entries_are_new_files(
    rows: Seq<ListingRowV>,
    base: Seq<char>,
    cutoff: SimpleDate,
)
    ensures
        forall|i: int|
            0 <= i < listing_files(rows, base, cutoff).len() ==> (#[trigger] listing_files(
                rows,
                base,
                cutoff,
            )[i]).kind == EntryKind::File && spec_date_after(
                listing_files(rows, base, cutoff)[i].modified.date,
                cutoff,
            ),
    decreases rows.len(),
{
    if rows.len() > 0 {
        lemma_listing_entries_are_new_files(rows.drop_last(), base, cutoff);
    }
}

/// Splits one page's rows into file entries and subdirectory URLs.
///
/// Rows that lack a link, a parseable timestamp or (for files) a parseable
/// size are dropped, as are the header and parent-directory sentinels and
/// every row at or before the cutoff day.
pub fn process_listing(rows: &Vec<ListingRow>, base_url: &str, cutoff: SimpleDate) -> (r: (
    Vec<FileEntry>,
    Vec<String>,
))
    ensures
        r.0@.map_values(|e: FileEntry| e@) == listing_files(
            rows@.map_values(|row: ListingRow| row@),
            base_url@,
            cutoff,
        ),
        r.1@.map_values(|s: String| s@) == listing_dirs(
            rows@.map_values(|row: ListingRow| row@),
            base_url@,
            cutoff,
        ),
{
    let ghost rows_v = rows@.map_values(|row: ListingRow| row@);
    let mut files: Vec<FileEntry> = Vec::new();
    let mut dirs: Vec<String> = Vec::new();
    let mut i: usize = 0;
    while i < rows.len()
        invariant
            i <= rows.len(),
            rows_v == rows@.map_values(|row: ListingRow| row@),
            files@.map_values(|e: FileEntry| e@) == listing_files(
                rows_v.take(i as int),
                base_url@,
                cutoff,
            ),
            dirs@.map_values(|s: String| s@) == listing_dirs(
                rows_v.take(i as int),
                base_url@,
                cutoff,
            ),
        decreases rows.len() - i,
    {
        let row = &rows[i];
        proof {
            assert(rows_v.take(i + 1).drop_last() =~= rows_v.take(i as int));
            assert(rows_v.take(i + 1).last() == row@);
        }
        let header_name = String::from_str("Name");
        let parent_name = String::from_str("../");
        let dir_kind = String::from_str("Directory");
        let retained: bool = if row.name == header_name || row.name == parent_name {
            false
        } else {
            match parse_listing_timestamp(row.modified_text.as_str()) {
                Some(ts) => date_is_after(ts.date, cutoff),
                None => false,
            }
        };
        if retained {
            match &row.href {
                Some(href) => {
                    let mut url = base_url.to_owned();
                    url.append(href.as_str());
                    if row.kind_text == dir_kind {
                        dirs.push(url);
                        proof {
                            assert(dirs@.map_values(|s: String| s@) =~= listing_dirs(
                                rows_v.take(i + 1),
                                base_url@,
                                cutoff,
                            ));
                            assert(files@.map_values(|e: FileEntry| e@) =~= listing_files(
                                rows_v.take(i + 1),
                                base_url@,
                                cutoff,
                            ));
                        }
                    } else {
                        match string_to_bytes_value(row.size_text.as_str()) {
                            Some(size) => {
                                let ts = parse_listing_timestamp(
                                    row.modified_text.as_str(),
                                ).unwrap();
                                let entry = FileEntry {
                                    name: row.name.clone(),
                                    kind: EntryKind::File,
                                    size_bytes: size,
                                    modified: ts,
                                    url,
                                };
                                files.push(entry);
                                proof {
                                    assert(files@.map_values(|e: FileEntry| e@) =~= listing_files(
                                        rows_v.take(i + 1),
                                        base_url@,
                                        cutoff,
                                    ));
                                    assert(dirs@.map_values(|s: String| s@) =~= listing_dirs(
                                        rows_v.take(i + 1),
                                        base_url@,
                                        cutoff,
                                    ));
                                }
                            },
                            None => {
                                proof {
                                    assert(files@.map_values(|e: FileEntry| e@) =~= listing_files(
                                        rows_v.take(i + 1),
                                        base_url@,
                                        cutoff,
                                    ));
                                    assert(dirs@.map_values(|s: String| s@) =~= listing_dirs(
                                        rows_v.take(i + 1),
                                        base_url@,
                                        cutoff,
                                    ));
                                }
                            },
                        }
                    }
                },
                None => {
                    proof {
                        assert(files@.map_values(|e: FileEntry| e@) =~= listing_files(
                            rows_v.take(i + 1),
                            base_url@,
                            cutoff,
                        ));
                        assert(dirs@.map_values(|s: String| s@) =~= listing_dirs(
                            rows_v.take(i + 1),
                            base_url@,
                            cutoff,
                        ));
                    }
                },
            }
        } else {
            proof {
                assert(files@.map_values(|e: FileEntry| e@) =~= listing_files(
                    rows_v.take(i + 1),
                    base_url@,
                    cutoff,
                ));
                assert(dirs@.map_values(|s: String| s@) =~= listing_dirs(
                    rows_v.take(i + 1),
                    base_url@,
                    cutoff,
                ));
            }
        }
        i = i + 1;
    }
    proof {
        assert(rows_v.take(rows@.len() as int) =~= rows_v);
    }
    (files, dirs)
}

/// A directory waiting to be fetched, with its distance from the root.
pub struct PendingDir {
    pub url: String,
    pub depth: usize,
}

/// Which URLs a page's subdirectories add to the crawl: each one not yet
/// scheduled, as long as the page itself stands above the depth bound.
pub open spec fn schedule_spec(
    visited: Seq<Seq<char>>,
    pending: Seq<(Seq<char>, int)>,
    dirs: Seq<Seq<char>>,
    depth: int,
    max_depth: int,
) -> (Seq<Seq<char>>, Seq<(Seq<char>, int)>)
    decreases dirs.len(),
{
    if dirs.len() == 0 {
        (visited, pending)
    } else {
        let r = schedule_spec(visited, pending, dirs.drop_last(), depth, max_depth);
        if depth < max_depth && !r.0.contains(dirs.last()) {
            (r.0.push(dirs.last()), r.1.push((dirs.last(), depth + 1)))
        } else {
            r
        }
    }
}

/// Every scheduled URL stands in `visited` once, and whatever waits in
/// `pending` has been recorded in `visited`.
pub open spec fn scheduled_once(visited: Seq<Seq<char>>, pending: Seq<(Seq<char>, int)>) -> bool {
    &&& (forall|i: int, j: int| 0 <= i < j < visited.len() ==> visited[i] != visited[j])
    &&& (forall|i: int|
        0 <= i < pending.len() ==> visited.contains(#[trigger] pending[i].0))
}

/// Scheduling a URL nobody scheduled before keeps the guard intact.
proof fn lemma_scheduled_once_push(
    visited: Seq<Seq<char>>,
    pending: Seq<(Seq<char>, int)>,
    u: Seq<char>,
    dep: int,
)
    requires
        scheduled_once(visited, pending),
        !visited.contains(u),
    ensures
        scheduled_once(visited.push(u), pending.push((u, dep))),
{
    let v2 = visited.push(u);
    let p2 = pending.push((u, dep));
    assert forall|i: int, j: int| 0 <= i < j < v2.len() implies v2[i] != v2[j] by {
        if j == v2.len() - 1 {
            assert(v2[i] == visited[i]);
            if visited[i] == u {
                assert(visited.contains(u));
            }
        }
    }
    assert forall|i: int| 0 <= i < p2.len() implies v2.contains(#[trigger] p2[i].0) by {
        if i < pending.len() {
            let w = choose|t: int| 0 <= t < visited.len() && visited[t] == pending[i].0;
            assert(v2[w] == pending[i].0);
        } else {
            assert(v2[v2.len() - 1] == u);
        }
    }
}

/// Finishing or failing a queued page keeps the guard intact.
proof fn lemma_scheduled_once_drop(visited: Seq<Seq<char>>, pending: Seq<(Seq<char>, int)>)
    requires
        scheduled_once(visited, pending),
        pending.len() > 0,
    ensures
        scheduled_once(visited, pending.drop_last()),
{
    assert forall|i: int|
        0 <= i < pending.drop_last().len() implies visited.contains(
        #[trigger] pending.drop_last()[i].0,
    ) by {
        assert(pending.drop_last()[i] == pending[i]);
    }
}

/// The bookkeeping of one crawl: the pages still to fetch, every URL ever
/// scheduled (the cycle guard), the entries found so far, and the
/// directories whose fetch failed.
pub struct CrawlState {
    pub cutoff: SimpleDate,
    pub max_depth: usize,
    pub visited: Vec<String>,
    pub pending: Vec<PendingDir>,
    pub files: Vec<FileEntry>,
    pub failed: Vec<String>,
}

impl CrawlState {
    pub open spec fn visited_view(self) -> Seq<Seq<char>> {
        self.visited@.map_values(|s: String| s@)
    }

    pub open spec fn pending_view(self) -> Seq<(Seq<char>, int)> {
        self.pending@.map_values(|p: PendingDir| (p.url@, p.depth as int))
    }

    pub open spec fn files_view(self) -> Seq<FileEntryV> {
        self.files@.map_values(|e: FileEntry| e@)
    }

    /// Every scheduled URL is scheduled once, and whatever waits in the
    /// queue has been recorded as scheduled.
    pub open spec fn wf(self) -> bool {
        scheduled_once(self.visited_view(), self.pending_view())
    }

    /// Opens a crawl at a root URL: the root is scheduled and nothing has
    /// been found yet.
    pub fn new(root_url: String, cutoff: SimpleDate, max_depth: usize) -> (r: CrawlState)
        ensures
            r.cutoff == cutoff,
            r.max_depth == max_depth,
            r.visited_view() =~= seq![root_url@],
            r.pending_view() =~= seq![(root_url@, 0int)],
            r.files_view() =~= Seq::<FileEntryV>::empty(),
            r.failed@ =~= Seq::<String>::empty(),
            r.wf(),
    {
        let mut visited: Vec<String> = Vec::new();
        let mut pending: Vec<PendingDir> = Vec::new();
        visited.push(root_url.clone());
        pending.push(PendingDir { url: root_url, depth: 0 });
        let r = CrawlState {
            cutoff,
            max_depth,
            visited,
            pending,
            files: Vec::new(),
            failed: Vec::new(),
        };
        proof {
            assert(r.visited_view() =~= seq![root_url@]);
            assert(r.pending_view() =~= seq![(root_url@, 0int)]);
            assert(r.visited_view()[0] == root_url@);
            assert(forall|i: int|
                0 <= i < r.pending_view().len() ==> r.visited_view().contains(
                    #[trigger] r.pending_view()[i].0,
                ));
        }
        r
    }

    /// Takes one directory off the queue, or reports that the crawl is
    /// done.
    pub fn take_next(&mut self) -> (r: Option<PendingDir>)
        ensures
            old(self).pending@.len() == 0 ==> r is None && final(self).pending_view() == old(
                self,
            ).pending_view(),
            old(self).pending@.len() > 0 ==> {
                &&& r is Some
                &&& r->0.url@ == old(self).pending_view().last().0
                &&& r->0.depth as int == old(self).pending_view().last().1
                &&& final(self).pending_view() == old(self).pending_view().drop_last()
            },
            final(self).visited_view() == old(self).visited_view(),
            final(self).files_view() == old(self).files_view(),
            final(self).failed@ == old(self).failed@,
            final(self).cutoff == old(self).cutoff,
            final(self).max_depth == old(self).max_depth,
            old(self).wf() ==> final(self).wf(),
    {
        let ghost oldv = self.visited_view();
        let ghost oldp = self.pending_view();
        let r = self.pending.pop();
        proof {
            if oldp.len() > 0 {
                assert(self.pending_view() =~= oldp.drop_last());
                if old(self).wf() {
                    lemma_scheduled_once_drop(oldv, oldp);
                }
            }
        }
        r
    }

    /// Records that a directory's fetch failed; its subtree contributes
    /// nothing, and the rest of the crawl is unaffected.
    pub fn note_failure(&mut self, url: String)
        ensures
            final(self).failed@ == old(self).failed@.push(url),
            final(self).pending_view() == old(self).pending_view(),
            final(self).visited_view() == old(self).visited_view(),
            final(self).files_view() == old(self).files_view(),
            final(self).cutoff == old(self).cutoff,
            final(self).max_depth == old(self).max_depth,
            old(self).wf() ==> final(self).wf(),
    {
        self.failed.push(url);
    }

    /// Folds one fetched page into the crawl: its file entries are
    /// appended, and each subdirectory not yet scheduled is scheduled one
    /// level deeper — a URL seen before is never scheduled again.
    pub fn note_page(&mut self, base_url: &str, depth: usize, rows: &Vec<ListingRow>)
        ensures
            final(self).files_view() == old(self).files_view() + listing_files(
                rows@.map_values(|row: ListingRow| row@),
                base_url@,
                old(self).cutoff,
            ),
            (final(self).visited_view(), final(self).pending_view()) == schedule_spec(
                old(self).visited_view(),
                old(self).pending_view(),
                listing_dirs(
                    rows@.map_values(|row: ListingRow| row@),
                    base_url@,
                    old(self).cutoff,
                ),
                depth as int,
                old(self).max_depth as int,
            ),
            final(self).failed@ == old(self).failed@,
            final(self).cutoff == old(self).cutoff,
            final(self).max_depth == old(self).max_depth,
            old(self).wf() ==> final(self).wf(),
    {
        let (mut new_files, dirs) = process_listing(rows, base_url, self.cutoff);
        self.files.append(&mut new_files);
        proof {
            assert(self.files_view() =~= old(self).files_view() + listing_files(
                rows@.map_values(|row: ListingRow| row@),
                base_url@,
                old(self).cutoff,
            ));
        }
        let ghost dirs_v = dirs@.map_values(|s: String| s@);
        let mut k: usize = 0;
        while k < dirs.len()
            invariant
                k <= dirs.len(),
                dirs_v == dirs@.map_values(|s: String| s@),
                (self.visited_view(), self.pending_view()) == schedule_spec(
                    old(self).visited_view(),
                    old(self).pending_view(),
                    dirs_v.take(k as int),
                    depth as int,
                    old(self).max_depth as int,
                ),
                self.files_view() == old(self).files_view() + listing_files(
                    rows@.map_values(|row: ListingRow| row@),
                    base_url@,
                    old(self).cutoff,
                ),
                self.failed@ == old(self).failed@,
                self.cutoff == old(self).cutoff,
                self.max_depth == old(self).max_depth,
                old(self).wf() ==> self.wf(),
            decreases dirs.len() - k,
        {
            let d = &dirs[k];
            proof {
                assert(dirs_v.take(k + 1).drop_last() =~= dirs_v.take(k as int));
                assert(dirs_v.take(k + 1).last() == d@);
            }
            if depth < self.max_depth {
                let mut seen = false;
                let mut v: usize = 0;
                while v < self.visited.len()
                    invariant
                        v <= self.visited.len(),
                        seen == exists|t: int|
                            0 <= t < v && self.visited_view()[t] == d@,
                    decreases self.visited.len() - v,
                {
                    if self.visited[v] == *d {
                        seen = true;
                        proof {
                            assert(self.visited_view()[v as int] == d@);
                        }
                    }
                    v = v + 1;
                }
                proof {
                    assert(seen == self.visited_view().contains(d@));
                }
                if !seen {
                    let ghost prev_v = self.visited_view();
                    let ghost prev_p = self.pending_view();
                    self.visited.push(d.clone());
                    self.pending.push(PendingDir { url: d.clone(), depth: depth + 1 });
                    proof {
                        assert(self.visited_view() =~= prev_v.push(d@));
                        assert(self.pending_view() =~= prev_p.push((d@, depth + 1)));
                        if old(self).wf() {
                            lemma_scheduled_once_push(prev_v, prev_p, d@, depth + 1);
                        }
                    }
                }
            }
            k = k + 1;
        }
        proof {
            assert(dirs_v.take(dirs@.len() as int) =~= dirs_v);
        }
    }
}

} // verus!
