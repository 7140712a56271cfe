//! The records of the index and their mathematical views.

use vstd::prelude::*;

verus! {

/// One stored visit record: a directory, when it was last visited and how
/// often. Times are seconds since the Unix epoch, UTC.
#[derive(Debug)]
pub struct VisitEntry {
    pub path: String,
    pub last_access: i64,
    pub visits: u32,
}

/// A visit record together with its rank at the time of a query.
///
/// The rank is an order key (see `score::order_key`): of two entries the one
/// with the larger key ranks higher. It is worked out afresh for every query
/// and never stored.
#[derive(Debug)]
pub struct DirEntry {
    pub path: String,
    pub last_access: i64,
    pub visits: u32,
    pub rank: u64,
}

/// A name given by the user to one path.
#[derive(Debug)]
pub struct Bookmark {
    pub name: String,
    pub path: String,
}

/// Figures on the index as a whole.
#[derive(Debug)]
pub struct Stats {
    pub total_entries: u32,
    pub total_visits: u32,
    pub most_visited: Vec<VisitEntry>,
    pub recently_visited: Vec<VisitEntry>,
}

/// What a `VisitEntry` stands for.
pub struct VisitView {
    pub path: Seq<char>,
    pub last_access: int,
    pub visits: int,
}

/// What a `DirEntry` stands for.
pub struct EntryView {
    pub path: Seq<char>,
    pub last_access: int,
    pub visits: int,
    pub rank: int,
}

/// What a `Bookmark` stands for.
pub struct BookmarkView {
    pub name: Seq<char>,
    pub path: Seq<char>,
}

impl View for VisitEntry {
    type V = VisitView;

    open spec fn view(&self) -> VisitView {
        VisitView {
            path: self.path@,
            last_access: self.last_access as int,
            visits: self.visits as int,
        }
    }
}

impl View for DirEntry {
    type V = EntryView;

    open spec fn view(&self) -> EntryView {
        EntryView {
            path: self.path@,
            last_access: self.last_access as int,
            visits: self.visits as int,
            rank: self.rank as int,
        }
    }
}

impl View for Bookmark {
    type V = BookmarkView;

    open spec fn view(&self) -> BookmarkView {
        BookmarkView { name: self.name@, path: self.path@ }
    }
}

impl Clone for VisitEntry {
    fn clone(&self) -> (r: Self)
        ensures
            r@ == self@,
    {
        VisitEntry { path: self.path.clone(), last_access: self.last_access, visits: self.visits }
    }
}

impl Clone for DirEntry {
    fn clone(&self) -> (r: Self)
        ensures
            r@ == self@,
    {
        DirEntry {
            path: self.path.clone(),
            last_access: self.last_access,
            visits: self.visits,
            rank: self.rank,
        }
    }
}

impl Clone for Bookmark {
    fn clone(&self) -> (r: Self)
        ensures
            r@ == self@,
    {
        Bookmark { name: self.name.clone(), path: self.path.clone() }
    }
}

/// The views of a sequence of visit records.
pub open spec fn visit_views(items: Seq<VisitEntry>) -> Seq<VisitView> {
    items.map_values(|e: VisitEntry| e@)
}

/// The views of a sequence of ranked entries.
pub open spec fn entry_views(items: Seq<DirEntry>) -> Seq<EntryView> {
    items.map_values(|e: DirEntry| e@)
}

/// The views of a sequence of bookmarks.
pub open spec fn bookmark_views(items: Seq<Bookmark>) -> Seq<BookmarkView> {
    items.map_values(|b: Bookmark| b@)
}

impl DirEntry {
    /// The visit record ranked with the given key.
    pub fn ranked(visit: &VisitEntry, rank: u64) -> (r: DirEntry)
        ensures
            r@ == (EntryView {
                path: visit@.path,
                last_access: visit@.last_access,
                visits: visit@.visits,
                rank: rank as int,
            }),
    {
        DirEntry {
            path: visit.path.clone(),
            last_access: visit.last_access,
            visits: visit.visits,
            rank,
        }
    }
}

} // verus!
