//! The index itself: the visit table, the bookmark table and the settings,
//! with the operations that record visits, answer queries and keep the
//! tables in bounds.
//!
//! A `Database` lives in memory. It is built empty or from rows read
//! elsewhere, and hands its rows out again to be stored.

use vstd::prelude::*;
use crate::bookmarks::{as_map, lookup, put, sorted_by_name, take_out};
use crate::config::Config;
use crate::entry::{
    bookmark_views,
    entry_views,
    visit_views,
    Bookmark,
    BookmarkView,
    DirEntry,
    Stats,
    VisitEntry,
    VisitView,
};
use crate::matching::{candidate_views, find_matches, query_result, Candidate};
use crate::order::{
    descending_order,
    in_range,
    key_view,
    position_view,
    sort_descending,
    top,
};
use crate::text::text_views;
use crate::store::{
    bounded,
    enforce_limit,
    listed_path,
    missing_paths,
    record,
    recorded,
    remove_paths,
    valid_rows,
    without_paths,
};

verus! {

/// The number of entries in each list of the statistics.
pub const STATS_LIMIT: usize = 10;

/// Why the statistics could not be given.
#[derive(Clone, Copy, Debug, PartialEq, Eq, Structural)]
pub enum StatsError {
    /// There are more rows than the count can hold.
    TooManyEntries,
    /// The visits add up to more than the total can hold.
    TooManyVisits,
}

/// What a query resolves to.
#[derive(Debug)]
pub enum Resolution {
    /// The single keyword is the name of a bookmark: its path.
    Bookmark(String),
    /// What the match pipeline found, best first.
    Matches(Vec<DirEntry>),
}

/// The sum of the visit counts of all rows.
pub open spec fn total_visits(rows: Seq<VisitView>) -> int
    decreases rows.len(),
{
    if rows.len() == 0 {
        0
    } else {
        total_visits(rows.drop_last()) + rows.last().visits
    }
}

/// The visit counts of the rows, as sort keys.
pub open spec fn visit_keys(rows: Seq<VisitView>) -> Seq<int> {
    Seq::new(rows.len(), |i: int| rows[i].visits)
}

/// The access times of the rows, as sort keys.
pub open spec fn access_keys(rows: Seq<VisitView>) -> Seq<int> {
    Seq::new(rows.len(), |i: int| rows[i].last_access)
}

/// The rows at `positions`.
pub open spec fn rows_at(rows: Seq<VisitView>, positions: Seq<int>) -> Seq<VisitView> {
    Seq::new(positions.len(), |j: int| rows[positions[j]])
}

/// The rows ordered by visit count, most visited first, rows with equal
/// counts in table order.
pub open spec fn by_visits(rows: Seq<VisitView>) -> Seq<VisitView> {
    rows_at(rows, descending_order(visit_keys(rows)))
}

/// The `limit` most visited rows, most visited first.
pub open spec fn most_visited(rows: Seq<VisitView>, limit: nat) -> Seq<VisitView> {
    rows_at(rows, top(descending_order(visit_keys(rows)), limit))
}

/// The `limit` most recently visited rows, latest first.
pub open spec fn recently_visited(rows: Seq<VisitView>, limit: nat) -> Seq<VisitView> {
    rows_at(rows, top(descending_order(access_keys(rows)), limit))
}

/// The map that a list of bookmarks makes when later rows replace earlier
/// ones of the same name.
pub open spec fn map_of(rows: Seq<BookmarkView>) -> Map<Seq<char>, Seq<char>>
    decreases rows.len(),
{
    if rows.len() == 0 {
        Map::empty()
    } else {
        map_of(rows.drop_last()).insert(rows.last().name, rows.last().path)
    }
}

/// The sum of the visits of a part of the rows is no more than that of all.
proof fn lemma_total_visits_grows(rows: Seq<VisitView>, n: int)
    requires
        0 <= n <= rows.len(),
        forall|i: int| 0 <= i < rows.len() ==> (#[trigger] rows[i]).visits >= 0,
    ensures
        0 <= total_visits(rows.take(n)) <= total_visits(rows),
    decreases rows.len() - n,
{
    if n == rows.len() {
        assert(rows.take(n) =~= rows);
        lemma_total_visits_nonnegative(rows);
    } else {
        lemma_total_visits_grows(rows, n + 1);
        assert(rows.take(n + 1).drop_last() =~= rows.take(n));
        lemma_total_visits_nonnegative(rows.take(n));
    }
}

proof fn lemma_total_visits_nonnegative(rows: Seq<VisitView>)
    requires
        forall|i: int| 0 <= i < rows.len() ==> (#[trigger] rows[i]).visits >= 0,
    ensures
        0 <= total_visits(rows),
    decreases rows.len(),
{
    if rows.len() > 0 {
        lemma_total_visits_nonnegative(rows.drop_last());
    }
}

/// Whether the rows are valid: no path twice, no row without a visit.
fn check_rows(rows: &Vec<VisitEntry>) -> (r: bool)
    ensures
        r == valid_rows(visit_views(rows@)),
{
    let ghost views = visit_views(rows@);
    let mut i: usize = 0;
    while i < rows.len()
        invariant
            i <= rows.len(),
            views == visit_views(rows@),
            valid_rows(views.take(i as int)),
        decreases rows.len() - i,
    {
        assert(views[i as int] == rows@[i as int]@);
        if rows[i].visits == 0 {
            return false;
        }
        let mut j: usize = 0;
        while j < i
            invariant
                j <= i < rows.len(),
                views == visit_views(rows@),
                forall|t: int| 0 <= t < j ==> (#[trigger] views[t]).path != views[i as int].path,
            decreases i - j,
        {
            assert(views[j as int] == rows@[j as int]@);
            assert(views[i as int] == rows@[i as int]@);
            if rows[j].path == rows[i].path {
                return false;
            }
            j += 1;
        }
        proof {
            let grown = views.take(i + 1);
            assert forall|a: int, b: int| 0 <= a < b < grown.len() implies (#[trigger] grown[a]).path
                != (#[trigger] grown[b]).path by {
                if b < i {
                    assert(views.take(i as int)[a].path != views.take(i as int)[b].path);
                }
            }
            assert forall|a: int| 0 <= a < grown.len() implies (#[trigger] grown[a]).visits >= 1 by {
                if a < i {
                    assert(views.take(i as int)[a].visits >= 1);
                }
            }
        }
        i += 1;
    }
    assert(views.take(views.len() as int) =~= views);
    true
}

/// The rows at the first `limit` of `positions`.
fn take_rows(rows: &Vec<VisitEntry>, positions: &Vec<usize>, limit: usize) -> (r: Vec<VisitEntry>)
    requires
        in_range(positions@, rows@.len()),
    ensures
        visit_views(r@) == rows_at(visit_views(rows@), top(position_view(positions@), limit as nat)),
{
    let n: usize = if positions.len() <= limit { positions.len() } else { limit };
    let mut r: Vec<VisitEntry> = Vec::new();
    let mut j: usize = 0;
    while j < n
        invariant
            j <= n <= positions.len(),
            in_range(positions@, rows@.len()),
            r@.len() == j,
            forall|t: int| 0 <= t < j ==> (#[trigger] r@[t])@ == rows@[positions@[t] as int]@,
        decreases n - j,
    {
        r.push(rows[positions[j]].clone());
        j += 1;
    }
    assert(visit_views(r@) =~= rows_at(
        visit_views(rows@),
        top(position_view(positions@), limit as nat),
    ));
    r
}

/// The positions of the rows, most visited first.
fn order_by_visits(rows: &Vec<VisitEntry>) -> (order: Vec<usize>)
    ensures
        position_view(order@) == descending_order(visit_keys(visit_views(rows@))),
        in_range(order@, rows@.len()),
        order@.len() == rows@.len(),
{
    let mut keys: Vec<i128> = Vec::new();
    let mut i: usize = 0;
    while i < rows.len()
        invariant
            i <= rows.len(),
            keys@.len() == i,
            forall|t: int| 0 <= t < i ==> #[trigger] keys@[t] == rows@[t].visits,
        decreases rows.len() - i,
    {
        keys.push(rows[i].visits as i128);
        i += 1;
    }
    assert(key_view(keys@) =~= visit_keys(visit_views(rows@)));
    let order = sort_descending(&keys);
    proof {
        assert(position_view(order@).len() == key_view(keys@).len());
        assert forall|j: int| 0 <= j < order@.len() implies #[trigger] order@[j] < rows@.len() by {
            assert(0 <= position_view(order@)[j] < keys@.len());
        }
    }
    order
}

/// The positions of the rows, latest visit first.
fn order_by_access(rows: &Vec<VisitEntry>) -> (order: Vec<usize>)
    ensures
        position_view(order@) == descending_order(access_keys(visit_views(rows@))),
        in_range(order@, rows@.len()),
        order@.len() == rows@.len(),
{
    let mut keys: Vec<i128> = Vec::new();
    let mut i: usize = 0;
    while i < rows.len()
        invariant
            i <= rows.len(),
            keys@.len() == i,
            forall|t: int| 0 <= t < i ==> #[trigger] keys@[t] == rows@[t].last_access,
        decreases rows.len() - i,
    {
        keys.push(rows[i].last_access as i128);
        i += 1;
    }
    assert(key_view(keys@) =~= access_keys(visit_views(rows@)));
    let order = sort_descending(&keys);
    proof {
        assert(position_view(order@).len() == key_view(keys@).len());
        assert forall|j: int| 0 <= j < order@.len() implies #[trigger] order@[j] < rows@.len() by {
            assert(0 <= position_view(order@)[j] < keys@.len());
        }
    }
    order
}

/// The index: visit table, bookmark table and settings.
pub struct Database {
    visits: Vec<VisitEntry>,
    bookmarks: Vec<Bookmark>,
    config: Config,
}

impl Database {
    #[verifier::type_invariant]
    spec fn well_formed(&self) -> bool {
        &&& valid_rows(visit_views(self.visits@))
        &&& sorted_by_name(bookmark_views(self.bookmarks@))
    }

    /// The rows of the visit table, in table order.
    pub closed spec fn rows(&self) -> Seq<VisitView> {
        visit_views(self.visits@)
    }

    /// The bookmarks, from name to path.
    pub closed spec fn bookmarks(&self) -> Map<Seq<char>, Seq<char>> {
        as_map(bookmark_views(self.bookmarks@))
    }

    /// The settings that the index was built with.
    pub closed spec fn settings(&self) -> Config {
        self.config
    }

    /// An empty index with the given settings.
    pub fn new(config: Config) -> (db: Database)
        ensures
            db.rows() == Seq::<VisitView>::empty(),
            db.bookmarks() == Map::<Seq<char>, Seq<char>>::empty(),
            db.settings() == config,
    {
        let db = Database { visits: Vec::new(), bookmarks: Vec::new(), config };
        assert(db.rows() =~= Seq::<VisitView>::empty());
        assert(db.bookmarks() =~= Map::<Seq<char>, Seq<char>>::empty());
        db
    }

    /// An index holding the given rows and bookmarks.
    ///
    /// The rows are accepted if no path occurs twice and every row has at
    /// least one visit; else there is no index. Of two bookmarks with the
    /// same name the later one stays.
    pub fn restore(
        config: Config,
        visits: Vec<VisitEntry>,
        bookmarks: Vec<Bookmark>,
    ) -> (r: Option<Database>)
        ensures
            r is Some <==> valid_rows(visit_views(visits@)),
            match r {
                Some(db) => db.rows() == visit_views(visits@) && db.bookmarks() == map_of(
                    bookmark_views(bookmarks@),
                ) && db.settings() == config,
                None => true,
            },
    {
        if !check_rows(&visits) {
            return None;
        }
        let ghost given = bookmark_views(bookmarks@);
        let mut table: Vec<Bookmark> = Vec::new();
        assert(as_map(bookmark_views(table@)) =~= map_of(given.take(0)));
        let mut i: usize = 0;
        while i < bookmarks.len()
            invariant
                i <= bookmarks.len(),
                given == bookmark_views(bookmarks@),
                sorted_by_name(bookmark_views(table@)),
                as_map(bookmark_views(table@)) == map_of(given.take(i as int)),
            decreases bookmarks.len() - i,
        {
            assert(given[i as int] == bookmarks@[i as int]@);
            assert(given.take(i + 1).drop_last() =~= given.take(i as int));
            put(&mut table, bookmarks[i].name.as_str(), bookmarks[i].path.as_str());
            i += 1;
        }
        assert(given.take(given.len() as int) =~= given);
        Some(Database { visits, bookmarks: table, config })
    }

    /// The settings.
    pub fn config(&self) -> (r: &Config)
        ensures
            *r == self.settings(),
    {
        &self.config
    }

    /// The rows of the visit table, in table order. No path occurs twice and
    /// every row has at least one visit.
    pub fn visits(&self) -> (r: &Vec<VisitEntry>)
        ensures
            visit_views(r@) == self.rows(),
            valid_rows(self.rows()),
    {
        proof {
            use_type_invariant(self);
        }
        &self.visits
    }

    /// Records a visit to `path` at time `now`, then evicts the rows visited
    /// longest ago if the table has outgrown `max_entries`. A path that the
    /// ignore filter excludes is not recorded: nothing changes.
    pub fn add(&mut self, path: &str, now: i64)
        ensures
            final(self).settings() == old(self).settings(),
            final(self).bookmarks() == old(self).bookmarks(),
            final(self).rows() == if old(self).settings().ignores(path@) {
                old(self).rows()
            } else {
                bounded(
                    recorded(old(self).rows(), path@, now as int),
                    old(self).settings().max_entries as nat,
                )
            },
    {
        proof {
            use_type_invariant(&*self);
        }
        if self.config.is_ignored(path) {
            return ;
        }
        let mut rows: Vec<VisitEntry> = Vec::new();
        std::mem::swap(&mut rows, &mut self.visits);
        record(&mut rows, path, now);
        enforce_limit(&mut rows, self.config.max_entries);
        self.visits = rows;
    }

    /// Evicts the rows visited longest ago until at most `max_entries` are
    /// left.
    pub fn maintain_size_limit(&mut self)
        ensures
            final(self).settings() == old(self).settings(),
            final(self).bookmarks() == old(self).bookmarks(),
            final(self).rows() == bounded(old(self).rows(), old(self).settings().max_entries as nat),
    {
        proof {
            use_type_invariant(&*self);
        }
        let mut rows: Vec<VisitEntry> = Vec::new();
        std::mem::swap(&mut rows, &mut self.visits);
        enforce_limit(&mut rows, self.config.max_entries);
        self.visits = rows;
    }

    /// The stored paths that are not among `present`: given the stored paths
    /// that still exist, those that are stale.
    pub fn find_stale(&self, present: &[String]) -> (stale: Vec<String>)
        ensures
            text_views(stale@) == missing_paths(self.rows(), text_views(present@)),
    {
        let ghost rows = visit_views(self.visits@);
        let ghost listed = text_views(present@);
        let mut stale: Vec<String> = Vec::new();
        let mut i: usize = 0;
        while i < self.visits.len()
            invariant
                i <= self.visits.len(),
                rows == visit_views(self.visits@),
                listed == text_views(present@),
                text_views(stale@) =~= missing_paths(rows.take(i as int), listed),
            decreases self.visits.len() - i,
        {
            assert(rows.take(i + 1).drop_last() =~= rows.take(i as int));
            assert(rows[i as int] == self.visits@[i as int]@);
            if !listed_path(present, self.visits[i].path.as_str()) {
                stale.push(self.visits[i].path.clone());
            }
            i += 1;
        }
        assert(rows.take(rows.len() as int) =~= rows);
        stale
    }

    /// Deletes the rows whose path is among `paths` and says how many rows
    /// that were. Paths that are not stored count for nothing.
    pub fn purge(&mut self, paths: &[String]) -> (count: usize)
        ensures
            final(self).settings() == old(self).settings(),
            final(self).bookmarks() == old(self).bookmarks(),
            final(self).rows() == without_paths(old(self).rows(), text_views(paths@)),
            count == old(self).rows().len() - final(self).rows().len(),
            paths@.len() == 0 ==> count == 0 && final(self).rows() == old(self).rows(),
    {
        proof {
            use_type_invariant(&*self);
            if paths@.len() == 0 {
                lemma_without_nothing(visit_views(self.visits@), text_views(paths@));
            }
        }
        if paths.len() == 0 {
            return 0;
        }
        let mut rows: Vec<VisitEntry> = Vec::new();
        std::mem::swap(&mut rows, &mut self.visits);
        let count = remove_paths(&mut rows, paths);
        self.visits = rows;
        count
    }

    /// Deletes the rows whose path is not among `present`: the stale ones.
    /// Says how many rows that were.
    pub fn auto_clean(&mut self, present: &[String]) -> (count: usize)
        ensures
            final(self).settings() == old(self).settings(),
            final(self).bookmarks() == old(self).bookmarks(),
            final(self).rows() == without_paths(
                old(self).rows(),
                missing_paths(old(self).rows(), text_views(present@)),
            ),
            count == old(self).rows().len() - final(self).rows().len(),
    {
        let stale = self.find_stale(present);
        self.purge(stale.as_slice())
    }

    /// Gives `name` the path `path`; a bookmark of that name is replaced.
    pub fn add_bookmark(&mut self, name: &str, path: &str)
        ensures
            final(self).settings() == old(self).settings(),
            final(self).rows() == old(self).rows(),
            final(self).bookmarks() == old(self).bookmarks().insert(name@, path@),
    {
        proof {
            use_type_invariant(&*self);
        }
        let mut table: Vec<Bookmark> = Vec::new();
        std::mem::swap(&mut table, &mut self.bookmarks);
        put(&mut table, name, path);
        self.bookmarks = table;
    }

    /// Deletes the bookmark `name`; says whether there was one.
    pub fn remove_bookmark(&mut self, name: &str) -> (r: bool)
        ensures
            final(self).settings() == old(self).settings(),
            final(self).rows() == old(self).rows(),
            r == old(self).bookmarks().contains_key(name@),
            final(self).bookmarks() == old(self).bookmarks().remove(name@),
    {
        proof {
            use_type_invariant(&*self);
        }
        let mut table: Vec<Bookmark> = Vec::new();
        std::mem::swap(&mut table, &mut self.bookmarks);
        let r = take_out(&mut table, name);
        self.bookmarks = table;
        r
    }

    /// All bookmarks, by name in increasing order.
    pub fn get_bookmarks(&self) -> (r: Vec<Bookmark>)
        ensures
            sorted_by_name(bookmark_views(r@)),
            as_map(bookmark_views(r@)) == self.bookmarks(),
    {
        proof {
            use_type_invariant(self);
        }
        let mut r: Vec<Bookmark> = Vec::new();
        let mut i: usize = 0;
        while i < self.bookmarks.len()
            invariant
                i <= self.bookmarks.len(),
                bookmark_views(r@) =~= bookmark_views(self.bookmarks@).take(i as int),
            decreases self.bookmarks.len() - i,
        {
            let ghost before = bookmark_views(r@);
            r.push(self.bookmarks[i].clone());
            assert(bookmark_views(r@) =~= before.push(self.bookmarks@[i as int]@));
            i += 1;
        }
        assert(bookmark_views(r@) =~= bookmark_views(self.bookmarks@));
        r
    }

    /// The path of the bookmark `name`, if there is one.
    pub fn get_bookmark(&self, name: &str) -> (r: Option<String>)
        ensures
            match r {
                Some(path) => self.bookmarks().contains_key(name@) && self.bookmarks()[name@]
                    == path@,
                None => !self.bookmarks().contains_key(name@),
            },
    {
        proof {
            use_type_invariant(self);
        }
        lookup(&self.bookmarks, name)
    }

    /// The rows as a query reads them: most visited first, rows with equal
    /// counts in table order.
    pub fn snapshot(&self) -> (r: Vec<VisitEntry>)
        ensures
            visit_views(r@) == by_visits(self.rows()),
            r@.len() == self.rows().len(),
    {
        let order = order_by_visits(&self.visits);
        let r = take_rows(&self.visits, &order, order.len());
        assert(r@.len() == visit_views(r@).len());
        r
    }

    /// Answers a query over `candidates`: the rows of `snapshot`, each with
    /// its rank and, where the fuzzy matcher scored it, its fuzzy key. See
    /// `find_matches`. The fuzzy stage is tried if the settings enable it.
    pub fn query(&self, keywords: &[String], candidates: &Vec<Candidate>) -> (r: Vec<DirEntry>)
        ensures
            entry_views(r@) == query_result(
                candidate_views(candidates@),
                text_views(keywords@),
                self.settings().enable_fuzzy_matching,
            ),
    {
        find_matches(candidates, keywords, self.config.enable_fuzzy_matching)
    }

    /// Resolves a query: a single keyword that is the name of a bookmark
    /// gives that bookmark's path; anything else goes to the match pipeline.
    pub fn resolve(&self, keywords: &[String], candidates: &Vec<Candidate>) -> (r: Resolution)
        ensures
            match r {
                Resolution::Bookmark(path) => keywords@.len() == 1 && self.bookmarks().contains_key(
                    keywords@[0]@,
                ) && path@ == self.bookmarks()[keywords@[0]@],
                Resolution::Matches(entries) => !(keywords@.len() == 1
                    && self.bookmarks().contains_key(keywords@[0]@)) && entry_views(entries@)
                    == query_result(
                    candidate_views(candidates@),
                    text_views(keywords@),
                    self.settings().enable_fuzzy_matching,
                ),
            },
    {
        if keywords.len() == 1 {
            match self.get_bookmark(keywords[0].as_str()) {
                Some(path) => {
                    return Resolution::Bookmark(path);
                },
                None => {},
            }
        }
        Resolution::Matches(self.query(keywords, candidates))
    }

    /// Figures on the index: the number of rows, the sum of their visits,
    /// the `STATS_LIMIT` most visited rows and the `STATS_LIMIT` most recently
    /// visited. Fails where a figure does not fit its field.
    pub fn get_stats(&self) -> (r: Result<Stats, StatsError>)
        ensures
            match r {
                Ok(stats) => stats.total_entries == self.rows().len() && stats.total_visits
                    == total_visits(self.rows()) && visit_views(stats.most_visited@)
                    == most_visited(self.rows(), STATS_LIMIT as nat) && visit_views(
                    stats.recently_visited@,
                ) == recently_visited(self.rows(), STATS_LIMIT as nat),
                Err(StatsError::TooManyEntries) => self.rows().len() > u32::MAX,
                Err(StatsError::TooManyVisits) => self.rows().len() <= u32::MAX && total_visits(
                    self.rows(),
                ) > u32::MAX,
            },
    {
        proof {
            use_type_invariant(self);
        }
        let ghost rows = visit_views(self.visits@);
        if self.visits.len() > u32::MAX as usize {
            return Err(StatsError::TooManyEntries);
        }
        let mut sum: u64 = 0;
        let mut i: usize = 0;
        while i < self.visits.len()
            invariant
                i <= self.visits.len(),
                rows == visit_views(self.visits@),
                rows.len() <= u32::MAX,
                valid_rows(rows),
                sum == total_visits(rows.take(i as int)),
                sum <= u32::MAX,
            decreases self.visits.len() - i,
        {
            assert(rows.take(i + 1).drop_last() =~= rows.take(i as int));
            assert(rows[i as int] == self.visits@[i as int]@);
            sum = sum + self.visits[i].visits as u64;
            assert(sum == total_visits(rows.take(i + 1)));
            if sum > u32::MAX as u64 {
                proof {
                    lemma_total_visits_grows(rows, i + 1);
                }
                return Err(StatsError::TooManyVisits);
            }
            i += 1;
        }
        assert(rows.take(rows.len() as int) =~= rows);
        let by_count = order_by_visits(&self.visits);
        let by_time = order_by_access(&self.visits);
        Ok(
            Stats {
                total_entries: self.visits.len() as u32,
                total_visits: sum as u32,
                most_visited: take_rows(&self.visits, &by_count, STATS_LIMIT),
                recently_visited: take_rows(&self.visits, &by_time, STATS_LIMIT),
            },
        )
    }
}

/// With no paths listed, no row is dropped.
proof fn lemma_without_nothing(rows: Seq<VisitView>, paths: Seq<Seq<char>>)
    requires
        paths.len() == 0,
    ensures
        without_paths(rows, paths) == rows,
    decreases rows.len(),
{
    if rows.len() > 0 {
        lemma_without_nothing(rows.drop_last(), paths);
        assert(rows.drop_last().push(rows.last()) =~= rows);
    }
}

} // verus!
