//! The visit table as a mathematical object: what recording a visit, evicting
//! the oldest rows and purging paths do to a sequence of rows.
//!
//! The database keeps its rows in a vector and states its operations over the
//! functions defined here.

use vstd::prelude::*;
use crate::entry::{visit_views, VisitEntry, VisitView};
use crate::text::text_views;

verus! {

/// Some row holds this path.
pub open spec fn has_path(rows: Seq<VisitView>, path: Seq<char>) -> bool {
    exists|i: int| 0 <= i < rows.len() && (#[trigger] rows[i]).path == path
}

/// The position of a row that holds this path.
pub open spec fn position_of(rows: Seq<VisitView>, path: Seq<char>) -> int {
    choose|i: int| 0 <= i < rows.len() && (#[trigger] rows[i]).path == path
}

/// No two rows hold the same path.
pub open spec fn distinct_paths(rows: Seq<VisitView>) -> bool {
    forall|i: int, j: int|
        0 <= i < j < rows.len() ==> (#[trigger] rows[i]).path != (#[trigger] rows[j]).path
}

/// Every row has been visited at least once.
pub open spec fn all_visited(rows: Seq<VisitView>) -> bool {
    forall|i: int| 0 <= i < rows.len() ==> (#[trigger] rows[i]).visits >= 1
}

/// What the table holds at any time: one row for each path, each visited at
/// least once.
pub open spec fn valid_rows(rows: Seq<VisitView>) -> bool {
    distinct_paths(rows) && all_visited(rows)
}

/// A visit count raised by one; the largest count stays as it is.
pub open spec fn one_more(visits: int) -> int {
    if visits < u32::MAX {
        visits + 1
    } else {
        visits
    }
}

/// The table after a visit to `path` at time `now`: the row of that path with
/// its count raised and its time set, or a new row with count one at the end.
pub open spec fn recorded(rows: Seq<VisitView>, path: Seq<char>, now: int) -> Seq<VisitView> {
    if has_path(rows, path) {
        let i = position_of(rows, path);
        rows.update(i, VisitView { path: path, last_access: now, visits: one_more(rows[i].visits) })
    } else {
        rows.push(VisitView { path: path, last_access: now, visits: 1 })
    }
}

/// Among the first `n` rows, the position of the one visited longest ago; the
/// first of them if there are several.
pub open spec fn oldest_among(rows: Seq<VisitView>, n: nat) -> int
    decreases n,
{
    if n <= 1 {
        0
    } else {
        let best = oldest_among(rows, (n - 1) as nat);
        if rows[n - 1].last_access < rows[best].last_access {
            n - 1
        } else {
            best
        }
    }
}

/// The position of the row visited longest ago.
pub open spec fn oldest(rows: Seq<VisitView>) -> int {
    oldest_among(rows, rows.len())
}

/// The table after `excess` evictions, each of the row then visited longest
/// ago.
pub open spec fn evicted(rows: Seq<VisitView>, excess: nat) -> Seq<VisitView>
    decreases excess,
{
    if excess == 0 || rows.len() == 0 {
        rows
    } else {
        evicted(rows.remove(oldest(rows)), (excess - 1) as nat)
    }
}

/// The table cut down to at most `max` rows by evicting the oldest.
pub open spec fn bounded(rows: Seq<VisitView>, max: nat) -> Seq<VisitView> {
    if rows.len() > max {
        evicted(rows, (rows.len() - max) as nat)
    } else {
        rows
    }
}

/// The rows whose path is not among `paths`, in their order.
pub open spec fn without_paths(rows: Seq<VisitView>, paths: Seq<Seq<char>>) -> Seq<VisitView>
    decreases rows.len(),
{
    if rows.len() == 0 {
        rows
    } else {
        let rest = without_paths(rows.drop_last(), paths);
        if paths.contains(rows.last().path) {
            rest
        } else {
            rest.push(rows.last())
        }
    }
}

/// The paths of the rows that are not among `present`, in the rows' order.
pub open spec fn missing_paths(rows: Seq<VisitView>, present: Seq<Seq<char>>) -> Seq<Seq<char>>
    decreases rows.len(),
{
    if rows.len() == 0 {
        Seq::empty()
    } else {
        let rest = missing_paths(rows.drop_last(), present);
        if present.contains(rows.last().path) {
            rest
        } else {
            rest.push(rows.last().path)
        }
    }
}

/// The oldest row is no younger than any other, and older than all before it.
pub proof fn lemma_oldest_among(rows: Seq<VisitView>, n: nat)
    requires
        1 <= n <= rows.len(),
    ensures
        0 <= oldest_among(rows, n) < n,
        forall|i: int|
            0 <= i < n ==> rows[oldest_among(rows, n)].last_access <= (#[trigger] rows[i]).last_access,
        forall|i: int|
            0 <= i < oldest_among(rows, n) ==> rows[oldest_among(rows, n)].last_access < (
            #[trigger] rows[i]).last_access,
    decreases n,
{
    if n > 1 {
        lemma_oldest_among(rows, (n - 1) as nat);
    }
}

/// Recording a visit keeps the table valid.
pub proof fn lemma_recorded_valid(rows: Seq<VisitView>, path: Seq<char>, now: int)
    requires
        valid_rows(rows),
    ensures
        valid_rows(recorded(rows, path, now)),
{
    let after = recorded(rows, path, now);
    if has_path(rows, path) {
        let i = position_of(rows, path);
        assert forall|a: int, b: int| 0 <= a < b < after.len() implies (#[trigger] after[a]).path != (
        #[trigger] after[b]).path by {
            assert(after[a].path == rows[a].path);
            assert(after[b].path == rows[b].path);
        }
        assert forall|a: int| 0 <= a < after.len() implies (#[trigger] after[a]).visits >= 1 by {
            if a != i {
                assert(after[a] == rows[a]);
            }
        }
    } else {
        assert forall|a: int, b: int| 0 <= a < b < after.len() implies (#[trigger] after[a]).path != (
        #[trigger] after[b]).path by {
            assert(after[a] == rows[a]);
            if b < rows.len() {
                assert(after[b] == rows[b]);
            }
        }
        assert forall|a: int| 0 <= a < after.len() implies (#[trigger] after[a]).visits >= 1 by {
            if a < rows.len() {
                assert(after[a] == rows[a]);
            }
        }
    }
}

/// Taking a row out keeps the table valid.
pub proof fn lemma_remove_valid(rows: Seq<VisitView>, i: int)
    requires
        valid_rows(rows),
        0 <= i < rows.len(),
    ensures
        valid_rows(rows.remove(i)),
{
    let after = rows.remove(i);
    assert forall|a: int, b: int| 0 <= a < b < after.len() implies (#[trigger] after[a]).path != (
    #[trigger] after[b]).path by {
        let a0 = if a < i { a } else { a + 1 };
        let b0 = if b < i { b } else { b + 1 };
        assert(after[a] == rows[a0]);
        assert(after[b] == rows[b0]);
    }
    assert forall|a: int| 0 <= a < after.len() implies (#[trigger] after[a]).visits >= 1 by {
        let a0 = if a < i { a } else { a + 1 };
        assert(after[a] == rows[a0]);
    }
}

/// Records a visit to `path` at time `now`.
pub(crate) fn record(rows: &mut Vec<VisitEntry>, path: &str, now: i64)
    requires
        valid_rows(visit_views(old(rows)@)),
    ensures
        visit_views(final(rows)@) == recorded(visit_views(old(rows)@), path@, now as int),
        valid_rows(visit_views(final(rows)@)),
{
    let ghost before = visit_views(rows@);
    proof {
        lemma_recorded_valid(before, path@, now as int);
    }
    let wanted = path.to_owned();
    let mut i: usize = 0;
    while i < rows.len()
        invariant
            i <= rows.len(),
            visit_views(rows@) == before,
            before == visit_views(old(rows)@),
            valid_rows(before),
            wanted@ == path@,
            forall|t: int| 0 <= t < i ==> (#[trigger] before[t]).path != path@,
        decreases rows.len() - i,
    {
        assert(before[i as int] == rows@[i as int]@);
        if rows[i].path == wanted {
            let visits: u32 = rows[i].visits;
            let raised: u32 = if visits < u32::MAX { visits + 1 } else { visits };
            rows.set(i, VisitEntry { path: wanted, last_access: now, visits: raised });
            proof {
                assert(has_path(before, path@));
                let k = position_of(before, path@);
                if k < i {
                    assert(before[k].path != path@);
                } else if k > i {
                    assert(before[i as int].path != before[k].path);
                }
                assert(visit_views(rows@) =~= recorded(before, path@, now as int));
            }
            return ;
        }
        i += 1;
    }
    rows.push(VisitEntry { path: wanted, last_access: now, visits: 1 });
    assert(visit_views(rows@) =~= recorded(before, path@, now as int));
}

/// The position of the row visited longest ago.
fn oldest_of(rows: &Vec<VisitEntry>) -> (best: usize)
    requires
        rows@.len() > 0,
    ensures
        best == oldest(visit_views(rows@)),
        best < rows@.len(),
{
    let ghost views = visit_views(rows@);
    let mut best: usize = 0;
    let mut i: usize = 1;
    while i < rows.len()
        invariant
            1 <= i <= rows.len(),
            views == visit_views(rows@),
            best == oldest_among(views, i as nat),
            best < i,
        decreases rows.len() - i,
    {
        assert(views[i as int] == rows@[i as int]@);
        assert(views[best as int] == rows@[best as int]@);
        if rows[i].last_access < rows[best].last_access {
            best = i;
        }
        i += 1;
    }
    best
}

/// Evicts the oldest rows until at most `max` are left.
pub(crate) fn enforce_limit(rows: &mut Vec<VisitEntry>, max: usize)
    requires
        valid_rows(visit_views(old(rows)@)),
    ensures
        visit_views(final(rows)@) == bounded(visit_views(old(rows)@), max as nat),
        valid_rows(visit_views(final(rows)@)),
{
    let ghost before = visit_views(rows@);
    while rows.len() > max
        invariant
            valid_rows(visit_views(rows@)),
            bounded(visit_views(rows@), max as nat) == bounded(before, max as nat),
        decreases rows.len(),
    {
        let ghost now = visit_views(rows@);
        let i = oldest_of(rows);
        let _ = rows.remove(i);
        proof {
            lemma_remove_valid(now, i as int);
            assert(visit_views(rows@) =~= now.remove(i as int));
            assert(bounded(now, max as nat) == evicted(
                now.remove(i as int),
                (now.len() - max - 1) as nat,
            ));
        }
    }
}

/// Drops the rows whose path is among `paths`; says how many there were.
pub(crate) fn remove_paths(rows: &mut Vec<VisitEntry>, paths: &[String]) -> (count: usize)
    requires
        valid_rows(visit_views(old(rows)@)),
    ensures
        visit_views(final(rows)@) == without_paths(visit_views(old(rows)@), text_views(paths@)),
        valid_rows(visit_views(final(rows)@)),
        count == old(rows)@.len() - final(rows)@.len(),
{
    let ghost before = visit_views(rows@);
    let ghost listed = text_views(paths@);
    let mut kept: Vec<VisitEntry> = Vec::new();
    let mut count: usize = 0;
    let mut i: usize = 0;
    while i < rows.len()
        invariant
            i <= rows.len(),
            before == visit_views(rows@),
            listed == text_views(paths@),
            visit_views(kept@) =~= without_paths(before.take(i as int), listed),
            count + kept@.len() == i,
        decreases rows.len() - i,
    {
        assert(before.take(i + 1).drop_last() =~= before.take(i as int));
        assert(before[i as int] == rows@[i as int]@);
        if listed_path(paths, rows[i].path.as_str()) {
            count += 1;
        } else {
            kept.push(rows[i].clone());
        }
        i += 1;
    }
    assert(before.take(before.len() as int) =~= before);
    proof {
        lemma_without_paths_valid(before, listed);
    }
    *rows = kept;
    count
}

/// Whether `path` is among `paths`.
pub(crate) fn listed_path(paths: &[String], path: &str) -> (r: bool)
    ensures
        r == text_views(paths@).contains(path@),
{
    let wanted = path.to_owned();
    let mut k: usize = 0;
    while k < paths.len()
        invariant
            k <= paths.len(),
            wanted@ == path@,
            forall|t: int| 0 <= t < k ==> #[trigger] text_views(paths@)[t] != path@,
        decreases paths.len() - k,
    {
        assert(text_views(paths@)[k as int] == paths@[k as int]@);
        if paths[k] == wanted {
            return true;
        }
        k += 1;
    }
    false
}

/// Dropping rows keeps the table valid, and every row kept was there before.
pub proof fn lemma_without_paths_valid(rows: Seq<VisitView>, paths: Seq<Seq<char>>)
    requires
        valid_rows(rows),
    ensures
        valid_rows(without_paths(rows, paths)),
        without_paths(rows, paths).len() <= rows.len(),
        forall|t: int|
            0 <= t < without_paths(rows, paths).len() ==> has_path(
                rows,
                (#[trigger] without_paths(rows, paths)[t]).path,
            ) && !paths.contains(without_paths(rows, paths)[t].path),
    decreases rows.len(),
{
    if rows.len() > 0 {
        let front = rows.drop_last();
        assert forall|i: int, j: int| 0 <= i < j < front.len() implies (#[trigger] front[i]).path != (
        #[trigger] front[j]).path by {
            assert(front[i] == rows[i]);
            assert(front[j] == rows[j]);
        }
        assert forall|i: int| 0 <= i < front.len() implies (#[trigger] front[i]).visits >= 1 by {
            assert(front[i] == rows[i]);
        }
        lemma_without_paths_valid(front, paths);
        let rest = without_paths(front, paths);
        let all = without_paths(rows, paths);
        assert forall|t: int| 0 <= t < all.len() implies has_path(rows, (#[trigger] all[t]).path)
            && !paths.contains(all[t].path) by {
            if t < rest.len() {
                assert(all[t] == rest[t]);
                let s = choose|s: int| 0 <= s < front.len() && (#[trigger] front[s]).path == rest[t].path;
                assert(rows[s].path == all[t].path);
            } else {
                assert(all[t] == rows.last());
                assert(rows[rows.len() - 1].path == all[t].path);
            }
        }
        assert forall|i: int, j: int| 0 <= i < j < all.len() implies (#[trigger] all[i]).path != (
        #[trigger] all[j]).path by {
            assert(all[i] == rest[i]);
            if j < rest.len() {
                assert(all[j] == rest[j]);
            } else {
                let s = choose|s: int| 0 <= s < front.len() && (#[trigger] front[s]).path == rest[i].path;
                assert(rows[s].path != rows[rows.len() - 1].path);
            }
        }
        assert forall|i: int| 0 <= i < all.len() implies (#[trigger] all[i]).visits >= 1 by {
            if i < rest.len() {
                assert(all[i] == rest[i]);
            }
        }
    }
}

/// After a visit the table has exactly one row for the path: it carries the
/// time of the visit and a count of one, or one more than before. All other
/// rows are as they were, and the table has grown by a row only if the path
/// is new.
pub proof fn lemma_recorded_row(rows: Seq<VisitView>, path: Seq<char>, now: int)
    requires
        valid_rows(rows),
    ensures
        valid_rows(recorded(rows, path, now)),
        has_path(recorded(rows, path, now), path),
        recorded(rows, path, now)[position_of(recorded(rows, path, now), path)].last_access == now,
        recorded(rows, path, now)[position_of(recorded(rows, path, now), path)].visits == (if has_path(
            rows,
            path,
        ) {
            one_more(rows[position_of(rows, path)].visits)
        } else {
            1
        }),
        recorded(rows, path, now).len() == (if has_path(rows, path) {
            rows.len()
        } else {
            rows.len() + 1
        }),
        forall|i: int|
            0 <= i < rows.len() && rows[i].path != path ==> #[trigger] recorded(rows, path, now)[i]
                == rows[i],
{
    lemma_recorded_valid(rows, path, now);
    let after = recorded(rows, path, now);
    if has_path(rows, path) {
        let i = position_of(rows, path);
        assert(after[i].path == path);
        let j = position_of(after, path);
        if j < i {
            assert(after[j].path != after[i].path);
        } else if i < j {
            assert(after[i].path != after[j].path);
        }
    } else {
        let i = rows.len() as int;
        assert(after[i].path == path);
        let j = position_of(after, path);
        if j < i {
            assert(after[j] == rows[j]);
        }
    }
}

/// Two visits to a path that was not there make one row, with a count of two
/// and the time of the second visit.
pub proof fn lemma_recorded_twice(rows: Seq<VisitView>, path: Seq<char>, first: int, second: int)
    requires
        valid_rows(rows),
        !has_path(rows, path),
    ensures
        recorded(recorded(rows, path, first), path, second) == rows.push(
            VisitView { path: path, last_access: second, visits: 2 },
        ),
        valid_rows(recorded(recorded(rows, path, first), path, second)),
{
    let once = recorded(rows, path, first);
    lemma_recorded_row(rows, path, first);
    lemma_recorded_row(once, path, second);
    let i = position_of(once, path);
    if i < rows.len() {
        assert(once[i] == rows[i]);
    }
    assert(recorded(once, path, second) =~= rows.push(
        VisitView { path: path, last_access: second, visits: 2 },
    ));
}

/// Eviction takes exactly `excess` rows away, keeps the others as they were
/// and in their order, and takes none that was visited later than one it
/// keeps.
pub proof fn lemma_evicted(rows: Seq<VisitView>, excess: nat)
    requires
        valid_rows(rows),
        excess <= rows.len(),
    ensures
        evicted(rows, excess).len() == rows.len() - excess,
        valid_rows(evicted(rows, excess)),
        forall|t: int|
            0 <= t < evicted(rows, excess).len() ==> has_path(
                rows,
                (#[trigger] evicted(rows, excess)[t]).path,
            ) && rows[position_of(rows, evicted(rows, excess)[t].path)] == evicted(rows, excess)[t],
        forall|a: int, b: int|
            0 <= a < b < evicted(rows, excess).len() ==> position_of(
                rows,
                (#[trigger] evicted(rows, excess)[a]).path,
            ) < position_of(rows, (#[trigger] evicted(rows, excess)[b]).path),
        forall|s: int, t: int|
            0 <= s < rows.len() && 0 <= t < evicted(rows, excess).len() && !has_path(
                evicted(rows, excess),
                (#[trigger] rows[s]).path,
            ) ==> rows[s].last_access <= (#[trigger] evicted(rows, excess)[t]).last_access,
    decreases excess,
{
    let kept = evicted(rows, excess);
    if excess == 0 || rows.len() == 0 {
        assert forall|t: int| 0 <= t < kept.len() implies has_path(rows, (#[trigger] kept[t]).path)
            && rows[position_of(rows, kept[t].path)] == kept[t] by {
            lemma_position(rows, t);
        }
        assert forall|a: int, b: int| 0 <= a < b < kept.len() implies position_of(
            rows,
            (#[trigger] kept[a]).path,
        ) < position_of(rows, (#[trigger] kept[b]).path) by {
            lemma_position(rows, a);
            lemma_position(rows, b);
        }
        assert forall|s: int, t: int|
            0 <= s < rows.len() && 0 <= t < kept.len() && !has_path(kept, (#[trigger] rows[s]).path)
            implies rows[s].last_access <= (#[trigger] kept[t]).last_access by {
            assert(kept[s].path == rows[s].path);
        }
    } else {
        let o = oldest(rows);
        lemma_oldest_among(rows, rows.len());
        let rest = rows.remove(o);
        lemma_remove_valid(rows, o);
        lemma_evicted(rest, (excess - 1) as nat);
        assert(kept == evicted(rest, (excess - 1) as nat));
        assert forall|t: int| 0 <= t < kept.len() implies has_path(rows, (#[trigger] kept[t]).path)
            && rows[position_of(rows, kept[t].path)] == kept[t] && position_of(rows, kept[t].path)
            == (if position_of(rest, kept[t].path) < o {
            position_of(rest, kept[t].path)
        } else {
            position_of(rest, kept[t].path) + 1
        }) by {
            let r = position_of(rest, kept[t].path);
            let r0 = if r < o { r } else { r + 1 };
            assert(rest[r] == rows[r0]);
            lemma_position(rows, r0);
        }
        assert forall|a: int, b: int| 0 <= a < b < kept.len() implies position_of(
            rows,
            (#[trigger] kept[a]).path,
        ) < position_of(rows, (#[trigger] kept[b]).path) by {
            assert(position_of(rest, kept[a].path) < position_of(rest, kept[b].path));
        }
        assert forall|s: int, t: int|
            0 <= s < rows.len() && 0 <= t < kept.len() && !has_path(kept, (#[trigger] rows[s]).path)
            implies rows[s].last_access <= (#[trigger] kept[t]).last_access by {
            let r = position_of(rows, kept[t].path);
            if s == o {
                assert(rows[o].last_access <= rows[r].last_access);
            } else {
                let s0 = if s < o { s } else { s - 1 };
                assert(rest[s0] == rows[s]);
            }
        }
    }
}

/// In a valid table the position of a row's path is the row's own.
pub proof fn lemma_position(rows: Seq<VisitView>, i: int)
    requires
        distinct_paths(rows),
        0 <= i < rows.len(),
    ensures
        has_path(rows, rows[i].path),
        position_of(rows, rows[i].path) == i,
{
    let j = position_of(rows, rows[i].path);
    if j < i {
        assert(rows[j].path != rows[i].path);
    } else if i < j {
        assert(rows[i].path != rows[j].path);
    }
}

/// A table cut down to `max` rows has `max` rows if it had more, and is
/// unchanged if it had not.
pub proof fn lemma_bounded(rows: Seq<VisitView>, max: nat)
    requires
        valid_rows(rows),
    ensures
        bounded(rows, max).len() == (if rows.len() > max {
            max
        } else {
            rows.len()
        }),
        rows.len() <= max ==> bounded(rows, max) == rows,
        valid_rows(bounded(rows, max)),
{
    if rows.len() > max {
        lemma_evicted(rows, (rows.len() - max) as nat);
    }
}

/// The missing paths are exactly the stored paths that are not among
/// `present`.
pub proof fn lemma_missing_paths(rows: Seq<VisitView>, present: Seq<Seq<char>>)
    ensures
        forall|p: Seq<char>|
            #![trigger missing_paths(rows, present).contains(p)]
            #![trigger has_path(rows, p)]
            missing_paths(rows, present).contains(p) <==> has_path(rows, p) && !present.contains(p),
    decreases rows.len(),
{
    let all = missing_paths(rows, present);
    if rows.len() == 0 {
        assert forall|p: Seq<char>|
            #![trigger all.contains(p)]
            #![trigger has_path(rows, p)]
            all.contains(p) <==> has_path(rows, p) && !present.contains(p) by {}
    } else {
        let front = rows.drop_last();
        let rest = missing_paths(front, present);
        lemma_missing_paths(front, present);
        let last = rows.last().path;
        assert forall|p: Seq<char>|
            #![trigger all.contains(p)]
            #![trigger has_path(rows, p)]
            all.contains(p) <==> has_path(rows, p) && !present.contains(p) by {
            if all.contains(p) {
                let t = choose|t: int| 0 <= t < all.len() && all[t] == p;
                if t < rest.len() {
                    assert(rest[t] == p);
                    assert(rest.contains(p));
                    let s = choose|s: int| 0 <= s < front.len() && (#[trigger] front[s]).path == p;
                    assert(rows[s].path == p);
                } else {
                    assert(p == last);
                    assert(rows[rows.len() - 1].path == p);
                }
            }
            if has_path(rows, p) && !present.contains(p) {
                let s = choose|s: int| 0 <= s < rows.len() && (#[trigger] rows[s]).path == p;
                if s < front.len() {
                    assert(front[s].path == p);
                    assert(has_path(front, p));
                    assert(rest.contains(p));
                    let t = choose|t: int| 0 <= t < rest.len() && rest[t] == p;
                    assert(all[t] == p);
                } else {
                    assert(all[all.len() - 1] == p);
                }
            }
        }
    }
}

/// Purging keeps exactly the rows whose path is not listed, as they were.
pub proof fn lemma_without_paths(rows: Seq<VisitView>, paths: Seq<Seq<char>>)
    requires
        valid_rows(rows),
    ensures
        forall|i: int|
            0 <= i < rows.len() ==> (has_path(without_paths(rows, paths), (#[trigger] rows[i]).path)
                <==> !paths.contains(rows[i].path)),
        forall|t: int|
            0 <= t < without_paths(rows, paths).len() ==> has_path(
                rows,
                (#[trigger] without_paths(rows, paths)[t]).path,
            ) && rows[position_of(rows, without_paths(rows, paths)[t].path)] == without_paths(
                rows,
                paths,
            )[t],
    decreases rows.len(),
{
    let kept = without_paths(rows, paths);
    if rows.len() > 0 {
        let front = rows.drop_last();
        let n = front.len() as int;
        lemma_remove_valid(rows, n);
        assert(front =~= rows.remove(n));
        lemma_without_paths(front, paths);
        lemma_without_paths_valid(front, paths);
        let rest = without_paths(front, paths);
        assert forall|t: int| 0 <= t < kept.len() implies has_path(rows, (#[trigger] kept[t]).path)
            && rows[position_of(rows, kept[t].path)] == kept[t] by {
            if t < rest.len() {
                assert(kept[t] == rest[t]);
                let s = position_of(front, rest[t].path);
                assert(front[s] == rows[s]);
                lemma_position(rows, s);
            } else {
                lemma_position(rows, n);
            }
        }
        assert forall|i: int| 0 <= i < rows.len() implies (has_path(kept, (#[trigger] rows[i]).path)
            <==> !paths.contains(rows[i].path)) by {
            if i < n {
                assert(front[i] == rows[i]);
                if has_path(rest, front[i].path) {
                    let t = choose|t: int| 0 <= t < rest.len() && (#[trigger] rest[t]).path
                        == rows[i].path;
                    assert(kept[t] == rest[t]);
                }
                if has_path(kept, rows[i].path) {
                    let t = choose|t: int| 0 <= t < kept.len() && (#[trigger] kept[t]).path
                        == rows[i].path;
                    if t < rest.len() {
                        assert(rest[t] == kept[t]);
                    } else {
                        assert(rows[i].path != rows[n].path);
                    }
                }
            } else {
                if !paths.contains(rows[i].path) {
                    assert(kept[kept.len() - 1] == rows[i]);
                }
                if has_path(kept, rows[i].path) {
                    let t = choose|t: int| 0 <= t < kept.len() && (#[trigger] kept[t]).path
                        == rows[i].path;
                    if t < rest.len() {
                        assert(rest[t] == kept[t]);
                        let s = position_of(front, rest[t].path);
                        assert(rows[s].path != rows[n].path);
                    }
                }
            }
        }
    }
}

} // verus!
