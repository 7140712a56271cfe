//! The bookmark table: names in strictly increasing order, each with its
//! path, read as a map from name to path.

use vstd::prelude::*;
use crate::entry::{bookmark_views, Bookmark, BookmarkView};
use crate::text::{compare, lemma_lex_less_irreflexive, lemma_lex_less_transitive, lex_less, Precedence};

verus! {

/// The names increase strictly along the rows; so no name occurs twice.
pub open spec fn sorted_by_name(rows: Seq<BookmarkView>) -> bool {
    forall|i: int, j: int|
        0 <= i < j < rows.len() ==> lex_less((#[trigger] rows[i]).name, (#[trigger] rows[j]).name)
}

/// Some row has this name.
pub open spec fn has_name(rows: Seq<BookmarkView>, name: Seq<char>) -> bool {
    exists|i: int| 0 <= i < rows.len() && (#[trigger] rows[i]).name == name
}

/// The position of a row with this name.
pub open spec fn position_of_name(rows: Seq<BookmarkView>, name: Seq<char>) -> int {
    choose|i: int| 0 <= i < rows.len() && (#[trigger] rows[i]).name == name
}

/// The rows as a map from name to path.
pub open spec fn as_map(rows: Seq<BookmarkView>) -> Map<Seq<char>, Seq<char>> {
    Map::new(
        |name: Seq<char>| has_name(rows, name),
        |name: Seq<char>| rows[position_of_name(rows, name)].path,
    )
}

/// In a sorted table each row is the one that the map holds for its name.
pub proof fn lemma_row_in_map(rows: Seq<BookmarkView>, i: int)
    requires
        sorted_by_name(rows),
        0 <= i < rows.len(),
    ensures
        as_map(rows).contains_key(rows[i].name),
        as_map(rows)[rows[i].name] == rows[i].path,
        position_of_name(rows, rows[i].name) == i,
{
    let name = rows[i].name;
    assert(has_name(rows, name));
    let j = position_of_name(rows, name);
    lemma_lex_less_irreflexive(name);
    if j < i {
        assert(lex_less(rows[j].name, rows[i].name));
    } else if i < j {
        assert(lex_less(rows[i].name, rows[j].name));
    }
}

/// Where `name` belongs in a sorted table: the position of the first row
/// whose name is not before it, and whether that row has the name itself.
fn slot_of(rows: &Vec<Bookmark>, name: &str) -> (r: (usize, bool))
    requires
        sorted_by_name(bookmark_views(rows@)),
    ensures
        r.0 <= rows@.len(),
        forall|t: int| 0 <= t < r.0 ==> lex_less((#[trigger] bookmark_views(rows@)[t]).name, name@),
        r.1 ==> r.0 < rows@.len() && bookmark_views(rows@)[r.0 as int].name == name@,
        !r.1 ==> !has_name(bookmark_views(rows@), name@),
        !r.1 && r.0 < rows@.len() ==> lex_less(name@, bookmark_views(rows@)[r.0 as int].name),
{
    let ghost views = bookmark_views(rows@);
    let mut i: usize = 0;
    while i < rows.len()
        invariant
            i <= rows.len(),
            views == bookmark_views(rows@),
            sorted_by_name(views),
            forall|t: int| 0 <= t < i ==> lex_less((#[trigger] views[t]).name, name@),
        decreases rows.len() - i,
    {
        assert(views[i as int] == rows@[i as int]@);
        match compare(rows[i].name.as_str(), name) {
            Precedence::Before => {},
            Precedence::Same => {
                return (i, true);
            },
            Precedence::After => {
                proof {
                    lemma_absent(views, name@, i as int);
                }
                return (i, false);
            },
        }
        i += 1;
    }
    proof {
        lemma_absent(views, name@, i as int);
    }
    (i, false)
}

/// A name that falls strictly between the rows before `p` and the rows from
/// `p` on is not in the table.
proof fn lemma_absent(rows: Seq<BookmarkView>, name: Seq<char>, p: int)
    requires
        sorted_by_name(rows),
        0 <= p <= rows.len(),
        forall|t: int| 0 <= t < p ==> lex_less((#[trigger] rows[t]).name, name),
        p < rows.len() ==> lex_less(name, rows[p].name),
    ensures
        !has_name(rows, name),
        forall|t: int| p <= t < rows.len() ==> lex_less(name, (#[trigger] rows[t]).name),
{
    assert forall|t: int| p <= t < rows.len() implies lex_less(name, (#[trigger] rows[t]).name) by {
        if t > p {
            assert(lex_less(rows[p].name, rows[t].name));
            lemma_lex_less_transitive(name, rows[p].name, rows[t].name);
        }
    }
    lemma_lex_less_irreflexive(name);
    if has_name(rows, name) {
        let i = position_of_name(rows, name);
        if i < p {
            assert(lex_less(rows[i].name, name));
        } else {
            assert(lex_less(name, rows[i].name));
        }
    }
}

/// Sets the path of `name`, adding the name if it is new.
pub(crate) fn put(rows: &mut Vec<Bookmark>, name: &str, path: &str)
    requires
        sorted_by_name(bookmark_views(old(rows)@)),
    ensures
        sorted_by_name(bookmark_views(final(rows)@)),
        as_map(bookmark_views(final(rows)@)) == as_map(bookmark_views(old(rows)@)).insert(
            name@,
            path@,
        ),
{
    let ghost before = bookmark_views(rows@);
    let (p, found) = slot_of(rows, name);
    let row = Bookmark { name: name.to_owned(), path: path.to_owned() };
    if found {
        rows.set(p, row);
        let ghost after = bookmark_views(rows@);
        proof {
            assert(after =~= before.update(p as int, BookmarkView { name: name@, path: path@ }));
            assert forall|i: int, j: int| 0 <= i < j < after.len() implies lex_less(
                (#[trigger] after[i]).name,
                (#[trigger] after[j]).name,
            ) by {
                assert(after[i].name == before[i].name);
                assert(after[j].name == before[j].name);
            }
            assert forall|k: Seq<char>| has_name(after, k) <==> k == name@ || has_name(
                before,
                k,
            ) by {
                if has_name(after, k) {
                    let i = position_of_name(after, k);
                    assert(before[i].name == k);
                }
                if has_name(before, k) {
                    let i = position_of_name(before, k);
                    assert(after[i].name == k);
                }
                if k == name@ {
                    assert(after[p as int].name == k);
                }
            }
            assert forall|k: Seq<char>| has_name(after, k) implies as_map(after)[k] == as_map(
                before,
            ).insert(name@, path@)[k] by {
                let i = position_of_name(after, k);
                lemma_row_in_map(after, i);
                if k != name@ {
                    assert(before[i] == after[i]);
                    lemma_row_in_map(before, i);
                } else {
                    lemma_row_in_map(after, p as int);
                }
            }
            assert(as_map(after) =~= as_map(before).insert(name@, path@));
        }
    } else {
        proof {
            lemma_absent(before, name@, p as int);
        }
        rows.insert(p, row);
        let ghost after = bookmark_views(rows@);
        proof {
            assert(after =~= before.insert(p as int, BookmarkView { name: name@, path: path@ }));
            assert forall|i: int, j: int| 0 <= i < j < after.len() implies lex_less(
                (#[trigger] after[i]).name,
                (#[trigger] after[j]).name,
            ) by {
                let i0 = if i < p { i } else { i - 1 };
                let j0 = if j < p { j } else { j - 1 };
                if i != p {
                    assert(after[i] == before[i0]);
                }
                if j != p {
                    assert(after[j] == before[j0]);
                }
            }
            assert forall|k: Seq<char>| has_name(after, k) <==> k == name@ || has_name(
                before,
                k,
            ) by {
                if has_name(after, k) {
                    let i = position_of_name(after, k);
                    if i < p {
                        assert(before[i].name == k);
                    } else if i > p {
                        assert(before[i - 1].name == k);
                    }
                }
                if has_name(before, k) {
                    let i = position_of_name(before, k);
                    if i < p {
                        assert(after[i].name == k);
                    } else {
                        assert(after[i + 1].name == k);
                    }
                }
                if k == name@ {
                    assert(after[p as int].name == k);
                }
            }
            assert forall|k: Seq<char>| has_name(after, k) implies as_map(after)[k] == as_map(
                before,
            ).insert(name@, path@)[k] by {
                let i = position_of_name(after, k);
                lemma_row_in_map(after, i);
                if i < p {
                    assert(before[i] == after[i]);
                    lemma_row_in_map(before, i);
                } else if i > p {
                    assert(before[i - 1] == after[i]);
                    lemma_row_in_map(before, i - 1);
                }
            }
            assert(as_map(after) =~= as_map(before).insert(name@, path@));
        }
    }
}

/// Takes `name` out of the table; says whether it was there.
pub(crate) fn take_out(rows: &mut Vec<Bookmark>, name: &str) -> (r: bool)
    requires
        sorted_by_name(bookmark_views(old(rows)@)),
    ensures
        sorted_by_name(bookmark_views(final(rows)@)),
        r == as_map(bookmark_views(old(rows)@)).contains_key(name@),
        as_map(bookmark_views(final(rows)@)) == as_map(bookmark_views(old(rows)@)).remove(name@),
{
    let ghost before = bookmark_views(rows@);
    let (p, found) = slot_of(rows, name);
    if !found {
        assert(as_map(before) =~= as_map(before).remove(name@));
        return false;
    }
    let _ = rows.remove(p);
    let ghost after = bookmark_views(rows@);
    proof {
        assert(after =~= before.remove(p as int));
        assert(has_name(before, name@));
        assert forall|i: int, j: int| 0 <= i < j < after.len() implies lex_less(
            (#[trigger] after[i]).name,
            (#[trigger] after[j]).name,
        ) by {
            let i0 = if i < p { i } else { i + 1 };
            let j0 = if j < p { j } else { j + 1 };
            assert(after[i] == before[i0]);
            assert(after[j] == before[j0]);
        }
        lemma_row_in_map(before, p as int);
        assert forall|k: Seq<char>| has_name(after, k) <==> k != name@ && has_name(
            before,
            k,
        ) by {
            if has_name(after, k) {
                let i = position_of_name(after, k);
                let i0 = if i < p { i } else { i + 1 };
                assert(before[i0].name == k);
                lemma_row_in_map(before, i0);
            }
            if k != name@ && has_name(before, k) {
                let i = position_of_name(before, k);
                if i < p {
                    assert(after[i].name == k);
                } else {
                    assert(after[i - 1].name == k);
                }
            }
        }
        assert forall|k: Seq<char>| has_name(after, k) implies as_map(after)[k] == as_map(
            before,
        ).remove(name@)[k] by {
            let i = position_of_name(after, k);
            lemma_row_in_map(after, i);
            let i0 = if i < p { i } else { i + 1 };
            assert(before[i0] == after[i]);
            lemma_row_in_map(before, i0);
        }
        assert(as_map(after) =~= as_map(before).remove(name@));
    }
    true
}

/// The path of `name`, if the table has it.
pub(crate) fn lookup(rows: &Vec<Bookmark>, name: &str) -> (r: Option<String>)
    requires
        sorted_by_name(bookmark_views(rows@)),
    ensures
        match r {
            Some(path) => as_map(bookmark_views(rows@)).contains_key(name@) && as_map(
                bookmark_views(rows@),
            )[name@] == path@,
            None => !as_map(bookmark_views(rows@)).contains_key(name@),
        },
{
    let (p, found) = slot_of(rows, name);
    if found {
        proof {
            lemma_row_in_map(bookmark_views(rows@), p as int);
        }
        Some(rows[p].path.clone())
    } else {
        None
    }
}

/// Of two paths given to one name in turn, the later one is the one that
/// stays, and the first leaves no trace.
pub proof fn lemma_last_write_wins(
    table: Map<Seq<char>, Seq<char>>,
    name: Seq<char>,
    first: Seq<char>,
    second: Seq<char>,
)
    ensures
        table.insert(name, first).insert(name, second).contains_key(name),
        table.insert(name, first).insert(name, second)[name] == second,
        table.insert(name, first).insert(name, second) == table.insert(name, second),
{
    assert(table.insert(name, first).insert(name, second) =~= table.insert(name, second));
}

/// A name that was removed is gone, whatever the table held for it, and the
/// other names keep their paths.
pub proof fn lemma_removed_is_gone(table: Map<Seq<char>, Seq<char>>, name: Seq<char>)
    ensures
        !table.remove(name).contains_key(name),
        forall|other: Seq<char>|
            other != name && table.contains_key(other) ==> #[trigger] table.remove(
                name,
            ).contains_key(other) && table.remove(name)[other] == table[other],
{
}

} // verus!
