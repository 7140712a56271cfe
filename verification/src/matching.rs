//! The staged match pipeline: from a query and a ranked snapshot of the
//! index to an ordered list of directories.
//!
//! Four stages are tried in turn, each only if the one before it found
//! nothing: exact match, directory-name match, fuzzy match, and substring
//! match. Whatever a stage finds is ordered by key, best first, and cut to
//! `MAX_RESULTS` entries.
//!
//! Everything is stated over positions in the snapshot: a stage is a list of
//! positions, ordering rearranges that list, and only the last step reads the
//! entries at the positions that are left.

use vstd::prelude::*;
use vstd::string::*;
use crate::entry::{entry_views, DirEntry, EntryView};
use crate::order::{
    arrange,
    arranged,
    descending_order,
    in_range,
    key_view,
    lemma_descending_order,
    lemma_positions_where,
    position_view,
    positions_where,
    select,
    sort_descending,
    top,
};
use crate::paths::{ancestors, ancestors_of, has_name, is_named};
use crate::text::{
    contains_ignoring_case,
    ends_with,
    first_chars,
    has_substring,
    join_words,
    joined,
    lowercase,
    same_text,
    starts_with,
    text_views,
};

verus! {

/// The largest number of entries a query returns.
pub const MAX_RESULTS: usize = 20;

/// An entry of the snapshot as the pipeline sees it: the ranked entry and,
/// where the fuzzy matcher accepted its path, the combined key of fuzzy score
/// and rank by which the fuzzy stage orders it.
#[derive(Debug)]
pub struct Candidate {
    pub entry: DirEntry,
    pub fuzzy: Option<u64>,
}

/// What a `Candidate` stands for.
pub struct CandidateView {
    pub entry: EntryView,
    pub fuzzy: Option<int>,
}

impl View for Candidate {
    type V = CandidateView;

    open spec fn view(&self) -> CandidateView {
        CandidateView {
            entry: self.entry@,
            fuzzy: match self.fuzzy {
                Some(k) => Some(k as int),
                None => None,
            },
        }
    }
}

/// The views of a sequence of candidates.
pub open spec fn candidate_views(items: Seq<Candidate>) -> Seq<CandidateView> {
    items.map_values(|c: Candidate| c@)
}

/// The ranks of the candidates at `positions`.
pub open spec fn rank_keys(c: Seq<CandidateView>, positions: Seq<int>) -> Seq<int> {
    Seq::new(positions.len(), |j: int| c[positions[j]].entry.rank)
}

/// The fuzzy key of a candidate; one that the fuzzy matcher did not accept
/// has the lowest.
pub open spec fn fuzzy_key(c: CandidateView) -> int {
    match c.fuzzy {
        Some(k) => k,
        None => 0,
    }
}

/// The fuzzy keys of the candidates at `positions`.
pub open spec fn fuzzy_keys(c: Seq<CandidateView>, positions: Seq<int>) -> Seq<int> {
    Seq::new(positions.len(), |j: int| fuzzy_key(c[positions[j]]))
}

/// `positions` ordered by rank, highest first, equal ranks in the order given.
pub open spec fn by_rank(c: Seq<CandidateView>, positions: Seq<int>) -> Seq<int> {
    arranged(positions, descending_order(rank_keys(c, positions)))
}

/// `positions` ordered by fuzzy key, highest first, equal keys in the order
/// given.
pub open spec fn by_fuzzy(c: Seq<CandidateView>, positions: Seq<int>) -> Seq<int> {
    arranged(positions, descending_order(fuzzy_keys(c, positions)))
}

/// The entries of the candidates at `positions`.
pub open spec fn entries_at(c: Seq<CandidateView>, positions: Seq<int>) -> Seq<EntryView> {
    Seq::new(positions.len(), |j: int| c[positions[j]].entry)
}

/// The ranks of the candidates at `positions`, as sort keys.
fn rank_keys_of(c: &Vec<Candidate>, positions: &Vec<usize>) -> (keys: Vec<i128>)
    requires
        in_range(positions@, c@.len()),
    ensures
        key_view(keys@) == rank_keys(candidate_views(c@), position_view(positions@)),
{
    let mut keys: Vec<i128> = Vec::new();
    let mut j: usize = 0;
    while j < positions.len()
        invariant
            j <= positions.len(),
            in_range(positions@, c@.len()),
            keys@.len() == j,
            forall|t: int| 0 <= t < j ==> #[trigger] keys@[t] == c@[positions@[t] as int].entry.rank,
        decreases positions.len() - j,
    {
        let rank: u64 = c[positions[j]].entry.rank;
        keys.push(rank as i128);
        j += 1;
    }
    assert(key_view(keys@) =~= rank_keys(candidate_views(c@), position_view(positions@)));
    keys
}

/// The fuzzy keys of the candidates at `positions`, as sort keys.
fn fuzzy_keys_of(c: &Vec<Candidate>, positions: &Vec<usize>) -> (keys: Vec<i128>)
    requires
        in_range(positions@, c@.len()),
    ensures
        key_view(keys@) == fuzzy_keys(candidate_views(c@), position_view(positions@)),
{
    let mut keys: Vec<i128> = Vec::new();
    let mut j: usize = 0;
    while j < positions.len()
        invariant
            j <= positions.len(),
            in_range(positions@, c@.len()),
            keys@.len() == j,
            forall|t: int|
                0 <= t < j ==> #[trigger] keys@[t] == fuzzy_key(c@[positions@[t] as int]@),
        decreases positions.len() - j,
    {
        let key: u64 = match c[positions[j]].fuzzy {
            Some(k) => k,
            None => 0,
        };
        keys.push(key as i128);
        j += 1;
    }
    assert(key_view(keys@) =~= fuzzy_keys(candidate_views(c@), position_view(positions@)));
    keys
}

/// `positions` ordered by rank, highest first.
fn order_by_rank(c: &Vec<Candidate>, positions: &Vec<usize>) -> (r: Vec<usize>)
    requires
        in_range(positions@, c@.len()),
    ensures
        position_view(r@) == by_rank(candidate_views(c@), position_view(positions@)),
        in_range(r@, c@.len()),
        r@.len() == positions@.len(),
{
    let keys = rank_keys_of(c, positions);
    let order = sort_descending(&keys);
    proof {
        assert(position_view(order@).len() == key_view(keys@).len());
        assert forall|j: int| 0 <= j < order@.len() implies #[trigger] order@[j]
            < positions@.len() by {
            assert(0 <= position_view(order@)[j] < keys@.len());
        }
    }
    arrange(positions, &order)
}

/// `positions` ordered by fuzzy key, highest first.
fn order_by_fuzzy(c: &Vec<Candidate>, positions: &Vec<usize>) -> (r: Vec<usize>)
    requires
        in_range(positions@, c@.len()),
    ensures
        position_view(r@) == by_fuzzy(candidate_views(c@), position_view(positions@)),
        in_range(r@, c@.len()),
        r@.len() == positions@.len(),
{
    let keys = fuzzy_keys_of(c, positions);
    let order = sort_descending(&keys);
    proof {
        assert(position_view(order@).len() == key_view(keys@).len());
        assert forall|j: int| 0 <= j < order@.len() implies #[trigger] order@[j]
            < positions@.len() by {
            assert(0 <= position_view(order@)[j] < keys@.len());
        }
    }
    arrange(positions, &order)
}

/// The entries at the first `limit` of `positions`.
fn take_entries(c: &Vec<Candidate>, positions: &Vec<usize>, limit: usize) -> (r: Vec<DirEntry>)
    requires
        in_range(positions@, c@.len()),
    ensures
        entry_views(r@) == entries_at(
            candidate_views(c@),
            top(position_view(positions@), limit as nat),
        ),
        r@.len() <= limit,
{
    let n: usize = if positions.len() <= limit { positions.len() } else { limit };
    let mut r: Vec<DirEntry> = Vec::new();
    let mut j: usize = 0;
    while j < n
        invariant
            j <= n <= positions.len(),
            in_range(positions@, c@.len()),
            r@.len() == j,
            forall|t: int| 0 <= t < j ==> (#[trigger] r@[t])@ == c@[positions@[t] as int]@.entry,
        decreases n - j,
    {
        r.push(c[positions[j]].entry.clone());
        j += 1;
    }
    assert(entry_views(r@) =~= entries_at(
        candidate_views(c@),
        top(position_view(positions@), limit as nat),
    ));
    r
}

/// Stage one: the path is the query itself, or its final segment is.
pub open spec fn is_exact_match(path: Seq<char>, query: Seq<char>) -> bool {
    path == query || (seq!['/'] + query).is_suffix_of(path)
}

/// For each candidate, whether its path matches the query exactly.
pub open spec fn exact_flags(c: Seq<CandidateView>, query: Seq<char>) -> Seq<bool> {
    Seq::new(c.len(), |i: int| is_exact_match(c[i].entry.path, query))
}

/// Stage one: the positions of the candidates whose path matches the query
/// exactly.
pub open spec fn exact_positions(c: Seq<CandidateView>, query: Seq<char>) -> Seq<int> {
    positions_where(exact_flags(c, query))
}

/// For each candidate, whether the fuzzy matcher accepted it.
pub open spec fn fuzzy_flags(c: Seq<CandidateView>) -> Seq<bool> {
    Seq::new(c.len(), |i: int| c[i].fuzzy is Some)
}

/// Stage four: the query occurs in the path, both folded to lowercase.
pub open spec fn is_substring_match(path: Seq<char>, query: Seq<char>) -> bool {
    has_substring(lowercase(path), lowercase(query))
}

/// For each candidate, whether the query occurs in its path, case folded.
pub open spec fn substring_flags(c: Seq<CandidateView>, query: Seq<char>) -> Seq<bool> {
    Seq::new(c.len(), |i: int| is_substring_match(c[i].entry.path, query))
}

/// `acc` with `item` added at the end, unless it is there already.
pub open spec fn with_new(acc: Seq<Seq<char>>, item: Seq<char>) -> Seq<Seq<char>> {
    if acc.contains(item) {
        acc
    } else {
        acc.push(item)
    }
}

/// `acc` with those of the first `k` paths of `chain` added, in order, whose
/// final segment is the query and which are not there yet.
pub open spec fn named_in_chain(
    acc: Seq<Seq<char>>,
    chain: Seq<Seq<char>>,
    query: Seq<char>,
    k: nat,
) -> Seq<Seq<char>>
    decreases k,
{
    if k == 0 {
        acc
    } else {
        let before = named_in_chain(acc, chain, query, (k - 1) as nat);
        if is_named(chain[k - 1], query) {
            with_new(before, chain[k - 1])
        } else {
            before
        }
    }
}

/// The distinct directories, among the ancestors of the first `n` candidates
/// (each path counting among its own ancestors), whose final segment is the
/// query: in the order in which they are first met.
pub open spec fn matching_dirs(c: Seq<CandidateView>, query: Seq<char>, n: nat) -> Seq<Seq<char>>
    decreases n,
{
    if n == 0 {
        Seq::empty()
    } else {
        let chain = ancestors(c[n - 1].entry.path);
        named_in_chain(matching_dirs(c, query, (n - 1) as nat), chain, query, chain.len())
    }
}

/// The first position among the first `n` whose path starts with `dir`.
pub open spec fn first_under(c: Seq<CandidateView>, dir: Seq<char>, n: nat) -> Option<int>
    decreases n,
{
    if n == 0 {
        None
    } else {
        match first_under(c, dir, (n - 1) as nat) {
            Some(i) => Some(i),
            None => if dir.is_prefix_of(c[n - 1].entry.path) {
                Some(n - 1)
            } else {
                None
            },
        }
    }
}

/// For each of the first `k` directories that has one, the first candidate
/// whose path starts with it.
pub open spec fn representatives(c: Seq<CandidateView>, dirs: Seq<Seq<char>>, k: nat) -> Seq<int>
    decreases k,
{
    if k == 0 {
        Seq::empty()
    } else {
        let before = representatives(c, dirs, (k - 1) as nat);
        match first_under(c, dirs[k - 1], c.len()) {
            Some(i) => before.push(i),
            None => before,
        }
    }
}

/// Stage two: one representative for each directory named like the query.
pub open spec fn directory_positions(c: Seq<CandidateView>, query: Seq<char>) -> Seq<int> {
    let dirs = matching_dirs(c, query, c.len());
    representatives(c, dirs, dirs.len())
}

/// The positions that the stages select for a query, best first.
pub open spec fn selected(
    c: Seq<CandidateView>,
    query: Seq<char>,
    fuzzy_enabled: bool,
) -> Seq<int> {
    let exact = exact_positions(c, query);
    let dirs = directory_positions(c, query);
    let fuzzy = positions_where(fuzzy_flags(c));
    if exact.len() > 0 {
        by_rank(c, exact)
    } else if dirs.len() > 0 {
        by_rank(c, dirs)
    } else if fuzzy_enabled && fuzzy.len() > 0 {
        by_fuzzy(c, fuzzy)
    } else {
        by_rank(c, positions_where(substring_flags(c, query)))
    }
}

/// What a query returns: nothing without keywords; else the entries that the
/// stages select for the keywords joined by spaces, cut to `MAX_RESULTS`.
pub open spec fn query_result(
    c: Seq<CandidateView>,
    keywords: Seq<Seq<char>>,
    fuzzy_enabled: bool,
) -> Seq<EntryView> {
    if keywords.len() == 0 {
        Seq::empty()
    } else {
        entries_at(
            c,
            top(selected(c, joined(keywords), fuzzy_enabled), MAX_RESULTS as nat),
        )
    }
}

/// For each candidate, whether its path matches the query exactly.
fn exact_flags_of(c: &Vec<Candidate>, query: &str) -> (flags: Vec<bool>)
    ensures
        flags@ == exact_flags(candidate_views(c@), query@),
{
    let mut suffix = String::from_str("/");
    suffix.append(query);
    proof {
        reveal_strlit("/");
        assert(suffix@ =~= seq!['/'] + query@);
    }
    let mut flags: Vec<bool> = Vec::new();
    let mut i: usize = 0;
    while i < c.len()
        invariant
            i <= c.len(),
            suffix@ == seq!['/'] + query@,
            flags@.len() == i,
            forall|t: int|
                0 <= t < i ==> #[trigger] flags@[t] == is_exact_match(c@[t]@.entry.path, query@),
        decreases c.len() - i,
    {
        let path = c[i].entry.path.as_str();
        let hit = same_text(path, query) || ends_with(path, suffix.as_str());
        flags.push(hit);
        i += 1;
    }
    assert(flags@ =~= exact_flags(candidate_views(c@), query@));
    flags
}

/// For each candidate, whether the fuzzy matcher accepted it.
fn fuzzy_flags_of(c: &Vec<Candidate>) -> (flags: Vec<bool>)
    ensures
        flags@ == fuzzy_flags(candidate_views(c@)),
{
    let mut flags: Vec<bool> = Vec::new();
    let mut i: usize = 0;
    while i < c.len()
        invariant
            i <= c.len(),
            flags@.len() == i,
            forall|t: int| 0 <= t < i ==> #[trigger] flags@[t] == (c@[t]@.fuzzy is Some),
        decreases c.len() - i,
    {
        flags.push(c[i].fuzzy.is_some());
        i += 1;
    }
    assert(flags@ =~= fuzzy_flags(candidate_views(c@)));
    flags
}

/// For each candidate, whether the query occurs in its path, case folded.
fn substring_flags_of(c: &Vec<Candidate>, query: &str) -> (flags: Vec<bool>)
    ensures
        flags@ == substring_flags(candidate_views(c@), query@),
{
    let mut flags: Vec<bool> = Vec::new();
    let mut i: usize = 0;
    while i < c.len()
        invariant
            i <= c.len(),
            flags@.len() == i,
            forall|t: int|
                0 <= t < i ==> #[trigger] flags@[t] == is_substring_match(
                    c@[t]@.entry.path,
                    query@,
                ),
        decreases c.len() - i,
    {
        flags.push(contains_ignoring_case(c[i].entry.path.as_str(), query));
        i += 1;
    }
    assert(flags@ =~= substring_flags(candidate_views(c@), query@));
    flags
}

/// Adds `item` to `acc` unless it is there already.
fn push_new(acc: &mut Vec<String>, item: &String)
    ensures
        text_views(final(acc)@) == with_new(text_views(old(acc)@), item@),
{
    let ghost before = text_views(acc@);
    let mut i: usize = 0;
    while i < acc.len()
        invariant
            i <= acc.len(),
            text_views(acc@) == before,
            forall|t: int| 0 <= t < i ==> #[trigger] before[t] != item@,
        decreases acc.len() - i,
    {
        assert(before[i as int] == acc@[i as int]@);
        if *item == acc[i] {
            assert(before.contains(item@));
            return ;
        }
        i += 1;
    }
    acc.push(item.clone());
    assert(text_views(acc@) =~= before.push(item@));
}

/// The distinct directories named like the query among the ancestors of the
/// candidates' paths.
fn matching_dirs_of(c: &Vec<Candidate>, query: &str) -> (dirs: Vec<String>)
    ensures
        text_views(dirs@) == matching_dirs(candidate_views(c@), query@, c@.len()),
{
    let ghost cv = candidate_views(c@);
    let mut dirs: Vec<String> = Vec::new();
    let mut i: usize = 0;
    while i < c.len()
        invariant
            i <= c.len(),
            cv == candidate_views(c@),
            text_views(dirs@) =~= matching_dirs(cv, query@, i as nat),
        decreases c.len() - i,
    {
        let chain = ancestors_of(c[i].entry.path.as_str());
        let ghost start = text_views(dirs@);
        let ghost chain_view = text_views(chain@);
        assert(chain_view == ancestors(cv[i as int].entry.path));
        let mut k: usize = 0;
        while k < chain.len()
            invariant
                k <= chain.len(),
                chain_view == text_views(chain@),
                text_views(dirs@) == named_in_chain(start, chain_view, query@, k as nat),
            decreases chain.len() - k,
        {
            assert(chain_view[k as int] == chain@[k as int]@);
            if has_name(chain[k].as_str(), query) {
                push_new(&mut dirs, &chain[k]);
            }
            k += 1;
        }
        i += 1;
    }
    dirs
}

/// The first candidate whose path starts with `dir`.
fn first_under_of(c: &Vec<Candidate>, dir: &str) -> (r: Option<usize>)
    ensures
        match r {
            Some(i) => i < c@.len() && first_under(candidate_views(c@), dir@, c@.len()) == Some(
                i as int,
            ),
            None => first_under(candidate_views(c@), dir@, c@.len()) is None,
        },
{
    let ghost cv = candidate_views(c@);
    let mut i: usize = 0;
    while i < c.len()
        invariant
            i <= c.len(),
            cv == candidate_views(c@),
            first_under(cv, dir@, i as nat) is None,
        decreases c.len() - i,
    {
        if starts_with(c[i].entry.path.as_str(), dir) {
            proof {
                lemma_first_under_stays(cv, dir@, (i + 1) as nat, c@.len());
            }
            return Some(i);
        }
        i += 1;
    }
    None
}

/// Once a position is found, looking further does not change it.
proof fn lemma_first_under_stays(c: Seq<CandidateView>, dir: Seq<char>, m: nat, n: nat)
    requires
        m <= n,
        first_under(c, dir, m) is Some,
    ensures
        first_under(c, dir, n) == first_under(c, dir, m),
    decreases n,
{
    if m < n {
        lemma_first_under_stays(c, dir, m, (n - 1) as nat);
    }
}

/// For each directory that has one, the first candidate under it.
fn representatives_of(c: &Vec<Candidate>, dirs: &Vec<String>) -> (r: Vec<usize>)
    ensures
        position_view(r@) == representatives(
            candidate_views(c@),
            text_views(dirs@),
            dirs@.len(),
        ),
        in_range(r@, c@.len()),
{
    let ghost cv = candidate_views(c@);
    let ghost dv = text_views(dirs@);
    let mut r: Vec<usize> = Vec::new();
    let mut k: usize = 0;
    while k < dirs.len()
        invariant
            k <= dirs.len(),
            cv == candidate_views(c@),
            dv == text_views(dirs@),
            position_view(r@) =~= representatives(cv, dv, k as nat),
            in_range(r@, c@.len()),
        decreases dirs.len() - k,
    {
        assert(dv[k as int] == dirs@[k as int]@);
        match first_under_of(c, dirs[k].as_str()) {
            Some(i) => {
                r.push(i);
            },
            None => {},
        }
        k += 1;
    }
    r
}

/// Answers a query over a ranked snapshot of the index.
///
/// The keywords are joined by single spaces into the query. The stages are
/// tried in turn (exact match, directory name, fuzzy if `fuzzy_enabled`,
/// substring) and the first that finds anything decides the result, which is
/// ordered best first and cut to `MAX_RESULTS` entries. Without keywords the
/// result is empty.
pub fn find_matches(
    c: &Vec<Candidate>,
    keywords: &[String],
    fuzzy_enabled: bool,
) -> (r: Vec<DirEntry>)
    ensures
        entry_views(r@) == query_result(candidate_views(c@), text_views(keywords@), fuzzy_enabled),
        r@.len() <= MAX_RESULTS,
        keywords@.len() == 0 ==> r@.len() == 0,
        keywords@.len() > 0 && exact_positions(
            candidate_views(c@),
            joined(text_views(keywords@)),
        ).len() > 0 ==> entry_views(r@) == entries_at(
            candidate_views(c@),
            top(
                by_rank(
                    candidate_views(c@),
                    exact_positions(candidate_views(c@), joined(text_views(keywords@))),
                ),
                MAX_RESULTS as nat,
            ),
        ),
{
    if keywords.len() == 0 {
        let r: Vec<DirEntry> = Vec::new();
        assert(entry_views(r@) =~= Seq::<EntryView>::empty());
        return r;
    }
    let query = join_words(keywords);
    let q = query.as_str();
    let exact = select(&exact_flags_of(c, q));
    if exact.len() > 0 {
        let ordered = order_by_rank(c, &exact);
        return take_entries(c, &ordered, MAX_RESULTS);
    }
    let dirs = matching_dirs_of(c, q);
    let reps = representatives_of(c, &dirs);
    if reps.len() > 0 {
        let ordered = order_by_rank(c, &reps);
        return take_entries(c, &ordered, MAX_RESULTS);
    }
    if fuzzy_enabled {
        let fuzzy = select(&fuzzy_flags_of(c));
        if fuzzy.len() > 0 {
            let ordered = order_by_fuzzy(c, &fuzzy);
            return take_entries(c, &ordered, MAX_RESULTS);
        }
    }
    let found = select(&substring_flags_of(c, q));
    let ordered = order_by_rank(c, &found);
    take_entries(c, &ordered, MAX_RESULTS)
}

/// The first `n` characters of a text, or all of it if it is shorter.
pub open spec fn top_chars(s: Seq<char>, n: nat) -> Seq<char> {
    if n <= s.len() {
        s.take(n as int)
    } else {
        s
    }
}

/// The number of characters of a query that are kept when similar paths are
/// looked for.
pub const SUGGESTION_PREFIX: usize = 3;

/// What to ask for when a query found nothing: the first characters of the
/// query, as one keyword.
pub fn suggestion_keywords(keywords: &[String]) -> (r: Vec<String>)
    ensures
        r@.len() == 1,
        r@[0]@ == top_chars(joined(text_views(keywords@)), SUGGESTION_PREFIX as nat),
{
    let query = join_words(keywords);
    let mut r: Vec<String> = Vec::new();
    r.push(first_chars(query.as_str(), SUGGESTION_PREFIX));
    r
}

/// Some path among the first `n` candidates has `dir` among its ancestors.
pub open spec fn is_ancestor_among(c: Seq<CandidateView>, dir: Seq<char>, n: nat) -> bool {
    exists|i: int| 0 <= i < n && #[trigger] ancestors(c[i].entry.path).contains(dir)
}

/// `named_in_chain` adds exactly the paths of the chain's first `k` that are
/// named like the query, and adds none twice.
pub proof fn lemma_named_in_chain(
    acc: Seq<Seq<char>>,
    chain: Seq<Seq<char>>,
    query: Seq<char>,
    k: nat,
)
    requires
        k <= chain.len(),
        acc.no_duplicates(),
    ensures
        named_in_chain(acc, chain, query, k).no_duplicates(),
        forall|d: Seq<char>|
            #![trigger named_in_chain(acc, chain, query, k).contains(d)]
            named_in_chain(acc, chain, query, k).contains(d) <==> acc.contains(d) || (is_named(
                d,
                query,
            ) && chain.take(k as int).contains(d)),
    decreases k,
{
    let all = named_in_chain(acc, chain, query, k);
    if k == 0 {
        assert forall|d: Seq<char>| #![trigger all.contains(d)] all.contains(d) <==> acc.contains(d)
            || (is_named(d, query) && chain.take(k as int).contains(d)) by {
            if chain.take(0).contains(d) {
                let j = choose|j: int| 0 <= j < chain.take(0).len() && chain.take(0)[j] == d;
            }
        }
    } else {
        let before = named_in_chain(acc, chain, query, (k - 1) as nat);
        lemma_named_in_chain(acc, chain, query, (k - 1) as nat);
        let item = chain[k - 1];
        let front = chain.take(k - 1);
        let whole = chain.take(k as int);
        assert(whole =~= front.push(item));
        assert forall|d: Seq<char>| #![trigger all.contains(d)] all.contains(d) <==> acc.contains(d)
            || (is_named(d, query) && chain.take(k as int).contains(d)) by {
            if all.contains(d) {
                let j = choose|j: int| 0 <= j < all.len() && all[j] == d;
                if j < before.len() {
                    assert(before[j] == d);
                    assert(before.contains(d));
                    if !acc.contains(d) {
                        let t = choose|t: int| 0 <= t < front.len() && front[t] == d;
                        assert(whole[t] == d);
                    }
                } else {
                    assert(d == item);
                    assert(whole[k - 1] == d);
                }
            }
            if acc.contains(d) {
                assert(before.contains(d));
                let j = choose|j: int| 0 <= j < before.len() && before[j] == d;
                assert(all[j] == d);
            }
            if is_named(d, query) && whole.contains(d) {
                let t = choose|t: int| 0 <= t < whole.len() && whole[t] == d;
                if t < k - 1 {
                    assert(front[t] == d);
                    assert(front.contains(d));
                    assert(before.contains(d));
                    let j = choose|j: int| 0 <= j < before.len() && before[j] == d;
                    assert(all[j] == d);
                } else {
                    assert(d == item);
                    if before.contains(d) {
                        let j = choose|j: int| 0 <= j < before.len() && before[j] == d;
                        assert(all[j] == d);
                    } else {
                        assert(all[all.len() - 1] == d);
                    }
                }
            }
        }
        assert forall|a: int, b: int| 0 <= a < all.len() && 0 <= b < all.len() && a != b implies all[a]
            != all[b] by {
            if a < before.len() && b < before.len() {
                assert(all[a] == before[a]);
                assert(all[b] == before[b]);
            } else if a < before.len() {
                assert(all[a] == before[a]);
                assert(before.contains(all[a]));
            } else if b < before.len() {
                assert(all[b] == before[b]);
                assert(before.contains(all[b]));
            }
        }
    }
}

/// The matching directories are exactly the ancestors of the candidates'
/// paths that are named like the query, each listed once.
pub proof fn lemma_matching_dirs(c: Seq<CandidateView>, query: Seq<char>, n: nat)
    requires
        n <= c.len(),
    ensures
        matching_dirs(c, query, n).no_duplicates(),
        forall|d: Seq<char>|
            #![trigger matching_dirs(c, query, n).contains(d)]
            matching_dirs(c, query, n).contains(d) <==> is_named(d, query) && is_ancestor_among(
                c,
                d,
                n,
            ),
    decreases n,
{
    let all = matching_dirs(c, query, n);
    if n == 0 {
        assert forall|d: Seq<char>| #![trigger all.contains(d)] all.contains(d) <==> is_named(
            d,
            query,
        ) && is_ancestor_among(c, d, n) by {
            if all.contains(d) {
                let j = choose|j: int| 0 <= j < all.len() && all[j] == d;
            }
        }
    } else {
        let before = matching_dirs(c, query, (n - 1) as nat);
        lemma_matching_dirs(c, query, (n - 1) as nat);
        let chain = ancestors(c[n - 1].entry.path);
        lemma_named_in_chain(before, chain, query, chain.len());
        assert(chain.take(chain.len() as int) =~= chain);
        assert forall|d: Seq<char>| #![trigger all.contains(d)] all.contains(d) <==> is_named(
            d,
            query,
        ) && is_ancestor_among(c, d, n) by {
            if all.contains(d) {
                if before.contains(d) {
                    let i = choose|i: int|
                        0 <= i < n - 1 && #[trigger] ancestors(c[i].entry.path).contains(d);
                    assert(ancestors(c[i].entry.path).contains(d));
                } else {
                    assert(ancestors(c[n - 1].entry.path).contains(d));
                }
            }
            if is_named(d, query) && is_ancestor_among(c, d, n) {
                let i = choose|i: int| 0 <= i < n && #[trigger] ancestors(c[i].entry.path).contains(
                    d,
                );
                if i < n - 1 {
                    assert(is_ancestor_among(c, d, (n - 1) as nat));
                    assert(before.contains(d));
                }
            }
        }
    }
}

/// `first_under` finds the first position whose path starts with the
/// directory, and nothing where there is none.
pub proof fn lemma_first_under(c: Seq<CandidateView>, dir: Seq<char>, n: nat)
    ensures
        match first_under(c, dir, n) {
            Some(i) => 0 <= i < n && dir.is_prefix_of(c[i].entry.path) && forall|j: int|
                0 <= j < i ==> !dir.is_prefix_of((#[trigger] c[j]).entry.path),
            None => forall|j: int| 0 <= j < n ==> !dir.is_prefix_of((#[trigger] c[j]).entry.path),
        },
    decreases n,
{
    if n > 0 {
        lemma_first_under(c, dir, (n - 1) as nat);
    }
}

/// Where some path matches the query exactly, the exact matches alone make
/// the result: neither the fuzzy keys nor the fuzzy setting nor any other
/// stage has a say.
pub proof fn lemma_exact_match_decides(
    c: Seq<CandidateView>,
    d: Seq<CandidateView>,
    keywords: Seq<Seq<char>>,
    fuzzy_c: bool,
    fuzzy_d: bool,
)
    requires
        keywords.len() > 0,
        c.len() == d.len(),
        forall|i: int| 0 <= i < c.len() ==> (#[trigger] c[i]).entry == d[i].entry,
        exists|i: int|
            0 <= i < c.len() && is_exact_match(
                (#[trigger] c[i]).entry.path,
                joined(keywords),
            ),
    ensures
        query_result(c, keywords, fuzzy_c) == query_result(d, keywords, fuzzy_d),
        query_result(c, keywords, fuzzy_c) == entries_at(
            c,
            top(by_rank(c, exact_positions(c, joined(keywords))), MAX_RESULTS as nat),
        ),
{
    let q = joined(keywords);
    let i = choose|i: int| 0 <= i < c.len() && is_exact_match((#[trigger] c[i]).entry.path, q);
    assert(exact_flags(c, q) =~= exact_flags(d, q));
    lemma_positions_where(exact_flags(c, q));
    assert(exact_flags(c, q)[i]);
    assert(positions_where(exact_flags(c, q)).contains(i));
    let exact = positions_where(exact_flags(c, q));
    assert(exact.len() > 0);
    assert(rank_keys(c, exact) =~= rank_keys(d, exact));
    let chosen = top(by_rank(c, exact), MAX_RESULTS as nat);
    lemma_descending_order(rank_keys(c, exact));
    assert(by_rank(c, exact).len() == exact.len());
    assert forall|j: int| 0 <= j < chosen.len() implies 0 <= #[trigger] chosen[j] < c.len() by {
        let order = descending_order(rank_keys(c, exact));
        assert(chosen[j] == by_rank(c, exact)[j]);
        assert(0 <= order[j] < exact.len());
        assert(by_rank(c, exact)[j] == exact[order[j]]);
    }
    assert(entries_at(c, chosen) =~= entries_at(d, chosen));
}

} // verus!
