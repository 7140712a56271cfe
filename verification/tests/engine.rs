use xneo::db::{Resolution, StatsError, STATS_LIMIT};
use xneo::fuzzy::fuzzy_scores;
use xneo::matching::{find_matches, suggestion_keywords, MAX_RESULTS};
use xneo::score::order_key;
use xneo::time::age_seconds;
use xneo::{Bookmark, Candidate, Config, Database, DirEntry, VisitEntry};

fn words(items: &[&str]) -> Vec<String> {
    items.iter().map(|s| s.to_string()).collect()
}

fn rank(visits: u32, last_access: i64, now: i64) -> f64 {
    let age_hours = age_seconds(last_access, now) as f64 / 3600.0;
    let frequency = (visits as f64).ln() + 1.0;
    let recency = 1.0 / (age_hours + 1.0);
    frequency * 0.7 + recency * 0.3
}

fn key(score: f64) -> u64 {
    order_key(score.to_bits())
}

fn candidates(db: &Database, keywords: &[String], now: i64) -> Vec<Candidate> {
    let rows = db.snapshot();
    let scores = fuzzy_scores(&rows, &keywords.join(" "));
    rows.iter()
        .zip(scores)
        .map(|(row, score)| {
            let r = rank(row.visits, row.last_access, now);
            Candidate {
                entry: DirEntry::ranked(row, key(r)),
                fuzzy: score.map(|s| key(s as f64 * r)),
            }
        })
        .collect()
}

fn ask(db: &Database, keywords: &[&str], now: i64) -> Vec<String> {
    let keywords = words(keywords);
    let found = db.query(&keywords, &candidates(db, &keywords, now));
    found.into_iter().map(|e| e.path).collect()
}

fn plain(path: &str, rank: u64) -> Candidate {
    Candidate {
        entry: DirEntry { path: path.to_string(), last_access: 0, visits: 1, rank },
        fuzzy: None,
    }
}

fn scored(path: &str, rank: u64, fuzzy: u64) -> Candidate {
    Candidate {
        entry: DirEntry { path: path.to_string(), last_access: 0, visits: 1, rank },
        fuzzy: Some(fuzzy),
    }
}

fn paths_of(entries: Vec<DirEntry>) -> Vec<String> {
    entries.into_iter().map(|e| e.path).collect()
}

fn stored(db: &Database) -> Vec<(String, i64, u32)> {
    db.visits().iter().map(|v| (v.path.clone(), v.last_access, v.visits)).collect()
}

fn roomy(max_entries: usize) -> Config {
    let mut config = Config::default();
    config.max_entries = max_entries;
    config
}

#[test]
fn test_database_operations() {
    let config = Config::default();
    let mut db = Database::new(config);

    // Test adding directories
    let test_path = "/tmp/test/project";
    db.add(test_path, 1_700_000_000);

    // Test querying
    let keywords = ["project".to_string()];
    let results = db.query(&keywords, &candidates(&db, &keywords, 1_700_000_100));
    assert!(!results.is_empty());
    assert_eq!(results[0].path, test_path);

    // Test bookmarks
    db.add_bookmark("test", test_path);
    let bookmark_path = db.get_bookmark("test");
    assert_eq!(bookmark_path, Some(test_path.to_string()));

    // Test stats
    let stats = db.get_stats().unwrap();
    assert!(stats.total_entries > 0);
}

#[test]
fn a_new_index_is_empty() {
    let db = Database::new(Config::default());
    assert!(db.visits().is_empty());
    assert!(db.get_bookmarks().is_empty());
    assert_eq!(db.config().max_entries, 1000);
}

#[test]
fn a_second_visit_raises_the_count_and_sets_the_time() {
    let mut db = Database::new(Config::default());
    db.add("/home/user/code", 100);
    assert_eq!(stored(&db), vec![("/home/user/code".to_string(), 100, 1)]);
    db.add("/home/user/code", 250);
    assert_eq!(stored(&db), vec![("/home/user/code".to_string(), 250, 2)]);
}

#[test]
fn visits_keep_other_rows_and_table_order() {
    let mut db = Database::new(Config::default());
    db.add("/a", 1);
    db.add("/b", 2);
    db.add("/a", 3);
    db.add("/c", 4);
    assert_eq!(
        stored(&db),
        vec![("/a".to_string(), 3, 2), ("/b".to_string(), 2, 1), ("/c".to_string(), 4, 1)]
    );
}

#[test]
fn an_ignored_path_is_not_recorded() {
    let mut db = Database::new(Config::default());
    db.add("/home/user/code", 100);
    db.add("/home/user/code/node_modules/left-pad", 200);
    db.add("/home/user/code/.git", 300);
    db.add("/home/user/code/target/debug", 400);
    db.add("/var/tmp/run.log", 500);
    assert_eq!(stored(&db), vec![("/home/user/code".to_string(), 100, 1)]);
}

#[test]
fn the_oldest_rows_are_evicted_beyond_the_limit() {
    let mut db = Database::new(roomy(2));
    db.add("/one", 10);
    db.add("/two", 20);
    assert_eq!(db.visits().len(), 2);
    db.add("/three", 30);
    assert_eq!(stored(&db), vec![("/two".to_string(), 20, 1), ("/three".to_string(), 30, 1)]);
    // a revisit makes an old row young again, whatever its count
    db.add("/two", 40);
    db.add("/four", 50);
    assert_eq!(stored(&db), vec![("/two".to_string(), 40, 2), ("/four".to_string(), 50, 1)]);
}

#[test]
fn eviction_goes_by_time_alone_and_takes_the_first_of_equals() {
    let rows = vec![
        VisitEntry { path: "/often".to_string(), last_access: 5, visits: 90 },
        VisitEntry { path: "/tie-a".to_string(), last_access: 7, visits: 1 },
        VisitEntry { path: "/tie-b".to_string(), last_access: 7, visits: 1 },
        VisitEntry { path: "/late".to_string(), last_access: 9, visits: 1 },
    ];
    let mut db = Database::restore(roomy(2), rows, Vec::new()).unwrap();
    assert_eq!(db.visits().len(), 4);
    db.maintain_size_limit();
    assert_eq!(stored(&db), vec![("/tie-b".to_string(), 7, 1), ("/late".to_string(), 9, 1)]);
}

#[test]
fn a_limit_of_zero_keeps_nothing() {
    let mut db = Database::new(roomy(0));
    db.add("/one", 10);
    assert!(db.visits().is_empty());
}

#[test]
fn the_count_stops_at_its_largest_value() {
    let rows = vec![VisitEntry { path: "/hot".to_string(), last_access: 1, visits: u32::MAX }];
    let mut db = Database::restore(Config::default(), rows, Vec::new()).unwrap();
    db.add("/hot", 2);
    assert_eq!(stored(&db), vec![("/hot".to_string(), 2, u32::MAX)]);
}

#[test]
fn restore_refuses_invalid_rows() {
    let twice = vec![
        VisitEntry { path: "/a".to_string(), last_access: 1, visits: 1 },
        VisitEntry { path: "/b".to_string(), last_access: 2, visits: 1 },
        VisitEntry { path: "/a".to_string(), last_access: 3, visits: 1 },
    ];
    assert!(Database::restore(Config::default(), twice, Vec::new()).is_none());
    let unvisited = vec![VisitEntry { path: "/a".to_string(), last_access: 1, visits: 0 }];
    assert!(Database::restore(Config::default(), unvisited, Vec::new()).is_none());
}

#[test]
fn restore_keeps_rows_and_the_later_of_two_bookmarks() {
    let rows = vec![
        VisitEntry { path: "/b".to_string(), last_access: 2, visits: 4 },
        VisitEntry { path: "/a".to_string(), last_access: 1, visits: 1 },
    ];
    let marks = vec![
        Bookmark { name: "w".to_string(), path: "/old".to_string() },
        Bookmark { name: "a".to_string(), path: "/a".to_string() },
        Bookmark { name: "w".to_string(), path: "/new".to_string() },
    ];
    let db = Database::restore(Config::default(), rows, marks).unwrap();
    assert_eq!(stored(&db), vec![("/b".to_string(), 2, 4), ("/a".to_string(), 1, 1)]);
    assert_eq!(db.get_bookmark("w"), Some("/new".to_string()));
    assert_eq!(db.get_bookmark("a"), Some("/a".to_string()));
    assert_eq!(db.get_bookmarks().len(), 2);
}

#[test]
fn snapshot_is_ordered_by_visits_with_ties_in_table_order() {
    let mut db = Database::new(Config::default());
    db.add("/a", 1);
    db.add("/b", 2);
    db.add("/c", 3);
    db.add("/b", 4);
    db.add("/c", 5);
    let order: Vec<String> = db.snapshot().into_iter().map(|v| v.path).collect();
    assert_eq!(order, vec!["/b", "/c", "/a"]);
}

#[test]
fn no_keywords_no_results() {
    let mut db = Database::new(Config::default());
    db.add("/home/user/project", 100);
    assert!(ask(&db, &[], 200).is_empty());
    let cands = vec![plain("/home/user/project", 1)];
    assert!(find_matches(&cands, &[], true).is_empty());
}

#[test]
fn exact_match_is_by_whole_path_or_final_segment() {
    let mut db = Database::new(Config::default());
    db.add("/home/user/project", 100);
    db.add("/home/user/project2", 200);
    db.add("/home/user/project2", 300);
    assert_eq!(ask(&db, &["project"], 400), vec!["/home/user/project"]);
    assert_eq!(ask(&db, &["/home/user/project2"], 400), vec!["/home/user/project2"]);
}

#[test]
fn exact_matches_are_all_kept_and_ordered_by_rank() {
    let cands = vec![
        plain("/a/src", 10),
        plain("/b/src", 30),
        plain("/c/other", 99),
        plain("/d/src", 20),
        plain("src", 30),
    ];
    let found = paths_of(find_matches(&cands, &words(&["src"]), true));
    assert_eq!(found, vec!["/b/src", "src", "/d/src", "/a/src"]);
}

#[test]
fn keywords_are_joined_by_single_spaces() {
    let cands = vec![plain("/home/user/my project", 1), plain("/home/user/project", 2)];
    let found = paths_of(find_matches(&cands, &words(&["my", "project"]), false));
    assert_eq!(found, vec!["/home/user/my project"]);
}

#[test]
fn directory_name_match_returns_a_representative() {
    let mut db = Database::new(Config::default());
    db.add("/a/b/proj/src", 100);
    let found = ask(&db, &["proj"], 200);
    assert_eq!(found, vec!["/a/b/proj/src"]);
    assert!(found[0].starts_with("/a/b/proj"));
}

#[test]
fn directory_name_match_takes_the_first_entry_under_each_directory() {
    let cands = vec![
        plain("/x/proj/deep/er", 1),
        plain("/x/proj/src", 50),
        plain("/y/proj/docs", 7),
        plain("/z/unrelated", 99),
        plain("/y/proj/more", 80),
    ];
    let found = paths_of(find_matches(&cands, &words(&["proj"]), true));
    assert_eq!(found, vec!["/y/proj/docs", "/x/proj/deep/er"]);
}

#[test]
fn an_exact_match_is_not_altered_by_later_stages() {
    let with_fuzzy = vec![
        scored("/w/proj/src", 5, 1000),
        scored("/home/proj", 1, 1),
        scored("/v/projects", 9, 5000),
    ];
    let without = vec![plain("/w/proj/src", 5), plain("/home/proj", 1), plain("/v/projects", 9)];
    let keywords = words(&["proj"]);
    assert_eq!(paths_of(find_matches(&with_fuzzy, &keywords, true)), vec!["/home/proj"]);
    assert_eq!(paths_of(find_matches(&with_fuzzy, &keywords, false)), vec!["/home/proj"]);
    assert_eq!(paths_of(find_matches(&without, &keywords, true)), vec!["/home/proj"]);
}

#[test]
fn fuzzy_stage_orders_by_score_times_rank() {
    let low = 1.5_f64;
    let high = 2.5_f64;
    let score = 40_i64;
    let cands = vec![
        scored("/q/alpha", key(low), key(score as f64 * low)),
        scored("/r/alpha", key(high), key(score as f64 * high)),
    ];
    let found = paths_of(find_matches(&cands, &words(&["alp"]), true));
    assert_eq!(found, vec!["/r/alpha", "/q/alpha"]);
}

#[test]
fn fuzzy_stage_leaves_out_what_the_matcher_refused() {
    let cands = vec![plain("/q/alpha", 9), scored("/r/alpha", 1, 3), scored("/s/alpha", 1, 8)];
    let found = paths_of(find_matches(&cands, &words(&["alp"]), true));
    assert_eq!(found, vec!["/s/alpha", "/r/alpha"]);
}

#[test]
fn substring_stage_is_the_fallback_and_folds_case() {
    let cands = vec![
        scored("/Data/PhotoAlbum", 3, 100),
        plain("/data/photos", 8),
        plain("/data/music", 9),
    ];
    // fuzzy off: substring match, by rank
    let found = paths_of(find_matches(&cands, &words(&["PHOTO"]), false));
    assert_eq!(found, vec!["/data/photos", "/Data/PhotoAlbum"]);
    // fuzzy on and something scored: the fuzzy stage answers
    let found = paths_of(find_matches(&cands, &words(&["PHOTO"]), true));
    assert_eq!(found, vec!["/Data/PhotoAlbum"]);
    // fuzzy on but nothing scored: the substring stage answers
    let unscored = vec![plain("/Data/PhotoAlbum", 3), plain("/data/photos", 8)];
    let found = paths_of(find_matches(&unscored, &words(&["photo"]), true));
    assert_eq!(found, vec!["/data/photos", "/Data/PhotoAlbum"]);
}

#[test]
fn nothing_found_is_an_empty_result() {
    let cands = vec![plain("/data/music", 9)];
    assert!(find_matches(&cands, &words(&["zebra"]), true).is_empty());
    assert!(find_matches(&Vec::new(), &words(&["zebra"]), true).is_empty());
}

#[test]
fn results_are_cut_to_twenty() {
    assert_eq!(MAX_RESULTS, 20);
    let cands: Vec<Candidate> =
        (0..30).map(|i| plain(&format!("/d{}/src", i), i as u64)).collect();
    let found = paths_of(find_matches(&cands, &words(&["src"]), false));
    assert_eq!(found.len(), 20);
    assert_eq!(found[0], "/d29/src");
    assert_eq!(found[19], "/d10/src");
}

#[test]
fn end_to_end_directory_name_query() {
    let mut db = Database::new(Config::default());
    db.add("/p/a", 1_000);
    db.add("/p/a", 2_000);
    db.add("/p/b", 3_000);
    db.add("/p/a", 4_000);
    // `/p` is an ancestor named like the query: the directory-name stage
    // answers with the first entry under it.
    assert_eq!(ask(&db, &["p"], 5_000), vec!["/p/a"]);
}

#[test]
fn end_to_end_fuzzy_query() {
    let mut db = Database::new(Config::default());
    db.add("/p/a", 1_000);
    db.add("/p/a", 2_000);
    db.add("/p/b", 3_000);
    db.add("/p/a", 4_000);
    assert_eq!(ask(&db, &["/p"], 5_000), vec!["/p/a", "/p/b"]);
    // without fuzzy matching the substring stage gives the same two, by rank
    let mut config = Config::default();
    config.enable_fuzzy_matching = false;
    let mut plain_db = Database::new(config);
    plain_db.add("/p/b", 3_000);
    plain_db.add("/p/a", 1_000);
    plain_db.add("/p/a", 2_000);
    plain_db.add("/p/a", 4_000);
    assert_eq!(ask(&plain_db, &["/p"], 5_000), vec!["/p/a", "/p/b"]);
}

#[test]
fn find_stale_returns_the_stored_paths_that_are_gone() {
    let mut db = Database::new(Config::default());
    db.add("/data/one", 1);
    db.add("/data/two", 2);
    db.add("/data/three", 3);
    db.add("/data/four", 4);
    let present = words(&["/data/four", "/data/two", "/elsewhere"]);
    assert_eq!(db.find_stale(&present), vec!["/data/one", "/data/three"]);
    assert!(db.find_stale(&words(&["/data/one", "/data/two", "/data/three", "/data/four"]))
        .is_empty());
    assert_eq!(db.find_stale(&[]).len(), 4);
    assert_eq!(db.visits().len(), 4);
}

#[test]
fn purge_deletes_the_listed_rows_that_exist() {
    let mut db = Database::new(Config::default());
    db.add("/data/one", 1);
    db.add("/data/two", 2);
    db.add("/data/three", 3);
    assert_eq!(db.purge(&[]), 0);
    assert_eq!(db.visits().len(), 3);
    let listed = words(&["/data/three", "/nowhere", "/data/one", "/data/one"]);
    assert_eq!(db.purge(&listed), 2);
    assert_eq!(stored(&db), vec![("/data/two".to_string(), 2, 1)]);
    assert_eq!(db.purge(&listed), 0);
}

#[test]
fn auto_clean_purges_what_is_stale() {
    let mut db = Database::new(Config::default());
    db.add("/data/one", 1);
    db.add("/data/two", 2);
    db.add("/data/three", 3);
    db.add_bookmark("one", "/data/one");
    assert_eq!(db.auto_clean(&words(&["/data/two"])), 2);
    assert_eq!(stored(&db), vec![("/data/two".to_string(), 2, 1)]);
    assert_eq!(db.get_bookmark("one"), Some("/data/one".to_string()));
    assert_eq!(db.auto_clean(&words(&["/data/two"])), 0);
}

#[test]
fn the_last_bookmark_of_a_name_wins() {
    let mut db = Database::new(Config::default());
    db.add_bookmark("work", "/home/user/work");
    db.add_bookmark("work", "/srv/work");
    assert_eq!(db.get_bookmark("work"), Some("/srv/work".to_string()));
    let all = db.get_bookmarks();
    assert_eq!(all.len(), 1);
    assert_eq!(all[0].name, "work");
    assert_eq!(all[0].path, "/srv/work");
}

#[test]
fn bookmarks_are_listed_by_name() {
    let mut db = Database::new(Config::default());
    db.add_bookmark("work", "/w");
    db.add_bookmark("apps", "/a");
    db.add_bookmark("Zoo", "/z");
    db.add_bookmark("app", "/p");
    db.add_bookmark("\u{e9}t\u{e9}", "/e");
    let names: Vec<String> = db.get_bookmarks().into_iter().map(|b| b.name).collect();
    assert_eq!(names, vec!["Zoo", "app", "apps", "work", "\u{e9}t\u{e9}"]);
}

#[test]
fn removing_a_bookmark_says_whether_it_was_there() {
    let mut db = Database::new(Config::default());
    db.add_bookmark("work", "/w");
    db.add_bookmark("home", "/h");
    assert!(!db.remove_bookmark("Work"));
    assert!(db.remove_bookmark("work"));
    assert!(!db.remove_bookmark("work"));
    assert_eq!(db.get_bookmark("work"), None);
    assert_eq!(db.get_bookmark("home"), Some("/h".to_string()));
    assert_eq!(db.get_bookmark("hom"), None);
}

#[test]
fn bookmarks_and_visits_do_not_touch_each_other() {
    let mut db = Database::new(roomy(1));
    db.add_bookmark("one", "/data/one");
    db.add("/data/one", 1);
    db.add("/data/two", 2);
    assert_eq!(db.purge(&words(&["/data/two"])), 1);
    assert_eq!(db.get_bookmark("one"), Some("/data/one".to_string()));
    assert!(db.visits().is_empty());
}

#[test]
fn a_single_keyword_is_looked_up_as_a_bookmark_first() {
    let mut db = Database::new(Config::default());
    db.add("/home/user/work", 100);
    db.add_bookmark("work", "/srv/work");
    let one = words(&["work"]);
    match db.resolve(&one, &candidates(&db, &one, 200)) {
        Resolution::Bookmark(path) => assert_eq!(path, "/srv/work"),
        Resolution::Matches(_) => panic!("the bookmark was passed over"),
    }
    let two = words(&["work", "work"]);
    match db.resolve(&two, &candidates(&db, &two, 200)) {
        Resolution::Bookmark(_) => panic!("two keywords are no bookmark name"),
        Resolution::Matches(found) => assert!(found.is_empty()),
    }
    let other = words(&["user"]);
    match db.resolve(&other, &candidates(&db, &other, 200)) {
        Resolution::Bookmark(_) => panic!("no such bookmark"),
        Resolution::Matches(found) => assert_eq!(paths_of(found), vec!["/home/user/work"]),
    }
}

#[test]
fn suggestions_ask_for_the_first_three_characters() {
    assert_eq!(suggestion_keywords(&words(&["project"])), vec!["pro"]);
    assert_eq!(suggestion_keywords(&words(&["my", "project"])), vec!["my "]);
    assert_eq!(suggestion_keywords(&words(&["ab"])), vec!["ab"]);
    assert_eq!(suggestion_keywords(&words(&["\u{e9}t\u{e9}s"])), vec!["\u{e9}t\u{e9}"]);
    assert_eq!(suggestion_keywords(&[]), vec![""]);
}

#[test]
fn stats_count_and_rank_the_rows() {
    assert_eq!(STATS_LIMIT, 10);
    let rows: Vec<VisitEntry> = (0..12)
        .map(|i| VisitEntry {
            path: format!("/d{}", i),
            last_access: 1_000 - i as i64,
            visits: (i % 4 + 1) as u32,
        })
        .collect();
    let db = Database::restore(Config::default(), rows, Vec::new()).unwrap();
    let stats = db.get_stats().unwrap();
    assert_eq!(stats.total_entries, 12);
    assert_eq!(stats.total_visits, 30);
    let most: Vec<(String, u32)> =
        stats.most_visited.iter().map(|v| (v.path.clone(), v.visits)).collect();
    assert_eq!(
        most,
        vec![
            ("/d3".to_string(), 4),
            ("/d7".to_string(), 4),
            ("/d11".to_string(), 4),
            ("/d2".to_string(), 3),
            ("/d6".to_string(), 3),
            ("/d10".to_string(), 3),
            ("/d1".to_string(), 2),
            ("/d5".to_string(), 2),
            ("/d9".to_string(), 2),
            ("/d0".to_string(), 1),
        ]
    );
    let recent: Vec<String> = stats.recently_visited.iter().map(|v| v.path.clone()).collect();
    assert_eq!(recent, vec!["/d0", "/d1", "/d2", "/d3", "/d4", "/d5", "/d6", "/d7", "/d8", "/d9"]);
}

#[test]
fn stats_of_an_empty_index() {
    let db = Database::new(Config::default());
    let stats = db.get_stats().unwrap();
    assert_eq!(stats.total_entries, 0);
    assert_eq!(stats.total_visits, 0);
    assert!(stats.most_visited.is_empty());
    assert!(stats.recently_visited.is_empty());
}

#[test]
fn stats_fail_when_the_visits_do_not_fit() {
    let rows = vec![
        VisitEntry { path: "/a".to_string(), last_access: 1, visits: u32::MAX },
        VisitEntry { path: "/b".to_string(), last_access: 2, visits: 1 },
    ];
    let db = Database::restore(Config::default(), rows, Vec::new()).unwrap();
    assert_eq!(db.get_stats().err(), Some(StatsError::TooManyVisits));
}
