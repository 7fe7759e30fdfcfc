use mw::db::{
    db_add_path, db_format, db_listing, db_parse, db_query_checked, db_query_path, db_remove_path,
    db_score_match, db_set_score, resolve_checked, resolve_query,
};

/// The database as it stands in its file: written, then read back.
fn store(entries: Vec<(u64, String)>) -> Vec<(u64, String)> {
    db_parse(&db_format(&entries))
}

fn list(entries: &[(u64, String)]) -> String {
    let mut s = String::new();
    for (score, entry) in entries {
        s.push_str(&format!("{}\t{}\n", score, entry));
    }
    s
}

fn add(entries: Vec<(u64, String)>, path: &str) -> Vec<(u64, String)> {
    store(db_add_path(entries, path))
}

fn query(entries: &Vec<(u64, String)>, q: &str) -> Option<String> {
    db_query_path(entries, q)
}

#[test]
fn db_matches_bash_reference() {
    let mut db = store(Vec::new());
    db = store(db_remove_path(db, ""));

    db = add(db, "/home/user/alpha.txt");
    db = add(db, "/home/user/beta.txt");
    db = add(db, "/home/user/alpha.txt");
    db = add(db, "/home/user/gamma.txt");

    assert_eq!(
        list(&db),
        "17\t/home/user/alpha.txt\n10\t/home/user/gamma.txt\n8\t/home/user/beta.txt\n"
    );
    assert_eq!(query(&db, "beta"), Some("/home/user/beta.txt".to_string()));
    assert_eq!(
        query(&db, "/home/user/alpha.txt"),
        Some("/home/user/alpha.txt".to_string())
    );
    assert_eq!(query(&db, "alph"), Some("/home/user/alpha.txt".to_string()));
    assert_eq!(query(&db, "ab"), None);
    assert_eq!(query(&db, "gamm"), Some("/home/user/gamma.txt".to_string()));

    db = add(db, "/home/user/gamma.txt");
    db = add(db, "/home/user/gamma.txt");
    db = add(db, "/home/user/gamma.txt");
    assert_eq!(query(&db, "gamma"), Some("/home/user/gamma.txt".to_string()));

    db = store(db_remove_path(db, "/home/user/beta.txt"));
    assert_eq!(
        list(&db),
        "34\t/home/user/gamma.txt\n14\t/home/user/alpha.txt\n"
    );
    assert_eq!(query(&db, "delt"), None);
}

#[test]
fn score_match_basics() {
    assert_eq!(db_score_match("beta", "/home/user/beta.txt"), 500);
    assert_eq!(db_score_match("/home/user/alpha.txt", "/home/user/alpha.txt"), 200);
    assert_eq!(db_score_match("ab", "/home/user/alpha.txt"), 0);
    assert_eq!(db_score_match("alp", "/home/user/alpha.txt"), 500);
    assert_eq!(db_score_match("axt", "/home/user/alpha.txt"), 50);
    assert_eq!(db_score_match("exact", "/x/exact"), 1000);
    assert_eq!(db_score_match("ExAcT", "/x/exact"), 1000);
}

#[test]
fn set_score_pins_a_favorite() {
    let mut db = add(Vec::new(), "/home/user/other.txt");
    assert_eq!(list(&db), "10\t/home/user/other.txt\n");

    db = store(db_set_score(db, "/home/user/fav.txt", 500));
    db = store(db_set_score(db, "/home/user/other.txt", 3));
    assert_eq!(list(&db), "500\t/home/user/fav.txt\n3\t/home/user/other.txt\n");

    assert_eq!(query(&db, "fav"), Some("/home/user/fav.txt".to_string()));
    assert_eq!(query(&db, "oth"), Some("/home/user/other.txt".to_string()));

    db = store(db_set_score(db, "/home/user/fresh.txt", 100));
    assert_eq!(query(&db, "fresh"), Some("/home/user/fresh.txt".to_string()));
}

#[test]
fn resolve_skips_ghost_entries() {
    let ghost_p = "/tmp/mw_7_real.txt".to_string();
    let real = "/var/tmp/mw_7_real.txt".to_string();
    let db = store(vec![(99, ghost_p.clone()), (10, real.clone())]);
    let present = vec![false, true];

    let q = "mw_7_";
    assert_eq!(query(&db, q), Some(ghost_p));
    assert_eq!(resolve_query(&db, q, &present), Some(real));
}

#[test]
fn parse_skips_blank_and_pathless_lines() {
    let db = db_parse("  12 /a/b\n\n7\n x /c d  \r\n5 /e\r\n");
    assert_eq!(
        db,
        vec![(12, "/a/b".to_string()), (0, "/c d".to_string()), (5, "/e".to_string())]
    );
}

#[test]
fn parse_reads_back_format() {
    let entries = vec![(17, "/home/u/a b.txt".to_string()), (0, " lead".to_string())];
    assert_eq!(db_parse(&db_format(&entries)), entries);
    assert_eq!(db_format(&entries), "17 /home/u/a b.txt\n0  lead\n");
}

#[test]
fn add_ages_others_and_keeps_a_floor_of_one() {
    let db = vec![(1, "/x".to_string()), (40, "/y".to_string())];
    let out = db_add_path(db, "/y");
    assert_eq!(out, vec![(46, "/y".to_string()), (1, "/x".to_string())]);
}

#[test]
fn add_saturates_huge_scores() {
    let db = vec![(u64::MAX, "/big".to_string())];
    let out = db_add_path(db.clone(), "/big");
    assert_eq!(out, vec![(u64::MAX / 10 + 10, "/big".to_string())]);
    let out2 = db_add_path(db, "/new");
    assert_eq!(out2, vec![(u64::MAX / 20, "/big".to_string()), (10, "/new".to_string())]);
}

#[test]
fn empty_path_changes_nothing() {
    let db = vec![(3, "/a".to_string())];
    assert_eq!(db_add_path(db.clone(), ""), db);
    assert_eq!(db_set_score(db.clone(), "", 9), db);
    assert_eq!(db_remove_path(db.clone(), ""), db);
}

#[test]
fn sort_keeps_equal_scores_in_order() {
    let db = vec![(5, "/a".to_string()), (5, "/b".to_string())];
    let out = db_set_score(db, "/c", 5);
    assert_eq!(
        out,
        vec![(5, "/a".to_string()), (5, "/b".to_string()), (5, "/c".to_string())]
    );
}

#[test]
fn score_uses_byte_offsets_and_subsequences() {
    assert_eq!(db_score_match("ta", "/home/beta.txt"), 498);
    assert_eq!(db_score_match("home", "/home/beta.txt"), 199);
    assert_eq!(db_score_match("hbt", "/home/beta.txt"), 50);
    assert_eq!(db_score_match("é", "/x/aé"), 499);
    assert_eq!(db_score_match("zz", "/home/beta.txt"), 0);
}

#[test]
fn query_ranks_by_twice_the_match_plus_score() {
    let db = vec![(10, "/p/beta".to_string()), (1500, "/q/xbeta".to_string())];
    assert_eq!(query(&db, "beta"), Some("/q/xbeta".to_string()));
    assert_eq!(query(&db, ""), None);
}

#[test]
fn checked_queries_report_overflow() {
    let db = vec![(u64::MAX - 1, "/p/beta".to_string())];
    assert_eq!(db_query_checked(&db, "beta"), None);
    assert_eq!(db_query_checked(&db, ""), Some(None));
    assert_eq!(resolve_checked(&db, "beta", &vec![true]), None);
    let ok = vec![(3, "/p/beta".to_string())];
    assert_eq!(db_query_checked(&ok, "beta"), Some(Some("/p/beta".to_string())));
    assert_eq!(resolve_checked(&ok, "beta", &vec![false]), Some(None));
    assert_eq!(resolve_checked(&ok, "beta", &vec![true]), Some(Some("/p/beta".to_string())));
}

#[test]
fn listing_marks_missing_paths() {
    let db = vec![(17, "/a".to_string()), (3, "/b c".to_string())];
    assert_eq!(db_listing(&db, &vec![true, false]), "17\t/a\n3\t/b c (missing)\n");
    assert_eq!(db_listing(&Vec::new(), &Vec::new()), "");
}

#[test]
fn setting_a_score_twice_is_setting_it_once() {
    let db = vec![(9, "/a".to_string()), (4, "/b".to_string())];
    let once = db_set_score(db, "/b", 20);
    let twice = db_set_score(once.clone(), "/b", 20);
    assert_eq!(once, vec![(20, "/b".to_string()), (9, "/a".to_string())]);
    assert_eq!(twice, once);
}
