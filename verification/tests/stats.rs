use logparser::interner::Interner;
use logparser::session::Session;
use logparser::stats::{
    calc_stats, make_inverse_core, make_inverse_mapping, Dimension, StatsOptions, UsageStats,
};
use logparser::store::{usage_stats_by_path, usage_stats_by_referer, usage_stats_by_ua};
use logparser::symbols::GlobalTable;
use logparser::time::Timestamp;

fn session(start: i64, ua: u32, referer: u32, steps: &[(u32, u32)]) -> Session {
    Session {
        ip: 1,
        user_agent: ua,
        referer,
        start_time: Timestamp::new(start, 0),
        end_time: Timestamp::new(start + steps.last().unwrap().1 as i64, 0),
        access_times: steps.iter().map(|s| s.1).collect(),
        actions: steps.iter().map(|s| s.0).collect(),
        total_requests: steps.len() as u32,
        total_bytes: 0,
    }
}

fn table() -> GlobalTable {
    let mut t = GlobalTable::new();
    assert_eq!(t.add_path("/a"), 8);
    assert_eq!(t.add_path("/b"), 9);
    assert_eq!(t.add_path("/c"), 10);
    assert_eq!(t.user_agent.intern("Firefox"), 1);
    assert_eq!(t.user_agent.intern("Chrome"), 2);
    assert_eq!(t.referer.intern("-"), 1);
    assert_eq!(t.referer.intern("https://search.example"), 2);
    t
}

fn rows(st: &UsageStats) -> Vec<(String, Vec<u64>, Vec<u32>)> {
    st.rows.iter().map(|r| (r.category.clone(), r.time.clone(), r.count.clone())).collect()
}

#[test]
fn options_keep_their_values() {
    let o = StatsOptions::new(60, 2, 10);
    assert_eq!((o.resolution_sec, o.threshold, o.max_paths), (60, 2, 10));
}

#[test]
fn inverse_mapping_of_a_plain_dictionary() {
    let mut d = Interner::new();
    d.intern("x");
    d.intern("y");
    assert_eq!(make_inverse_core(&d, "?"), vec!["?", "x", "y"]);
    let m = make_inverse_mapping(&d, "?");
    assert_eq!(m.describe(&0), "?");
    assert_eq!(m.describe(&1), "x");
    assert_eq!(m.describe(&2), "y");
    assert_eq!(m.describe(&3), "?");
    assert_eq!(m.describe(&u32::MAX), "?");
}

#[test]
fn inverse_mapping_of_an_empty_dictionary() {
    let d = Interner::new();
    assert_eq!(make_inverse_core(&d, "none"), Vec::<String>::new());
    assert_eq!(make_inverse_mapping(&d, "none").describe(&0), "none");
}

#[test]
fn inverse_mapping_of_the_paths_and_content_types() {
    let mut t = table();
    let paths = make_inverse_core(&t.path, "");
    assert_eq!(paths.len(), 11);
    assert_eq!(paths[0], "/");
    assert_eq!(paths[7], "admin");
    assert_eq!(paths[10], "/c");
    t.content_type.intern("font/woff");
    let types = make_inverse_core(&t.content_type, "missing");
    assert_eq!(types.len(), 13);
    assert_eq!(types[10], "image/svg+xml");
    assert_eq!(types[11], "missing");
    assert_eq!(types[12], "font/woff");
}

#[test]
fn actions_are_counted_by_interval() {
    let t = table();
    let sessions = vec![session(100, 1, 1, &[(8, 0), (9, 30), (8, 70)])];
    let st = usage_stats_by_path(&sessions, &t, &StatsOptions::new(60, 0, 10));
    // the times 100, 130, 170 lie in the intervals 1, 2, 2
    assert_eq!(st.start_time, 1);
    assert_eq!(st.end_time, 2);
    assert!(!st.session_starts_only);
    assert_eq!(
        rows(&st),
        vec![
            ("/a".to_string(), vec![0, 1], vec![1, 1]),
            ("/b".to_string(), vec![1], vec![1]),
        ]
    );
}

#[test]
fn intervals_before_the_epoch_round_down() {
    let t = table();
    let sessions = vec![session(-90, 1, 1, &[(8, 0), (8, 29), (8, 30), (8, 95)])];
    let st = usage_stats_by_path(&sessions, &t, &StatsOptions::new(60, 0, 10));
    // the times -90, -61, -60, 5 lie in the intervals -2, -2, -1, 0
    assert_eq!((st.start_time, st.end_time), (-2, 0));
    assert_eq!(rows(&st), vec![("/a".to_string(), vec![0, 1, 2], vec![2, 1, 1])]);
}

#[test]
fn equal_counts_are_ordered_by_category() {
    let t = table();
    let sessions = vec![
        session(0, 1, 1, &[(10, 0), (9, 1)]),
        session(0, 1, 1, &[(8, 0), (9, 1), (10, 2), (8, 3)]),
    ];
    let st = usage_stats_by_path(&sessions, &t, &StatsOptions::new(3600, 0, 10));
    let labels: Vec<String> = st.rows.iter().map(|r| r.category.clone()).collect();
    assert_eq!(labels, vec!["/a", "/b", "/c"]);
    assert_eq!(st.rows[0].count, vec![2]);
}

#[test]
fn rare_categories_are_dropped_but_count_for_the_range() {
    let t = table();
    let sessions = vec![
        session(600, 1, 1, &[(8, 0), (8, 10)]),
        session(0, 1, 1, &[(9, 0)]),
        session(6000, 1, 1, &[(10, 0)]),
    ];
    let st = usage_stats_by_path(&sessions, &t, &StatsOptions::new(60, 2, 10));
    assert_eq!((st.start_time, st.end_time), (0, 100));
    assert_eq!(rows(&st), vec![("/a".to_string(), vec![10], vec![2])]);
}

#[test]
fn no_more_categories_than_asked_for() {
    let t = table();
    let sessions = vec![session(0, 1, 1, &[(8, 0), (9, 1), (9, 2), (10, 3), (10, 4), (10, 5)])];
    let st = usage_stats_by_path(&sessions, &t, &StatsOptions::new(60, 0, 2));
    let labels: Vec<String> = st.rows.iter().map(|r| r.category.clone()).collect();
    assert_eq!(labels, vec!["/c", "/b"]);
    let none = usage_stats_by_path(&sessions, &t, &StatsOptions::new(60, 0, 0));
    assert!(none.rows.is_empty());
    assert_eq!((none.start_time, none.end_time), (0, 0));
}

#[test]
fn no_sessions_no_statistics() {
    let t = table();
    let st = usage_stats_by_path(&vec![], &t, &StatsOptions::new(60, 0, 10));
    assert!(st.rows.is_empty());
    assert_eq!((st.start_time, st.end_time), (0, 0));
}

#[test]
fn user_agents_are_counted_once_for_each_session() {
    let t = table();
    let sessions = vec![
        session(0, 1, 2, &[(8, 0), (9, 100)]),
        session(70, 2, 1, &[(8, 0)]),
        session(130, 1, 2, &[(9, 0), (9, 5)]),
    ];
    let st = usage_stats_by_ua(&sessions, &t, &StatsOptions::new(60, 0, 10));
    assert!(st.session_starts_only);
    assert_eq!((st.start_time, st.end_time), (0, 2));
    assert_eq!(
        rows(&st),
        vec![
            ("Firefox".to_string(), vec![0, 2], vec![1, 1]),
            ("Chrome".to_string(), vec![1], vec![1]),
        ]
    );
}

#[test]
fn referers_are_counted_once_for_each_session() {
    let t = table();
    let sessions = vec![
        session(0, 1, 2, &[(8, 0), (9, 100)]),
        session(70, 2, 1, &[(8, 0)]),
        session(130, 1, 2, &[(9, 0), (9, 5)]),
    ];
    let st = usage_stats_by_referer(&sessions, &t, &StatsOptions::new(60, 0, 10));
    assert_eq!(
        rows(&st),
        vec![
            ("https://search.example".to_string(), vec![0, 2], vec![1, 1]),
            ("-".to_string(), vec![1], vec![1]),
        ]
    );
}

#[test]
fn a_category_without_a_name_has_the_default_label() {
    let t = table();
    let sessions = vec![session(0, 77, 1, &[(4000, 0)])];
    let st = usage_stats_by_path(&sessions, &t, &StatsOptions::new(60, 0, 10));
    assert_eq!(rows(&st), vec![("".to_string(), vec![0], vec![1])]);
    let describe = make_inverse_mapping(&t.user_agent, "unknown");
    let st = calc_stats(&sessions, &StatsOptions::new(60, 0, 10), false, Dimension::UserAgent, &describe);
    assert_eq!(st.rows[0].category, "unknown");
}

#[test]
fn all_counts_add_up_to_the_number_of_actions() {
    let t = table();
    let mut sessions = vec![];
    let mut actions = 0;
    for i in 0..40u32 {
        let steps: Vec<(u32, u32)> = (0..=(i % 7)).map(|k| (8 + (i + k) % 3, k * 45)).collect();
        actions += steps.len();
        sessions.push(session(i as i64 * 17 - 200, 1 + i % 2, 1, &steps));
    }
    let st = usage_stats_by_path(&sessions, &t, &StatsOptions::new(60, 0, u32::MAX));
    let sum: u64 = st.rows.iter().map(|r| r.count.iter().map(|c| *c as u64).sum::<u64>()).sum();
    assert_eq!(sum, actions as u64);
    for r in &st.rows {
        assert_eq!(r.time.len(), r.count.len());
        assert!(r.time.windows(2).all(|w| w[0] < w[1]));
        assert!(r.count.iter().all(|c| *c > 0));
        assert!(r.time.iter().all(|b| *b as i64 <= st.end_time - st.start_time));
    }
    let starts = usage_stats_by_ua(&sessions, &t, &StatsOptions::new(60, 0, u32::MAX));
    let sum: u64 = starts.rows.iter().map(|r| r.count.iter().map(|c| *c as u64).sum::<u64>()).sum();
    assert_eq!(sum, sessions.len() as u64);
}
