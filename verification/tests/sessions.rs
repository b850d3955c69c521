use logparser::parser::LogLine;
use logparser::session::{get_sessions, Session, SessionTracker};
use logparser::symbols::GlobalTable;
use logparser::time::Timestamp;

struct Paths {
    table: GlobalTable,
    a: u32,
    b: u32,
    sub: u32,
    css: u32,
    png: u32,
}

fn paths() -> Paths {
    let mut table = GlobalTable::new();
    let a = table.add_path("/a");
    let b = table.add_path("/b");
    let sub = table.add_path("/a/sub");
    let css = table.add_path("/style/site.css");
    let png = table.add_path("/img/logo.png");
    Paths { table, a, b, sub, css, png }
}

fn hit(secs: i64, ip: u32, ua: u32, path: u32) -> LogLine {
    LogLine {
        time: Timestamp::new(secs, 0),
        ip,
        http_version: 1,
        method: 1,
        domain: 1,
        path,
        status_code: 200,
        size: 10,
        referer: 3,
        user_agent: ua,
        content_type: 1,
        compression_type: 1,
    }
}

#[test]
fn session_id_packs_address_and_user_agent() {
    assert_eq!(Session::compute_id(0, 0), 0);
    assert_eq!(Session::compute_id(1, 2), (1u64 << 32) | 2);
    assert_eq!(Session::compute_id(u32::MAX, u32::MAX), u64::MAX);
    assert_ne!(Session::compute_id(1, 2), Session::compute_id(2, 1));
    let p = paths();
    let s = get_sessions(&p.table, &vec![hit(0, 7, 9, p.a)], 30);
    assert_eq!(s[0].id(), (7u64 << 32) | 9);
}

#[test]
fn three_pages_of_one_visitor_are_one_session() {
    let p = paths();
    let lines = vec![hit(1000, 1, 1, p.a), hit(1005, 1, 1, p.b), hit(1025, 1, 1, p.sub)];
    let s = get_sessions(&p.table, &lines, 30);
    assert_eq!(s.len(), 1);
    assert_eq!(s[0].actions, vec![p.a, p.b, p.sub]);
    assert_eq!(s[0].access_times, vec![0, 5, 25]);
    assert_eq!(s[0].start_time, Timestamp::new(1000, 0));
    assert_eq!(s[0].end_time, Timestamp::new(1025, 0));
    assert_eq!(s[0].total_requests, 3);
    assert_eq!(s[0].total_bytes, 30);
    assert_eq!(s[0].referer, 3);
    assert_eq!((s[0].ip, s[0].user_agent), (1, 1));
}

#[test]
fn a_lone_style_sheet_opens_no_session() {
    let p = paths();
    let s = get_sessions(&p.table, &vec![hit(1000, 1, 1, p.css)], 30);
    assert!(s.is_empty());
    // nor does it with other visitors around
    let lines = vec![hit(1000, 2, 2, p.a), hit(1001, 1, 1, p.css), hit(1002, 2, 2, p.b)];
    let s = get_sessions(&p.table, &lines, 30);
    assert_eq!(s.len(), 1);
    assert_eq!(s[0].ip, 2);
}

#[test]
fn a_style_sheet_by_content_type_opens_no_session() {
    let p = paths();
    let mut l = hit(1000, 1, 1, p.a);
    l.content_type = 2;
    assert!(get_sessions(&p.table, &vec![l], 30).is_empty());
}

#[test]
fn an_asset_counts_for_the_totals_of_an_open_session() {
    let p = paths();
    let lines = vec![hit(1000, 1, 1, p.a), hit(1001, 1, 1, p.css), hit(1002, 1, 1, p.b)];
    let s = get_sessions(&p.table, &lines, 30);
    assert_eq!(s.len(), 1);
    assert_eq!(s[0].actions, vec![p.a, p.b]);
    assert_eq!(s[0].access_times, vec![0, 2]);
    assert_eq!(s[0].total_requests, 3);
    assert_eq!(s[0].total_bytes, 30);
    assert_eq!(s[0].end_time, Timestamp::new(1002, 0));
}

#[test]
fn an_image_right_after_a_page_is_noise() {
    let p = paths();
    let lines = vec![hit(1000, 1, 1, p.a), hit(1009, 1, 1, p.png)];
    let s = get_sessions(&p.table, &lines, 30);
    assert_eq!(s[0].actions, vec![p.a]);
    assert_eq!(s[0].total_requests, 2);
    assert_eq!(s[0].end_time, Timestamp::new(1000, 0));
}

#[test]
fn an_image_ten_seconds_after_a_page_is_an_action() {
    let p = paths();
    let lines = vec![hit(1000, 1, 1, p.a), hit(1010, 1, 1, p.png)];
    let s = get_sessions(&p.table, &lines, 30);
    assert_eq!(s[0].actions, vec![p.a, p.png]);
    assert_eq!(s[0].access_times, vec![0, 10]);
}

#[test]
fn an_image_as_first_request_opens_a_session() {
    let p = paths();
    let lines = vec![hit(1000, 1, 1, p.png), hit(1001, 1, 1, p.png)];
    let s = get_sessions(&p.table, &lines, 30);
    assert_eq!(s.len(), 1);
    assert_eq!(s[0].actions, vec![p.png]);
    assert_eq!(s[0].total_requests, 2);
}

#[test]
fn records_without_success_are_passed_over() {
    let p = paths();
    let mut lines = vec![];
    for status in [199, 300, 304, 404, 500, 0] {
        let mut l = hit(1000, 1, 1, p.a);
        l.status_code = status;
        lines.push(l);
    }
    assert!(get_sessions(&p.table, &lines, 30).is_empty());
    let mut ok = hit(1000, 1, 1, p.a);
    ok.status_code = 299;
    assert_eq!(get_sessions(&p.table, &vec![ok], 30).len(), 1);
}

#[test]
fn a_record_out_of_order_has_no_negative_time() {
    let p = paths();
    let lines = vec![hit(1000, 1, 1, p.a), hit(990, 1, 1, p.b), hit(1003, 1, 1, p.sub)];
    let s = get_sessions(&p.table, &lines, 30);
    assert_eq!(s.len(), 1);
    assert_eq!(s[0].access_times, vec![0, 0, 3]);
    assert_eq!(s[0].actions, vec![p.a, p.b, p.sub]);
}

#[test]
fn a_rested_session_is_emitted_by_the_next_record() {
    let p = paths();
    let mut tracker = SessionTracker::new(30);
    assert!(tracker.push(&p.table, &hit(1000, 1, 1, p.a)).is_empty());
    // 30 seconds later the session has not rested for more than 30 seconds
    assert!(tracker.push(&p.table, &hit(1030, 2, 2, p.a)).is_empty());
    let out = tracker.push(&p.table, &hit(1031, 3, 3, p.a));
    assert_eq!(out.len(), 1);
    assert_eq!(out[0].ip, 1);
    let rest = tracker.flush();
    assert_eq!(rest.iter().map(|s| s.ip).collect::<Vec<_>>(), vec![2, 3]);
    assert!(tracker.flush().is_empty());
}

#[test]
fn sessions_are_emitted_oldest_first() {
    let p = paths();
    let lines = vec![
        hit(1000, 5, 1, p.a),
        hit(1001, 4, 1, p.a),
        hit(1001, 3, 1, p.a),
        hit(1002, 5, 1, p.b),
        hit(2000, 9, 1, p.a),
    ];
    let s = get_sessions(&p.table, &lines, 30);
    // by end time, then by id: 3 and 4 ended at 1001, 5 at 1002
    assert_eq!(s.iter().map(|s| s.ip).collect::<Vec<_>>(), vec![3, 4, 5, 9]);
}

#[test]
fn with_no_rest_allowed_a_visitor_stays_in_one_session_while_it_is_open() {
    let p = paths();
    let lines = vec![hit(1000, 1, 1, p.a), hit(1050, 1, 1, p.b)];
    let s = get_sessions(&p.table, &lines, 0);
    assert_eq!(s.len(), 1);
    assert_eq!(s[0].actions, vec![p.a, p.b]);
    assert_eq!(s[0].access_times, vec![0, 50]);
}

#[test]
fn a_visitor_who_comes_back_after_the_sweep_has_two_sessions() {
    let p = paths();
    let lines = vec![hit(1000, 1, 1, p.a), hit(1050, 2, 2, p.a), hit(1100, 1, 1, p.b)];
    let s = get_sessions(&p.table, &lines, 0);
    assert_eq!(s.len(), 3);
    assert_eq!((s[0].ip, s[0].actions.clone()), (1, vec![p.a]));
    assert_eq!((s[1].ip, s[1].actions.clone()), (2, vec![p.a]));
    assert_eq!((s[2].ip, s[2].actions.clone()), (1, vec![p.b]));
    assert_eq!(s[2].start_time, Timestamp::new(1100, 0));
    assert_eq!(s[2].access_times, vec![0]);
}

#[test]
fn a_session_with_noise_rests_outside_the_index() {
    let p = paths();
    let lines = vec![
        hit(1000, 1, 1, p.a),
        hit(1001, 1, 1, p.css),
        hit(2000, 2, 2, p.a),
        hit(2001, 1, 1, p.b),
    ];
    let s = get_sessions(&p.table, &lines, 30);
    assert_eq!(s.len(), 2);
    let first = s.iter().find(|s| s.ip == 1).unwrap();
    assert_eq!(first.actions, vec![p.a, p.b]);
    assert_eq!(first.access_times, vec![0, 1001]);
    assert_eq!(first.total_requests, 3);
}

#[test]
fn the_end_of_the_stream_emits_every_open_session() {
    let p = paths();
    let mut lines = vec![];
    for v in 1..=20u32 {
        lines.push(hit(1000 + v as i64, v, 1, p.a));
    }
    let s = get_sessions(&p.table, &lines, 1_000_000);
    assert_eq!(s.len(), 20);
    for (i, session) in s.iter().enumerate() {
        assert_eq!(session.ip, i as u32 + 1);
        assert_eq!(session.actions.len(), session.access_times.len());
        assert!(!session.actions.is_empty());
    }
}

#[test]
fn no_records_no_sessions() {
    let p = paths();
    assert!(get_sessions(&p.table, &vec![], 30).is_empty());
}

#[test]
fn totals_stop_at_their_maximum() {
    let p = paths();
    let mut big = hit(1000, 1, 1, p.a);
    big.size = u64::MAX - 5;
    let lines = vec![big, hit(1001, 1, 1, p.b)];
    let s = get_sessions(&p.table, &lines, 30);
    assert_eq!(s[0].total_bytes, u64::MAX);
}

#[test]
fn duplicate_copies_a_session() {
    let p = paths();
    let s = get_sessions(&p.table, &vec![hit(1000, 1, 1, p.a), hit(1004, 1, 1, p.b)], 30);
    let d = s[0].duplicate();
    assert_eq!(format!("{:?}", d), format!("{:?}", s[0]));
}

#[test]
fn sessions_of_one_second_are_emitted_by_nanosecond() {
    let p = paths();
    let mut first = hit(1000, 1, 1, p.a);
    first.time = Timestamp::new(1000, 900);
    let mut second = hit(1000, 2, 1, p.a);
    second.time = Timestamp::new(1000, 100);
    let s = get_sessions(&p.table, &vec![first, second], 30);
    assert_eq!(s.iter().map(|s| s.ip).collect::<Vec<_>>(), vec![2, 1]);
}

#[test]
fn the_times_of_the_actions_rise_with_the_records() {
    let p = paths();
    let mut lines = vec![];
    let mut t = 5000;
    for i in 0..200u32 {
        t += (i * 7 % 13) as i64;
        lines.push(hit(t, i % 5, 1, if i % 3 == 0 { p.a } else { p.b }));
    }
    let sessions = get_sessions(&p.table, &lines, 20);
    let actions: usize = sessions.iter().map(|s| s.actions.len()).sum();
    assert_eq!(actions, 200);
    for s in &sessions {
        assert!(!s.actions.is_empty());
        assert_eq!(s.actions.len(), s.access_times.len());
        assert!(s.access_times.windows(2).all(|w| w[0] <= w[1]));
        assert_eq!(s.access_times[0], 0);
        assert_eq!(s.end_time.secs - s.start_time.secs, *s.access_times.last().unwrap() as i64);
    }
    // emitted in the order of the end times, but for the flush at the end
    assert!(sessions.len() > 5);
}
