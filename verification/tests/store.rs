use logparser::parser::{create_parser, LogParser};
use logparser::session::Session;
use logparser::stats::StatsOptions;
use logparser::store::{clear_sessions, load_logs, read_records, usage_stats_by_path};
use logparser::symbols::GlobalTable;
use logparser::time::Timestamp;

fn parser() -> LogParser {
    create_parser("x", vec![0; 15], "%Y-%m-%d %H:%M:%S", true).unwrap()
}

fn line(time: &str, ip: &str, path: &str, agent: &str, content_type: &str) -> String {
    format!(
        "2024-01-01 {} \"{}\" \"HTTP/1.1\" GET example.com \"{}\" 200 100 0 \"-\" \"{}\" \"-\" \"-\" \"{}\" \"-\"",
        time, ip, path, agent, content_type
    )
}

#[test]
fn three_lines_of_one_visitor_end_to_end() {
    let lines = vec![
        "2024-01-01 00:00:00 \"1.1.1.1\" \"HTTP/1.1\" GET example.com \"/a\" 200 100 0 \"-\" \"ua1\" \"-\" \"-\" \"text/html\" \"-\"".to_string(),
        line("00:00:05", "1.1.1.1", "/b", "ua1", "text/html"),
        line("00:00:25", "1.1.1.1", "/a/sub", "ua1", "text/html"),
    ];
    let mut table = GlobalTable::new();
    let mut sessions: Vec<Session> = vec![];
    let summary = load_logs(&parser(), &mut table, &mut sessions, &lines, 30);
    assert_eq!(summary.parsed_lines, 3);
    assert_eq!(summary.sessions_found, 1);
    assert_eq!(summary.sessions_kept, 1);
    assert_eq!(summary.actions, 3);
    assert_eq!(sessions.len(), 1);
    let s = &sessions[0];
    let names: Vec<&str> = s.actions.iter().map(|a| table.path.resolve(*a).unwrap()).collect();
    assert_eq!(names, vec!["/a", "/b", "/a/sub"]);
    assert_eq!(s.access_times, vec![0, 5, 25]);
    assert_eq!(s.start_time, Timestamp::new(1704067200, 0));
    assert_eq!(s.end_time, Timestamp::new(1704067225, 0));
    assert_eq!(s.total_requests, 3);
    assert_eq!(s.total_bytes, 300);
}

#[test]
fn lines_that_name_a_bot_are_not_read() {
    let lines = vec![
        line("00:00:00", "1.1.1.1", "/a", "SomeBot/1.0", "text/html"),
        line("00:00:01", "1.1.1.2", "/a", "crawlbot/2 x", "text/html"),
        line("00:00:02", "1.1.1.3", "/bot/", "Firefox", "text/html"),
        line("00:00:03", "1.1.1.4", "/a", "Firefox", "text/html"),
    ];
    let mut table = GlobalTable::new();
    let records = read_records(&parser(), &mut table, &lines);
    assert_eq!(records.len(), 1);
    assert_eq!(table.ip.len(), 1);
    assert_eq!(table.ip.get("1.1.1.4"), Some(1));
    assert_eq!(table.user_agent.get("SomeBot/1.0"), None);
}

#[test]
fn lines_that_give_no_record_are_passed_over() {
    let lines = vec![
        "garbage".to_string(),
        line("00:00:00", "1.1.1.1", "/a", "Firefox", "text/html"),
        line("99:00:00", "1.1.1.1", "/a", "Firefox", "text/html"),
        "".to_string(),
        line("00:00:09", "1.1.1.1", "/b", "Firefox", "text/html"),
    ];
    let mut table = GlobalTable::new();
    let mut sessions = vec![];
    let summary = load_logs(&parser(), &mut table, &mut sessions, &lines, 30);
    assert_eq!(summary.parsed_lines, 2);
    assert_eq!(sessions.len(), 1);
    assert_eq!(sessions[0].access_times, vec![0, 9]);
}

#[test]
fn sessions_of_bots_are_left_out() {
    let lines = vec![
        line("00:00:00", "1.1.1.1", "/a", "curl/8.0", "text/html"),
        line("00:00:01", "1.1.1.2", "/a", "Firefox", "text/html"),
        line("00:00:02", "1.1.1.3", "/a", "my spider", "text/html"),
        line("00:00:03", "1.1.1.2", "/b", "Firefox", "text/html"),
    ];
    let mut table = GlobalTable::new();
    let mut sessions = vec![];
    let summary = load_logs(&parser(), &mut table, &mut sessions, &lines, 30);
    assert_eq!(summary.parsed_lines, 4);
    assert_eq!(summary.sessions_found, 3);
    assert_eq!(summary.sessions_kept, 1);
    assert_eq!(summary.actions, 2);
    assert_eq!(sessions.len(), 1);
    assert_eq!(table.user_agent.resolve(sessions[0].user_agent), Some("Firefox"));
    assert_eq!(table.get_bots().len(), 2);
}

#[test]
fn loading_twice_adds_to_the_store() {
    let first = vec![line("00:00:00", "1.1.1.1", "/a", "Firefox", "text/html")];
    let second = vec![line("01:00:00", "1.1.1.1", "/a", "Firefox", "text/html")];
    let mut table = GlobalTable::new();
    let mut sessions = vec![];
    load_logs(&parser(), &mut table, &mut sessions, &first, 30);
    load_logs(&parser(), &mut table, &mut sessions, &second, 30);
    assert_eq!(sessions.len(), 2);
    assert_eq!(sessions[0].actions, sessions[1].actions);
    assert_eq!(table.path.len(), 9);
    let st = usage_stats_by_path(&sessions, &table, &StatsOptions::new(3600, 0, 10));
    assert_eq!(st.rows.len(), 1);
    assert_eq!(st.rows[0].category, "/a");
    assert_eq!(st.rows[0].time, vec![0, 1]);
    assert_eq!(st.rows[0].count, vec![1, 1]);
}

#[test]
fn clearing_empties_the_store() {
    let lines = vec![line("00:00:00", "1.1.1.1", "/a", "Firefox", "text/html")];
    let mut table = GlobalTable::new();
    let mut sessions = vec![];
    load_logs(&parser(), &mut table, &mut sessions, &lines, 30);
    clear_sessions(&mut sessions, &mut table);
    assert!(sessions.is_empty());
    assert_eq!(table.path.len(), 8);
    assert_eq!(table.ip.len(), 0);
    assert_eq!(table.user_agent.len(), 0);
    assert_eq!(table.content_type.len(), 11);
    assert_eq!(table.path.get("admin"), Some(7));
}
