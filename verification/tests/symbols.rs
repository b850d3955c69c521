use logparser::interner::Interner;
use logparser::parser::LogLine;
use logparser::symbols::{is_bot_user_agent, GlobalTable};
use logparser::time::Timestamp;

fn record(path: u32, content_type: u32) -> LogLine {
    LogLine {
        time: Timestamp::new(0, 0),
        ip: 1,
        http_version: 1,
        method: 1,
        domain: 1,
        path,
        status_code: 200,
        size: 0,
        referer: 1,
        user_agent: 1,
        content_type,
        compression_type: 1,
    }
}

#[test]
fn interning_starts_at_one_and_is_stable() {
    let mut d = Interner::new();
    assert_eq!(d.len(), 0);
    assert_eq!(d.intern("alpha"), 1);
    assert_eq!(d.intern("beta"), 2);
    assert_eq!(d.intern("alpha"), 1);
    assert_eq!(d.intern("gamma"), 3);
    assert_eq!(d.intern("beta"), 2);
    assert_eq!(d.len(), 3);
}

#[test]
fn resolve_inverts_intern() {
    let mut d = Interner::new();
    let words = ["", "a", "b/c", "häuschen", "a"];
    for w in words {
        let id = d.intern(w);
        assert_eq!(d.resolve(id), Some(w));
        assert_eq!(d.get(w), Some(id));
    }
    assert_eq!(d.resolve(0), None);
    assert_eq!(d.resolve(5), None);
    assert_eq!(d.get("never"), None);
}

#[test]
fn positional_dictionary_numbers_from_zero() {
    let mut d = Interner::positional();
    assert_eq!(d.intern("x"), 0);
    assert_eq!(d.intern("y"), 1);
    assert_eq!(d.resolve(0), Some("x"));
    assert_eq!(d.name_at(1), "y");
    assert_eq!(d.id_of_position(1), 1);
}

#[test]
fn sealed_dictionary_skips_one_id() {
    let mut d = Interner::positional();
    d.intern("x");
    d.intern("y");
    d.seal();
    assert_eq!(d.intern("z"), 3);
    assert_eq!(d.intern("w"), 4);
    assert_eq!(d.resolve(2), None);
    assert_eq!(d.resolve(3), Some("z"));
    assert_eq!(d.resolve(1), Some("y"));
}

#[test]
fn new_table_knows_the_seed_paths() {
    let t = GlobalTable::new();
    let seeds = ["/", "/index.html", "css", "js", "img", "rest", "api", "admin"];
    assert_eq!(t.path.len(), 8);
    for (i, s) in seeds.iter().enumerate() {
        assert_eq!(t.path.get(s), Some(i as u32));
        assert_eq!(t.path.resolve(i as u32), Some(*s));
    }
    assert_eq!(t.ip.len(), 0);
    assert_eq!(t.user_agent.len(), 0);
}

#[test]
fn new_table_knows_the_seed_content_types() {
    let mut t = GlobalTable::new();
    assert_eq!(t.content_type.get(""), Some(0));
    assert_eq!(t.content_type.get("text/html"), Some(1));
    assert_eq!(t.content_type.get("text/css"), Some(2));
    assert_eq!(t.content_type.get("application/javascript"), Some(4));
    assert_eq!(t.content_type.get("image/png"), Some(7));
    assert_eq!(t.content_type.get("image/svg+xml"), Some(10));
    // a later content type takes the number of entries plus one
    assert_eq!(t.content_type.intern("font/woff2"), 12);
    assert_eq!(t.content_type.intern("application/pdf"), 13);
}

#[test]
fn add_path_enters_the_directories_first() {
    let mut t = GlobalTable::new();
    let id = t.add_path("/a/b/c");
    assert_eq!(t.path.get("/a"), Some(8));
    assert_eq!(t.path.get("/a/b"), Some(9));
    assert_eq!(id, 10);
    assert_eq!(t.path.get("/a/b/c"), Some(10));
    assert_eq!(t.path.len(), 11);
    // a known path changes nothing
    assert_eq!(t.add_path("/a/b"), 9);
    assert_eq!(t.path.len(), 11);
}

#[test]
fn add_path_strips_trailing_slashes() {
    let mut t = GlobalTable::new();
    let a = t.add_path("/docs//");
    assert_eq!(t.path.resolve(a), Some("/docs"));
    assert_eq!(t.add_path("/docs/"), a);
    assert_eq!(t.add_path("/docs"), a);
    // the root becomes the empty path, not the seed "/"
    let root = t.add_path("/");
    assert_eq!(t.path.resolve(root), Some(""));
    assert_ne!(root, 0);
    assert_eq!(t.add_path("a//"), t.path.get("a").unwrap());
}

#[test]
fn add_path_stops_at_a_known_directory() {
    let mut t = GlobalTable::new();
    t.add_path("/x/y");
    let before = t.path.len();
    t.add_path("/x/y/z/w");
    assert_eq!(t.path.len(), before + 2);
    assert_eq!(t.path.get("/x/y/z"), Some(before as u32));
    assert_eq!(t.path.get("/x/y/z/w"), Some(before as u32 + 1));
}

#[test]
fn every_entered_path_has_its_directory() {
    let mut t = GlobalTable::new();
    for p in ["/a/b/c/d", "/a/x/", "/q//r/s", "plain", "/one"] {
        t.add_path(p);
    }
    for pos in 0..t.path.len() {
        let name = t.path.name_at(pos).to_string();
        if let Some(last) = name.rfind('/') {
            if last > 0 {
                let parent = name[..last].trim_end_matches('/');
                assert!(t.path.get(parent).is_some(), "no directory for {}", name);
            }
        }
    }
}

#[test]
fn a_path_with_its_only_slash_in_front_has_no_directory_entered() {
    let mut t = GlobalTable::new();
    t.add_path("/a");
    assert_eq!(t.path.len(), 9);
    assert_eq!(t.path.get(""), None);
}

#[test]
fn bot_words_match_only_where_a_word_ends() {
    assert!(is_bot_user_agent("mybot"));
    assert!(is_bot_user_agent("Googlebot/2.1 (+http://www.google.com/bot.html)"));
    assert!(is_bot_user_agent("curl/7.68.0"));
    assert!(is_bot_user_agent("Mozilla/5.0 (compatible; SemrushBot)"));
    assert!(is_bot_user_agent("okhttp 4"));
    assert!(!is_bot_user_agent("robotics"));
    assert!(!is_bot_user_agent("botany"));
    assert!(!is_bot_user_agent("curling"));
    assert!(!is_bot_user_agent("Mozilla/5.0 (X11; Linux x86_64) Firefox/110.0"));
    assert!(!is_bot_user_agent(""));
}

#[test]
fn bot_word_at_the_end_of_the_text_matches() {
    // the end of the text ends a word, whatever stands before the word
    assert!(is_bot_user_agent("robot"));
    assert!(is_bot_user_agent("bot"));
    assert!(is_bot_user_agent("web spider"));
}

#[test]
fn bot_word_is_found_at_a_later_occurrence() {
    assert!(is_bot_user_agent("botany bot"));
    assert!(is_bot_user_agent("robots and Zapier"));
}

#[test]
fn bot_word_before_a_character_that_is_not_ascii_matches() {
    assert!(is_bot_user_agent("boté"));
    assert!(!is_bot_user_agent("bot9"));
    assert!(!is_bot_user_agent("botZ"));
    assert!(is_bot_user_agent("bot-9"));
}

#[test]
fn get_bots_lists_bots_in_order_of_id() {
    let mut t = GlobalTable::new();
    t.user_agent.intern("Firefox");
    t.user_agent.intern("curl/8");
    t.user_agent.intern("Chrome");
    t.user_agent.intern("AhrefsBot");
    t.user_agent.intern("spider");
    let bots = t.get_bots();
    assert_eq!(bots, vec![(2, "curl/8"), (4, "AhrefsBot"), (5, "spider")]);
}

#[test]
fn meaningless_by_content_type() {
    let t = GlobalTable::new();
    for ct in [2, 3, 4] {
        assert!(t.is_meaningless(&record(0, ct)));
    }
    for ct in [0, 1, 5, 7, 10, 12] {
        assert!(!t.is_meaningless(&record(0, ct)));
    }
}

#[test]
fn meaningless_by_extension() {
    let mut t = GlobalTable::new();
    for ext in [".js", ".css", ".ico", ".svg", ".woff", ".woff2", ".ttf", ".eot", ".otf", ".feed"] {
        let id = t.add_path(&format!("/static/file{}", ext));
        assert!(t.is_meaningless(&record(id, 1)), "{}", ext);
    }
    for name in ["/page", "/a.png", "/a.json", "/js", "/a.css/x"] {
        let id = t.add_path(name);
        assert!(!t.is_meaningless(&record(id, 1)), "{}", name);
    }
}

#[test]
fn probably_meaningless_covers_images() {
    let mut t = GlobalTable::new();
    for ct in 2..=10 {
        assert!(t.is_probably_meaningless(&record(0, ct)));
    }
    assert!(!t.is_probably_meaningless(&record(0, 1)));
    assert!(!t.is_probably_meaningless(&record(0, 11)));
    for ext in [".png", ".jpg", ".gif", ".svg"] {
        let id = t.add_path(&format!("/i/pic{}", ext));
        assert!(t.is_probably_meaningless(&record(id, 1)), "{}", ext);
    }
    let page = t.add_path("/i/pic.jpeg");
    assert!(!t.is_probably_meaningless(&record(page, 1)));
}

#[test]
fn a_record_with_an_unknown_path_is_judged_by_its_content_type() {
    let t = GlobalTable::new();
    assert!(!t.is_meaningless(&record(4000, 1)));
    assert!(t.is_meaningless(&record(4000, 3)));
    assert!(!t.is_probably_meaningless(&record(4000, 1)));
}

#[test]
fn can_take_a_line() {
    let t = GlobalTable::new();
    assert!(t.can_take(0));
    assert!(t.can_take(1 << 20));
    assert!(!t.can_take(u32::MAX as usize));
}

#[test]
fn very_long_paths_are_entered() {
    let mut t = GlobalTable::new();
    let slashes = "/x".to_string() + &"/".repeat(300_000);
    let id = t.add_path(&slashes);
    assert_eq!(t.path.resolve(id), Some("/x"));
    let mut deep = String::new();
    for _ in 0..20_000 {
        deep.push_str("/d");
    }
    let before = t.path.len();
    let id = t.add_path(&deep);
    assert_eq!(t.path.len(), before + 20_000);
    assert_eq!(id as usize, t.path.len() - 1);
    assert_eq!(t.path.get("/d"), Some(before as u32));
    assert_eq!(t.path.get("/d/d/d"), Some(before as u32 + 2));
    assert_eq!(t.add_path(&deep), id);
}
