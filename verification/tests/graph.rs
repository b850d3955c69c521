use logparser::graph::{
    calc_graph, dedupe_actions, get_global_replacement_table, get_usage_table_sum, reduce_paths,
    reduce_sessions, replace_actions,
};
use logparser::session::Session;
use logparser::stats::StatsOptions;
use logparser::store::usage_transfer_graph;
use logparser::symbols::GlobalTable;
use logparser::time::Timestamp;
use std::collections::HashMap;

fn session(requests: u32, steps: &[(u32, u32)]) -> Session {
    Session {
        ip: 1,
        user_agent: 1,
        referer: 1,
        start_time: Timestamp::new(1000, 0),
        end_time: Timestamp::new(1000 + steps.last().map(|s| s.1).unwrap_or(0) as i64, 0),
        access_times: steps.iter().map(|s| s.1).collect(),
        actions: steps.iter().map(|s| s.0).collect(),
        total_requests: requests,
        total_bytes: 0,
    }
}

fn actions(sessions: &Vec<Session>) -> Vec<Vec<u32>> {
    sessions.iter().map(|s| s.actions.clone()).collect()
}

#[test]
fn runs_of_equal_actions_collapse_to_their_first() {
    let mut s = session(4, &[(8, 0), (8, 1), (9, 2), (8, 3), (8, 9), (8, 12)]);
    dedupe_actions(&mut s);
    assert_eq!(s.actions, vec![8, 9, 8]);
    assert_eq!(s.access_times, vec![0, 2, 3]);
    assert_eq!(s.total_requests, 4);
    let mut one = session(1, &[(8, 5)]);
    dedupe_actions(&mut one);
    assert_eq!((one.actions, one.access_times), (vec![8], vec![5]));
}

#[test]
fn actions_are_replaced_by_the_table() {
    let mut s = session(4, &[(8, 0), (9, 1), (10, 2), (9, 3)]);
    let mut table = HashMap::new();
    table.insert(9, 20);
    table.insert(10, 10);
    table.insert(11, 0);
    assert_eq!(replace_actions(&mut s, &table), 3);
    assert_eq!(s.actions, vec![8, 20, 10, 20]);
    assert_eq!(s.access_times, vec![0, 1, 2, 3]);
    assert_eq!(replace_actions(&mut s, &HashMap::new()), 0);
}

#[test]
fn groups_of_paths_have_one_path_that_stands_for_them() {
    let mut t = GlobalTable::new();
    let docs_index = t.add_path("/docs/index.html");
    let docs = t.path.get("/docs").unwrap();
    let style = t.add_path("/static/site.css");
    let script = t.add_path("/static/app.js");
    let admin = t.add_path("/admin/users");
    let private = t.add_path("/priv/notes");
    let admin_style = t.add_path("/admin/look.css");
    let page = t.add_path("/page");
    let map = get_global_replacement_table(&t);
    assert_eq!(map.get(&docs_index), Some(&docs));
    assert_eq!(map.get(&style), Some(&2));
    assert_eq!(map.get(&script), Some(&3));
    assert_eq!(map.get(&admin), Some(&7));
    assert_eq!(map.get(&private), Some(&7));
    // the ending decides before the beginning
    assert_eq!(map.get(&admin_style), Some(&2));
    assert_eq!(map.get(&page), None);
    assert_eq!(map.get(&docs), None);
    assert_eq!(map.get(&t.path.get("/admin").unwrap()), Some(&7));
    // the seed "/index.html" has no known directory
    assert_eq!(map.get(&1), None);
    assert_eq!(map.get(&2), None);
}

#[test]
fn the_root_index_stands_for_the_root_once_the_root_is_known() {
    let mut t = GlobalTable::new();
    let root = t.add_path("/");
    let map = get_global_replacement_table(&t);
    assert_eq!(map.get(&1), Some(&root));
}

#[test]
fn usage_is_counted_over_all_sessions() {
    let sessions = vec![session(1, &[(8, 0), (9, 1), (8, 2)]), session(1, &[(9, 0), (9, 1), (50, 2)])];
    assert_eq!(get_usage_table_sum(&sessions, 11, 1, 10), vec![(9, 3), (8, 2)]);
    assert_eq!(get_usage_table_sum(&sessions, 11, 3, 10), vec![(9, 3)]);
    assert_eq!(get_usage_table_sum(&sessions, 11, 1, 1), vec![(9, 3)]);
    // with the threshold 0 the unused paths are listed too, by id
    assert_eq!(
        get_usage_table_sum(&sessions, 11, 0, 5),
        vec![(9, 3), (8, 2), (0, 0), (1, 0), (2, 0)]
    );
    assert_eq!(get_usage_table_sum(&sessions, 9, 1, 10), vec![(8, 2)]);
}

#[test]
fn rare_deep_paths_are_folded_into_their_directory() {
    let mut t = GlobalTable::new();
    let z = t.add_path("/x/y/z");
    let w = t.add_path("/x/y/w");
    let xy = t.path.get("/x/y").unwrap();
    let sessions = vec![session(1, &[(z, 0)]), session(1, &[(w, 0)])];
    let (reduced, top) = reduce_sessions(sessions, &t, 2, 10);
    assert_eq!(actions(&reduced), vec![vec![xy], vec![xy]]);
    assert_eq!(top, vec![("/x/y".to_string(), 2), ("Rest".to_string(), 0)]);
}

#[test]
fn folding_stops_at_one_slash() {
    let mut t = GlobalTable::new();
    let deep = t.add_path("/p/q/r/s");
    let p = t.path.get("/p").unwrap();
    let sessions = vec![session(1, &[(deep, 0), (deep, 5)])];
    let (reduced, top) = reduce_sessions(sessions, &t, 5, 10);
    assert_eq!(actions(&reduced), vec![vec![p, p]]);
    assert_eq!(reduced[0].access_times, vec![0, 5]);
    assert_eq!(top, vec![("Rest".to_string(), 0)]);
}

#[test]
fn the_deepest_paths_are_folded_first() {
    let mut t = GlobalTable::new();
    let abc = t.add_path("/a/b/c");
    let ab = t.path.get("/a/b").unwrap();
    let de = t.add_path("/d/e");
    let sessions =
        vec![session(1, &[(abc, 0)]), session(1, &[(ab, 0)]), session(1, &[(de, 0)])];
    // after one round "/a/b" is used twice and has its own node; "/d/e" is
    // then the deepest of the others and is folded in the second round
    let (reduced, top) = reduce_paths(sessions, &t, 2, 10);
    let d = t.path.get("/d").unwrap();
    assert_eq!(actions(&reduced), vec![vec![ab], vec![ab], vec![d]]);
    assert_eq!(top, vec![(ab, 2)]);
}

#[test]
fn paths_with_a_node_are_not_folded() {
    let mut t = GlobalTable::new();
    let deep = t.add_path("/k/l/m/n");
    let sessions = vec![session(1, &[(deep, 0), (deep, 1), (8, 2)])];
    let (reduced, top) = reduce_sessions(sessions, &t, 2, 10);
    assert_eq!(actions(&reduced), vec![vec![deep, deep, 8]]);
    assert_eq!(top, vec![("/k/l/m/n".to_string(), 2), ("Rest".to_string(), 0)]);
}

#[test]
fn the_list_of_nodes_is_never_longer_than_asked_for_and_one() {
    let mut t = GlobalTable::new();
    let mut steps = vec![];
    for i in 0..30u32 {
        let id = t.add_path(&format!("/s{}/t{}/u{}", i % 5, i % 3, i));
        steps.push((id, i));
    }
    for max in [0u32, 1, 3, 7, 100] {
        let (reduced, top) = reduce_sessions(vec![session(30, &steps)], &t, 1, max);
        assert!(top.len() <= max as usize + 1);
        assert_eq!(top.last().unwrap(), &("Rest".to_string(), 0));
        assert_eq!(reduced[0].actions.len(), 30);
        // one more round changes nothing
        let again = reduce_sessions(
            vec![session(30, &reduced[0].actions.iter().map(|a| (*a, 0)).collect::<Vec<_>>())],
            &t,
            1,
            max,
        );
        assert_eq!(again.0[0].actions, reduced[0].actions);
        assert_eq!(again.1, top);
    }
}

#[test]
fn the_reduction_stops_after_a_thousand_rounds() {
    let mut t = GlobalTable::new();
    let mut name = String::new();
    for i in 0..1100 {
        name.push_str(&format!("/s{}", i));
    }
    let deep = t.add_path(&name);
    let (reduced, top) = reduce_sessions(vec![session(1, &[(deep, 0)])], &t, 2, 10);
    let left = t.path.resolve(reduced[0].actions[0]).unwrap();
    assert_eq!(left.matches('/').count(), 100);
    assert!(name.starts_with(left));
    assert_eq!(top, vec![("Rest".to_string(), 0)]);
    // a path that is less deep settles at one slash
    let mut short = String::new();
    for i in 0..900 {
        short.push_str(&format!("/r{}", i));
    }
    let id = t.add_path(&short);
    let (reduced, _) = reduce_sessions(vec![session(1, &[(id, 0)])], &t, 2, 10);
    assert_eq!(t.path.resolve(reduced[0].actions[0]), Some("/r0"));
}

fn graph_table() -> GlobalTable {
    let mut t = GlobalTable::new();
    assert_eq!(t.add_path("/a"), 8);
    assert_eq!(t.add_path("/b"), 9);
    assert_eq!(t.add_path("/c"), 10);
    t
}

#[test]
fn the_graph_counts_the_steps_of_the_sessions() {
    let t = graph_table();
    let sessions = vec![
        session(7, &[(8, 0), (9, 10), (10, 30)]),
        session(8, &[(8, 0), (10, 4)]),
        session(7, &[(8, 0), (9, 20)]),
    ];
    let g = calc_graph(&sessions, &t, 3, &StatsOptions::new(60, 2, 10), "", "");
    assert_eq!(g.layers.len(), 3);
    for layer in &g.layers {
        let names: Vec<&str> = layer.nodes.iter().map(|n| n.path.as_str()).collect();
        assert_eq!(names, vec!["/a", "/b", "/c", "Rest"]);
        let ids: Vec<u32> = layer.nodes.iter().map(|n| n.path_id).collect();
        assert_eq!(ids, vec![8, 9, 10, 0]);
    }
    let first = &g.layers[0].nodes;
    assert_eq!(first[0].session_count, 3);
    assert_eq!(first[0].drop_count, 0);
    assert_eq!(first[0].median_view_time, 10);
    assert_eq!(first[0].transfer_count.get(&1), Some(&2));
    assert_eq!(first[0].transfer_count.get(&2), Some(&1));
    assert_eq!(first[0].transfer_count.len(), 2);
    assert_eq!(first[1].session_count, 0);
    assert_eq!(first[1].median_view_time, 0);
    assert!(first[1].transfer_count.is_empty());

    let second = &g.layers[1].nodes;
    assert_eq!((second[1].session_count, second[1].drop_count), (2, 1));
    assert_eq!(second[1].median_view_time, 20);
    assert_eq!(second[1].transfer_count.get(&2), Some(&1));
    assert_eq!((second[2].session_count, second[2].drop_count), (1, 1));
    assert_eq!(second[0].session_count, 0);

    let third = &g.layers[2].nodes;
    assert_eq!((third[2].session_count, third[2].drop_count), (1, 1));
    assert_eq!(third[2].median_view_time, 0);
    assert_eq!(third[3].session_count, 0);
}

#[test]
fn the_median_of_an_even_number_of_samples_is_the_upper_one() {
    let t = graph_table();
    let sessions = vec![
        session(7, &[(8, 0), (9, 40)]),
        session(7, &[(8, 0), (9, 10)]),
        session(7, &[(8, 0), (9, 30)]),
        session(7, &[(8, 0), (9, 20)]),
    ];
    let g = calc_graph(&sessions, &t, 1, &StatsOptions::new(60, 1, 10), "", "");
    assert_eq!(g.layers[0].nodes[0].median_view_time, 30);
}

#[test]
fn short_long_and_poor_sessions_are_not_counted() {
    let t = graph_table();
    let long: Vec<(u32, u32)> = (0..41).map(|i| (8 + (i % 2), i)).collect();
    let forty: Vec<(u32, u32)> = (0..40).map(|i| (8 + (i % 2), i)).collect();
    let sessions = vec![
        session(100, &[(8, 0)]),
        session(6, &[(8, 0), (9, 1)]),
        session(100, &long),
        session(100, &forty),
    ];
    let g = calc_graph(&sessions, &t, 2, &StatsOptions::new(60, 1, 10), "", "");
    let total: u32 = g.layers[0].nodes.iter().map(|n| n.session_count).sum();
    assert_eq!(total, 1);
}

#[test]
fn paths_without_a_node_go_to_rest() {
    let t = graph_table();
    let sessions = vec![
        session(7, &[(8, 0), (9, 10)]),
        session(7, &[(8, 0), (10, 5)]),
        session(7, &[(10, 0), (8, 5)]),
    ];
    // only "/a" is used three times
    let g = calc_graph(&sessions, &t, 2, &StatsOptions::new(60, 3, 10), "", "");
    let first = &g.layers[0].nodes;
    assert_eq!(first.len(), 2);
    assert_eq!(first[0].path, "/a");
    assert_eq!(first[1].path, "Rest");
    assert_eq!((first[0].session_count, first[1].session_count), (2, 1));
    assert_eq!(first[0].transfer_count.get(&1), Some(&2));
    assert_eq!(first[1].transfer_count.get(&0), Some(&1));
    assert_eq!(first[1].median_view_time, 5);
}

#[test]
fn a_session_enters_the_graph_at_its_first_matching_path() {
    let mut t = GlobalTable::new();
    let home = t.add_path("/home");
    let shop = t.add_path("/shop");
    let cart = t.add_path("/shop/cart");
    let pay = t.add_path("/pay");
    let sessions = vec![
        session(9, &[(home, 0), (shop, 5), (shop, 6), (cart, 9), (pay, 20)]),
        session(9, &[(home, 0), (pay, 5)]),
        session(9, &[(cart, 0), (home, 5)]),
    ];
    // "must start with" is a test for a part of the name, as is "must contain"
    let g = usage_transfer_graph(&sessions, &t, &StatsOptions::new(60, 1, 10), 4, "pay", "hop");
    let names: Vec<&str> = g.layers[0].nodes.iter().map(|n| n.path.as_str()).collect();
    // each path is used once: the smaller id comes first
    assert_eq!(names, vec!["/shop", "/shop/cart", "/pay", "Rest"]);
    // only the first session has "hop" and then "pay": shop, cart, pay
    assert_eq!(g.layers[0].nodes[0].session_count, 1);
    assert_eq!(g.layers[0].nodes[0].median_view_time, 4);
    assert_eq!(g.layers[0].nodes[0].transfer_count.get(&1), Some(&1));
    assert_eq!(g.layers[1].nodes[1].session_count, 1);
    assert_eq!(g.layers[1].nodes[1].median_view_time, 11);
    assert_eq!(g.layers[2].nodes[2].session_count, 1);
    assert_eq!(g.layers[2].nodes[2].drop_count, 1);
    let third: u32 = g.layers[3].nodes.iter().map(|n| n.session_count).sum();
    assert_eq!(third, 0);
}

#[test]
fn times_that_run_backwards_give_no_negative_dwell() {
    let t = graph_table();
    let sessions = vec![session(7, &[(8, 50), (9, 20)])];
    let g = calc_graph(&sessions, &t, 1, &StatsOptions::new(60, 1, 10), "", "");
    assert_eq!(g.layers[0].nodes[0].median_view_time, 0);
    assert_eq!(g.layers[0].nodes[0].session_count, 1);
}

#[test]
fn a_graph_of_no_layers_or_no_sessions() {
    let t = graph_table();
    let sessions = vec![session(7, &[(8, 0), (9, 10)])];
    let g = calc_graph(&sessions, &t, 0, &StatsOptions::new(60, 1, 10), "", "");
    assert!(g.layers.is_empty());
    let g = calc_graph(&vec![], &t, 2, &StatsOptions::new(60, 1, 10), "", "");
    assert_eq!(g.layers.len(), 2);
    assert_eq!(g.layers[0].nodes.len(), 1);
    assert_eq!(g.layers[0].nodes[0].path, "Rest");
}

#[test]
fn a_path_named_rest_gives_the_rest_node_its_id() {
    let mut t = graph_table();
    let rest = t.add_path("Rest");
    let g = calc_graph(&vec![], &t, 1, &StatsOptions::new(60, 1, 10), "", "");
    assert_eq!(g.layers[0].nodes[0].path_id, rest);
}
