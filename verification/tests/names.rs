use schedule_graph::layer_graph::{LayerGraph, LayerNode};
use schedule_graph::node::NodeId;
use schedule_graph::shorten_type::{
    chars_of, find_spaces, shorten_pair, shorten_systems, split_sections, FunctionName,
};
use schedule_graph::tables::NameTable;

fn sys(i: usize) -> NodeId {
    NodeId::System(i)
}

fn set(i: usize) -> NodeId {
    NodeId::SystemSet(i)
}

fn short(full_name: &str) -> String {
    FunctionName::new(full_name).shortest()
}

fn pair(first: &str, second: &str) -> (String, String) {
    shorten_pair(FunctionName::new(first), FunctionName::new(second))
}

#[test]
fn chars_of_lists_every_character() {
    assert_eq!(chars_of("a:b"), vec!['a', ':', 'b']);
    assert_eq!(chars_of(""), Vec::new());
    assert_eq!(chars_of("\u{e9}\u{2003}z"), vec!['\u{e9}', '\u{2003}', 'z']);
}

#[test]
fn find_spaces_marks_white_space() {
    let chars = chars_of(" a\t\u{2003}b\n");
    assert_eq!(find_spaces(&chars), vec![true, false, true, true, false, true]);
    assert_eq!(find_spaces(&Vec::new()), Vec::<bool>::new());
}

#[test]
fn split_sections_trims_what_is_marked() {
    let name = " a::b ,c";
    let chars = chars_of(name);
    let marked = find_spaces(&chars);
    assert_eq!(
        split_sections(name, &chars, &marked),
        vec![vec!["a".to_string(), "b ,".to_string()], vec!["c".to_string()]]
    );
    let unmarked = vec![false; chars.len()];
    assert_eq!(
        split_sections(name, &chars, &unmarked),
        vec![vec![" a".to_string(), "b ,".to_string()], vec!["c".to_string()]]
    );
    let all = vec![true; chars.len()];
    assert_eq!(
        split_sections(name, &chars, &all),
        vec![vec![String::new()], vec![String::new()]]
    );
}

#[test]
fn shortest_keeps_the_last_block() {
    assert_eq!(short("bevy_app::main_schedule::Main::run_main"), "run_main");
    assert_eq!(short("plain"), "plain");
}

#[test]
fn shortest_keeps_the_last_block_of_each_section() {
    assert_eq!(short("game::physics::step<game::Body>"), "step<Body>");
    assert_eq!(short("(a::b, c::d)"), "(b,d)");
    assert_eq!(short("x::f[y::g;z::h]"), "f[g;h]");
}

#[test]
fn closure_suffix_is_left_out() {
    assert_eq!(short("game::setup::{{closure}}"), "setup");
    assert_eq!(short("x::y::{{closure}}::{{closure}}"), "y");
    assert_eq!(short("::{{closure}}"), "");
    assert_eq!(short("game::{{closure}}::inner"), "inner");
}

#[test]
fn empty_name_has_no_section() {
    assert_eq!(short(""), "");
}

#[test]
fn blocks_split_at_the_first_colons() {
    assert_eq!(short("a:::b"), ":b");
    assert_eq!(short("alpha::beta::"), "");
    assert_eq!(short("a:b"), "a:b");
    assert_eq!(short("::"), "");
}

#[test]
fn white_space_is_cut_at_the_ends_of_a_section() {
    assert_eq!(short("  spaced::name  ;tail"), "name  ;tail");
    assert_eq!(short("a::b<\u{2003}c::d >"), "b<d >");
    assert_eq!(short("   "), "");
    assert_eq!(short(" a::b\t"), "b");
    assert_eq!(short("f(\n x::y)"), "f(y)");
}

#[test]
fn pair_of_names_keeps_what_tells_them_apart() {
    assert_eq!(
        pair("game::physics::step", "game::render::step"),
        ("physics::step".to_string(), "render::step".to_string())
    );
    assert_eq!(pair("a::b::c", "a::x::c"), ("b::c".to_string(), "x::c".to_string()));
}

#[test]
fn pair_of_equal_names_keeps_the_last_blocks() {
    assert_eq!(pair("p::q", "p::q"), ("q".to_string(), "q".to_string()));
    assert_eq!(
        pair("k::f(a::b, c)", "k::f(a::b, c)"),
        ("f(b, c)".to_string(), "f(b, c)".to_string())
    );
}

#[test]
fn pair_of_names_with_sections() {
    assert_eq!(
        pair("a::b<c::d>", "a::b<e::d>"),
        ("b<c::d>".to_string(), "b<e::d>".to_string())
    );
}

#[test]
fn pair_of_names_gets_a_space_after_a_comma() {
    assert_eq!(
        pair("crate::one::run,", "crate::two::run,"),
        ("one::run, ".to_string(), "two::run, ".to_string())
    );
}

#[test]
fn pair_of_names_that_differ_twice() {
    assert_eq!(
        pair("m::a::x::y", "n::b::x::y"),
        ("a::x::ym::y::x".to_string(), "b::x::yn::y::x".to_string())
    );
    assert_eq!(
        pair("a::b::c::d", "z::b::y::d"),
        ("c::da::b::d".to_string(), "y::dz::b::d".to_string())
    );
}

#[test]
fn pair_of_names_stops_at_the_shorter_name() {
    assert_eq!(pair("a::b<c>", "a::b<"), ("b<".to_string(), "b<".to_string()));
    assert_eq!(pair("", "a::b"), (String::new(), String::new()));
}

#[test]
fn name_table_keeps_the_last_name() {
    let mut names = NameTable::new();
    assert_eq!(names.get(sys(1)), None);
    names.insert(sys(1), "one".to_string());
    names.insert(set(1), "group".to_string());
    assert_eq!(names.get(sys(1)), Some("one".to_string()));
    assert_eq!(names.get(set(1)), Some("group".to_string()));
    names.insert(sys(1), "uno".to_string());
    assert_eq!(names.get(sys(1)), Some("uno".to_string()));
    assert_eq!(names.get(sys(2)), None);
}

#[test]
fn systems_get_their_short_names() {
    let mut names = NameTable::new();
    names.insert(sys(1), "game::physics::step".to_string());
    names.insert(sys(2), "game::render::draw<game::Sprite>".to_string());
    names.insert(sys(3), "game::setup::{{closure}}".to_string());
    let short_names = shorten_systems(&names);
    assert_eq!(short_names.get(sys(1)), Some("step".to_string()));
    assert_eq!(short_names.get(sys(2)), Some("draw<Sprite>".to_string()));
    assert_eq!(short_names.get(sys(3)), Some("setup".to_string()));
    assert_eq!(short_names.get(sys(4)), None);
    assert_eq!(names.get(sys(1)), Some("game::physics::step".to_string()));
}

#[test]
fn no_system_gives_no_short_name() {
    let short_names = shorten_systems(&NameTable::new());
    assert_eq!(short_names.get(sys(0)), None);
}

#[test]
fn default_layer_graph_is_empty() {
    let graph = LayerGraph::default();
    assert!(graph.layers.is_empty());
    assert!(!graph.node(&sys(0)).is_some());
    assert_eq!(graph.node_edges(&sys(0)), None);
}

#[test]
fn layer_graph_remembers_names_and_edges() {
    let mut graph = LayerGraph::default();
    graph.add_node(sys(1), LayerNode::System("first".to_string()));
    graph.add_node(set(2), LayerNode::SystemSet("group".to_string(), LayerGraph::default()));
    graph.add_edges(sys(1), vec![set(2), sys(3)]);
    graph.layers = vec![vec![sys(1)], vec![set(2)]];
    assert_eq!(graph.node_name(&sys(1)), "first");
    assert_eq!(graph.node_name(&set(2)), "group");
    assert!(graph.node(&sys(1)).is_some());
    assert!(!graph.node(&sys(3)).is_some());
    assert_eq!(graph.node_edges(&sys(1)), Some(vec![set(2), sys(3)]));
    assert_eq!(graph.node_edges(&set(2)), None);
    assert_eq!(graph.layers.len(), 2);
}

#[test]
fn layer_graph_replaces_a_node_and_its_edges() {
    let mut graph = LayerGraph::default();
    graph.add_node(sys(1), LayerNode::System("old".to_string()));
    graph.add_node(sys(1), LayerNode::System("new".to_string()));
    graph.add_edges(sys(1), vec![sys(2)]);
    graph.add_edges(sys(1), vec![sys(3)]);
    assert_eq!(graph.node_name(&sys(1)), "new");
    assert_eq!(graph.node_edges(&sys(1)), Some(vec![sys(3)]));
}
