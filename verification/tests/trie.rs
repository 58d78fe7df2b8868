use octane::path::PathBuf;
use octane::trie::{bindings, PathNode};

fn path(text: &str) -> PathBuf {
    PathBuf::parse(text).unwrap()
}

fn found(trie: &PathNode<u32>, text: &str) -> Vec<(u32, usize)> {
    trie.get(&path(text)).iter().map(|m| (*m.data, m.index)).collect()
}

#[test]
fn empty_trie_finds_nothing() {
    let trie: PathNode<u32> = PathNode::new();
    assert!(trie.get(&path("/")).is_empty());
    assert!(trie.get(&path("/a/b")).is_empty());
}

#[test]
fn literal_matches_only_its_text() {
    let mut trie = PathNode::new();
    trie.insert(&path("/users/list"), 1u32, 0);
    assert_eq!(found(&trie, "/users/list"), vec![(1, 0)]);
    assert!(found(&trie, "/users/other").is_empty());
    assert!(found(&trie, "/users").is_empty());
    assert!(found(&trie, "/users/list/more").is_empty());
}

#[test]
fn wildcard_and_variable_match_one_component() {
    let mut trie = PathNode::new();
    trie.insert(&path("/files/*"), 1u32, 0);
    trie.insert(&path("/users/:id"), 2u32, 1);
    assert_eq!(found(&trie, "/files/a.txt"), vec![(1, 0)]);
    assert_eq!(found(&trie, "/users/42"), vec![(2, 1)]);
    assert!(found(&trie, "/files").is_empty());
    assert!(found(&trie, "/files/a/b").is_empty());
}

#[test]
fn lookup_explores_literal_wildcard_and_variable() {
    let mut trie = PathNode::new();
    trie.insert(&path("/users/:id"), 10u32, 0);
    trie.insert(&path("/users/me"), 20u32, 1);
    trie.insert(&path("/users/*"), 30u32, 2);
    trie.insert(&path("/:kind/me"), 40u32, 3);
    assert_eq!(found(&trie, "/users/me"), vec![(10, 0), (20, 1), (30, 2), (40, 3)]);
    assert_eq!(found(&trie, "/users/you"), vec![(10, 0), (30, 2)]);
    assert_eq!(found(&trie, "/cats/me"), vec![(40, 3)]);
}

#[test]
fn results_come_in_order_of_index_not_of_insertion() {
    let mut trie = PathNode::new();
    trie.insert(&path("/a/*"), 1u32, 7);
    trie.insert(&path("/a/b"), 2u32, 3);
    trie.insert(&path("/:x/b"), 3u32, 5);
    trie.insert(&path("/a/b"), 4u32, 1);
    assert_eq!(found(&trie, "/a/b"), vec![(4, 1), (2, 3), (3, 5), (1, 7)]);
}

#[test]
fn equal_indices_keep_literal_before_wildcard_before_variable() {
    let mut trie = PathNode::new();
    trie.insert(&path("/:x"), 3u32, 0);
    trie.insert(&path("/*"), 2u32, 0);
    trie.insert(&path("/a"), 1u32, 0);
    assert_eq!(found(&trie, "/a"), vec![(1, 0), (2, 0), (3, 0)]);
}

#[test]
fn duplicate_patterns_all_fire() {
    let mut trie = PathNode::new();
    trie.insert(&path("/"), 1u32, 0);
    trie.insert(&path("/"), 2u32, 1);
    assert_eq!(found(&trie, "/"), vec![(1, 0), (2, 1)]);
}

#[test]
fn variables_are_bound_by_name() {
    let mut trie = PathNode::new();
    trie.insert(&path("/users/:id/posts/:post"), 1u32, 0);
    trie.insert(&path("/users/:user/posts/*"), 2u32, 1);
    let matches = trie.get(&path("/users/42/posts/7"));
    assert_eq!(matches.len(), 2);
    assert_eq!(
        matches[0].vars,
        vec![("id".to_string(), "42".to_string()), ("post".to_string(), "7".to_string())]
    );
    assert_eq!(matches[1].vars, vec![("user".to_string(), "42".to_string())]);
}

#[test]
fn pattern_variables_have_name_and_position() {
    let vars = bindings(&path("/a/:b/*/:d"));
    assert_eq!(vars.len(), 2);
    assert_eq!(vars[0].name, "b");
    assert_eq!(vars[0].position, 1);
    assert_eq!(vars[1].name, "d");
    assert_eq!(vars[1].position, 3);
}

#[test]
fn empty_component_matches_no_wildcard_or_variable() {
    let mut trie = PathNode::new();
    trie.insert(&path("/a/*"), 1u32, 0);
    trie.insert(&path("/a/:x"), 2u32, 1);
    let with_empty = PathBuf { chunks: vec!["a".to_string(), String::new()] };
    assert!(trie.get(&with_empty).is_empty());
}

#[test]
fn extend_puts_shifted_leaves_behind() {
    let mut first = PathNode::new();
    first.insert(&path("/a"), 1u32, 0);
    first.insert(&path("/b/:x"), 2u32, 1);
    let mut second = PathNode::new();
    second.insert(&path("/a"), 3u32, 0);
    second.insert(&path("/b/c"), 4u32, 1);
    second.insert(&path("/d"), 5u32, 2);
    first.extend(second, 2);
    assert_eq!(found(&first, "/a"), vec![(1, 0), (3, 2)]);
    assert_eq!(found(&first, "/b/c"), vec![(2, 1), (4, 3)]);
    assert_eq!(found(&first, "/d"), vec![(5, 4)]);
}

#[test]
fn keys_are_compared_by_kind_and_text() {
    let a = octane::trie::PathKey::Static("a".to_string());
    let b = octane::trie::PathKey::Static("b".to_string());
    let w = octane::trie::PathKey::Wildcard;
    let v = octane::trie::PathKey::Variable;
    assert!(a.same(&octane::trie::PathKey::Static("a".to_string())));
    assert!(!a.same(&b));
    assert!(!a.same(&w));
    assert!(w.same(&octane::trie::PathKey::Wildcard));
    assert!(!w.same(&v));
    assert!(v.same(&octane::trie::PathKey::Variable));
}

#[test]
fn paths_hold_one_trie_for_each_method() {
    let mut paths = octane::registry::Paths::new();
    assert_eq!(paths.len(), 0);
    assert!(paths.get(&octane::request::RequestMethod::Get).is_none());
    paths.insert(
        octane::request::RequestMethod::Get,
        &path("/a"),
        octane::router::route(|_req, _res| octane::router::Flow::Next),
        0,
    );
    paths.insert(
        octane::request::RequestMethod::Get,
        &path("/b"),
        octane::router::route(|_req, _res| octane::router::Flow::Next),
        1,
    );
    paths.insert(
        octane::request::RequestMethod::Put,
        &path("/a"),
        octane::router::route(|_req, _res| octane::router::Flow::Next),
        2,
    );
    assert_eq!(paths.len(), 2);
    let get = paths.get(&octane::request::RequestMethod::Get).unwrap();
    assert_eq!(get.get(&path("/b")).len(), 1);
    assert_eq!(get.get(&path("/b"))[0].index, 1);
    let mut other = octane::registry::Paths::new();
    other.insert(
        octane::request::RequestMethod::Put,
        &path("/a"),
        octane::router::route(|_req, _res| octane::router::Flow::Next),
        0,
    );
    other.insert(
        octane::request::RequestMethod::Post,
        &path("/c"),
        octane::router::route(|_req, _res| octane::router::Flow::Next),
        1,
    );
    paths.extend(other, 3);
    assert_eq!(paths.len(), 3);
    let put: Vec<usize> = paths
        .get(&octane::request::RequestMethod::Put)
        .unwrap()
        .get(&path("/a"))
        .iter()
        .map(|m| m.index)
        .collect();
    assert_eq!(put, vec![2, 3]);
    let post = paths.get(&octane::request::RequestMethod::Post).unwrap();
    assert_eq!(post.get(&path("/c"))[0].index, 4);
}
