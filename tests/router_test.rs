use usher::parser::{DynamicParser, Parser, StaticParser};
use usher::router::Router;

#[test]
fn basic_routing() {
    let mut router: Router<usize> = Router::new(vec![Box::new(StaticParser)]);

    router.insert("/1", 1);
    router.insert("/2", 2);
    router.insert("/3", 3);

    let n1 = router.lookup("/1");
    let n2 = router.lookup("/2");
    let n3 = router.lookup("/3");
    let n4 = router.lookup("/4");

    assert_eq!(n1, Some((&1, vec![])));
    assert_eq!(n2, Some((&2, vec![])));
    assert_eq!(n3, Some((&3, vec![])));
    assert_eq!(n4, None);
}

#[test]
fn nested_routing() {
    let mut router: Router<usize> = Router::new(vec![Box::new(StaticParser)]);

    router.insert("/number/1", 1);
    router.insert("/number/2", 2);
    router.insert("/number/3", 3);

    let n1 = router.lookup("/number/1");
    let n2 = router.lookup("/number/2");
    let n3 = router.lookup("/number/3");
    let n4 = router.lookup("/number/4");

    assert_eq!(n1, Some((&1, vec![])));
    assert_eq!(n2, Some((&2, vec![])));
    assert_eq!(n3, Some((&3, vec![])));
    assert_eq!(n4, None);
}

#[test]
fn captured_routing() {
    let mut router: Router<()> =
        Router::new(vec![Box::new(DynamicParser), Box::new(StaticParser)]);

    router.insert("/:id", ());

    let n1 = router.lookup("/1");
    let n2 = router.lookup("/1/1");
    let n3 = router.lookup("/");

    assert_eq!(n1, Some((&(), vec![("id", (1, 2))])));
    assert_eq!(n2, None);
    assert_eq!(n3, None);
}

#[test]
fn static_path_round_trip() {
    let mut router: Router<&str> = Router::new(vec![Box::new(StaticParser)]);
    router.insert("/a/b/c", "abc");
    assert_eq!(router.lookup("/a/b/c"), Some((&"abc", vec![])));
    assert_eq!(router.lookup("a/b/c"), Some((&"abc", vec![])));
    assert_eq!(router.lookup("//a//b/c/"), Some((&"abc", vec![])));
    assert_eq!(router.lookup("/a/b"), None);
    assert_eq!(router.lookup("/a/b/c/d"), None);
}

#[test]
fn empty_segments_collapse_on_insert() {
    let mut router: Router<u8> = Router::new(vec![Box::new(StaticParser)]);
    router.insert("/a//b/", 7);
    assert_eq!(router.lookup("/a/b"), Some((&7, vec![])));
    assert_eq!(router.root().children.len(), 1);
}

#[test]
fn reinserting_replaces_the_value() {
    let mut router: Router<u32> = Router::new(vec![Box::new(StaticParser)]);
    router.insert("/x/y", 1);
    router.insert("/x/y", 2);
    assert_eq!(router.lookup("/x/y"), Some((&2, vec![])));
    let root = router.root();
    assert_eq!(root.children.len(), 1);
    assert_eq!(root.children[0].children.len(), 1);
    assert!(root.children[0].children[0].children.is_empty());
}

#[test]
fn registration_order_decides_precedence() {
    let mut router: Router<u32> =
        Router::new(vec![Box::new(DynamicParser), Box::new(StaticParser)]);
    router.insert("/:id", 1);
    router.insert("/1", 2);
    // "/1" reached the node made for "/:id", which now holds the later value.
    assert_eq!(router.root().children.len(), 1);
    assert_eq!(router.lookup("/1"), Some((&2, vec![("id", (1, 2))])));
    assert_eq!(router.lookup("/2"), Some((&2, vec![("id", (1, 2))])));
}

#[test]
fn literal_registered_first_wins_over_later_parameter() {
    let mut router: Router<u32> =
        Router::new(vec![Box::new(DynamicParser), Box::new(StaticParser)]);
    router.insert("/users", 1);
    router.insert("/:id", 2);
    assert_eq!(router.root().children.len(), 2);
    assert_eq!(router.lookup("/users"), Some((&1, vec![])));
    assert_eq!(router.lookup("/42"), Some((&2, vec![("id", (1, 3))])));
}

#[test]
fn dynamic_lookup_scenario() {
    let mut router: Router<&str> =
        Router::new(vec![Box::new(DynamicParser), Box::new(StaticParser)]);
    router.insert("/:id", "v");
    assert_eq!(router.lookup("/1"), Some((&"v", vec![("id", (1, 2))])));
    assert_eq!(router.lookup("/1/1"), None);
    assert_eq!(router.lookup("/"), None);
}

#[test]
fn shared_prefix_shares_a_node() {
    let mut router: Router<usize> = Router::new(vec![Box::new(StaticParser)]);
    router.insert("/number/1", 1);
    router.insert("/number/2", 2);
    let root = router.root();
    assert_eq!(root.children.len(), 1);
    let number = &root.children[0];
    assert!(number.matcher.is_match("number"));
    assert!(number.value.is_none());
    assert_eq!(number.children.len(), 2);
    assert!(number.children[0].matcher.is_match("1"));
    assert!(number.children[1].matcher.is_match("2"));
}

#[test]
fn prefix_node_without_value_is_a_miss() {
    let mut router: Router<usize> = Router::new(vec![Box::new(StaticParser)]);
    router.insert("/number/1", 1);
    assert_eq!(router.lookup("/number"), None);
}

#[test]
fn captures_are_absolute_and_ordered() {
    let mut router: Router<u8> =
        Router::new(vec![Box::new(DynamicParser), Box::new(StaticParser)]);
    router.insert("/api/:vsn/:type/:id", 9);
    let path = "/api/v1/user/123";
    assert_eq!(
        router.lookup(path),
        Some((&9, vec![("vsn", (5, 7)), ("type", (8, 12)), ("id", (13, 16))]))
    );
}

#[test]
fn root_value_is_reachable_by_slash() {
    let mut router: Router<u8> = Router::new(vec![Box::new(StaticParser)]);
    router.insert("/", 5);
    assert_eq!(router.lookup("/"), Some((&5, vec![])));
    assert_eq!(router.lookup(""), Some((&5, vec![])));
}

#[test]
fn update_transforms_the_stored_value() {
    let mut router: Router<u32> = Router::new(vec![Box::new(StaticParser)]);
    router.update("/count", |v: Option<u32>| v.unwrap_or(0) + 1);
    router.update("/count", |v: Option<u32>| v.unwrap_or(0) + 1);
    assert_eq!(router.lookup("/count"), Some((&2, vec![])));
}

#[test]
fn construction_needs_a_parser_for_the_root() {
    let parsers: Vec<Box<dyn Parser>> = vec![Box::new(DynamicParser)];
    assert!(Router::<u8>::try_new(parsers).is_none());
    let parsers: Vec<Box<dyn Parser>> = vec![];
    assert!(Router::<u8>::try_new(parsers).is_none());
    let parsers: Vec<Box<dyn Parser>> = vec![Box::new(DynamicParser), Box::new(StaticParser)];
    assert!(Router::<u8>::try_new(parsers).is_some());
}

#[test]
fn intermediate_nodes_hold_no_value() {
    let mut router: Router<u8> =
        Router::new(vec![Box::new(DynamicParser), Box::new(StaticParser)]);
    router.insert("/:a/:b", 0);
    assert_eq!(router.lookup("/x"), None);
    assert_eq!(router.lookup("//xy/z"), Some((&0, vec![("a", (2, 4)), ("b", (5, 6))])));
}

#[test]
fn update_keeps_other_routes() {
    let mut router: Router<u8> =
        Router::new(vec![Box::new(DynamicParser), Box::new(StaticParser)]);
    router.insert("/u/:id", 1);
    router.update("/v", |old: Option<u8>| if old.is_none() { 2 } else { 3 });
    assert_eq!(router.lookup("/v"), Some((&2, vec![])));
    assert_eq!(router.lookup("/u/7"), Some((&1, vec![("id", (3, 4))])));
}
