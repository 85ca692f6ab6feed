use usher::http::{Handlers, HttpRouter, Method};
use usher::parser::{DynamicParser, StaticParser};

#[test]
fn handlers_are_kept_per_method() {
    let mut router: HttpRouter<u8> =
        HttpRouter::new(vec![Box::new(DynamicParser), Box::new(StaticParser)]);
    router.get("/api/v1/user", 1);
    router.post("/api/v1/user", 2);
    router.put("/api/v1/user/:id", 3);

    assert_eq!(router.handler(&Method::Get, "/api/v1/user"), Some((&1, vec![])));
    assert_eq!(router.handler(&Method::Post, "/api/v1/user"), Some((&2, vec![])));
    assert_eq!(router.handler(&Method::Put, "/api/v1/user"), None);
    assert_eq!(
        router.handler(&Method::Put, "/api/v1/user/steve"),
        Some((&3, vec![("id", (13, 18))]))
    );
    assert_eq!(router.handler(&Method::Get, "/api/v1/user/steve"), None);
    assert_eq!(router.handler(&Method::Get, "/api"), None);
}

#[test]
fn later_handler_replaces_earlier_for_same_method() {
    let mut router: HttpRouter<u8> = HttpRouter::new(vec![Box::new(StaticParser)]);
    router.get("/", 1);
    router.get("/", 2);
    router.head("/", 3);
    assert_eq!(router.handler(&Method::Get, "/"), Some((&2, vec![])));
    assert_eq!(router.handler(&Method::Head, "/"), Some((&3, vec![])));
}

#[test]
fn every_method_has_its_registration() {
    let mut router: HttpRouter<u8> = HttpRouter::new(vec![Box::new(StaticParser)]);
    router.connect("/m", 1);
    router.delete("/m", 2);
    router.get("/m", 3);
    router.head("/m", 4);
    router.options("/m", 5);
    router.patch("/m", 6);
    router.post("/m", 7);
    router.put("/m", 8);
    router.trace("/m", 9);
    let methods = [
        Method::Connect,
        Method::Delete,
        Method::Get,
        Method::Head,
        Method::Options,
        Method::Patch,
        Method::Post,
        Method::Put,
        Method::Trace,
    ];
    for (i, m) in methods.iter().enumerate() {
        assert_eq!(router.handler(m, "/m"), Some((&(i as u8 + 1), vec![])));
    }
}

#[test]
fn insert_with_method_value() {
    let mut router: HttpRouter<&str> = HttpRouter::new(vec![Box::new(StaticParser)]);
    router.insert(Method::Patch, "/p", "patched");
    assert_eq!(router.handler(&Method::Patch, "/p"), Some((&"patched", vec![])));
    assert_eq!(router.handler(&Method::Get, "/p"), None);
}

#[test]
fn handler_slots_are_independent() {
    let mut h: Handlers<u8> = Handlers::new();
    assert_eq!(h.handler(&Method::Get), None);
    h.set_handler(Method::Get, 1);
    h.set_handler(Method::Post, 2);
    h.set_handler(Method::Get, 3);
    assert_eq!(h.handler(&Method::Get), Some(&3));
    assert_eq!(h.handler(&Method::Post), Some(&2));
    assert_eq!(h.handler(&Method::Put), None);
}
