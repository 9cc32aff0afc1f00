use rust_dispatcher::http_server::{gen_docs, index, GenDocInput};

#[test]
fn the_root_greets() {
    assert_eq!(index(), "Hello world!");
}

#[test]
fn documentation_requests_are_refused_for_now() {
    assert!(gen_docs(GenDocInput { model: "m", code: "fn f() {}" }).is_none());
}
