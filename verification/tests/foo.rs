use lox::foo::foo;

#[test]
fn basic() {
    assert_eq!(Some(10), foo())
}
