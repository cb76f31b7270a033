use blockscope::env::Environment;

fn child_of(parent: Environment) -> Environment {
    Environment::enclosed_by(parent)
}

#[test]
fn define_then_get_reports_the_value() {
    let mut env = Environment::new();
    env.define("x", 41);
    assert_eq!(env.get("x"), Some(41));
}

#[test]
fn get_of_an_unknown_name_is_none() {
    let env = Environment::new();
    assert_eq!(env.get("missing"), None);
    let mut env = Environment::new();
    env.define("x", 1);
    assert_eq!(env.get("y"), None);
}

#[test]
fn redefining_overwrites_in_place() {
    let mut env = Environment::new();
    env.define("x", 1);
    env.define("x", 2);
    assert_eq!(env.get("x"), Some(2));
}

#[test]
fn zero_is_distinct_from_absent() {
    let mut env = Environment::new();
    env.define("x", 0);
    assert_eq!(env.get("x"), Some(0));
    assert_eq!(env.get("y"), None);
}

#[test]
fn get_walks_outward_through_enclosing_scopes() {
    let mut root = Environment::new();
    root.define("outer", 7);
    let mut inner = child_of(root);
    inner.define("local", 8);
    assert_eq!(inner.get("outer"), Some(7));
    assert_eq!(inner.get("local"), Some(8));
}

#[test]
fn define_shadows_without_touching_the_outer_binding() {
    let mut root = Environment::new();
    root.define("x", 1);
    let mut inner = child_of(root);
    inner.define("x", 2);
    assert_eq!(inner.get("x"), Some(2));
    let root = inner.into_enclosing();
    assert_eq!(root.get("x"), Some(1));
}

#[test]
fn assign_overwrites_the_nearest_defining_scope() {
    let mut root = Environment::new();
    root.define("x", 1);
    let mut inner = child_of(root);
    assert!(inner.assign("x", 9).is_ok());
    assert_eq!(inner.get("x"), Some(9));
    let root = inner.into_enclosing();
    assert_eq!(root.get("x"), Some(9));
}

#[test]
fn assign_prefers_the_innermost_binding() {
    let mut root = Environment::new();
    root.define("x", 1);
    let mut inner = child_of(root);
    inner.define("x", 2);
    assert!(inner.assign("x", 3).is_ok());
    assert_eq!(inner.get("x"), Some(3));
    let root = inner.into_enclosing();
    assert_eq!(root.get("x"), Some(1));
}

#[test]
fn assign_of_an_undefined_name_fails_and_changes_nothing() {
    let mut root = Environment::new();
    root.define("x", 1);
    let mut inner = child_of(root);
    let err = inner.assign("ghostly", 5).unwrap_err();
    assert_eq!(err.name, "ghostly");
    assert_eq!(inner.get("ghostly"), None);
    assert_eq!(inner.get("x"), Some(1));
}

#[test]
fn into_enclosing_discards_the_inner_scope() {
    let mut root = Environment::new();
    root.define("kept", 1);
    let mut inner = child_of(root);
    inner.define("dropped", 2);
    let root = inner.into_enclosing();
    assert_eq!(root.get("kept"), Some(1));
    assert_eq!(root.get("dropped"), None);
}
