use dag_flow::context::Context;

#[test]
fn new_context_has_no_entry() {
    let context: Context<u32> = Context::new();
    assert_eq!(context.get(&0), None);
    assert_eq!(context.get(&1), None);
    let context: Context<u32> = Context::default();
    assert_eq!(context.get(&0), None);
}

#[test]
fn set_stores_and_get_finds() {
    let mut context = Context::new();
    assert_eq!(context.set(1, 10), None);
    assert_eq!(context.set(2, 20), None);
    assert_eq!(context.get(&1), Some(&10));
    assert_eq!(context.get(&2), Some(&20));
    assert_eq!(context.get(&3), None);
}

#[test]
fn last_write_wins() {
    let mut context = Context::new();
    assert_eq!(context.set(1, 10), None);
    assert_eq!(context.set(1, 11), Some(10));
    assert_eq!(context.set(1, 12), Some(11));
    assert_eq!(context.get(&1), Some(&12));
}

#[test]
fn repeated_get_returns_the_same_entry() {
    let mut context = Context::new();
    context.set(4, String::from("handle"));
    let first = context.get(&4).cloned();
    let second = context.get(&4).cloned();
    assert_eq!(first, second);
    assert_eq!(first.as_deref(), Some("handle"));
}
