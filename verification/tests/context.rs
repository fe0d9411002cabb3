use rust_doom::context::{Context, ContextBuilder};

#[test]
fn context_without_systems_builds_and_steps() {
    let builder = ContextBuilder::new().inject(7u32).inject_mut(String::from("state"));
    let mut context = builder.build().unwrap();
    assert!(!context.quit_requested());
    assert!(context.step().is_ok());
    assert!(context.destroy().is_ok());
    assert!(context.destroy().is_ok());
}

#[test]
fn default_builder_is_new() {
    let mut context = ContextBuilder::default().build().unwrap();
    assert!(!context.quit_requested());
    assert!(context.step().is_ok());
}
