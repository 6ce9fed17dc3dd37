use lci::Codebase;

fn parse(src: &str) -> Codebase {
  Codebase::parse(vec![src.to_string()]).unwrap()
}

#[test]
fn single_impl_block() {
  let src = r#"
struct Foo;

impl Foo {
    fn bar(&self) {}
    fn baz(&mut self) {}
}
"#;
  let codebase = parse(src);
  let blocks = codebase.impl_blocks();
  assert_eq!(blocks.len(), 1);
  assert_eq!(blocks[0].target_type(), "Foo");
  assert_eq!(blocks[0].trait_name(), None);
}

#[test]
fn split_impl_blocks() {
  let src = r#"
struct Foo;

impl Foo {
    fn alpha(&self) {}
}

impl Foo {
    fn beta(&self) {}
}
"#;
  let codebase = parse(src);
  let blocks = codebase.impl_blocks();
  assert_eq!(blocks.len(), 2);
  assert!(blocks.iter().all(|b| b.target_type() == "Foo"));
}

#[test]
fn trait_impl_separate_from_inherent() {
  let src = r#"
struct Foo;

impl Foo {
    fn own_method(&self) {}
}

impl Display for Foo {
    fn fmt(&self, f: &mut Formatter) -> Result {
        Ok(())
    }
}
"#;
  let codebase = parse(src);
  let blocks = codebase.impl_blocks();
  assert_eq!(blocks.len(), 2);
  assert_eq!(blocks[0].trait_name(), None);
  assert_eq!(blocks[1].trait_name(), Some("Display"));
}
