use lci::Codebase;

fn parse(src: &str) -> Codebase {
  Codebase::parse(vec![src.to_string()]).unwrap()
}

#[test]
fn variable_usages_basic() {
  let src = r#"
fn example() {
    let x = 1;
    let y = 2;
    println!("{}", x + y);
    let z = x;
}
"#;
  let codebase = parse(src);
  let fns = codebase.functions();
  let usages = fns[0].variable_usages("x", 2);
  assert_eq!(usages, vec![4, 5]);
}

#[test]
fn variable_usages_stops_at_shadow() {
  let src = r#"
fn example() {
    let x = 1;
    println!("{x}");
    let x = 2;
    println!("{x}");
}
"#;
  let codebase = parse(src);
  let fns = codebase.functions();
  let usages = fns[0].variable_usages("x", 2);
  assert_eq!(usages, vec![3]);
}

#[test]
fn variable_usages_skips_comments() {
  let src = r#"
fn example() {
    let x = 1;
    // x is important
    println!("{x}");
}
"#;
  let codebase = parse(src);
  let fns = codebase.functions();
  let usages = fns[0].variable_usages("x", 2);
  assert_eq!(usages, vec![4]);
}

#[test]
fn free_and_method_functions() {
  let src = r#"
fn top_level() -> i32 {
    42
}

struct Bar;

impl Bar {
    fn method(&self) {}
}
"#;
  let codebase = parse(src);
  let fns = codebase.functions();
  assert_eq!(fns.len(), 2);
  assert_eq!(fns[0].name(), "top_level");
  assert!(fns[0].code().contains("fn top_level()"));
  assert!(fns[0].code().contains("42"));
  assert_eq!(fns[1].name(), "method");
}

#[test]
fn rename_variable_basic() {
  let src = r#"
fn example() {
    let items = vec![1, 2, 3];
    let n = items.len();
    println!("{}", items[0]);
}
"#;
  let codebase = parse(src);
  let fns = codebase.functions();
  let edits = fns[0].rename_variable("items", "candidates");
  assert_eq!(edits.len(), 3);
  // Apply edits (already sorted back-to-front)
  let mut result = src.to_string();
  for edit in &edits {
    result.replace_range(edit.range.clone(), &edit.text);
  }
  assert!(result.contains("let candidates = vec![1, 2, 3];"));
  assert!(result.contains("candidates.len()"));
  assert!(result.contains("candidates[0]"));
  assert!(!result.contains("items"));
}

#[test]
fn rename_variable_no_match() {
  let src = "fn example() { let x = 1; }\n";
  let codebase = parse(src);
  let fns = codebase.functions();
  let edits = fns[0].rename_variable("y", "z");
  assert!(edits.is_empty());
}
