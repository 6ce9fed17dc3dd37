use lci::codebase::SourceFile;
use lci::lint::{cli_struct_comment, Lint, LintError, Mechanism};
use lci::prompt::{check_status, ApiResponse, ApiUsage, ContentBlock, PromptError, PromptRequest, MAX_TOKENS};
use lci::syntax::{tree_from_preorder, NodeRecord};
use lci::text::{sorted_unique, split_lines, str_eq, substring, text_less};
use lci::{Codebase, PromptResponse};

fn parse(src: &str) -> Codebase {
  Codebase::parse(vec![src.to_string()]).unwrap()
}

fn record(kind: &str, field: Option<&str>, start: usize, end: usize, depth: usize) -> NodeRecord {
  NodeRecord { kind: kind.to_string(), field: field.map(|f| f.to_string()), start, end, depth }
}

const SAMPLE: &str = "pub(crate) fn alpha ( x: u32 )  -> u32 {\n    let y = std::cmp::max(x, 1);\n    // y is used\n    y + core::mem::size_of::<u8>() as u32 + std::cmp::max(y, 2)\n}\n\nfn beta() {\n    fn inner() {}\n}\n\nstruct Point {\n    x: i32,\n    y: i32,\n}\n\nstruct Unit;\n\nimpl std::fmt::Display for Point {\n    fn fmt(&self) {}\n    fn other(&self) {}\n}\n";

#[test]
fn function_names_code_and_listing() {
  let codebase = parse(SAMPLE);
  let fns = codebase.functions();
  let names: Vec<&str> = fns.iter().map(|f| f.name()).collect();
  assert_eq!(names, vec!["alpha", "beta", "fmt", "other"]);
  assert!(fns[1].code().starts_with("fn beta()"));
  assert!(fns[1].code().ends_with("}"));
  assert_eq!(fns[0].to_string(), "fn alpha");
}

#[test]
fn signature_is_text_before_body_trimmed() {
  let codebase = parse(SAMPLE);
  let fns = codebase.functions();
  assert_eq!(fns[0].signature(), "pub(crate) fn alpha ( x: u32 )  -> u32");
  assert_eq!(fns[1].signature(), "fn beta()");
}

#[test]
fn visibility_of_functions() {
  let codebase = parse(SAMPLE);
  let fns = codebase.functions();
  assert_eq!(fns[0].visibility(), "pub(crate)");
  assert_eq!(fns[1].visibility(), "");
}

#[test]
fn qualified_paths_sorted_and_deduplicated() {
  let codebase = parse(SAMPLE);
  let fns = codebase.functions();
  assert_eq!(fns[0].qualified_paths(), vec!["core::mem::size_of".to_string(), "std::cmp::max".to_string()]);
  assert_eq!(fns[0].checked_qualified_paths(), Some(vec!["core::mem::size_of".to_string(), "std::cmp::max".to_string()]));
  assert!(fns[1].qualified_paths().is_empty());
}

#[test]
fn qualified_paths_only_in_the_body() {
  let codebase = parse("fn f() -> io::Result<()> { std::fs::read(\"a\")?; Ok(()) }\n");
  let fns = codebase.functions();
  assert_eq!(fns[0].qualified_paths(), vec!["std::fs::read".to_string()]);
  let codebase = parse("fn g(m: std::collections::HashMap<u8, u8>) {}\n");
  assert!(codebase.functions()[0].qualified_paths().is_empty());
}

#[test]
fn variable_usages_from_a_later_line() {
  let src = "fn f(x: u32) {\n    let a = x;\n    let b = x + a;\n    let x = 2;\n    x\n}\n";
  let codebase = parse(src);
  let fns = codebase.functions();
  let early = fns[0].variable_usages("x", 0);
  let late = fns[0].variable_usages("x", 2);
  let kept: Vec<usize> = early.iter().copied().filter(|&n| n > 2).collect();
  assert_eq!(kept, late);
  assert_eq!(late, vec![3]);
  assert!(fns[0].variable_usages("x", 4).contains(&5));
  let after_shadow: Vec<usize> = early.iter().copied().filter(|&n| n > 4).collect();
  assert!(after_shadow.is_empty());
}

#[test]
fn variable_usages_ascend_after_the_given_line() {
  let codebase = parse(SAMPLE);
  let fns = codebase.functions();
  assert_eq!(fns[0].variable_usages("y", 0), Vec::<usize>::new());
  assert_eq!(fns[0].variable_usages("y", 2), vec![4]);
  assert_eq!(fns[0].variable_usages("max", 0), vec![2, 4]);
  assert_eq!(fns[0].variable_usages("y", 100), Vec::<usize>::new());
  assert_eq!(fns[0].checked_variable_usages("x", 0), Some(vec![1, 2]));
}

#[test]
fn variable_usages_escape_the_name() {
  let src = "fn f() {\n    let q = xzy;\n    call(x.y);\n}\n";
  let codebase = parse(src);
  let fns = codebase.functions();
  assert_eq!(fns[0].variable_usages("x.y", 0), vec![3]);
}

#[test]
fn lines_between_and_line_content() {
  let codebase = parse(SAMPLE);
  let fns = codebase.functions();
  let f = &fns[0];
  assert_eq!(f.line_content(1), "pub(crate) fn alpha ( x: u32 )  -> u32 {");
  assert_eq!(f.line_content(3), "    // y is used");
  assert_eq!(f.line_content(6), "");
  assert_eq!(f.lines_between(1, 4), "    let y = std::cmp::max(x, 1);\n    // y is used");
  assert_eq!(f.lines_between(0, 1), "");
  assert_eq!(f.lines_between(4, 100), "}");
  assert_eq!(f.lines_between(9, 100), "");
}

#[test]
fn rename_edits_back_to_front() {
  let codebase = parse(SAMPLE);
  let fns = codebase.functions();
  let edits = fns[0].rename_variable("y", "z");
  assert_eq!(edits.len(), 3);
  for w in edits.windows(2) {
    assert!(w[0].range.start > w[1].range.start);
  }
  let mut text = SAMPLE.to_string();
  for e in &edits {
    assert_eq!(&SAMPLE[e.range.clone()], "y");
    text.replace_range(e.range.clone(), &e.text);
  }
  assert!(text.contains("let z = std::cmp::max(x, 1);"));
  assert!(text.contains("z + core::mem::size_of::<u8>() as u32 + std::cmp::max(z, 2)"));
  assert!(text.contains("// y is used"));
  assert!(text.contains("    y: i32,"));
}

#[test]
fn impl_block_listing_and_methods() {
  let codebase = parse(SAMPLE);
  let blocks = codebase.impl_blocks();
  assert_eq!(blocks.len(), 1);
  assert_eq!(blocks[0].target_type(), "Point");
  assert_eq!(blocks[0].trait_name(), Some("std::fmt::Display"));
  let methods: Vec<&str> = blocks[0].methods().iter().map(|m| m.name()).collect();
  assert_eq!(methods, vec!["fmt", "other"]);
  assert_eq!(blocks[0].to_string(), "impl std::fmt::Display for Point [fmt, other]");
  let inherent = parse("impl Foo {}\n");
  assert_eq!(inherent.impl_blocks()[0].to_string(), "impl Foo []");
}

#[test]
fn struct_names_fields_and_listing() {
  let codebase = parse(SAMPLE);
  let structs = codebase.structs();
  assert_eq!(structs.len(), 2);
  assert_eq!(structs[0].name(), "Point");
  assert_eq!(structs[0].fields(), vec!["x", "y"]);
  assert_eq!(structs[0].to_string(), "struct Point [x, y]");
  assert_eq!(structs[1].fields(), Vec::<&str>::new());
  assert_eq!(structs[1].to_string(), "struct Unit []");
}

#[test]
fn codebase_lists_files_in_order() {
  let codebase = Codebase::parse(vec!["fn a() {}\n".to_string(), "fn b() {}\nstruct S { f: u8 }\n".to_string()]).unwrap();
  let names: Vec<&str> = codebase.functions().iter().map(|f| f.name()).collect();
  assert_eq!(names, vec!["a", "b"]);
  assert_eq!(codebase.structs().len(), 1);
  assert!(codebase.impl_blocks().is_empty());
}

#[test]
fn source_file_parse_keeps_text() {
  let file = SourceFile::parse("fn main() {}\n".to_string()).unwrap();
  assert_eq!(file.text(), "fn main() {}\n");
  assert_eq!(file.root().kind, "source_file");
  assert_eq!(file.root().children[0].kind, "function_item");
  assert_eq!(file.functions().len(), 1);
}

#[test]
fn tree_from_preorder_builds_the_listed_tree() {
  let rs = vec![record("root", None, 0, 4, 0), record("a", Some("x"), 0, 2, 1), record("b", None, 0, 1, 2), record("c", None, 2, 4, 1)];
  let t = tree_from_preorder(&rs).unwrap();
  assert_eq!(t.children.len(), 2);
  assert_eq!(t.children[0].kind, "a");
  assert_eq!(t.children[0].field.as_deref(), Some("x"));
  assert_eq!(t.children[0].children[0].kind, "b");
  assert_eq!(t.children[1].start, 2);
  let bad = vec![record("root", None, 0, 4, 0), record("a", None, 0, 2, 2)];
  assert!(tree_from_preorder(&bad).is_none());
  assert!(tree_from_preorder(&vec![]).is_none());
  let two_roots = vec![record("r", None, 0, 1, 0), record("s", None, 1, 2, 0)];
  assert!(tree_from_preorder(&two_roots).is_none());
}

#[test]
fn from_preorder_checks_ranges() {
  let ok = vec![record("root", None, 0, 3, 0), record("a", None, 0, 3, 1)];
  assert!(SourceFile::from_preorder("abc".to_string(), &ok).is_some());
  let outside = vec![record("root", None, 0, 2, 0), record("a", None, 1, 3, 1)];
  assert!(SourceFile::from_preorder("abc".to_string(), &outside).is_none());
  let mid_char = vec![record("root", None, 0, 1, 0)];
  assert!(SourceFile::from_preorder("é".to_string(), &mid_char).is_none());
}

#[test]
fn split_lines_matches_str_lines() {
  for text in ["", "a", "a\n", "a\r\nb\n\nc\r", "\n\n", "x\ry\n", "é\nü"] {
    let expected: Vec<&str> = text.lines().collect();
    assert_eq!(split_lines(text), expected);
  }
}

#[test]
fn text_helpers() {
  assert!(str_eq("abc", "abc"));
  assert!(!str_eq("abc", "abd"));
  assert_eq!(substring("héllo", 1, 3), "é");
  assert!(text_less("a", "b"));
  assert!(text_less("ab", "abc"));
  assert!(!text_less("b", "a"));
  assert!(!text_less("a", "a"));
  let v = sorted_unique(vec!["b".to_string(), "a".to_string(), "b".to_string(), "ab".to_string()]);
  assert_eq!(v, vec!["a".to_string(), "ab".to_string(), "b".to_string()]);
}

fn response(content: Vec<&str>, input: u32, output: u32) -> ApiResponse {
  ApiResponse {
    content: content.into_iter().map(|t| ContentBlock { text: t.to_string() }).collect(),
    usage: ApiUsage { input_tokens: input, output_tokens: output },
  }
}

fn float_usage(input: u32, output: u32) -> String {
  let cost = input as f64 * 0.0000008 + output as f64 * 0.000004;
  format!("{} in / {} out / ${:.6}", input, output, cost)
}

#[test]
fn usage_line_matches_float_pricing() {
  for (i, o) in [(0, 0), (1, 0), (0, 1), (12, 345), (1000, 2000), (1250, 4096), (999_999, 1), (u32::MAX, u32::MAX), (3, 7), (123_456_789, 987_654)] {
    let r = PromptResponse::from_api(response(vec!["t"], i, o)).unwrap();
    assert_eq!(r.usage(), float_usage(i, o));
  }
}

#[test]
fn prompt_response_from_first_block() {
  let r = PromptResponse::from_api(response(vec!["hello", "ignored"], 10, 20)).unwrap();
  assert_eq!(r.text(), "hello");
  assert_eq!(r.usage(), "10 in / 20 out / $0.000088");
  assert_eq!(r.to_string(), "hello\n\n10 in / 20 out / $0.000088");
  assert!(matches!(PromptResponse::from_api(response(vec![], 1, 1)), Err(PromptError::EmptyResponse)));
}

#[test]
fn status_check_and_request() {
  assert_eq!(check_status(200, "ok".to_string()).unwrap(), "ok");
  assert_eq!(check_status(299, "ok".to_string()).unwrap(), "ok");
  match check_status(404, "missing".to_string()) {
    Err(PromptError::Api { status, body }) => {
      assert_eq!(status, 404);
      assert_eq!(body, "missing");
    },
    _ => panic!("expected an API error"),
  }
  assert!(check_status(199, String::new()).is_err());
  assert!(check_status(300, String::new()).is_err());
  let req = PromptRequest::new("some-model", "hi");
  assert_eq!(req.model, "some-model");
  assert_eq!(req.max_tokens, MAX_TOKENS);
  assert_eq!(req.messages.len(), 1);
  assert_eq!(req.messages[0].role, "user");
  assert_eq!(req.messages[0].content, "hi");
}

#[test]
fn lint_reports_unimplemented_mechanism() {
  let lint = Lint { dir: ".".to_string(), mechanism: None, dry: false, debug: false };
  let err = lint.execute().unwrap_err();
  assert_eq!(err, LintError::CliStructCommentNotImplemented);
  assert_eq!(err.message(), "cli-struct-comment not yet implemented");
  let chosen = Lint { dir: ".".to_string(), mechanism: Some(Mechanism::CliStructComment), dry: true, debug: true };
  assert!(chosen.execute().is_err());
  assert_eq!(cli_struct_comment("."), Err(LintError::CliStructCommentNotImplemented));
}

fn printed_cost(input: u32, output: u32) -> String {
  let r = PromptResponse::from_api(response(vec!["t"], input, output)).unwrap();
  r.usage().rsplit('$').next().unwrap().to_string()
}

#[test]
fn cost_never_falls_as_tokens_grow() {
  let parse_cost = |s: String| -> f64 { s.parse().unwrap() };
  let mut last = parse_cost(printed_cost(0, 0));
  for (i, o) in [(1, 0), (1, 1), (10, 1), (10, 20), (1000, 20), (1000, 5000), (u32::MAX, u32::MAX)] {
    let c = parse_cost(printed_cost(i, o));
    assert!(c >= last);
    last = c;
  }
  assert_eq!(printed_cost(u32::MAX, u32::MAX), "20615.843016");
}
