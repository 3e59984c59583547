use postcss::error::{Expected, PostcssError, Unclosed};
use postcss::input::ProcessOptions;
use postcss::node::{Node, Root};
use postcss::parser::parse;
use postcss::stringifier::{Boundary, Chunk, NodeKind, Stringifier};
use postcss::tokenizer::{tokenize, Token, TokenType};
use postcss::visitor::{Visit, VisitMut};

fn text(css: &str, span: (usize, usize)) -> &str {
  &css[span.0..span.1]
}

fn lenient() -> Option<ProcessOptions> {
  Some(ProcessOptions { from: None, ignore_errors: true })
}

fn round_trip(css: &str) {
  let root = parse(css, None).unwrap();
  assert_eq!(root.start, 0);
  assert_eq!(root.end, css.len());
  let out = postcss::stringifier::stringify(css, &Node::Root(root));
  assert_eq!(out, css.as_bytes());
}

#[test]
fn parses_rule_with_declaration() {
  let css = "a {\n  color: red;\n}";
  let root = parse(css, None).unwrap();
  assert_eq!(root.children.len(), 1);
  let rule = root.children[0].as_rule().unwrap();
  assert_eq!(text(css, rule.selector), "a");
  assert_eq!((rule.start, rule.end), (0, css.len()));
  assert_eq!(rule.children.len(), 1);
  let decl = rule.children[0].as_decl().unwrap();
  assert_eq!(text(css, decl.prop), "color");
  assert_eq!(text(css, decl.value), "red");
  assert_eq!(text(css, (decl.start, decl.end)), "color: red;");
}

#[test]
fn parses_at_rule_with_empty_block() {
  let css = "@media screen {}";
  let root = parse(css, None).unwrap();
  assert_eq!(root.children.len(), 1);
  let at = root.children[0].as_at_rule().unwrap();
  assert_eq!(text(css, at.name), "media");
  assert_eq!(text(css, at.params), "screen");
  assert_eq!(at.children.as_ref().unwrap().len(), 0);
  assert_eq!((at.start, at.end), (0, 16));
  assert_eq!(at.open, 14);
}

#[test]
fn tokenizes_url_as_raw_brackets() {
  let css = "url(/*\\))";
  assert_eq!(
    tokenize(css),
    vec![Token::new(TokenType::Word, 0, 3), Token::new(TokenType::Brackets, 3, 9)]
  );
  assert_eq!(&css[3..9], "(/*\\))");
}

#[test]
fn lenient_unterminated_string() {
  let css = " \"";
  let tokens = tokenize(css);
  assert_eq!(
    tokens,
    vec![Token::new(TokenType::Space, 0, 1), Token::new(TokenType::String, 1, 2)]
  );
  assert_eq!(&css[tokens[1].1..tokens[1].2], "\"");
}

#[test]
fn value_excludes_trailing_space() {
  let css = "a { b : c d; }";
  let root = parse(css, None).unwrap();
  let rule = root.children[0].as_rule().unwrap();
  let decl = rule.children[0].as_decl().unwrap();
  assert_eq!(text(css, decl.prop), "b");
  assert_eq!(text(css, decl.value), "c d");
  assert_eq!(text(css, (decl.start, decl.end)), "b : c d;");
}

#[test]
fn at_rule_statement_without_params() {
  let css = "@foo;";
  let root = parse(css, None).unwrap();
  let at = root.children[0].as_at_rule().unwrap();
  assert_eq!(text(css, at.name), "foo");
  assert_eq!(at.params.0, at.params.1);
  assert!(at.children.is_none());
  assert_eq!((at.start, at.end), (0, 5));
}

#[test]
fn nested_rules_in_at_rule() {
  let css = "@media print { a { color: red } b {} }";
  let root = parse(css, None).unwrap();
  let at = root.children[0].as_at_rule().unwrap();
  let children = at.children.as_ref().unwrap();
  assert_eq!(children.len(), 2);
  assert_eq!(text(css, children[0].as_rule().unwrap().selector), "a");
  assert_eq!(text(css, children[1].as_rule().unwrap().selector), "b");
  assert!(children[0].is_rule());
  assert!(!children[0].is_decl());
}

#[test]
fn selector_trims_trailing_space_and_comment() {
  let css = "a  b /* c */ {}";
  let root = parse(css, None).unwrap();
  let rule = root.children[0].as_rule().unwrap();
  assert_eq!(text(css, rule.selector), "a  b");
  assert_eq!(rule.open, 13);
}

#[test]
fn empty_selector() {
  let css = "{}";
  let root = parse(css, None).unwrap();
  let rule = root.children[0].as_rule().unwrap();
  assert_eq!(rule.selector, (0, 0));
}

#[test]
fn top_level_comment_is_a_node() {
  let css = "/* x */ a {}";
  let root = parse(css, None).unwrap();
  assert_eq!(root.children.len(), 2);
  let c = root.children[0].as_comment().unwrap();
  assert_eq!((c.start, c.end), (0, 7));
  assert!(root.children[1].is_rule());
  assert!(root.children[0].as_root().is_none());
}

#[test]
fn declaration_value_with_function_and_important() {
  let css = "a{width:calc(1px + 2px) !important;b:c}";
  let root = parse(css, None).unwrap();
  let rule = root.children[0].as_rule().unwrap();
  let d = rule.children[0].as_decl().unwrap();
  assert_eq!(text(css, d.value), "calc(1px + 2px) !important");
  let d2 = rule.children[1].as_decl().unwrap();
  assert_eq!(text(css, d2.value), "c");
  assert_eq!(text(css, (d2.start, d2.end)), "b:c");
}

#[test]
fn round_trips() {
  round_trip("");
  round_trip("a {\n  color: red;\n}");
  round_trip("  /* head */\n@import 'x.css';\n@media screen { a { b: c } }\n");
  round_trip("a{b:c;;d:e}\n\n");
  round_trip("@charset \"utf-8\"");
  round_trip(":root { --x: { a: b }; }");
  round_trip("a[href='x'] > b::after { content: \"}\" }");
}

#[test]
fn span_coverage_of_children() {
  let css = "a{}  b{c:d} /*e*/ @f;";
  let root = parse(css, None).unwrap();
  let mut rebuilt = String::new();
  let mut at = root.start;
  for child in &root.children {
    let (s, e) = match child {
      Node::Rule(r) => (r.start, r.end),
      Node::AtRule(a) => (a.start, a.end),
      Node::Decl(d) => (d.start, d.end),
      Node::Comment(c) => (c.start, c.end),
      Node::Root(r) => (r.start, r.end),
    };
    rebuilt.push_str(&css[at..s]);
    rebuilt.push_str(&css[s..e]);
    at = e;
  }
  rebuilt.push_str(&css[at..root.end]);
  assert_eq!(rebuilt, css);
}

#[test]
fn stringifier_chunks_mark_block_ends() {
  let css = "a{b:c}";
  let root = parse(css, None).unwrap();
  let mut st = Stringifier::new();
  st.stringify(&Node::Root(root));
  let chunks = st.result();
  assert_eq!(
    chunks,
    vec![
      Chunk { start: 0, end: 2, node: Some(NodeKind::Rule), boundary: Some(Boundary::Start) },
      Chunk { start: 2, end: 5, node: Some(NodeKind::Decl), boundary: None },
      Chunk { start: 5, end: 6, node: Some(NodeKind::Rule), boundary: Some(Boundary::End) },
    ]
  );
}

#[test]
fn stringifier_emits_text_between_nodes() {
  let css = " a{} ";
  let root = parse(css, None).unwrap();
  let mut st = Stringifier::new();
  st.stringify(&Node::Root(root));
  let chunks = st.result();
  assert_eq!(chunks[0], Chunk { start: 0, end: 1, node: None, boundary: None });
  assert_eq!(chunks[3], Chunk { start: 4, end: 5, node: None, boundary: None });
  assert_eq!(chunks.len(), 4);
}

#[test]
fn lenient_parse_never_reports_unclosed() {
  for css in ["a { b: 'c }", "a { b: url(x }", "/* open", "a { b: \"x"] {
    match parse(css, lenient()) {
      Err(PostcssError::Unclosed(..)) => panic!("unclosed reported for {}", css),
      _ => {}
    }
  }
  assert!(parse("/* open", lenient()).is_ok());
}

#[test]
fn unclosed_errors() {
  assert!(matches!(parse("a { b: 'c }", None), Err(PostcssError::Unclosed(Unclosed::String, 7))));
  assert!(matches!(parse("/* open", None), Err(PostcssError::Unclosed(Unclosed::Comment, 0))));
  assert!(matches!(parse("a { b: url(x }", None), Err(PostcssError::Unclosed(Unclosed::Bracket, 10))));
}

#[test]
fn structural_errors() {
  assert_eq!(
    parse("a", None).err(),
    Some(PostcssError::ParseError(Expected::OpenCurly, None, 1, 1))
  );
  assert_eq!(
    parse("a {", None).err(),
    Some(PostcssError::ParseError(Expected::CloseCurly, None, 3, 3))
  );
  assert_eq!(
    parse("a { b }", None).err(),
    Some(PostcssError::ParseError(Expected::Colon, Some(TokenType::CloseCurly), 6, 7))
  );
  assert_eq!(
    parse("a { :b }", None).err(),
    Some(PostcssError::ParseError(Expected::Word, Some(TokenType::Colon), 4, 5))
  );
  assert_eq!(
    parse("a { b: [c }", None).err(),
    Some(PostcssError::ParseError(Expected::CloseSquare, None, 11, 11))
  );
  assert_eq!(
    parse("a ( b", None).err(),
    Some(PostcssError::ParseError(Expected::CloseParentheses, None, 5, 5))
  );
}

#[test]
fn tokens_reproduce_source() {
  let css = "a { b: url(x.png) 'q' /* c */ } @m (x) [y] \\41 ";
  let mut out = String::new();
  for t in tokenize(css) {
    out.push_str(&css[t.1..t.2]);
  }
  assert_eq!(out, css);
}

#[test]
fn empty_root() {
  let root: Root = parse("", None).unwrap();
  assert_eq!(root.children.len(), 0);
  assert_eq!((root.start, root.end), (0, 0));
}

#[test]
fn prints_ast_dump() {
  let css = "a{b:c}";
  let root = parse(css, None).unwrap();
  let dump = postcss::printer::pretty_print_ast(css, &root);
  assert_eq!(
    String::from_utf8(dump).unwrap(),
    "Root@0..6\n  Rule@0..6\n    selector: `a`\n    Declaration@2..5\n      prop: `b`\n      value: `c`\n"
  );
  let css = "@media x{} /* c */ @y z;";
  let root = parse(css, None).unwrap();
  let dump = postcss::printer::pretty_print_ast(css, &root);
  assert_eq!(
    String::from_utf8(dump).unwrap(),
    "Root@0..24\n  AtRule@0..10\n    name: `media`\n    params: `x`\n  AtRule@19..24\n    name: `y`\n    params: `z`\n"
  );
}

#[test]
fn printer_starts_at_given_depth() {
  let css = "p{}";
  let root = parse(css, None).unwrap();
  let mut printer = postcss::printer::AstPrinter::new(1, css);
  printer.print(&root);
  assert_eq!(
    String::from_utf8(printer.result()).unwrap(),
    "  Root@0..3\n    Rule@0..3\n      selector: `p`\n"
  );
}

struct CountDecls(usize);

impl Visit for CountDecls {
  fn visit_rule(&mut self, rule: &postcss::node::Rule) {
    for child in &rule.children {
      if let Some(d) = child.as_decl() {
        self.visit_declaration(d);
      }
    }
  }

  fn visit_declaration(&mut self, _decl: &postcss::node::Declaration) {
    self.0 += 1;
  }
}

struct RenameProps;

impl VisitMut for RenameProps {
  fn visit_declaration(&mut self, decl: &mut postcss::node::Declaration) {
    decl.prop = decl.value;
  }
}

#[test]
fn visitors_walk_and_edit() {
  let css = "a{b:c;d:e}";
  let mut root = parse(css, None).unwrap();
  let mut count = CountDecls(0);
  count.visit_root(&root);
  assert_eq!(count.0, 0);
  count.visit_rule(root.children[0].as_rule().unwrap());
  assert_eq!(count.0, 2);
  let rule = root.children[0].as_rule_mut().unwrap();
  if let Some(d) = rule.children[0].as_decl_mut() {
    RenameProps.visit_declaration(d);
  }
  let d = rule.children[0].as_decl().unwrap();
  assert_eq!(text(css, d.prop), "c");
}

#[test]
fn parser_object_parses_whole_source() {
  let css = "@import url(a.css);\n.b { c: d }";
  let root = postcss::parser::Parser::new(css, false).parse().unwrap();
  assert_eq!(root.children.len(), 2);
  let at = root.children[0].as_at_rule().unwrap();
  assert_eq!(text(css, at.params), "url(a.css)");
  assert_eq!((at.start, at.end), (0, 19));
  let rule = root.children[1].as_rule().unwrap();
  assert_eq!(text(css, rule.selector), ".b");
  assert_eq!((rule.start, rule.end), (20, css.len()));
}
