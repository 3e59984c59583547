use postcss::input::{Input, Position, ProcessOptions};
use postcss::ref_ring::RefRing;
use postcss::stringifier::capitalize;

#[test]
fn test_capitalize() {
  assert_eq!(capitalize("hello"), "Hello");
  assert_eq!(capitalize("Hello"), "Hello");
  assert_eq!(capitalize("hellO"), "HellO");
}

#[test]
fn capitalize_empty_and_non_ascii() {
  assert_eq!(capitalize(""), "");
  assert_eq!(capitalize("élan"), "Élan");
}

#[test]
fn ring_pops_in_reverse_order() {
  let mut ring = RefRing::new();
  assert_eq!(ring.pop(), None);
  ring.push((0, 3));
  ring.push((4, 7));
  assert_eq!(ring.pop(), Some((4, 7)));
  assert_eq!(ring.pop(), Some((0, 3)));
  assert_eq!(ring.pop(), None);
}

#[test]
fn ring_overwrites_oldest() {
  let mut ring = RefRing::new();
  for i in 0..257usize {
    ring.push((i, i + 1));
  }
  assert_eq!(ring.pop(), Some((256, 257)));
  for i in (1..256usize).rev() {
    assert_eq!(ring.pop(), Some((i, i + 1)));
  }
  assert_eq!(ring.pop(), None);
}

#[test]
fn offsets_to_lines_and_columns() {
  let input = Input::new("a\nbc\n", None);
  assert_eq!(input.from_offset(0), Some(Position::new(0, 1, 1)));
  assert_eq!(input.from_offset(1), Some(Position::new(1, 1, 2)));
  assert_eq!(input.from_offset(2), Some(Position::new(2, 2, 1)));
  assert_eq!(input.from_offset(4), Some(Position::new(4, 2, 3)));
  assert_eq!(input.from_offset(5), Some(Position::new(5, 3, 1)));
  assert_eq!(input.from_offset(6), None);
}

#[test]
fn input_origin_label() {
  let input = Input::new("a{}", Some(ProcessOptions { from: Some("x.css".to_string()), ignore_errors: true }));
  assert_eq!(input.from(), "x.css");
  assert!(input.ignore_errors);
  let p = input.origin(3, 4).unwrap();
  assert_eq!((p.file.as_str(), p.line, p.column), ("x.css", 3, 4));
  let bare = Input::new("a{}", None);
  assert_eq!(bare.from(), "<input css>");
  assert!(bare.origin(1, 1).is_none());
}
