use editor::append_only_str::{AppendOnlyStr, Span};

#[test]
fn slice_through_realloc() {
    let mut val = AppendOnlyStr::from_str("test");
    let reference = val.slice(Span::inclusive(0, 1));
    assert_eq!(reference.as_bytes(), b"te");
    val.push_str("ing stuff");
    let new_ref = val.slice(Span::up_to(6));
    assert_eq!(new_ref.as_bytes(), &b"testin"[..6]);
    assert_eq!(reference.as_bytes(), b"te");
}

#[test]
fn zero_size_alloc() {
    let _ = AppendOnlyStr::from_str("");
}

#[test]
fn push_keeps_earlier_slices() {
    let mut s = AppendOnlyStr::new();
    s.push_str("ab");
    let first = s.str_slice(Span::full());
    for _ in 0..100 {
        s.push_str("cdefgh");
    }
    assert_eq!(first.as_str(), "ab");
    assert_eq!(s.len(), 602);
}

#[test]
fn push_char_and_chars() {
    let mut s = AppendOnlyStr::with_capacity(2);
    s.push('é');
    s.push('x');
    assert_eq!(s.chars(), vec!['é', 'x']);
    assert_eq!(s.len(), 3);
    assert!(!s.is_empty());
}

#[test]
fn str_subslice_on_boundaries_only() {
    let s = AppendOnlyStr::from_str("aéb");
    let whole = s.full_str_slice();
    assert!(whole.subslice(Span::range(1, 2)).is_none());
    let middle = whole.subslice(Span::range(1, 3)).unwrap();
    assert_eq!(middle.as_str(), "é");
    assert_eq!(middle.start(), 1);
    assert_eq!(middle.end(), 3);
    let tail = middle.subslice(Span::starting_at(0)).unwrap();
    assert_eq!(tail.chars(), vec!['é']);
}

#[test]
fn byte_subslice_is_relative() {
    let s = AppendOnlyStr::from_str("hello");
    let b = s.slice(Span::range(1, 4));
    let inner = b.subslice(Span::range(1, 3));
    assert_eq!(inner.as_bytes(), b"ll");
    assert_eq!(inner.start(), 2);
}

#[test]
fn owned_chars_iterates() {
    let s = AppendOnlyStr::from_str("xy");
    let mut it = s.owned_chars();
    assert_eq!(it.next(), Some('x'));
    assert_eq!(it.next(), Some('y'));
    assert_eq!(it.next(), None);
}

#[test]
fn empty_slices() {
    let e = editor::append_only_str::StrSlice::empty();
    assert!(e.is_empty());
    assert_eq!(e.len(), 0);
    let s = AppendOnlyStr::from_str("abc");
    let end = s.str_slice_end();
    assert_eq!(end.start(), 3);
    assert!(end.is_empty());
}
