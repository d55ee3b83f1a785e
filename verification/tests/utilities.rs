use editor::bufread::BufReaderExt;
use editor::iters::{InnerIteratorExt, IteratorExt, Peekable};
use editor::trie::Trie;
use editor::utils::{AutoIncrementing, CursorPos};

#[test]
fn autoincrement() {
    let mut incrementing = AutoIncrementing::new();
    assert_eq!(incrementing.get(), 0);
    assert_eq!(incrementing.get(), 1);
    assert_eq!(incrementing.get(), 2);
    assert_eq!(incrementing.get(), 3);
}

#[test]
fn autoincrement_from_start() {
    let mut incrementing = AutoIncrementing::new_with_start(7);
    assert_eq!(incrementing.peek(), 7);
    assert_eq!(incrementing.get(), 7);
    assert_eq!(incrementing.peek(), 8);
}

#[test]
fn cursor_pos_shift() {
    let pos: CursorPos = (2, 3).into();
    assert_eq!(pos, CursorPos { row: 2, col: 3 });
    assert_eq!(pos + (1, -2), CursorPos { row: 3, col: 1 });
    assert_eq!(CursorPos::default(), CursorPos { row: 0, col: 0 });
}

#[test]
fn simple_double_insert() {
    let mut trie = Trie::new();
    assert_eq!(trie.insert(&[1, 2, 3], ()), None);
    assert_eq!(trie.insert(&[1, 2, 3], ()), Some(()));
}

#[test]
fn trie_get_after_insert() {
    let mut trie = Trie::new();
    assert_eq!(trie.insert(&[4, 5], "ab"), None);
    assert_eq!(trie.insert(&[4], "a"), None);
    assert_eq!(trie.get(&[4, 5]), Some(&"ab"));
    assert_eq!(trie.get(&[4]), Some(&"a"));
    assert_eq!(trie.get(&[4, 5, 6]), None);
    assert_eq!(trie.get(&[5]), None);
    assert_eq!(trie.insert(&[], "nothing"), None);
    assert_eq!(trie.get(&[]), None);
    assert_eq!(trie.insert(&[4, 5], "cd"), Some("ab"));
    assert_eq!(trie.get(&[4, 5]), Some(&"cd"));
}

#[test]
fn take_while_ref_test() {
    let mut iter = Peekable::new((1..6).collect::<Vec<u8>>());

    let sum_a = iter.take_while_ref(|x: &u8| *x < 3).into_iter().sum::<u8>();
    let mut sum_b = 0u8;
    while let Some(x) = iter.next() {
        sum_b += x;
    }
    assert_eq!(sum_a, 1 + 2);
    assert_eq!(sum_b, 3 + 4 + 5);
}

#[test]
fn take_while_ref_leaves_rejected_item() {
    let mut iter = Peekable::new(vec![2u8, 4, 5, 6]);
    assert_eq!(iter.take_while_ref(|x: &u8| *x % 2 == 0), vec![2, 4]);
    assert_eq!(iter.peek(), Some(5));
}

#[test]
fn exact_size_chunk() {
    assert_ne!(IteratorExt::chunks((0..24).collect::<Vec<i32>>(), 24).next(), None);
}

#[test]
fn chunks_drop_the_rest() {
    let mut chunks = IteratorExt::chunks(vec![1, 2, 3, 4, 5], 2);
    assert_eq!(chunks.next(), Some(vec![1, 2]));
    assert_eq!(chunks.next(), Some(vec![3, 4]));
    assert_eq!(chunks.next(), None);
    assert_eq!(chunks.next(), None);
}

#[test]
fn all_valid() {
    let reader = &b"andy"[..];
    let mut buf = String::new();
    let (blocking, taken) = reader.read_valid_str(&mut buf).unwrap();
    assert_eq!(&buf, "andy");
    assert_eq!(blocking, None);
    assert_eq!(taken, 4);
}

#[test]
fn invalid() {
    let reader = &b"andy\xFF"[..];
    let mut buf = String::new();
    let (blocking, taken) = reader.read_valid_str(&mut buf).unwrap();
    assert_eq!(&buf, "andy");
    assert_eq!(blocking, Some(0xff));
    assert_eq!(taken, 5);
}

#[test]
fn read_valid_str_multibyte_and_cut_off() {
    let mut buf = String::new();
    let data = "hé€".as_bytes();
    assert_eq!(editor::bufread::read_valid_str(data, &mut buf), Some((None, data.len())));
    assert_eq!(buf, "hé€");
    let mut buf2 = String::new();
    // a three-byte character cut off after two bytes
    assert_eq!(editor::bufread::read_valid_str(&[b'a', 0xe2, 0x82], &mut buf2), None);
    // a continuation byte where a character should start
    let mut buf3 = String::new();
    assert_eq!(editor::bufread::read_valid_str(&[b'a', 0x80, b'b'], &mut buf3), Some((Some(0x80), 2)));
    assert_eq!(buf3, "a");
}
