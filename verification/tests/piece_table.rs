use editor::append_only_str::{AppendOnlyStr, Span};
use editor::piece::{Buffers, Piece, TableElem};
use editor::table::Table;
use editor::utils::{AutoIncrementing, CursorPos};

fn single(text: &str) -> Piece {
    let original = AppendOnlyStr::from_str(text);
    Piece {
        piece_table: Table::from_vec(vec![TableElem {
            buf: None,
            text: original.str_slice(Span::full()),
            id: 0,
        }]),
        buffers: Buffers { original: (AutoIncrementing::new(), original), clients: vec![] },
    }
}

#[test]
fn test_chars_no_clients() {
    let piece = single("test\nmore tests\n");
    let mut chars = piece.chars().into_iter();
    assert_eq!(chars.next(), Some('t'));
    assert_eq!(chars.next(), Some('e'));
}

#[test]
fn lines_no_clients() {
    let piece = single("test\nmore tests\n");
    let mut lines = piece.lines().into_iter();
    assert_eq!(lines.next(), Some("test".to_string()));
    assert_eq!(lines.next(), Some("more tests".to_string()));
    assert_eq!(lines.next(), None);
}

#[test]
fn trailing_no_clients() {
    let piece = single("test\nmore tests\na");
    let mut lines = piece.lines().into_iter();
    assert_eq!(lines.next(), Some("test".to_string()));
    assert_eq!(lines.next(), Some("more tests".to_string()));
    assert_eq!(lines.next(), Some("a".to_string()));
    assert_eq!(lines.next(), None);
}

#[test]
fn chars_one_client_trailing() {
    let original = AppendOnlyStr::from_str("abc");
    let client1 = AppendOnlyStr::from_str("def");
    let piece = Piece {
        piece_table: Table::from_vec(vec![
            TableElem { buf: None, text: original.str_slice(Span::full()), id: 0 },
            TableElem { buf: Some((0, false)), text: client1.str_slice(Span::full()), id: 1 },
        ]),
        buffers: Buffers {
            original: (AutoIncrementing::new(), original),
            clients: vec![(AutoIncrementing::new(), client1)],
        },
    };
    let mut chars = piece.chars().into_iter();
    assert_eq!(chars.next(), Some('a'));
    assert_eq!(chars.next(), Some('b'));
    assert_eq!(chars.next(), Some('c'));
    assert_eq!(chars.next(), Some('d'));
    assert_eq!(chars.next(), Some('e'));
    assert_eq!(chars.next(), Some('f'));
    assert_eq!(chars.next(), None);
}

#[test]
fn chars_one_client_interleaved() {
    let original = AppendOnlyStr::from_str("acd");
    let client1 = AppendOnlyStr::from_str("bef");
    let piece = Piece {
        piece_table: Table::from_vec(vec![
            TableElem { buf: None, id: 0, text: original.str_slice(Span::range(0, 1)) },
            TableElem { buf: Some((0, false)), text: client1.str_slice(Span::range(0, 1)), id: 1 },
            TableElem { buf: None, id: 2, text: original.str_slice(Span::range(1, 3)) },
            TableElem { buf: Some((0, false)), text: client1.str_slice(Span::range(1, 3)), id: 3 },
        ]),
        buffers: Buffers {
            original: (AutoIncrementing::new(), original),
            clients: vec![(AutoIncrementing::new(), client1)],
        },
    };
    let mut chars = piece.chars().into_iter();
    assert_eq!(chars.next(), Some('a'));
    assert_eq!(chars.next(), Some('b'));
    assert_eq!(chars.next(), Some('c'));
    assert_eq!(chars.next(), Some('d'));
    assert_eq!(chars.next(), Some('e'));
    assert_eq!(chars.next(), Some('f'));
    assert_eq!(chars.next(), None);
}

#[test]
fn from_reader() {
    let bytes = &b"test"[..];
    let mut piece = Piece::original_from_str(std::str::from_utf8(bytes).unwrap());
    let reader = piece.read_full().unwrap();
    let elems = reader.read(&piece.piece_table);
    let mut iter = elems.iter();
    let next = iter.next().unwrap().read();
    assert_eq!(next.text.as_str(), "test");
    assert_eq!(next.buf, None);
    assert!(iter.next().is_none());
}

fn with_client(text: &str) -> Piece {
    let mut piece = Piece::original_from_str(text);
    piece.buffers.clients.push((AutoIncrementing::new(), AppendOnlyStr::new()));
    piece
}

#[test]
fn insert_at_splits_at_cursor() {
    let mut piece = with_client("hello\nworld");
    let (offset, idx) = piece.insert_at(CursorPos { row: 1, col: 2 }, 0).unwrap();
    // the cursor lands on byte 8, inside the only piece
    assert_eq!(offset, Some(8));
    assert_eq!(idx, 1);
    let elems = piece.bufs();
    assert_eq!(elems.len(), 3);
    assert_eq!(elems[0].read().text.as_str(), "hello\nwo");
    assert_eq!(elems[0].read().buf, None);
    assert_eq!(elems[1].read().buf, Some((0, true)));
    assert!(elems[1].read().text.is_empty());
    assert_eq!(elems[2].read().text.as_str(), "rld");
    // ids are the counter times the number of clients plus the client
    assert_eq!(elems[0].read().id, 0);
    assert_eq!(elems[1].read().id, 1);
    assert_eq!(piece.chars().into_iter().collect::<String>(), "hello\nworld");
}

#[test]
fn insert_at_past_end_appends() {
    let mut piece = with_client("ab");
    let (offset, idx) = piece.insert_at(CursorPos { row: 3, col: 0 }, 0).unwrap();
    assert_eq!(offset, None);
    assert_eq!(idx, 2);
    assert_eq!(piece.bufs().len(), 3);
}

#[test]
fn insert_at_piece_start_does_not_split() {
    let mut piece = with_client("ab");
    let (offset, idx) = piece.insert_at(CursorPos { row: 0, col: 0 }, 0).unwrap();
    assert_eq!(offset, Some(0));
    assert_eq!(idx, 0);
    assert_eq!(piece.bufs().len(), 2);
    assert_eq!(piece.bufs()[1].read().text.as_str(), "ab");
}

#[test]
fn cursor_past_line_end_is_clipped() {
    let piece = single("ab\ncd");
    assert_eq!(piece.cursor_byte(CursorPos { row: 0, col: 9 }), Some(2));
    assert_eq!(piece.cursor_byte(CursorPos { row: 1, col: 1 }), Some(4));
    assert_eq!(piece.cursor_byte(CursorPos { row: 1, col: 2 }), None);
    assert_eq!(piece.cursor_byte(CursorPos { row: 2, col: 0 }), None);
}

#[test]
fn write_lock_blocks_read_lock() {
    let mut piece = single("x");
    let w = piece.write_full().unwrap();
    assert!(piece.read_full().is_err());
    piece.piece_table.release_writer(w);
    assert!(piece.read_full().is_ok());
}

#[test]
fn a_fresh_table_has_room_to_insert() {
    let mut p = Piece::original_from_str("ab\ncd");
    p.buffers.clients.push((AutoIncrementing::new(), AppendOnlyStr::new()));
    assert!(p.has_insert_room(0));
    let (offset, idx) = p.insert_at(CursorPos { row: 1, col: 1 }, 0).unwrap();
    assert_eq!(offset, Some(4));
    assert_eq!(idx, 1);
    let texts: Vec<String> = p.bufs().iter().map(|e| e.read().text.as_str().to_string()).collect();
    assert_eq!(texts, vec!["ab\nc", "", "d"]);
    assert!(p.has_insert_room(0));
}
