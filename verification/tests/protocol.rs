use editor::btep::{Color, Deserialize, Inhabitant, Serialize, C2S, S2C};
use editor::piece::Piece;
use editor::text::Text;
use editor::utils::CursorPos;

#[test]
fn numbers_are_big_endian() {
    assert_eq!(258usize.serialize(), vec![0, 0, 0, 0, 0, 0, 1, 2]);
    assert_eq!('A'.serialize(), vec![0, 0, 0, 65]);
    assert_eq!(CursorPos { row: 1, col: 2 }.serialize(), vec![0, 0, 0, 0, 0, 0, 0, 1, 0, 0, 0, 0, 0, 0, 0, 2]);
    assert_eq!(usize::deserialize(&[0, 0, 0, 0, 0, 0, 1, 2, 9]), Some((258, 8)));
    assert_eq!(char::deserialize(&[0, 0, 0, 65]), Some(('A', 4)));
    assert_eq!(char::deserialize(&[0, 0, 0xd8, 0]), None);
    assert_eq!(usize::deserialize(&[0, 0]), None);
}

#[test]
fn colors_round_trip() {
    let colors = [Color::Reset, Color::Grey, Color::DarkCyan, Color::Rgb { r: 1, g: 2, b: 3 }, Color::AnsiValue(200)];
    for c in colors {
        let bytes = c.serialize();
        assert_eq!(Color::deserialize(&bytes), Some((c, bytes.len())));
    }
    assert_eq!(Color::Rgb { r: 1, g: 2, b: 3 }.serialize(), vec![17, 1, 2, 3]);
    assert_eq!(Color::Red.serialize(), vec![3]);
    assert_eq!(Color::deserialize(&[19]), None);
    assert_eq!(Color::deserialize(&[17, 1]), None);
}

#[test]
fn strings_round_trip() {
    let s = String::from("héllo");
    let bytes = s.serialize();
    assert_eq!(&bytes[..8], &[0, 0, 0, 0, 0, 0, 0, 6]);
    assert_eq!(String::deserialize(&bytes), Some((s, 14)));
    assert_eq!(String::deserialize(&[0, 0, 0, 0, 0, 0, 0, 2, 0xff, 0xff]), None);
    assert_eq!(bool::deserialize(&[1]), Some((true, 1)));
    assert_eq!(bool::deserialize(&[2]), None);
}

fn same(a: &C2S, b: &C2S) -> bool {
    a.serialize() == b.serialize()
}

#[test]
fn client_messages_round_trip() {
    let msgs = vec![
        C2S::Char('x'),
        C2S::Backspace(3),
        C2S::Enter,
        C2S::EnterInsert(CursorPos { row: 4, col: 5 }),
        C2S::ExitInsert,
        C2S::Save,
        C2S::Path("dir/file.txt".to_string()),
    ];
    for m in &msgs {
        let mut bytes = m.serialize();
        let n = bytes.len();
        bytes.push(42);
        let (back, used) = C2S::deserialize(&bytes).unwrap();
        assert_eq!(used, n);
        assert!(same(m, &back));
    }
    assert_eq!(C2S::Save.serialize(), vec![3]);
    assert_eq!(C2S::Backspace(1).serialize(), vec![8, 0, 0, 0, 0, 0, 0, 0, 1]);
    assert!(C2S::deserialize(&[7]).is_none());
    assert!(C2S::deserialize(&[]).is_none());
}

#[test]
fn server_messages_round_trip() {
    let update: S2C<String> = S2C::Update((2, C2S::Char('q')));
    let bytes = update.serialize();
    assert_eq!(bytes[0], 1);
    match S2C::<String>::deserialize(&bytes) {
        Some((S2C::Update((id, C2S::Char(c))), n)) => {
            assert_eq!((id, c, n), (2, 'q', bytes.len()));
        },
        _ => panic!("update not read back"),
    }
    let newcomer: S2C<String> = S2C::NewClient(("ann".to_string(), Color::Blue));
    let bytes = newcomer.serialize();
    match S2C::<String>::deserialize(&bytes) {
        Some((S2C::NewClient((name, color)), _)) => {
            assert_eq!(name, "ann");
            assert_eq!(color, Color::Blue);
        },
        _ => panic!("new client not read back"),
    }
    let folder: S2C<String> = S2C::Folder(vec![Inhabitant { name: "src".to_string(), is_folder: true }]);
    let bytes = folder.serialize();
    match S2C::<String>::deserialize(&bytes) {
        Some((S2C::Folder(entries), _)) => {
            assert_eq!(entries.len(), 1);
            assert_eq!(entries[0].name, "src");
            assert!(entries[0].is_folder);
        },
        _ => panic!("folder not read back"),
    }
    assert!(S2C::<String>::deserialize(&[9]).is_none());
}

#[test]
fn piece_tables_round_trip() {
    let mut text = Text::original_from_str("abc\ndef");
    text.add_client();
    text.add_client();
    text.enter_insert(0, CursorPos { row: 1, col: 1 });
    text.push_str(0, "XY");
    text.enter_insert(1, CursorPos { row: 0, col: 0 });
    let bytes = text.serialize();
    let (back, n) = Text::deserialize(&bytes).unwrap();
    assert_eq!(n, bytes.len());
    assert_eq!(back.chars(), text.chars());
    assert_eq!(back.serialize(), bytes);
    assert_eq!(back.clients().len(), 2);
    assert!(back.client(0).data.is_some());

    let piece = Piece::original_from_str("héllo");
    let bytes = piece.serialize();
    // the original buffer's counter, its bytes, the end of the buffers, one piece
    assert_eq!(&bytes[..8], &[0u8; 8]);
    assert_eq!(&bytes[8..14], "héllo".as_bytes());
    assert_eq!(bytes[14], 0xff);
    let (back, n) = Piece::deserialize(&bytes).unwrap();
    assert_eq!(n, bytes.len());
    assert_eq!(back.chars(), piece.chars());
    assert!(Piece::deserialize(&bytes[..bytes.len() - 1]).is_none());
}

#[test]
fn piece_ranges_must_lie_on_character_boundaries() {
    let piece = Piece::original_from_str("héllo");
    let mut bytes = piece.serialize();
    let len = bytes.len();
    // the last eight bytes are the end of the only piece; 2 falls inside 'é'
    bytes[len - 8..].copy_from_slice(&[0, 0, 0, 0, 0, 0, 0, 2]);
    assert!(Piece::deserialize(&bytes).is_none());
    bytes[len - 8..].copy_from_slice(&[0, 0, 0, 0, 0, 0, 0, 3]);
    let (back, n) = Piece::deserialize(&bytes).unwrap();
    assert_eq!(n, len);
    assert_eq!(back.chars(), vec!['h', 'é']);
    // a piece marked as one of a client buffer, with no room left for its fields
    bytes[len - 25] = 1;
    assert!(Piece::deserialize(&bytes).is_none());
}

#[test]
fn texts_check_their_lengths_and_clients() {
    let mut text = Text::original_from_str("abc");
    text.add_client();
    let bytes = text.serialize();
    assert!(Text::deserialize(&bytes).is_some());
    let mut wrong_len = bytes.clone();
    wrong_len[7] = wrong_len[7].wrapping_add(1);
    assert!(Text::deserialize(&wrong_len).is_none());
    // a client in insert mode naming a piece that its buffer does not have
    let mut wrong_state = bytes.clone();
    let last = wrong_state.len() - 1;
    wrong_state[last] = 1;
    wrong_state.extend_from_slice(&[0, 0, 0, 0, 0, 0, 0, 5, 0, 0, 0, 0, 0, 0, 0, 6]);
    assert!(Text::deserialize(&wrong_state).is_none());
    assert!(Text::deserialize(&bytes[..bytes.len() - 1]).is_none());
}

#[test]
fn vectors_start_with_their_count() {
    assert_eq!(Vec::<usize>::deserialize(&[0u8; 8]), Some((vec![], 8)));
    assert_eq!(Vec::<usize>::deserialize(&[0u8; 7]), None);
    let v: Vec<usize> = vec![3, 4];
    let bytes = v.serialize();
    assert_eq!(Vec::<usize>::deserialize(&bytes), Some((v, 24)));
}
