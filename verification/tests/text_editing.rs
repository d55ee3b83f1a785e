use editor::text::Text;
use editor::utils::CursorPos;

#[test]
fn insert() {
    let mut text = Text::new();
    text.add_client();

    text.enter_insert(0, (0, 0).into());
    text.push_str(0, "andy");

    let mut iter = text.lines().into_iter();
    assert_eq!(iter.next(), Some("andy".into()));
    assert_eq!(iter.next(), None);
}

#[test]
fn two_clients_non_overlapping() {
    let mut text = Text::new();
    let client = text.add_client();
    let client2 = text.add_client();

    text.enter_insert(client, (0, 0).into());
    text.push_str(client, "andy");

    text.enter_insert(client2, (0, 2).into());
    text.push_str(client2, "andy");

    let mut iter = text.lines().into_iter();
    assert_eq!(iter.next(), Some("anandydy".into()));
    assert_eq!(iter.next(), None);
}

#[test]
fn multiple_clients_lines() {
    let mut text = Text::new();
    text.add_client();
    text.add_client();

    text.enter_insert(0, (0, 0).into());
    text.push_str(0, "andy");

    text.add_client();

    text.enter_insert(1, (0, 2).into());
    text.enter_insert(2, (0, 4).into());
    text.push_str(1, "andy");

    text.push_str(2, "\n\na");
    let mut iter = text.lines().into_iter();
    assert_eq!(iter.next(), Some("anandydy".into()));
    assert_eq!(iter.next(), Some("".into()));
    assert_eq!(iter.next(), Some("a".into()));
    assert_eq!(iter.next(), None);
}

#[test]
fn multiple_inserts_single_client() {
    let mut text = Text::new();
    text.add_client();

    text.enter_insert(0, (0, 0).into());
    text.push_str(0, "Hello");

    text.enter_insert(0, (0, 5).into());
    text.push_str(0, "world!");

    text.enter_insert(0, (0, 5).into());
    text.push_str(0, " ");

    let mut iter = text.lines().into_iter();
    assert_eq!(iter.next(), Some("Hello world!".to_string()));
    assert_eq!(iter.next(), None);
}

#[test]
fn backspace() {
    let mut text = Text::new();
    text.add_client();

    text.enter_insert(0, (0, 0).into());
    text.push_str(0, "Hello");

    text.enter_insert(0, (0, 5).into());
    text.push_str(0, "world!");

    text.enter_insert(0, (0, 5).into());
    text.push_str(0, " ");

    text.enter_insert(0, (0, 1).into());
    text.enter_insert(0, (0, 2).into());

    text.backspace(0);

    println!(
        "{:?}",
        text.bufs().iter().map(|x| x.read().text.as_str().to_string()).collect::<Vec<_>>()
    );

    let mut iter = text.lines().into_iter();
    assert_eq!(iter.next(), Some("Hllo world!".to_string()));
    assert_eq!(iter.next(), None);
}

#[test]
fn backspace_typing() {
    let mut text = Text::new();
    text.add_client();
    text.enter_insert(0, (0, 0).into());
    text.enter_insert(0, (0, 0).into());
    text.push_char(0, 't');
    text.push_char(0, 'e');
    text.push_char(0, 'k');
    text.push_char(0, 's');
    text.push_char(0, 't');
    text.backspace(0);
    text.backspace(0);
    text.backspace(0);
    text.push_char(0, 'x');
    text.push_char(0, 't');

    println!("{:?}", text.bufs().iter().map(|x| x.read().text.as_str()).collect::<Vec<_>>());

    let mut iter = text.lines().into_iter();
    assert_eq!(iter.next(), Some("text".to_string()));
    assert_eq!(iter.next(), None);
}

#[test]
fn backspace_swap() {
    let mut text = Text::new();
    text.add_client();
    text.add_client();
    text.enter_insert(0, (0, 0).into());
    text.push_char(0, 't');
    text.enter_insert(1, (0, 1).into());
    text.push_char(0, 'e');
    text.backspace(0);
    text.backspace(0);
    text.push_char(0, 't');
    text.push_char(1, 'e');

    let mut iter = text.lines().into_iter();
    assert_eq!(iter.next(), Some("te".to_string()));
    assert_eq!(iter.next(), None);
}

#[test]
fn blocked_backspace() {
    let mut text = Text::new();
    text.add_client();
    text.add_client();
    text.enter_insert(0, (0, 0).into());
    text.push_char(0, 't');
    text.push_char(0, 'e');

    println!("{:?}", text.client(0).data.as_ref().map(|x| x.pos));
    text.enter_insert(1, (0, 1).into());
    println!("{:?}", text.bufs().len());
    text.push_char(1, 'x');
    text.backspace(0);
    text.backspace(0);
    text.push_char(0, 't');
    text.push_char(0, 'e');

    let mut iter = text.lines().into_iter();
    assert_eq!(iter.next(), Some("txte".to_string()));
    assert_eq!(iter.next(), None);
}

fn doc(text: &Text) -> String {
    text.chars().into_iter().collect()
}

#[test]
fn entering_insert_mode_leaves_the_document() {
    let mut text = Text::original_from_str("one\ntwo");
    text.add_client();
    let (offset, _id) = text.enter_insert(0, CursorPos { row: 1, col: 1 });
    assert_eq!(offset, Some(5));
    assert_eq!(doc(&text), "one\ntwo");
    assert_eq!(text.client(0).data.as_ref().map(|d| d.pos), Some(CursorPos { row: 1, col: 1 }));
}

#[test]
fn typing_then_backspace_restores() {
    let mut text = Text::original_from_str("abc");
    text.add_client();
    text.enter_insert(0, CursorPos { row: 0, col: 1 });
    text.push_char(0, 'Z');
    assert_eq!(doc(&text), "aZbc");
    let (deleted, swaps) = text.backspace(0);
    assert_eq!(deleted, Some('Z'));
    assert_eq!(swaps, 0);
    assert_eq!(doc(&text), "abc");
}

#[test]
fn backspace_at_start_deletes_nothing() {
    let mut text = Text::original_from_str("abc");
    text.add_client();
    text.enter_insert(0, CursorPos { row: 0, col: 0 });
    let (deleted, swaps) = text.backspace(0);
    assert_eq!(deleted, None);
    assert_eq!(swaps, 0);
    assert_eq!(doc(&text), "abc");
}

#[test]
fn backspace_deletes_from_the_original() {
    let mut text = Text::original_from_str("abc");
    text.add_client();
    text.enter_insert(0, CursorPos { row: 0, col: 2 });
    assert_eq!(text.backspace(0).0, Some('b'));
    assert_eq!(doc(&text), "ac");
}

#[test]
fn backspace_moves_empty_pieces() {
    let mut text = Text::original_from_str("ab");
    text.add_client();
    text.add_client();
    // client 1 leaves an empty piece of its own right before client 0's
    text.enter_insert(1, CursorPos { row: 0, col: 1 });
    text.exit_insert(1);
    text.enter_insert(0, CursorPos { row: 0, col: 1 });
    let (deleted, swaps) = text.backspace(0);
    assert_eq!(deleted, Some('a'));
    assert!(swaps >= 1);
    assert_eq!(doc(&text), "b");
}

#[test]
fn replayed_backspace_with_swaps() {
    let mut text = Text::original_from_str("ab");
    text.add_client();
    text.add_client();
    text.enter_insert(1, CursorPos { row: 0, col: 1 });
    text.exit_insert(1);
    text.enter_insert(0, CursorPos { row: 0, col: 1 });
    assert_eq!(text.backspace_with_swaps(0, 0), Some('a'));
    assert_eq!(doc(&text), "b");
}

#[test]
fn typing_after_backspace_starts_a_new_piece() {
    let mut text = Text::new();
    text.add_client();
    text.enter_insert(0, CursorPos { row: 0, col: 0 });
    text.push_str(0, "ab");
    text.backspace(0);
    let before = text.bufs().len();
    text.push_str(0, "c");
    assert_eq!(text.bufs().len(), before + 1);
    assert_eq!(doc(&text), "ac");
    // the cursor moved one column on
    assert_eq!(text.client(0).data.as_ref().map(|d| d.pos), Some(CursorPos { row: 0, col: 1 }));
}

#[test]
fn clients_list() {
    let mut text = Text::default();
    assert_eq!(text.add_client(), 0);
    assert_eq!(text.add_client(), 1);
    assert_eq!(text.clients().len(), 2);
    assert!(text.client(1).data.is_none());
}
