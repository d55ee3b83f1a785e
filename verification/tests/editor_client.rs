use editor::btep::{Color, Inhabitant, C2S, S2C};
use editor::editor::{is_whitespace, App, Buffer, BufferKind, Client, Effect};
use editor::keys::{next_step, waits_for_more, Bindings, Command, Key, KeyCode, Step, CONTROL, SHIFT};
use editor::session::{action_is_allowed, apply_if_allowed, Mode, Reply};
use editor::text::Text;
use editor::screen::{DrawOp, PIPE_CHAR};
use editor::trie::Trie;
use editor::utils::CursorPos;

fn key(c: char) -> Key {
    Key::new(KeyCode::Char(c), 0)
}

fn doc(buffer: &Buffer) -> String {
    match &buffer.kind {
        BufferKind::Regular { text, .. } => text.chars().into_iter().collect(),
        BufferKind::Folder { .. } => panic!("not a document"),
    }
}

fn app_with(text: &str, link: Option<usize>) -> App {
    let buffer = Buffer::new(Text::original_from_str(text), Vec::new(), link);
    App::new(Client::new(buffer))
}

fn press(app: &mut App, k: Key) -> Vec<Effect> {
    app.handle_keyevent(k).1
}

#[test]
fn default_bindings_per_mode() {
    let b = Bindings::default();
    let normal = b.index(&Mode::Normal);
    assert_eq!(normal.get(&[key('i').id()]), Some(&Command::Insert));
    assert_eq!(normal.get(&[key('h').id()]), Some(&Command::MoveLeft));
    assert_eq!(normal.get(&[Key::new(KeyCode::Left, 0).id()]), Some(&Command::MoveLeft));
    assert_eq!(normal.get(&[Key::new(KeyCode::Enter, 0).id()]), Some(&Command::OpenEntry));
    assert_eq!(normal.get(&[key('x').id()]), None);
    let insert = b.index(&Mode::Insert);
    assert_eq!(insert.get(&[key('u').id(), key('h').id()]), Some(&Command::ExitInsert));
    assert_eq!(insert.get(&[key('u').id()]), None);
    assert_eq!(
        insert.get(&[Key::new(KeyCode::Char('w'), CONTROL).id()]),
        Some(&Command::DeleteWord)
    );
    let command = b.index(&Mode::Command(String::new()));
    assert_eq!(command.get(&[key('q').id()]), Some(&Command::CommandChar('q')));
    assert_eq!(command.get(&[key('Z').id()]), Some(&Command::CommandChar('Z')));
    assert_eq!(command.get(&[key('1').id()]), None);
    assert_eq!(command.get(&[Key::new(KeyCode::Enter, 0).id()]), Some(&Command::RunCommand));
}

#[test]
fn shifted_letters_are_upper_case() {
    assert_eq!(Key::new(KeyCode::Char('I'), SHIFT).id(), key('I').id());
    assert_eq!(Key::new(KeyCode::Char('i'), SHIFT).id(), key('I').id());
    assert_ne!(key('i').id(), key('I').id());
    let b = Bindings::default();
    let normal = b.index(&Mode::Normal);
    assert_eq!(
        normal.get(&[Key::new(KeyCode::Char('I'), SHIFT).id()]),
        Some(&Command::InsertAtLineStart)
    );
}

#[test]
fn longest_bound_beginning_runs_first() {
    let b = Bindings::default();
    let insert = b.index(&Mode::Insert);
    assert!(waits_for_more(insert, &[key('u')]));
    assert!(!waits_for_more(insert, &[key('u'), key('x')]));
    assert_eq!(next_step(insert, &[key('u'), key('h')]), Step::Run(Command::ExitInsert, 2));
    assert_eq!(next_step(insert, &[key('u'), key('x')]), Step::Fallback(key('u')));
    let normal = b.index(&Mode::Normal);
    assert_eq!(next_step(normal, &[key('j'), key('k')]), Step::Run(Command::MoveDown, 1));
}

#[test]
fn trie_knows_longer_sequences() {
    let mut t: Trie<u8> = Trie::new();
    assert!(!t.exists_child(&[]));
    t.insert(&[1, 2, 3], 7);
    assert!(t.exists_child(&[]));
    assert!(t.exists_child(&[1]));
    assert!(t.exists_child(&[1, 2]));
    assert!(!t.exists_child(&[1, 2, 3]));
    assert!(!t.exists_child(&[2]));
}

#[test]
fn typing_through_keys() {
    let mut app = app_with("hello\nworld", Some(7));
    let effects = press(&mut app, key('i'));
    assert_eq!(app.client.mode, Mode::Insert);
    assert!(matches!(effects.as_slice(), [Effect::Send(7, C2S::EnterInsert(CursorPos { row: 0, col: 0 }))]));
    let effects = press(&mut app, key('x'));
    assert!(matches!(effects.as_slice(), [Effect::Send(7, C2S::Char('x'))]));
    assert_eq!(doc(app.client.curr()), "xhello\nworld");
    assert_eq!(app.client.curr().cursorpos, CursorPos { row: 0, col: 1 });
    let effects = press(&mut app, Key::new(KeyCode::Enter, 0));
    assert!(matches!(effects.as_slice(), [Effect::Send(7, C2S::Char('\n'))]));
    assert_eq!(app.client.curr().cursorpos, CursorPos { row: 1, col: 0 });
    let effects = press(&mut app, Key::new(KeyCode::Backspace, 0));
    assert!(matches!(effects.as_slice(), [Effect::Send(7, C2S::Backspace(_))]));
    assert_eq!(doc(app.client.curr()), "xhello\nworld");
    assert_eq!(app.client.curr().cursorpos, CursorPos { row: 0, col: 1 });
    let effects = press(&mut app, Key::new(KeyCode::Esc, 0));
    assert!(matches!(effects.as_slice(), [Effect::Send(7, C2S::ExitInsert)]));
    assert_eq!(app.client.mode, Mode::Normal);
    assert_eq!(app.client.curr().cursorpos, CursorPos { row: 0, col: 1 });
}

#[test]
fn waiting_keys_and_timeout() {
    let mut app = app_with("ab", None);
    press(&mut app, key('i'));
    let effects = press(&mut app, key('u'));
    assert!(effects.is_empty());
    assert_eq!(app.keymap.len(), 1);
    press(&mut app, key('h'));
    assert!(app.keymap.is_empty());
    assert_eq!(app.client.mode, Mode::Normal);
    press(&mut app, key('i'));
    press(&mut app, key('u'));
    app.execute_keyevents();
    assert!(app.keymap.is_empty());
    assert_eq!(doc(app.client.curr()), "uab");
}

#[test]
fn moving_the_cursor() {
    let mut app = app_with("hello\nworld\n", None);
    press(&mut app, key('l'));
    assert_eq!(app.client.curr().cursorpos, CursorPos { row: 0, col: 1 });
    press(&mut app, key('j'));
    assert_eq!(app.client.curr().cursorpos, CursorPos { row: 1, col: 1 });
    press(&mut app, key('j'));
    assert_eq!(app.client.curr().cursorpos, CursorPos { row: 1, col: 1 });
    for _ in 0..10 {
        press(&mut app, key('l'));
    }
    assert_eq!(app.client.curr().cursorpos, CursorPos { row: 1, col: 4 });
    press(&mut app, key('k'));
    assert_eq!(app.client.curr().cursorpos, CursorPos { row: 0, col: 4 });
    press(&mut app, key('h'));
    press(&mut app, Key::new(KeyCode::Left, 0));
    assert_eq!(app.client.curr().cursorpos, CursorPos { row: 0, col: 2 });
    press(&mut app, Key::new(KeyCode::Up, 0));
    assert_eq!(app.client.curr().cursorpos, CursorPos { row: 0, col: 2 });
}

#[test]
fn appending_and_opening_lines() {
    let mut app = app_with("ab\ncd", None);
    press(&mut app, key('A'));
    assert_eq!(app.client.curr().cursorpos, CursorPos { row: 0, col: 2 });
    press(&mut app, key('!'));
    assert_eq!(doc(app.client.curr()), "ab!\ncd");
    press(&mut app, Key::new(KeyCode::Esc, 0));
    press(&mut app, key('o'));
    press(&mut app, key('z'));
    assert_eq!(doc(app.client.curr()), "ab!\nz\ncd");
    assert_eq!(app.client.mode, Mode::Insert);
    press(&mut app, Key::new(KeyCode::Esc, 0));
    press(&mut app, key('I'));
    press(&mut app, key('>'));
    assert_eq!(doc(app.client.curr()), "ab!\n>z\ncd");
}

#[test]
fn deleting_words() {
    let mut app = app_with("", None);
    press(&mut app, key('i'));
    for c in "ab cd".chars() {
        press(&mut app, key(c));
    }
    press(&mut app, Key::new(KeyCode::Char('w'), CONTROL));
    assert_eq!(doc(app.client.curr()), "ab ");
    press(&mut app, Key::new(KeyCode::Char('w'), CONTROL));
    assert_eq!(doc(app.client.curr()), "");
    for c in "x\ny".chars() {
        press(&mut app, key(c));
    }
    press(&mut app, Key::new(KeyCode::Char('w'), CONTROL));
    press(&mut app, Key::new(KeyCode::Char('w'), CONTROL));
    assert_eq!(doc(app.client.curr()), "x");
    assert!(is_whitespace('\t'));
    assert!(is_whitespace('\u{3000}'));
    assert!(!is_whitespace('x'));
}

#[test]
fn command_line() {
    let mut app = app_with("ab", Some(3));
    press(&mut app, key(':'));
    assert_eq!(app.client.mode, Mode::Command(String::new()));
    press(&mut app, key('w'));
    press(&mut app, key('x'));
    press(&mut app, Key::new(KeyCode::Backspace, 0));
    assert_eq!(app.client.mode, Mode::Command("w".to_string()));
    let effects = press(&mut app, Key::new(KeyCode::Enter, 0));
    assert!(matches!(effects.as_slice(), [Effect::Send(3, C2S::Save)]));
    assert_eq!(app.client.mode, Mode::Normal);
    press(&mut app, key(':'));
    press(&mut app, Key::new(KeyCode::Backspace, 0));
    assert_eq!(app.client.mode, Mode::Normal);
    press(&mut app, key(':'));
    for c in "help".chars() {
        press(&mut app, key(c));
    }
    let effects = press(&mut app, Key::new(KeyCode::Enter, 0));
    assert!(matches!(effects.as_slice(), [Effect::Help]));
    press(&mut app, key(':'));
    press(&mut app, key('q'));
    press(&mut app, Key::new(KeyCode::Enter, 0));
    assert!(app.client.buffers.is_empty());
}

#[test]
fn switching_and_closing_buffers() {
    let first = Buffer::new(Text::original_from_str("one"), Vec::new(), None);
    let mut client = Client::new(first);
    client.add_buffer(Buffer::new(Text::original_from_str("two"), Vec::new(), None));
    client.add_buffer(Buffer::new(Text::original_from_str("three"), Vec::new(), None));
    assert_eq!(client.current_buffer, 2);
    let (quit, effect) = client.execute_command("bn");
    assert!(!quit && effect.is_none());
    assert_eq!(client.current_buffer, 0);
    client.execute_command("bufprevious");
    assert_eq!(client.current_buffer, 1);
    client.execute_command("nothing");
    assert_eq!(client.current_buffer, 1);
    assert!(!client.close_current_buffer());
    assert_eq!(client.current_buffer, 1);
    assert_eq!(doc(client.curr()), "three");
    assert!(!client.close_current_buffer());
    assert_eq!(client.current_buffer, 0);
    assert!(client.close_current_buffer());
}

#[test]
fn folders() {
    let names = vec![
        Inhabitant { name: "src".to_string(), is_folder: true },
        Inhabitant { name: "main.rs".to_string(), is_folder: false },
    ];
    let mut app = App::new(Client::new(Buffer::folder(names, Some(4))));
    press(&mut app, key('i'));
    assert_eq!(app.client.mode, Mode::Normal);
    press(&mut app, key('j'));
    press(&mut app, key('l'));
    press(&mut app, key('l'));
    assert_eq!(app.client.curr().cursorpos, CursorPos { row: 1, col: 2 });
    let effects = press(&mut app, Key::new(KeyCode::Enter, 0));
    match effects.as_slice() {
        [Effect::Open(Some(4), name)] => assert_eq!(name, "main.rs"),
        other => panic!("unexpected {other:?}"),
    }
}

#[test]
fn remote_updates() {
    let mut text = Text::original_from_str("ab");
    text.add_client();
    let mut buffer = Buffer::new(text, vec![Color::Red], None);
    assert!(buffer.update(S2C::Update((0, C2S::EnterInsert(CursorPos { row: 0, col: 2 })))));
    assert!(buffer.update(S2C::Update((0, C2S::Char('c')))));
    assert_eq!(doc(&buffer), "abc");
    assert!(buffer.update(S2C::Update((0, C2S::Backspace(0)))));
    assert_eq!(doc(&buffer), "ab");
    assert!(!buffer.update(S2C::NewClient(("eve".to_string(), Color::Blue))));
    match &buffer.kind {
        BufferKind::Regular { text, colors, .. } => {
            assert_eq!(text.clients().len(), 3);
            assert_eq!(colors, &vec![Color::Red, Color::Blue]);
        }
        _ => panic!("not a document"),
    }
    assert!(buffer.update(S2C::Update((9, C2S::Char('z')))));
    assert_eq!(doc(&buffer), "ab");
}

#[test]
fn scrolling_follows_the_cursor() {
    let mut buffer = Buffer::new(Text::original_from_str("a\nb\nc\nd\ne\nf\n"), Vec::new(), None);
    buffer.cursorpos = CursorPos { row: 4, col: 0 };
    buffer.recalculate_cursor((10, 4), 3);
    assert_eq!(buffer.line_offset, 2);
    buffer.cursorpos = CursorPos { row: 1, col: 0 };
    buffer.recalculate_cursor((10, 4), 3);
    assert_eq!(buffer.line_offset, 1);
    let mut wide = Buffer::new(Text::original_from_str("abcdefgh\nx\n"), Vec::new(), None);
    wide.cursorpos = CursorPos { row: 1, col: 0 };
    wide.recalculate_cursor((5, 3), 2);
    assert_eq!(wide.line_offset, 1);
}

#[test]
fn server_checks_messages() {
    let mut text = Text::original_from_str("ab");
    text.add_client();
    assert!(!action_is_allowed(&text, 0, &C2S::Char('x')));
    assert_eq!(apply_if_allowed(&mut text, 0, &C2S::Char('x')), None);
    assert_eq!(apply_if_allowed(&mut text, 5, &C2S::Save), None);
    assert!(text.has_insert_room(0));
    assert_eq!(
        apply_if_allowed(&mut text, 0, &C2S::EnterInsert(CursorPos { row: 0, col: 0 })),
        Some(Reply::Broadcast)
    );
    assert!(action_is_allowed(&text, 0, &C2S::Char('x')));
    assert_eq!(apply_if_allowed(&mut text, 0, &C2S::Char('x')), Some(Reply::Broadcast));
    assert_eq!(apply_if_allowed(&mut text, 0, &C2S::Path("x".to_string())), None);
    assert_eq!(text.file_bytes(), b"xab".to_vec());
}

#[test]
fn drawing_a_document() {
    let mut text = Text::original_from_str("ab\ncd");
    text.add_client();
    let mut buffer = Buffer::new(text, vec![Color::Red], None);
    buffer.update(S2C::Update((0, C2S::EnterInsert(CursorPos { row: 1, col: 1 }))));
    let mut client = Client::new(buffer);
    client.info = None;
    let names = vec!["bob".to_string()];
    let ops = client.redraw(10, 3, &names);
    let expected = vec![
        DrawOp::ClearAll,
        DrawOp::MoveTo(2, 0),
        DrawOp::Print(PIPE_CHAR),
        DrawOp::Print('a'),
        DrawOp::Print('b'),
        DrawOp::NextLine,
        DrawOp::MoveToColumn(2),
        DrawOp::Print(PIPE_CHAR),
        DrawOp::Print('c'),
        DrawOp::SavePosition,
        DrawOp::MoveToColumn(0),
        DrawOp::Foreground(Color::Red),
        DrawOp::Print('b'),
        DrawOp::Print('o'),
        DrawOp::Foreground(Color::Reset),
        DrawOp::RestorePosition,
        DrawOp::Background(Color::Reset),
        DrawOp::Background(Color::Red),
        DrawOp::Print('d'),
        DrawOp::Background(Color::Reset),
        DrawOp::NextLine,
        DrawOp::MoveToColumn(2),
        DrawOp::Print(PIPE_CHAR),
        DrawOp::NextLine,
        DrawOp::MoveToColumn(2),
        DrawOp::Print(PIPE_CHAR),
        DrawOp::MoveTo(3, 0),
    ];
    assert_eq!(ops, expected);
}

#[test]
fn drawing_a_folder() {
    let names = vec![
        Inhabitant { name: "src".to_string(), is_folder: true },
        Inhabitant { name: "a".to_string(), is_folder: false },
    ];
    let client = Client::new(Buffer::folder(names, None));
    let ops = client.redraw(10, 5, &Vec::new());
    assert_eq!(
        ops,
        vec![
            DrawOp::ClearAll,
            DrawOp::MoveTo(0, 0),
            DrawOp::Foreground(Color::DarkBlue),
            DrawOp::Print('s'),
            DrawOp::Print('r'),
            DrawOp::Print('c'),
            DrawOp::Print('/'),
            DrawOp::Foreground(Color::Reset),
            DrawOp::NextLine,
            DrawOp::Print('a'),
            DrawOp::NextLine,
            DrawOp::MoveTo(0, 0),
        ]
    );
}
