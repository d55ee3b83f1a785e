use editor::btep::C2S;
use editor::session::{apply_action, on_disconnect, on_message, Mode, Reply};
use editor::text::Text;
use editor::utils::CursorPos;

#[test]
fn applying_client_messages() {
    let mut text = Text::original_from_str("ab");
    text.add_client();
    assert_eq!(apply_action(&mut text, 0, &C2S::EnterInsert(CursorPos { row: 0, col: 1 })), Reply::Broadcast);
    assert_eq!(apply_action(&mut text, 0, &C2S::Char('x')), Reply::Broadcast);
    assert_eq!(apply_action(&mut text, 0, &C2S::Enter), Reply::Broadcast);
    assert_eq!(text.chars().into_iter().collect::<String>(), "ax\nb");
    assert_eq!(apply_action(&mut text, 0, &C2S::Backspace(0)), Reply::Broadcast);
    assert_eq!(text.chars().into_iter().collect::<String>(), "axb");
    assert_eq!(apply_action(&mut text, 0, &C2S::Save), Reply::Save);
    assert_eq!(apply_action(&mut text, 0, &C2S::ExitInsert), Reply::Broadcast);
    assert!(text.client(0).data.is_none());
    assert_eq!(Mode::default(), Mode::Normal);
}

fn update_targets(out: &[(usize, editor::btep::S2C<Text>)], from: usize) -> Vec<usize> {
    out.iter()
        .map(|(to, msg)| match msg {
            editor::btep::S2C::Update((sender, _)) => {
                assert_eq!(*sender, from);
                *to
            }
            _ => panic!("not an update"),
        })
        .collect()
}

#[test]
fn messages_go_to_every_other_peer() {
    let mut text = Text::original_from_str("ab");
    text.add_client();
    text.add_client();
    let peers = vec![0, 1];
    let (reply, out) = on_message(&mut text, 1, &C2S::EnterInsert(CursorPos { row: 0, col: 2 }), &peers).unwrap();
    assert_eq!(reply, Reply::Broadcast);
    assert_eq!(update_targets(&out, 1), vec![0]);
    let (reply, out) = on_message(&mut text, 1, &C2S::Char('c'), &peers).unwrap();
    assert_eq!(reply, Reply::Broadcast);
    assert_eq!(update_targets(&out, 1), vec![0]);
    assert_eq!(text.chars().into_iter().collect::<String>(), "abc");
    let (reply, out) = on_message(&mut text, 1, &C2S::Save, &peers).unwrap();
    assert_eq!(reply, Reply::Save);
    assert!(out.is_empty());
    // client 0 is not typing, so it may not send a character
    assert!(on_message(&mut text, 0, &C2S::Char('x'), &peers).is_none());
    assert_eq!(text.chars().into_iter().collect::<String>(), "abc");
}

#[test]
fn a_lost_client_leaves_insert_mode() {
    let mut text = Text::original_from_str("ab");
    text.add_client();
    text.add_client();
    on_message(&mut text, 0, &C2S::EnterInsert(CursorPos { row: 0, col: 1 }), &vec![0, 1]).unwrap();
    assert!(text.client(0).data.is_some());
    let out = on_disconnect(&mut text, 0, &vec![0, 1]);
    assert!(text.client(0).data.is_none());
    assert_eq!(text.chars().into_iter().collect::<String>(), "ab");
    assert_eq!(out.len(), 1);
    match &out[0] {
        (1, editor::btep::S2C::Update((0, C2S::ExitInsert))) => {}
        _ => panic!("wrong notice"),
    }
}
