use group_chat::client::{
    chat_lines, classify_input, interpret_line, parse_members, prompt, Input, Members,
    ServerLine, NOBODY_HERE,
};
use group_chat::protocol::{encode_public, open, shared_key, StaticSecret};

#[test]
fn a_room_line_changes_the_prompt() {
    let me = StaticSecret::random();
    match interpret_line("\\room den\n", "me", &me, &Members::new()) {
        ServerLine::Prompt(p) => assert_eq!(p, "[den] "),
        _ => panic!("expected a prompt"),
    }
    assert_eq!(prompt("general"), "[general] ");
}

#[test]
fn a_member_list_skips_me_and_bad_keys() {
    let alice = StaticSecret::random().public_key();
    let bob = StaticSecret::random().public_key();
    let list = format!(
        "me={} alice={} carol=nonsense bob={} dave",
        encode_public(&alice),
        encode_public(&alice),
        encode_public(&bob)
    );
    let members = parse_members(&list, "me");
    assert_eq!(members.len(), 2);
    assert_eq!(members.get("alice"), Some(alice));
    assert_eq!(members.get("bob"), Some(bob));
    assert_eq!(members.get("me"), None);
    assert_eq!(members.get("carol"), None);
    let again = parse_members(&format!("alice={} alice={}", encode_public(&alice), encode_public(&bob)), "me");
    assert_eq!(again.len(), 1);
    assert_eq!(again.get("alice"), Some(bob));
}

#[test]
fn a_message_travels_from_one_client_to_another() {
    let alice = StaticSecret::random();
    let bob = StaticSecret::random();
    let alice_knows = parse_members(&format!("bob={}", encode_public(&bob.public_key())), "alice");
    let lines = chat_lines(&alice, &alice_knows, "hi bob");
    assert_eq!(lines.len(), 1);
    let sealed = lines[0].strip_prefix("\\to bob ").unwrap();
    assert_eq!(
        open(&shared_key(&bob, &alice.public_key()), sealed).as_deref(),
        Some("hi bob")
    );
    let bob_knows = parse_members(&format!("alice={}", encode_public(&alice.public_key())), "bob");
    match interpret_line(&format!("\\from alice {}\r\n", sealed), "bob", &bob, &bob_knows) {
        ServerLine::Show(text) => assert_eq!(text, "alice: hi bob"),
        _ => panic!("expected a message"),
    }
    let eve = StaticSecret::random();
    let eve_knows = parse_members(&format!("alice={}", encode_public(&alice.public_key())), "eve");
    match interpret_line(&format!("\\from alice {}", sealed), "eve", &eve, &eve_knows) {
        ServerLine::Show(text) => assert_eq!(text, "alice: <could not decrypt>"),
        _ => panic!("expected a message"),
    }
    match interpret_line(&format!("\\from mallory {}", sealed), "bob", &bob, &bob_knows) {
        ServerLine::Show(text) => assert_eq!(text, "mallory: <unknown sender>"),
        _ => panic!("expected a message"),
    }
}

#[test]
fn notices_are_shown_as_they_are() {
    let me = StaticSecret::random();
    match interpret_line("* bob joined the room  \n", "me", &me, &Members::new()) {
        ServerLine::Show(text) => assert_eq!(text, "* bob joined the room"),
        _ => panic!("expected a notice"),
    }
}

#[test]
fn typed_lines_are_commands_chat_or_nothing() {
    assert!(matches!(classify_input("   \n"), Input::Nothing));
    match classify_input(" \\join den \n") {
        Input::Command { line, quit } => {
            assert_eq!(line, "\\join den");
            assert!(!quit);
        }
        _ => panic!("expected a command"),
    }
    assert!(matches!(classify_input("\\quit\n"), Input::Command { quit: true, .. }));
    match classify_input("hello there\n") {
        Input::Chat(text) => assert_eq!(text, "hello there"),
        _ => panic!("expected chat"),
    }
}

#[test]
fn nobody_to_talk_to_means_no_lines() {
    let me = StaticSecret::random();
    assert!(chat_lines(&me, &Members::new(), "anyone?").is_empty());
    assert_eq!(NOBODY_HERE, "(nobody else is in this room yet)");
}
