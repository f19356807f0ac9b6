use group_chat::rooms::Registry;
use group_chat::server::{broadcast, move_to_room, send_member_list, send_to_member, handle_line, login, logout, Delivery, HELP, NAME_NOT_ALLOWED, NOT_ENCRYPTED};

fn pairs(v: &[Delivery]) -> Vec<(String, String)> {
    v.iter().map(|d| (d.to.clone(), d.text.clone())).collect()
}

fn p(to: &str, text: &str) -> (String, String) {
    (to.to_string(), text.to_string())
}

fn run(registry: &mut Registry, user: &str, line: &str) -> Vec<(String, String)> {
    let reply = handle_line(registry, user, line);
    assert!(!reply.quit);
    pairs(&reply.deliveries)
}

fn connected(names: &[&str]) -> Registry {
    let mut registry = Registry::new();
    for name in names {
        login(&mut registry, name).unwrap();
    }
    registry
}

#[test]
fn a_new_user_is_welcomed_in_general() {
    let mut registry = connected(&["alice"]);
    let out = pairs(&login(&mut registry, "bob").unwrap());
    assert_eq!(
        out,
        vec![
            p("bob", "\\room general"),
            p("bob", "Welcome bob! You are in the 'general' room."),
            p("bob", HELP),
            p("alice", "* bob joined the room"),
        ]
    );
    assert_eq!(registry.room_of("bob"), "general");
}

#[test]
fn bad_and_taken_names_are_refused() {
    let mut registry = connected(&["alice"]);
    assert_eq!(login(&mut registry, "").err().as_deref(), Some(NAME_NOT_ALLOWED));
    assert_eq!(login(&mut registry, "\\join").err().as_deref(), Some(NAME_NOT_ALLOWED));
    assert_eq!(
        login(&mut registry, "alice").err().as_deref(),
        Some("Username alice is already taken. Disconnecting.")
    );
    assert_eq!(registry.len(), 1);
}

#[test]
fn plaintext_is_never_relayed() {
    let mut registry = connected(&["alice", "bob"]);
    assert_eq!(run(&mut registry, "alice", "hello bob"), vec![p("alice", NOT_ENCRYPTED)]);
    assert_eq!(run(&mut registry, "alice", ""), vec![]);
}

#[test]
fn a_sealed_blob_goes_to_one_person_in_the_same_room() {
    let mut registry = connected(&["alice", "bob", "carol"]);
    let reply = handle_line(&mut registry, "alice", "\\to bob QUJD");
    assert_eq!(reply.deliveries.len(), 1);
    assert_eq!(reply.deliveries[0].to, "bob");
    assert_eq!(reply.deliveries[0].text, "\\from alice QUJD");
    assert_eq!(
        reply.deliveries[0].if_undelivered.as_deref(),
        Some("Could not deliver to 'bob' -- not in your room.")
    );
    run(&mut registry, "carol", "\\create side");
    assert_eq!(
        run(&mut registry, "alice", "\\to carol QUJD"),
        vec![p("alice", "Could not deliver to 'carol' -- not in your room.")]
    );
    assert_eq!(
        run(&mut registry, "alice", "\\to nobody QUJD"),
        vec![p("alice", "Could not deliver to 'nobody' -- not in your room.")]
    );
}

#[test]
fn a_public_key_goes_out_in_the_member_list() {
    let mut registry = connected(&["bob", "alice"]);
    assert_eq!(
        run(&mut registry, "alice", "\\pubkey  AAAA "),
        vec![p("bob", "\\members alice=AAAA"), p("alice", "\\members alice=AAAA")]
    );
    assert_eq!(
        run(&mut registry, "bob", "\\pubkey BBBB"),
        vec![
            p("bob", "\\members alice=AAAA bob=BBBB"),
            p("alice", "\\members alice=AAAA bob=BBBB")
        ]
    );
}

#[test]
fn creating_a_room_moves_you_and_tells_both_rooms() {
    let mut registry = connected(&["alice", "bob", "carol"]);
    run(&mut registry, "bob", "\\create den");
    let out = run(&mut registry, "alice", "\\create lobby");
    assert_eq!(
        out,
        vec![
            p("carol", "* alice left the room"),
            p("carol", "\\members "),
            p("alice", "\\members "),
            p("alice", "\\room lobby"),
            p("alice", "Created room 'lobby' and joined it."),
        ]
    );
    assert_eq!(registry.room_of("alice"), "lobby");
    assert_eq!(
        run(&mut registry, "carol", "\\create lobby"),
        vec![p("carol", "Room 'lobby' already exists. Use \\join instead.")]
    );
    assert_eq!(run(&mut registry, "carol", "\\create"), vec![p("carol", "Usage: \\create <room>")]);
    assert_eq!(
        run(&mut registry, "carol", "\\create_hidden   "),
        vec![p("carol", "Usage: \\create_hidden <room>")]
    );
}

#[test]
fn joining_a_room_and_its_refusals() {
    let mut registry = connected(&["alice", "bob"]);
    run(&mut registry, "alice", "\\create den");
    assert_eq!(run(&mut registry, "bob", "\\join"), vec![p("bob", "Usage: \\join <room>")]);
    assert_eq!(
        run(&mut registry, "bob", "\\join attic"),
        vec![p("bob", "Room 'attic' does not exist. Use \\create to make it.")]
    );
    assert_eq!(
        run(&mut registry, "bob", "\\join general"),
        vec![p("bob", "You are already in 'general'.")]
    );
    assert_eq!(
        run(&mut registry, "bob", "\\join den"),
        vec![
            p("alice", "* bob joined the room"),
            p("alice", "\\members "),
            p("bob", "\\members "),
            p("bob", "\\room den"),
            p("bob", "Joined 'den'."),
        ]
    );
    assert_eq!(registry.people_in("den"), vec!["alice".to_string(), "bob".to_string()]);
}

#[test]
fn an_empty_room_is_destroyed_but_general_stays() {
    let mut registry = connected(&["alice"]);
    run(&mut registry, "alice", "\\create den");
    assert!(registry.room_exists("den"));
    assert!(registry.room_exists("general"));
    run(&mut registry, "alice", "\\join general");
    assert!(!registry.room_exists("den"));
    assert!(registry.room_exists("general"));
}

#[test]
fn hidden_rooms_do_not_show_in_listings() {
    let mut registry = connected(&["alice", "bob", "carol"]);
    run(&mut registry, "alice", "\\create_hidden secret");
    run(&mut registry, "bob", "\\join secret");
    assert!(registry.room_is_hidden("secret"));
    run(&mut registry, "carol", "\\create den");
    assert_eq!(
        run(&mut registry, "bob", "\\list_rooms"),
        vec![p("bob", "Rooms:"), p("bob", "  den (1 online)"), p("bob", "  general (0 online)")]
    );
    assert_eq!(
        run(&mut registry, "carol", "\\list_all"),
        vec![p("carol", "Rooms:"), p("carol", "  den (1 online): carol"), p("carol", "  general (empty)")]
    );
    assert_eq!(
        run(&mut registry, "bob", "\\people"),
        vec![p("bob", "People in 'secret' (2): alice, bob")]
    );
}

#[test]
fn listings_are_sorted() {
    let mut registry = connected(&["zed", "amy", "Bo", "kim"]);
    run(&mut registry, "kim", "\\create beta");
    assert_eq!(
        run(&mut registry, "amy", "\\list_all"),
        vec![
            p("amy", "Rooms:"),
            p("amy", "  beta (1 online): kim"),
            p("amy", "  general (3 online): Bo, amy, zed"),
        ]
    );
    assert_eq!(
        registry.visible_rooms().into_iter().map(|(room, _)| room).collect::<Vec<_>>(),
        vec!["beta".to_string(), "general".to_string()]
    );
}

#[test]
fn help_quit_and_unknown_commands() {
    let mut registry = connected(&["alice"]);
    assert_eq!(run(&mut registry, "alice", "\\help"), vec![p("alice", HELP)]);
    assert_eq!(
        run(&mut registry, "alice", "\\dance now"),
        vec![p("alice", "Unknown command '\\dance'. Type \\help for the list.")]
    );
    let reply = handle_line(&mut registry, "alice", "\\quit");
    assert!(reply.quit);
    assert!(reply.deliveries.is_empty());
}

#[test]
fn leaving_tells_the_room() {
    let mut registry = connected(&["alice", "bob"]);
    run(&mut registry, "bob", "\\pubkey BBBB");
    let (room, out) = logout(&mut registry, "alice");
    assert_eq!(room.as_deref(), Some("general"));
    assert_eq!(
        pairs(&out),
        vec![p("bob", "\\members bob=BBBB"), p("bob", "* alice left the chat")]
    );
    assert!(!registry.contains("alice"));
    let (room, out) = logout(&mut registry, "alice");
    assert_eq!(room, None);
    assert!(out.is_empty());
}

#[test]
fn many_people_counted_in_decimal() {
    let names: Vec<String> = (0..12).map(|i| format!("u{:02}", i)).collect();
    let refs: Vec<&str> = names.iter().map(|s| s.as_str()).collect();
    let mut registry = connected(&refs);
    assert_eq!(
        run(&mut registry, "u00", "\\list_rooms"),
        vec![p("u00", "Rooms:"), p("u00", "  general (12 online)")]
    );
}

#[test]
fn the_building_blocks_on_their_own() {
    let mut registry = connected(&["alice", "bob", "carol"]);
    assert_eq!(
        pairs(&broadcast(&registry, "general", "bob", "hey")),
        vec![p("alice", "hey"), p("carol", "hey")]
    );
    assert_eq!(
        pairs(&send_to_member(&registry, "alice", "carol xyz")),
        vec![p("carol", "\\from alice xyz")]
    );
    assert_eq!(
        pairs(&send_to_member(&registry, "alice", "carol")),
        vec![p("carol", "\\from alice ")]
    );
    assert_eq!(
        pairs(&send_member_list(&registry, "general")),
        vec![p("alice", "\\members "), p("bob", "\\members "), p("carol", "\\members ")]
    );
    let out = move_to_room(&mut registry, "bob", "den", true);
    assert_eq!(
        pairs(&out),
        vec![
            p("alice", "* bob left the room"),
            p("carol", "* bob left the room"),
            p("alice", "\\members "),
            p("carol", "\\members "),
            p("bob", "\\members "),
        ]
    );
    assert!(registry.room_is_hidden("den"));
    assert!(move_to_room(&mut registry, "bob", "den", true).is_empty());
}
