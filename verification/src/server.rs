//! What the server does with what its clients send: every decision of the
//! server, from state and incoming line to new state and the lines to send.
//!
//! The server routes sealed blobs it has no key for. It tells people which
//! room they are in and who else is there, and it never relays plaintext.

use vstd::prelude::*;
use crate::protocol::{DEFAULT_ROOM, FROM_PREFIX, ROOM_PREFIX};
use crate::rooms::{
    lemma_members_line_lists_the_room, lemma_names_in_room_contains,
    lemma_others_in_room_contains, lists_room_keys, lemma_member_at, MemberView,
    lemma_join_leave_consistent, lemma_moved_consistent, lemma_with_pubkey_consistent,
    names_distinct, rooms_consistent, has_member, in_room, listing_view, member_at, members_line, moved, names_in_room,
    newcomer, others_in_room, room_exists, room_is_hidden, room_listing, room_of, with_pubkey,
    Registry,
};
use crate::text::{
    head_before, join_texts, joined, push_decimal, same_text, split_once_at, starts_with_char,
    tail_after, text_order, texts, trim, trim_seq, decimal,
};

verus! {

/// The command list, sent on connecting and for `\help`.
pub const HELP: &'static str = "Available commands:\n  \\help                   show this message\n  \\list_rooms             list the rooms and how many people are in each\n  \\list_all               list the rooms and who is in each one\n  \\people                 list the people in your current room\n  \\create <room>          create a new room and join it\n  \\create_hidden <room>   create a room that does not appear in listings\n  \\join <room>            join a room that already exists\n  \\quit                   leave the chat";

/// The first thing the server says to a new connection.
pub const USERNAME_PROMPT: &'static str = "Enter a username:";

/// The answer to a username that is empty or starts with `\`.
pub const NAME_NOT_ALLOWED: &'static str = "That username is not allowed. Disconnecting.";

/// The answer to a line that is not a command: chat only ever arrives sealed.
pub const NOT_ENCRYPTED: &'static str =
    "Messages must be encrypted. Use the client, not a raw connection.";

/// One line to send to one connected user. For a relayed blob,
/// `if_undelivered` is what to tell the sender when the line cannot be written.
pub struct Delivery {
    pub to: String,
    pub text: String,
    pub if_undelivered: Option<String>,
}

/// A [`Delivery`] as plain values.
pub struct DeliveryView {
    pub to: Seq<char>,
    pub text: Seq<char>,
    pub if_undelivered: Option<Seq<char>>,
}

impl View for Delivery {
    type V = DeliveryView;

    open spec fn view(&self) -> DeliveryView {
        DeliveryView {
            to: self.to@,
            text: self.text@,
            if_undelivered: match self.if_undelivered {
                Some(t) => Some(t@),
                None => None,
            },
        }
    }
}

/// The views of a sequence of deliveries.
pub open spec fn deliveries(v: Seq<Delivery>) -> Seq<DeliveryView> {
    v.map_values(|d: Delivery| d@)
}

/// What the server does with one line from a user: the lines to send, and
/// whether the user is leaving.
pub struct Reply {
    pub deliveries: Vec<Delivery>,
    pub quit: bool,
}

/// A plain line to one user.
pub open spec fn note(to: Seq<char>, text: Seq<char>) -> DeliveryView {
    DeliveryView { to: to, text: text, if_undelivered: None }
}

/// The same line to each of `names`, in order.
pub open spec fn to_each(names: Seq<Seq<char>>, text: Seq<char>) -> Seq<DeliveryView> {
    names.map_values(|n: Seq<char>| note(n, text))
}

/// Each of `lines`, in order, to one user.
pub open spec fn lines_to(user: Seq<char>, lines: Seq<Seq<char>>) -> Seq<DeliveryView> {
    lines.map_values(|l: Seq<char>| note(user, l))
}

/// A message to everyone in `room` except `sender`.
pub open spec fn broadcast_notes(
    s: Seq<crate::rooms::MemberView>,
    room: Seq<char>,
    sender: Seq<char>,
    text: Seq<char>,
) -> Seq<DeliveryView> {
    to_each(others_in_room(s, room, sender), text)
}

/// The member list of `room`, to everyone in it.
pub open spec fn member_list_notes(s: Seq<crate::rooms::MemberView>, room: Seq<char>) -> Seq<
    DeliveryView,
> {
    to_each(names_in_room(s, room), members_line(s, room))
}

proof fn lemma_deliveries_push(v: Seq<Delivery>, d: Delivery)
    ensures
        deliveries(v.push(d)) == deliveries(v).push(d@),
{
    assert(deliveries(v.push(d)) =~= deliveries(v).push(d@));
}

proof fn lemma_deliveries_add(v: Seq<Delivery>, w: Seq<Delivery>)
    ensures
        deliveries(v + w) == deliveries(v) + deliveries(w),
{
    assert(deliveries(v + w) =~= deliveries(v) + deliveries(w));
}

/// Appends `more` to `out`.
fn extend(out: &mut Vec<Delivery>, more: Vec<Delivery>)
    ensures
        deliveries(final(out)@) == deliveries(old(out)@) + deliveries(more@),
{
    let mut more = more;
    let ghost w = more@;
    out.append(&mut more);
    proof {
        lemma_deliveries_add(old(out)@, w);
    }
}

/// One plain line to one user.
fn note_to(to: &str, text: String) -> (d: Delivery)
    ensures
        d@ == note(to@, text@),
{
    Delivery { to: to.to_string(), text, if_undelivered: None }
}

/// The same line to each of `names`.
fn send_to_each(names: &Vec<String>, text: &str) -> (r: Vec<Delivery>)
    ensures
        deliveries(r@) == to_each(texts(names@), text@),
{
    let mut r: Vec<Delivery> = Vec::new();
    let mut i: usize = 0;
    while i < names.len()
        invariant
            i <= names.len(),
            deliveries(r@) == to_each(texts(names@.take(i as int)), text@),
        decreases names.len() - i,
    {
        let ghost before = r@;
        r.push(note_to(names[i].as_str(), text.to_string()));
        proof {
            lemma_deliveries_push(before, r@.last());
            assert(to_each(texts(names@.take(i + 1)), text@) =~= to_each(
                texts(names@.take(i as int)),
                text@,
            ).push(note(names@[i as int]@, text@)));
        }
        i = i + 1;
    }
    assert(names@.take(names.len() as int) =~= names@);
    r
}

/// Send a message to everyone in `room` except `sender`.
pub fn broadcast(registry: &Registry, room: &str, sender: &str, text: &str) -> (r: Vec<Delivery>)
    ensures
        deliveries(r@) == broadcast_notes(registry@, room@, sender@, text@),
{
    let targets = registry.others_in(room, sender);
    send_to_each(&targets, text)
}

/// Tell everyone in a room who else is there, and what their public keys
/// are. Clients need this to encrypt: there is one ciphertext per recipient,
/// so a sender has to know exactly who is listening right now. Sent whenever
/// the membership of a room changes.
pub fn send_member_list(registry: &Registry, room: &str) -> (r: Vec<Delivery>)
    ensures
        deliveries(r@) == member_list_notes(registry@, room@),
{
    let (line, targets) = registry.member_list(room);
    send_to_each(&targets, line.as_str())
}

/// `* alice joined the room`
pub open spec fn joined_notice(user: Seq<char>) -> Seq<char> {
    "* "@ + user + " joined the room"@
}

/// `* alice left the room`
pub open spec fn left_notice(user: Seq<char>) -> Seq<char> {
    "* "@ + user + " left the room"@
}

/// `* alice left the chat`
pub open spec fn quit_notice(user: Seq<char>) -> Seq<char> {
    "* "@ + user + " left the chat"@
}

fn notice(user: &str, what: &str) -> (r: String)
    ensures
        r@ == "* "@ + user@ + what@,
{
    let mut r = "* ".to_string();
    r.append(user);
    r.append(what);
    r
}

/// What moving `user` to `new_room` does: the registry afterwards, and the
/// lines it sends. The old room hears that the user left, the new room that
/// they joined, and both get a fresh member list.
pub open spec fn move_outcome(
    s: Seq<crate::rooms::MemberView>,
    user: Seq<char>,
    new_room: Seq<char>,
    hidden: bool,
) -> (Seq<crate::rooms::MemberView>, Seq<DeliveryView>) {
    let old_room = room_of(s, user);
    if old_room == new_room {
        (s, seq![])
    } else {
        let after = moved(s, user, new_room, hidden);
        (
            after,
            broadcast_notes(s, old_room, user, left_notice(user)) + broadcast_notes(
                after,
                new_room,
                user,
                joined_notice(user),
            ) + member_list_notes(after, old_room) + member_list_notes(after, new_room),
        )
    }
}

/// Move a user to another room and tell both rooms about it.
pub fn move_to_room(registry: &mut Registry, user: &str, new_room: &str, hidden: bool) -> (r: Vec<
    Delivery,
>)
    ensures
        (final(registry)@, deliveries(r@)) == move_outcome(old(registry)@, user@, new_room@, hidden),
{
    let old_room = registry.room_of(user);
    if same_text(old_room.as_str(), new_room) {
        return Vec::new();
    }
    let mut out = broadcast(registry, old_room.as_str(), user, notice(user, " left the room").as_str());
    registry.move_member(user, new_room, hidden);
    extend(&mut out, broadcast(registry, new_room, user, notice(user, " joined the room").as_str()));
    extend(&mut out, send_member_list(registry, old_room.as_str()));
    extend(&mut out, send_member_list(registry, new_room));
    out
}


/// The command word of a line: everything before the first space.
pub open spec fn command_of(line: Seq<char>) -> Seq<char> {
    head_before(line, ' ')
}

/// The argument of a line: everything after the first space, trimmed.
pub open spec fn argument_of(line: Seq<char>) -> Seq<char> {
    trim_seq(
        match tail_after(line, ' ') {
            Some(t) => t,
            None => seq![],
        },
    )
}

/// `Could not deliver to 'bob' -- not in your room.`
pub open spec fn undeliverable(recipient: Seq<char>) -> Seq<char> {
    "Could not deliver to '"@ + recipient + "' -- not in your room."@
}

/// What `\to <recipient> <sealed>` sends: the blob to the recipient when they
/// are in the sender's room, and otherwise a refusal to the sender. This is
/// what stops a client from delivering blobs to people outside its own room.
pub open spec fn relay_notes(
    s: Seq<crate::rooms::MemberView>,
    user: Seq<char>,
    argument: Seq<char>,
) -> Seq<DeliveryView> {
    let recipient = head_before(argument, ' ');
    let sealed = match tail_after(argument, ' ') {
        Some(t) => t,
        None => seq![],
    };
    if in_room(s, recipient, room_of(s, user)) {
        seq![
            DeliveryView {
                to: recipient,
                text: FROM_PREFIX@ + user + " "@ + sealed,
                if_undelivered: Some(undeliverable(recipient)),
            },
        ]
    } else {
        seq![note(user, undeliverable(recipient))]
    }
}

/// `  general (2 online)`
pub open spec fn count_line(e: (Seq<char>, Seq<Seq<char>>)) -> Seq<char> {
    "  "@ + e.0 + " ("@ + decimal(e.1.len()) + " online)"@
}

/// `  general (2 online): alice, bob`, or `  general (empty)`.
pub open spec fn detail_line(e: (Seq<char>, Seq<Seq<char>>)) -> Seq<char> {
    if e.1.len() == 0 {
        "  "@ + e.0 + " (empty)"@
    } else {
        "  "@ + e.0 + " ("@ + decimal(e.1.len()) + " online): "@ + joined(e.1, ", "@)
    }
}

/// `People in 'general' (2): alice, bob`
pub open spec fn people_line(room: Seq<char>, people: Seq<Seq<char>>) -> Seq<char> {
    "People in '"@ + room + "' ("@ + decimal(people.len()) + "): "@ + joined(people, ", "@)
}

/// What `\create <room>` and `\create_hidden <room>` do: the room must be new,
/// and the user moves into it.
pub open spec fn create_outcome(
    s: Seq<crate::rooms::MemberView>,
    user: Seq<char>,
    command: Seq<char>,
    argument: Seq<char>,
) -> (Seq<crate::rooms::MemberView>, Seq<DeliveryView>) {
    let hidden = command == "\\create_hidden"@;
    if argument.len() == 0 {
        (s, seq![note(user, "Usage: "@ + command + " <room>"@)])
    } else if room_exists(s, argument) {
        (s, seq![note(user, "Room '"@ + argument + "' already exists. Use \\join instead."@)])
    } else {
        let m = move_outcome(s, user, argument, hidden);
        (
            m.0,
            m.1 + seq![
                note(user, ROOM_PREFIX@ + argument),
                note(
                    user,
                    "Created "@ + (if hidden {
                        "hidden room"@
                    } else {
                        "room"@
                    }) + " '"@ + argument + "' and joined it."@,
                ),
            ],
        )
    }
}

/// What `\join <room>` does: the room must exist and be another room, and
/// the user moves into it, keeping whatever visibility the room already had.
pub open spec fn join_outcome(
    s: Seq<crate::rooms::MemberView>,
    user: Seq<char>,
    argument: Seq<char>,
) -> (Seq<crate::rooms::MemberView>, Seq<DeliveryView>) {
    if argument.len() == 0 {
        (s, seq![note(user, "Usage: \\join <room>"@)])
    } else if !room_exists(s, argument) {
        (s, seq![note(user, "Room '"@ + argument + "' does not exist. Use \\create to make it."@)])
    } else if argument == room_of(s, user) {
        (s, seq![note(user, "You are already in '"@ + argument + "'."@)])
    } else {
        let m = move_outcome(s, user, argument, room_is_hidden(s, argument));
        (
            m.0,
            m.1 + seq![
                note(user, ROOM_PREFIX@ + argument),
                note(user, "Joined '"@ + argument + "'."@),
            ],
        )
    }
}

/// What one line from `user` does: the registry afterwards, the lines sent,
/// and whether the user leaves.
pub open spec fn command_outcome(s: Seq<crate::rooms::MemberView>, user: Seq<char>, line: Seq<char>) -> (
    Seq<crate::rooms::MemberView>,
    Seq<DeliveryView>,
    bool,
) {
    let command = command_of(line);
    let argument = argument_of(line);
    if line.len() == 0 {
        (s, seq![], false)
    } else if line[0] != '\\' {
        (s, seq![note(user, NOT_ENCRYPTED@)], false)
    } else if command == "\\pubkey"@ {
        let after = with_pubkey(s, user, argument);
        (after, member_list_notes(after, room_of(after, user)), false)
    } else if command == "\\to"@ {
        (s, relay_notes(s, user, argument), false)
    } else if command == "\\help"@ {
        (s, seq![note(user, HELP@)], false)
    } else if command == "\\list_rooms"@ {
        (
            s,
            seq![note(user, "Rooms:"@)] + lines_to(user, listing_lines_of(false, room_listing(s))),
            false,
        )
    } else if command == "\\list_all"@ {
        (
            s,
            seq![note(user, "Rooms:"@)] + lines_to(user, listing_lines_of(true, room_listing(s))),
            false,
        )
    } else if command == "\\people"@ {
        let room = room_of(s, user);
        (
            s,
            seq![note(user, people_line(room, names_in_room(s, room).sort_by(text_order())))],
            false,
        )
    } else if command == "\\create"@ || command == "\\create_hidden"@ {
        let m = create_outcome(s, user, command, argument);
        (m.0, m.1, false)
    } else if command == "\\join"@ {
        let m = join_outcome(s, user, argument);
        (m.0, m.1, false)
    } else if command == "\\quit"@ {
        (s, seq![], true)
    } else {
        (
            s,
            seq![note(user, "Unknown command '"@ + command + "'. Type \\help for the list."@)],
            false,
        )
    }
}

fn count_line_text(room: &String, people: &Vec<String>) -> (r: String)
    ensures
        r@ == count_line((room@, texts(people@))),
{
    let mut r = "  ".to_string();
    r.append(room.as_str());
    r.append(" (");
    push_decimal(&mut r, people.len() as u64);
    r.append(" online)");
    r
}

fn detail_line_text(room: &String, people: &Vec<String>) -> (r: String)
    ensures
        r@ == detail_line((room@, texts(people@))),
{
    let mut r = "  ".to_string();
    r.append(room.as_str());
    if people.len() == 0 {
        r.append(" (empty)");
    } else {
        r.append(" (");
        push_decimal(&mut r, people.len() as u64);
        r.append(" online): ");
        let names = join_texts(people, ", ");
        r.append(names.as_str());
    }
    r
}

/// The line for one room in a listing: detailed, or with the people counted.
pub open spec fn listing_line(detailed: bool, e: (Seq<char>, Seq<Seq<char>>)) -> Seq<char> {
    if detailed {
        detail_line(e)
    } else {
        count_line(e)
    }
}

/// The lines for each room in a listing.
pub open spec fn listing_lines_of(detailed: bool, listing: Seq<(Seq<char>, Seq<Seq<char>>)>) -> Seq<
    Seq<char>,
> {
    listing.map_values(|e: (Seq<char>, Seq<Seq<char>>)| listing_line(detailed, e))
}

/// One line per listed room, to `user`: with the people counted, or, when
/// `detailed`, named too.
fn listing_lines(registry: &Registry, user: &str, detailed: bool) -> (r: Vec<Delivery>)
    ensures
        deliveries(r@) == seq![note(user@, "Rooms:"@)] + lines_to(
            user@,
            listing_lines_of(detailed, room_listing(registry@)),
        ),
{
    let listing = registry.visible_rooms();
    let ghost lv = listing_view(listing@);
    let mut r: Vec<Delivery> = Vec::new();
    r.push(note_to(user, "Rooms:".to_string()));
    let mut i: usize = 0;
    proof {
        assert(deliveries(r@) =~= seq![note(user@, "Rooms:"@)] + lines_to(
            user@,
            listing_lines_of(detailed, lv.take(0)),
        ));
    }
    while i < listing.len()
        invariant
            i <= listing.len(),
            lv == listing_view(listing@),
            deliveries(r@) == seq![note(user@, "Rooms:"@)] + lines_to(
                user@,
                listing_lines_of(detailed, lv.take(i as int)),
            ),
        decreases listing.len() - i,
    {
        let ghost before = r@;
        let line = if detailed {
            detail_line_text(&listing[i].0, &listing[i].1)
        } else {
            count_line_text(&listing[i].0, &listing[i].1)
        };
        r.push(note_to(user, line));
        proof {
            assert(r@ =~= before.push(r@.last()));
            lemma_deliveries_push(before, r@.last());
            assert(lv[i as int] == (listing@[i as int].0@, texts(listing@[i as int].1@)));
            assert(line@ == listing_line(detailed, lv[i as int]));
            assert(listing_lines_of(detailed, lv.take(i + 1)) =~= listing_lines_of(
                detailed,
                lv.take(i as int),
            ).push(listing_line(detailed, lv[i as int])));
            assert(lines_to(user@, listing_lines_of(detailed, lv.take(i + 1))) =~= lines_to(
                user@,
                listing_lines_of(detailed, lv.take(i as int)),
            ).push(note(user@, listing_line(detailed, lv[i as int]))));
        }
        i = i + 1;
    }
    assert(lv.take(listing.len() as int) =~= lv);
    r
}

/// The people in the user's room, to the user.
fn people_reply(registry: &Registry, user: &str) -> (r: Vec<Delivery>)
    ensures
        deliveries(r@) == seq![
            note(
                user@,
                people_line(
                    room_of(registry@, user@),
                    names_in_room(registry@, room_of(registry@, user@)).sort_by(text_order()),
                ),
            ),
        ],
{
    let room = registry.room_of(user);
    let members = registry.people_in(room.as_str());
    let mut line = "People in '".to_string();
    line.append(room.as_str());
    line.append("' (");
    push_decimal(&mut line, members.len() as u64);
    line.append("): ");
    let names = join_texts(&members, ", ");
    line.append(names.as_str());
    let mut r: Vec<Delivery> = Vec::new();
    r.push(note_to(user, line));
    assert(deliveries(r@) =~= seq![r@[0]@]);
    r
}

/// A single line to `user`.
fn just(user: &str, text: String) -> (r: Vec<Delivery>)
    ensures
        deliveries(r@) == seq![note(user@, text@)],
{
    let mut r: Vec<Delivery> = Vec::new();
    r.push(note_to(user, text));
    assert(deliveries(r@) =~= seq![note(user@, text@)]);
    r
}

/// Relay one sealed blob to one person in the same room: `argument` is
/// `<recipient> <base64>`, and the blob is opaque to the server.
pub fn send_to_member(registry: &Registry, user: &str, argument: &str) -> (r: Vec<Delivery>)
    ensures
        deliveries(r@) == relay_notes(registry@, user@, argument@),
{
    let (recipient, rest) = split_once_at(argument, ' ');
    let sealed = match rest {
        Some(t) => t,
        None => "",
    };
    proof {
        reveal_strlit("");
    }
    let room = registry.room_of(user);
    let mut refusal = "Could not deliver to '".to_string();
    refusal.append(recipient);
    refusal.append("' -- not in your room.");
    if registry.is_in_room(recipient, room.as_str()) {
        let mut text = FROM_PREFIX.to_string();
        text.append(user);
        text.append(" ");
        text.append(sealed);
        let mut r: Vec<Delivery> = Vec::new();
        r.push(Delivery { to: recipient.to_string(), text, if_undelivered: Some(refusal) });
        assert(deliveries(r@) =~= seq![r@[0]@]);
        r
    } else {
        just(user, refusal)
    }
}

/// Handles `\create` and `\create_hidden`.
fn create_room(registry: &mut Registry, user: &str, command: &str, argument: &str) -> (r: Vec<
    Delivery,
>)
    ensures
        (final(registry)@, deliveries(r@)) == create_outcome(
            old(registry)@,
            user@,
            command@,
            argument@,
        ),
{
    let hidden = same_text(command, "\\create_hidden");
    if argument.unicode_len() == 0 {
        let mut t = "Usage: ".to_string();
        t.append(command);
        t.append(" <room>");
        return just(user, t);
    }
    if registry.room_exists(argument) {
        let mut t = "Room '".to_string();
        t.append(argument);
        t.append("' already exists. Use \\join instead.");
        return just(user, t);
    }
    let mut out = move_to_room(registry, user, argument, hidden);
    let mut room_line = ROOM_PREFIX.to_string();
    room_line.append(argument);
    let kind = if hidden {
        "hidden room"
    } else {
        "room"
    };
    let mut t = "Created ".to_string();
    t.append(kind);
    t.append(" '");
    t.append(argument);
    t.append("' and joined it.");
    let ghost before = out@;
    out.push(note_to(user, room_line));
    out.push(note_to(user, t));
    proof {
        assert(deliveries(out@) =~= deliveries(before) + seq![out@[before.len() as int]@, out@[before.len() + 1int]@]);
    }
    out
}

/// Handles `\join`.
fn join_room(registry: &mut Registry, user: &str, argument: &str) -> (r: Vec<Delivery>)
    ensures
        (final(registry)@, deliveries(r@)) == join_outcome(old(registry)@, user@, argument@),
{
    if argument.unicode_len() == 0 {
        return just(user, "Usage: \\join <room>".to_string());
    }
    if !registry.room_exists(argument) {
        let mut t = "Room '".to_string();
        t.append(argument);
        t.append("' does not exist. Use \\create to make it.");
        return just(user, t);
    }
    let current = registry.room_of(user);
    if same_text(argument, current.as_str()) {
        let mut t = "You are already in '".to_string();
        t.append(argument);
        t.append("'.");
        return just(user, t);
    }
    let hidden = registry.room_is_hidden(argument);
    let mut out = move_to_room(registry, user, argument, hidden);
    let mut room_line = ROOM_PREFIX.to_string();
    room_line.append(argument);
    let mut t = "Joined '".to_string();
    t.append(argument);
    t.append("'.");
    let ghost before = out@;
    out.push(note_to(user, room_line));
    out.push(note_to(user, t));
    proof {
        assert(deliveries(out@) =~= deliveries(before) + seq![out@[before.len() as int]@, out@[before.len() + 1int]@]);
    }
    out
}

/// Handles one line from a connected user: the server's main loop is one line
/// in, one action.
pub fn handle_line(registry: &mut Registry, user: &str, line: &str) -> (r: Reply)
    ensures
        (final(registry)@, deliveries(r.deliveries@), r.quit) == command_outcome(
            old(registry)@,
            user@,
            line@,
        ),
{
    if line.unicode_len() == 0 {
        let r = Reply { deliveries: Vec::new(), quit: false };
        assert(deliveries(r.deliveries@) =~= seq![]);
        return r;
    }
    if !starts_with_char(line, '\\') {
        return Reply { deliveries: just(user, NOT_ENCRYPTED.to_string()), quit: false };
    }
    let (command, rest) = split_once_at(line, ' ');
    let argument = trim(
        match rest {
            Some(t) => t,
            None => "",
        },
    );
    proof {
        reveal_strlit("");
        assert(argument@ == argument_of(line@));
        assert(command@ == command_of(line@));
    }
    if same_text(command, "\\pubkey") {
        registry.set_pubkey(user, argument);
        let room = registry.room_of(user);
        let d = send_member_list(registry, room.as_str());
        assert(final(registry)@ == with_pubkey(old(registry)@, user@, argument_of(line@)));
        assert(deliveries(d@) == member_list_notes(final(registry)@, room_of(final(registry)@, user@)));
        return Reply { deliveries: d, quit: false };
    }
    if same_text(command, "\\to") {
        let d = send_to_member(registry, user, argument);
        assert(deliveries(d@) == relay_notes(old(registry)@, user@, argument_of(line@)));
        return Reply { deliveries: d, quit: false };
    }
    if same_text(command, "\\help") {
        return Reply { deliveries: just(user, HELP.to_string()), quit: false };
    }
    if same_text(command, "\\list_rooms") {
        return Reply { deliveries: listing_lines(registry, user, false), quit: false };
    }
    if same_text(command, "\\list_all") {
        return Reply { deliveries: listing_lines(registry, user, true), quit: false };
    }
    if same_text(command, "\\people") {
        return Reply { deliveries: people_reply(registry, user), quit: false };
    }
    if same_text(command, "\\create") || same_text(command, "\\create_hidden") {
        return Reply { deliveries: create_room(registry, user, command, argument), quit: false };
    }
    if same_text(command, "\\join") {
        return Reply { deliveries: join_room(registry, user, argument), quit: false };
    }
    if same_text(command, "\\quit") {
        let r = Reply { deliveries: Vec::new(), quit: true };
        assert(deliveries(r.deliveries@) =~= seq![]);
        return r;
    }
    let mut t = "Unknown command '".to_string();
    t.append(command);
    t.append("'. Type \\help for the list.");
    Reply { deliveries: just(user, t), quit: false }
}


/// A username may not be empty or begin with `\`.
pub open spec fn username_allowed(name: Seq<char>) -> bool {
    name.len() > 0 && name[0] != '\\'
}

/// `Username alice is already taken. Disconnecting.`
pub open spec fn taken_line(name: Seq<char>) -> Seq<char> {
    "Username "@ + name + " is already taken. Disconnecting."@
}

/// `Welcome alice! You are in the 'general' room.`
pub open spec fn welcome_line(name: Seq<char>) -> Seq<char> {
    "Welcome "@ + name + "! You are in the '"@ + DEFAULT_ROOM@ + "' room."@
}

/// What asking to join under `name` does: refused with a line to send before
/// disconnecting, or registered in `general` with the lines to send. The new
/// user is told their room, welcomed and shown the commands; `general` hears
/// that they joined.
pub open spec fn login_outcome(s: Seq<crate::rooms::MemberView>, name: Seq<char>) -> (
    Seq<crate::rooms::MemberView>,
    Result<Seq<DeliveryView>, Seq<char>>,
) {
    if !username_allowed(name) {
        (s, Err(NAME_NOT_ALLOWED@))
    } else if has_member(s, name) {
        (s, Err(taken_line(name)))
    } else {
        let after = s.push(newcomer(name));
        (
            after,
            Ok(
                seq![
                    note(name, ROOM_PREFIX@ + DEFAULT_ROOM@),
                    note(name, welcome_line(name)),
                    note(name, HELP@),
                ] + broadcast_notes(after, DEFAULT_ROOM@, name, joined_notice(name)),
            ),
        )
    }
}

/// The refusal for a name that is already taken.
pub fn taken_message(name: &str) -> (r: String)
    ensures
        r@ == taken_line(name@),
{
    let mut t = "Username ".to_string();
    t.append(name);
    t.append(" is already taken. Disconnecting.");
    t
}

/// Registers a new connection under `name`, or says why not.
pub fn login(registry: &mut Registry, name: &str) -> (r: Result<Vec<Delivery>, String>)
    ensures
        (
            final(registry)@,
            match r {
                Ok(v) => Ok(deliveries(v@)),
                Err(t) => Err(t@),
            },
        ) == login_outcome(old(registry)@, name@),
{
    if name.unicode_len() == 0 || starts_with_char(name, '\\') {
        return Err(NAME_NOT_ALLOWED.to_string());
    }
    if !registry.register(name) {
        return Err(taken_message(name));
    }
    let mut room_line = ROOM_PREFIX.to_string();
    room_line.append(DEFAULT_ROOM);
    let mut welcome = "Welcome ".to_string();
    welcome.append(name);
    welcome.append("! You are in the '");
    welcome.append(DEFAULT_ROOM);
    welcome.append("' room.");
    let mut out: Vec<Delivery> = Vec::new();
    out.push(note_to(name, room_line));
    out.push(note_to(name, welcome));
    out.push(note_to(name, HELP.to_string()));
    let ghost first = out@;
    assert(deliveries(first) =~= seq![first[0]@, first[1]@, first[2]@]);
    extend(&mut out, broadcast(registry, DEFAULT_ROOM, name, notice(name, " joined the room").as_str()));
    Ok(out)
}

/// What disconnecting `name` does: the registry without them, and, for
/// someone who was connected, the room they were in; that room gets a fresh
/// member list and hears that they left.
pub open spec fn logout_outcome(s: Seq<crate::rooms::MemberView>, name: Seq<char>) -> (
    Seq<crate::rooms::MemberView>,
    Option<Seq<char>>,
    Seq<DeliveryView>,
) {
    if has_member(s, name) {
        let room = room_of(s, name);
        let after = s.remove(member_at(s, name));
        (
            after,
            Some(room),
            member_list_notes(after, room) + broadcast_notes(after, room, name, quit_notice(name)),
        )
    } else {
        (s, None, seq![])
    }
}

/// Cleanup when a connection ends, however it ended.
pub fn logout(registry: &mut Registry, name: &str) -> (r: (Option<String>, Vec<Delivery>))
    ensures
        (
            final(registry)@,
            match r.0 {
                Some(room) => Some(room@),
                None => None,
            },
            deliveries(r.1@),
        ) == logout_outcome(old(registry)@, name@),
{
    match registry.remove(name) {
        None => {
            let v: Vec<Delivery> = Vec::new();
            assert(deliveries(v@) =~= seq![]);
            (None, v)
        },
        Some(room) => {
            let mut out = send_member_list(registry, room.as_str());
            extend(&mut out, broadcast(registry, room.as_str(), name, notice(name, " left the chat").as_str()));
            (Some(room), out)
        },
    }
}


/// Everyone in a room agrees on whether it is hidden, and `general` is never
/// hidden, whatever a connected user sends: a room keeps whatever visibility
/// it already had, so joining a hidden room does not expose it in listings.
pub proof fn lemma_command_keeps_rooms_consistent(
    s: Seq<crate::rooms::MemberView>,
    user: Seq<char>,
    line: Seq<char>,
)
    requires
        names_distinct(s),
        rooms_consistent(s),
    ensures
        rooms_consistent(command_outcome(s, user, line).0),
{
    let command = command_of(line);
    let argument = argument_of(line);
    if line.len() == 0 || line[0] != '\\' {
    } else if command == "\\pubkey"@ {
        lemma_with_pubkey_consistent(s, user, argument);
    } else if command == "\\create"@ || command == "\\create_hidden"@ {
        let hidden = command == "\\create_hidden"@;
        if argument.len() > 0 && !room_exists(s, argument) && room_of(s, user) != argument {
            assert forall|i: int|
                0 <= i < s.len() && #[trigger] s[i].room == argument && s[i].name != user
                implies s[i].room_hidden == hidden by {
                assert(room_exists(s, argument));
            }
            lemma_moved_consistent(s, user, argument, hidden);
        }
    } else if command == "\\join"@ {
        if argument.len() > 0 && room_exists(s, argument) && argument != room_of(s, user) {
            let hidden = room_is_hidden(s, argument);
            assert forall|i: int|
                0 <= i < s.len() && #[trigger] s[i].room == argument && s[i].name != user
                implies s[i].room_hidden == hidden by {
                if hidden {
                    let j = choose|j: int|
                        0 <= j < s.len() && #[trigger] s[j].room == argument && s[j].room_hidden;
                    assert(s[i].room == s[j].room);
                } else if s[i].room_hidden {
                    assert(argument != DEFAULT_ROOM@);
                }
            }
            lemma_moved_consistent(s, user, argument, hidden);
        }
    }
}

/// Registering and disconnecting keep the rooms consistent too.
pub proof fn lemma_login_logout_keep_rooms_consistent(
    s: Seq<crate::rooms::MemberView>,
    name: Seq<char>,
)
    requires
        rooms_consistent(s),
    ensures
        rooms_consistent(login_outcome(s, name).0),
        rooms_consistent(logout_outcome(s, name).0),
{
    lemma_join_leave_consistent(s, name, member_at(s, name));
}

/// Everyone starts in `general`; usernames stay unique; and once someone
/// disconnects they are gone from the registry.
pub proof fn lemma_login_and_logout(s: Seq<crate::rooms::MemberView>, name: Seq<char>)
    requires
        names_distinct(s),
    ensures
        login_outcome(s, name).1 is Ok ==> room_of(login_outcome(s, name).0, name)
            == DEFAULT_ROOM@,
        login_outcome(s, name).1 is Ok <==> username_allowed(name) && !has_member(s, name),
        names_distinct(login_outcome(s, name).0),
        !has_member(logout_outcome(s, name).0, name),
        names_distinct(logout_outcome(s, name).0),
{
    if username_allowed(name) && !has_member(s, name) {
        let t = s.push(newcomer(name));
        assert forall|a: int, b: int| 0 <= a < b < t.len() implies #[trigger] t[a].name
            != #[trigger] t[b].name by {
            if b == s.len() {
                assert(s[a].name != name);
            } else {
                assert(s[a].name != s[b].name);
            }
        }
        assert(t[s.len() as int].name == name);
        crate::rooms::lemma_member_at(t, name, s.len() as int);
    }
    if has_member(s, name) {
        let i = member_at(s, name);
        let u = s.remove(i);
        assert forall|a: int, b: int| 0 <= a < b < u.len() implies #[trigger] u[a].name
            != #[trigger] u[b].name by {
            let a0 = if a < i { a } else { a + 1 };
            let b0 = if b < i { b } else { b + 1 };
            assert(s[a0].name != s[b0].name);
        }
        if has_member(u, name) {
            let j = choose|j: int| 0 <= j < u.len() && #[trigger] u[j].name == name;
            let j0 = if j < i { j } else { j + 1 };
            assert(s[j0].name == name);
            if j0 < i {
                assert(s[j0].name != s[i].name);
            } else {
                assert(s[i].name != s[j0].name);
            }
        }
    }
}

/// Chat never arrives as plaintext: a line that is not a command is never
/// relayed. The sender alone hears that messages must be encrypted, and
/// nothing changes.
pub proof fn lemma_plaintext_is_not_relayed(
    s: Seq<crate::rooms::MemberView>,
    user: Seq<char>,
    line: Seq<char>,
)
    requires
        line.len() > 0,
        line[0] != '\\',
    ensures
        command_outcome(s, user, line) == (s, seq![note(user, NOT_ENCRYPTED@)], false),
{
}

/// A sealed blob only ever goes to someone in the sender's own room; every
/// other line of a relay goes back to the sender.
pub proof fn lemma_relay_stays_in_room(
    s: Seq<crate::rooms::MemberView>,
    user: Seq<char>,
    argument: Seq<char>,
)
    ensures
        forall|k: int|
            0 <= k < relay_notes(s, user, argument).len() ==> {
                let d = #[trigger] relay_notes(s, user, argument)[k];
                d.to == user || in_room(s, d.to, room_of(s, user))
            },
{
}

/// After a successful `\create <room>`, `\create_hidden <room>` or
/// `\join <room>`, the user is in that room: moving in means leaving the room
/// they were in.
pub proof fn lemma_create_and_join_move_the_user(
    s: Seq<crate::rooms::MemberView>,
    user: Seq<char>,
    line: Seq<char>,
)
    requires
        names_distinct(s),
        has_member(s, user),
        line.len() > 0,
        line[0] == '\\',
        command_of(line) == "\\create"@ || command_of(line) == "\\create_hidden"@ || command_of(line)
            == "\\join"@,
        argument_of(line).len() > 0,
        command_of(line) == "\\join"@ ==> room_exists(s, argument_of(line)),
        command_of(line) != "\\join"@ ==> !room_exists(s, argument_of(line)),
    ensures
        room_of(command_outcome(s, user, line).0, user) == argument_of(line),
        has_member(command_outcome(s, user, line).0, user),
{
    let command = command_of(line);
    let argument = argument_of(line);
    let i = member_at(s, user);
    assert(s[i].name == user);
    assert(command != "\\pubkey"@ && command != "\\to"@ && command != "\\help"@ && command
        != "\\list_rooms"@ && command != "\\list_all"@ && command != "\\people"@ && (command
        == "\\join"@ ==> command != "\\create"@ && command != "\\create_hidden"@)) by {
        reveal_strlit("\\pubkey");
        reveal_strlit("\\to");
        reveal_strlit("\\help");
        reveal_strlit("\\list_rooms");
        reveal_strlit("\\list_all");
        reveal_strlit("\\people");
        reveal_strlit("\\create");
        reveal_strlit("\\create_hidden");
        reveal_strlit("\\join");
        if command == "\\create"@ {
            assert(command[1] == 'c');
        } else if command == "\\create_hidden"@ {
            assert(command[1] == 'c');
        } else {
            assert(command[1] == 'j');
        }
    }
    let hidden = if command == "\\join"@ {
        room_is_hidden(s, argument)
    } else {
        command == "\\create_hidden"@
    };
    let t = moved(s, user, argument, hidden);
    if room_of(s, user) != argument {
        assert(t[i].name == user);
        assert forall|a: int, b: int| 0 <= a < b < t.len() implies #[trigger] t[a].name
            != #[trigger] t[b].name by {
            assert(s[a].name != s[b].name);
        }
        crate::rooms::lemma_member_at(t, user, i);
        if command == "\\join"@ {
            assert(join_outcome(s, user, argument).0 == t);
        } else {
            assert(create_outcome(s, user, command, argument).0 == t);
        }
        assert(command_outcome(s, user, line).0 == t);
    } else {
        assert(s[i].room == argument);
        assert(room_exists(s, argument));
        assert(command_outcome(s, user, line).0 == s);
    }
}


/// The notices and the member lines are told apart by their text: a notice
/// starts with `*`, a member line with `\`, and leaving reads differently
/// from joining.
proof fn lemma_lines_differ(s: Seq<MemberView>, room: Seq<char>, user: Seq<char>)
    ensures
        members_line(s, room) != left_notice(user),
        members_line(s, room) != joined_notice(user),
        members_line(s, room) != quit_notice(user),
        left_notice(user) != joined_notice(user),
{
    reveal_strlit("* ");
    reveal_strlit("\\members ");
    reveal_strlit(" left the room");
    reveal_strlit(" joined the room");
    reveal_strlit(" left the chat");
    assert(members_line(s, room)[0] == '\\');
    assert(left_notice(user)[0] == '*');
    assert(joined_notice(user)[0] == '*');
    assert(quit_notice(user)[0] == '*');
    assert(left_notice(user).len() != joined_notice(user).len());
}

/// Where a delivery to each of `names` stands.
proof fn lemma_to_each_at(names: Seq<Seq<char>>, text: Seq<char>, n: Seq<char>) -> (k: int)
    requires
        names.contains(n),
    ensures
        0 <= k < to_each(names, text).len(),
        to_each(names, text)[k] == note(n, text),
{
    choose|k: int| 0 <= k < names.len() && names[k] == n
}

/// Disconnecting someone tells only the people still in the room they left,
/// and tells each of them two things: the room's member list, which is that
/// of the registry without the one who left, so it holds no entry of theirs,
/// and the notice that they left the chat.
pub proof fn lemma_logout_tells_the_room(s: Seq<MemberView>, name: Seq<char>)
    requires
        names_distinct(s),
        has_member(s, name),
    ensures
        ({
            let room = room_of(s, name);
            let after = logout_outcome(s, name).0;
            let ds = logout_outcome(s, name).2;
            &&& logout_outcome(s, name).1 == Some(room)
            &&& !has_member(after, name)
            &&& forall|k: int|
                0 <= k < ds.len() ==> in_room(after, (#[trigger] ds[k]).to, room) && (ds[k].text
                    == quit_notice(name) || lists_room_keys(ds[k].text, after, room))
            &&& forall|j: int|
                0 <= j < after.len() && #[trigger] after[j].room == room ==> (exists|k: int|
                    0 <= k < ds.len() && #[trigger] ds[k] == note(after[j].name, quit_notice(name)))
                    && (exists|k: int|
                    0 <= k < ds.len() && (#[trigger] ds[k]).to == after[j].name && lists_room_keys(
                        ds[k].text,
                        after,
                        room,
                    ))
        }),
{
    let room = room_of(s, name);
    let after = logout_outcome(s, name).0;
    let ds = logout_outcome(s, name).2;
    lemma_login_and_logout(s, name);
    lemma_members_line_lists_the_room(after, room);
    let names = names_in_room(after, room);
    let others = others_in_room(after, room, name);
    let line = members_line(after, room);
    let a = to_each(names, line);
    let b = to_each(others, quit_notice(name));
    assert(ds == a + b);
    assert forall|k: int| 0 <= k < ds.len() implies in_room(after, (#[trigger] ds[k]).to, room) && (
    ds[k].text == quit_notice(name) || lists_room_keys(ds[k].text, after, room)) by {
        let n = if k < a.len() {
            names[k]
        } else {
            others[k - a.len()]
        };
        assert(ds[k].to == n);
        if k < a.len() {
            assert(names.contains(n));
            lemma_names_in_room_contains(after, room, n);
        } else {
            assert(others.contains(n));
            lemma_others_in_room_contains(after, room, name, n);
        }
        let j = choose|j: int| 0 <= j < after.len() && #[trigger] after[j].room == room && after[j].name == n;
        lemma_member_at(after, n, j);
    }
    assert forall|j: int| 0 <= j < after.len() && #[trigger] after[j].room == room implies (exists|
        k: int,
    | 0 <= k < ds.len() && #[trigger] ds[k] == note(after[j].name, quit_notice(name))) && (exists|
        k: int,
    |
        0 <= k < ds.len() && (#[trigger] ds[k]).to == after[j].name && lists_room_keys(
            ds[k].text,
            after,
            room,
        )) by {
        let n = after[j].name;
        lemma_names_in_room_contains(after, room, n);
        let i = lemma_to_each_at(names, line, n);
        assert(ds[i] == a[i]);
        if n == name {
            assert(has_member(after, name));
        }
        lemma_others_in_room_contains(after, room, name, n);
        let i2 = lemma_to_each_at(others, quit_notice(name), n);
        assert(ds[a.len() + i2] == b[i2]);
    }
}

/// Moving someone out of their room into another tells the old room that
/// they left and the new room that they joined, and nobody else either of
/// those things; and each person still in either room gets that room's
/// member list as it is after the move.
pub proof fn lemma_move_tells_both_rooms(
    s: Seq<MemberView>,
    user: Seq<char>,
    new_room: Seq<char>,
    hidden: bool,
)
    requires
        names_distinct(s),
        has_member(s, user),
        room_of(s, user) != new_room,
    ensures
        ({
            let old_room = room_of(s, user);
            let after = move_outcome(s, user, new_room, hidden).0;
            let ds = move_outcome(s, user, new_room, hidden).1;
            &&& forall|j: int|
                0 <= j < s.len() && #[trigger] s[j].room == old_room && s[j].name != user
                    ==> exists|k: int|
                    0 <= k < ds.len() && #[trigger] ds[k] == note(s[j].name, left_notice(user))
            &&& forall|k: int|
                0 <= k < ds.len() && (#[trigger] ds[k]).text == left_notice(user) ==> ds[k].to
                    != user && in_room(s, ds[k].to, old_room)
            &&& forall|j: int|
                0 <= j < after.len() && #[trigger] after[j].room == new_room && after[j].name
                    != user ==> exists|k: int|
                    0 <= k < ds.len() && #[trigger] ds[k] == note(after[j].name, joined_notice(user))
            &&& forall|k: int|
                0 <= k < ds.len() && (#[trigger] ds[k]).text == joined_notice(user) ==> ds[k].to
                    != user && in_room(after, ds[k].to, new_room)
            &&& forall|j: int|
                0 <= j < after.len() && (#[trigger] after[j].room == old_room || after[j].room
                    == new_room) ==> exists|k: int|
                    0 <= k < ds.len() && (#[trigger] ds[k]).to == after[j].name && lists_room_keys(
                        ds[k].text,
                        after,
                        after[j].room,
                    )
        }),
{
    let old_room = room_of(s, user);
    let after = move_outcome(s, user, new_room, hidden).0;
    let ds = move_outcome(s, user, new_room, hidden).1;
    assert(after.len() == s.len());
    assert forall|i: int| 0 <= i < after.len() implies #[trigger] after[i].name == s[i].name by {}
    assert(names_distinct(after)) by {
        assert forall|a: int, b: int| 0 <= a < b < after.len() implies #[trigger] after[a].name
            != #[trigger] after[b].name by {
            assert(s[a].name != s[b].name);
        }
    }
    let left = left_notice(user);
    let joined_text = joined_notice(user);
    let a = broadcast_notes(s, old_room, user, left);
    let b = broadcast_notes(after, new_room, user, joined_text);
    let c = member_list_notes(after, old_room);
    let d = member_list_notes(after, new_room);
    assert(ds == a + b + c + d);
    lemma_lines_differ(after, old_room, user);
    lemma_lines_differ(after, new_room, user);
    lemma_members_line_lists_the_room(after, old_room);
    lemma_members_line_lists_the_room(after, new_room);
    let ab = a.len() + b.len();
    let abc = ab + c.len();
    assert forall|j: int|
        0 <= j < s.len() && #[trigger] s[j].room == old_room && s[j].name != user implies exists|
        k: int,
    | 0 <= k < ds.len() && #[trigger] ds[k] == note(s[j].name, left) by {
        lemma_others_in_room_contains(s, old_room, user, s[j].name);
        let i = lemma_to_each_at(others_in_room(s, old_room, user), left, s[j].name);
        assert(ds[i] == a[i]);
    }
    assert forall|k: int| 0 <= k < ds.len() && (#[trigger] ds[k]).text == left implies ds[k].to
        != user && in_room(s, ds[k].to, old_room) by {
        if k < a.len() {
            let n = others_in_room(s, old_room, user)[k];
            assert(ds[k] == a[k]);
            lemma_others_in_room_contains(s, old_room, user, n);
            let j = choose|j: int| 0 <= j < s.len() && #[trigger] s[j].room == old_room && s[j].name == n;
            lemma_member_at(s, n, j);
        } else if k < ab {
            assert(ds[k] == b[k - a.len()]);
        } else if k < abc {
            assert(ds[k] == c[k - ab]);
        } else {
            assert(ds[k] == d[k - abc]);
        }
    }
    assert forall|j: int|
        0 <= j < after.len() && #[trigger] after[j].room == new_room && after[j].name != user
        implies exists|k: int| 0 <= k < ds.len() && #[trigger] ds[k] == note(after[j].name, joined_text) by {
        lemma_others_in_room_contains(after, new_room, user, after[j].name);
        let i = lemma_to_each_at(others_in_room(after, new_room, user), joined_text, after[j].name);
        assert(ds[a.len() + i] == b[i]);
    }
    assert forall|k: int| 0 <= k < ds.len() && (#[trigger] ds[k]).text == joined_text implies ds[k].to
        != user && in_room(after, ds[k].to, new_room) by {
        if k < a.len() {
            assert(ds[k] == a[k]);
        } else if k < ab {
            let n = others_in_room(after, new_room, user)[k - a.len()];
            assert(ds[k] == b[k - a.len()]);
            lemma_others_in_room_contains(after, new_room, user, n);
            let j = choose|j: int|
                0 <= j < after.len() && #[trigger] after[j].room == new_room && after[j].name == n;
            lemma_member_at(after, n, j);
        } else if k < abc {
            assert(ds[k] == c[k - ab]);
        } else {
            assert(ds[k] == d[k - abc]);
        }
    }
    assert forall|j: int|
        0 <= j < after.len() && (#[trigger] after[j].room == old_room || after[j].room == new_room)
        implies exists|k: int|
        0 <= k < ds.len() && (#[trigger] ds[k]).to == after[j].name && lists_room_keys(
            ds[k].text,
            after,
            after[j].room,
        ) by {
        let n = after[j].name;
        if after[j].room == old_room {
            lemma_names_in_room_contains(after, old_room, n);
            let i = lemma_to_each_at(names_in_room(after, old_room), members_line(after, old_room), n);
            assert(ds[ab + i] == c[i]);
        } else {
            lemma_names_in_room_contains(after, new_room, n);
            let i = lemma_to_each_at(names_in_room(after, new_room), members_line(after, new_room), n);
            assert(ds[abc + i] == d[i]);
        }
    }
}

} // verus!
