//! Who is connected and which room each person is in.
//!
//! A room exists for as long as somebody is in it; `general` always exists.
//! Each person is in exactly one room at a time.

use vstd::prelude::*;
use crate::protocol::{DEFAULT_ROOM, MEMBERS_PREFIX};
use crate::text::{join_texts, joined, same_text, sort_texts, text_le, text_order, texts};

verus! {

/// One connected user: their name, the room they are in, whether that room
/// is hidden from listings, and their public key once they have sent it.
pub struct Member {
    pub name: String,
    pub room: String,
    pub room_hidden: bool,
    pub pubkey: Option<String>,
}

/// A [`Member`] as plain values.
pub struct MemberView {
    pub name: Seq<char>,
    pub room: Seq<char>,
    pub room_hidden: bool,
    pub pubkey: Option<Seq<char>>,
}

impl View for Member {
    type V = MemberView;

    open spec fn view(&self) -> MemberView {
        MemberView {
            name: self.name@,
            room: self.room@,
            room_hidden: self.room_hidden,
            pubkey: match self.pubkey {
                Some(k) => Some(k@),
                None => None,
            },
        }
    }
}

/// Everyone who is connected, in the order they registered.
pub struct Registry {
    members: Vec<Member>,
}

impl View for Registry {
    type V = Seq<MemberView>;

    closed spec fn view(&self) -> Seq<MemberView> {
        self.members@.map_values(|m: Member| m@)
    }
}

/// No two people share a name.
pub open spec fn names_distinct(s: Seq<MemberView>) -> bool {
    forall|i: int, j: int| 0 <= i < j < s.len() ==> #[trigger] s[i].name != #[trigger] s[j].name
}

/// Whether someone of this name is connected.
pub open spec fn has_member(s: Seq<MemberView>, name: Seq<char>) -> bool {
    exists|i: int| 0 <= i < s.len() && #[trigger] s[i].name == name
}

/// Where the person of this name stands in the registry.
pub open spec fn member_at(s: Seq<MemberView>, name: Seq<char>) -> int {
    choose|i: int| 0 <= i < s.len() && #[trigger] s[i].name == name
}

/// The room a user is in; `general` for someone who is not connected.
pub open spec fn room_of(s: Seq<MemberView>, name: Seq<char>) -> Seq<char> {
    if has_member(s, name) {
        s[member_at(s, name)].room
    } else {
        DEFAULT_ROOM@
    }
}

/// Whether the person of this name is connected and in this room.
pub open spec fn in_room(s: Seq<MemberView>, name: Seq<char>, room: Seq<char>) -> bool {
    has_member(s, name) && s[member_at(s, name)].room == room
}

/// A room exists for as long as at least one person is in it; `general`
/// always exists.
pub open spec fn room_exists(s: Seq<MemberView>, room: Seq<char>) -> bool {
    room == DEFAULT_ROOM@ || exists|i: int| 0 <= i < s.len() && #[trigger] s[i].room == room
}

/// A room is hidden when the people in it say it is; `general` never is.
pub open spec fn room_is_hidden(s: Seq<MemberView>, room: Seq<char>) -> bool {
    room != DEFAULT_ROOM@ && exists|i: int|
        0 <= i < s.len() && #[trigger] s[i].room == room && s[i].room_hidden
}

/// The names of the people in a room, in registration order.
pub open spec fn names_in_room(s: Seq<MemberView>, room: Seq<char>) -> Seq<Seq<char>>
    decreases s.len(),
{
    if s.len() == 0 {
        seq![]
    } else {
        let rest = names_in_room(s.drop_last(), room);
        if s.last().room == room {
            rest.push(s.last().name)
        } else {
            rest
        }
    }
}

/// The names of the people in a room other than `sender`, in registration order.
pub open spec fn others_in_room(s: Seq<MemberView>, room: Seq<char>, sender: Seq<char>) -> Seq<
    Seq<char>,
>
    decreases s.len(),
{
    if s.len() == 0 {
        seq![]
    } else {
        let rest = others_in_room(s.drop_last(), room, sender);
        if s.last().room == room && s.last().name != sender {
            rest.push(s.last().name)
        } else {
            rest
        }
    }
}

/// `name=key` for each person in a room who has sent a public key, in
/// registration order.
pub open spec fn key_entries(s: Seq<MemberView>, room: Seq<char>) -> Seq<Seq<char>>
    decreases s.len(),
{
    if s.len() == 0 {
        seq![]
    } else {
        let rest = key_entries(s.drop_last(), room);
        if s.last().room == room && s.last().pubkey is Some {
            rest.push(s.last().name + seq!['='] + s.last().pubkey->0)
        } else {
            rest
        }
    }
}

/// The names of the people in a room who are not marked hidden, in
/// registration order.
pub open spec fn shown_names_in_room(s: Seq<MemberView>, room: Seq<char>) -> Seq<Seq<char>>
    decreases s.len(),
{
    if s.len() == 0 {
        seq![]
    } else {
        let rest = shown_names_in_room(s.drop_last(), room);
        if s.last().room == room && !s.last().room_hidden {
            rest.push(s.last().name)
        } else {
            rest
        }
    }
}

/// The rooms that show up in a listing, each once: `general`, then the room
/// of every person not marked hidden, in registration order.
pub open spec fn listed_rooms(s: Seq<MemberView>) -> Seq<Seq<char>>
    decreases s.len(),
{
    if s.len() == 0 {
        seq![DEFAULT_ROOM@]
    } else {
        let rest = listed_rooms(s.drop_last());
        if !s.last().room_hidden && !rest.contains(s.last().room) {
            rest.push(s.last().room)
        } else {
            rest
        }
    }
}

/// The registry after `name` moved to `room`, with that room's hidden flag.
pub open spec fn moved(s: Seq<MemberView>, name: Seq<char>, room: Seq<char>, hidden: bool) -> Seq<
    MemberView,
> {
    Seq::new(
        s.len(),
        |i: int|
            if s[i].name == name {
                MemberView { room: room, room_hidden: hidden, ..s[i] }
            } else {
                s[i]
            },
    )
}

/// The registry after `name` registered the public key `key`.
pub open spec fn with_pubkey(s: Seq<MemberView>, name: Seq<char>, key: Seq<char>) -> Seq<
    MemberView,
> {
    Seq::new(
        s.len(),
        |i: int|
            if s[i].name == name {
                MemberView { pubkey: Some(key), ..s[i] }
            } else {
                s[i]
            },
    )
}

/// A newly registered user: in `general`, not hidden, no key yet.
pub open spec fn newcomer(name: Seq<char>) -> MemberView {
    MemberView { name: name, room: DEFAULT_ROOM@, room_hidden: false, pubkey: None }
}

/// The line that tells a room who is in it and what their keys are:
/// `\members ` followed by the sorted `name=key` entries, separated by spaces.
pub open spec fn members_line(s: Seq<MemberView>, room: Seq<char>) -> Seq<char> {
    MEMBERS_PREFIX@ + joined(key_entries(s, room).sort_by(text_order()), seq![' '])
}

/// What a room listing shows: every listed room in sorted order, with the
/// sorted names of the people in it who are not marked hidden.
pub open spec fn room_listing(s: Seq<MemberView>) -> Seq<(Seq<char>, Seq<Seq<char>>)> {
    listed_rooms(s).sort_by(text_order()).map_values(
        |room: Seq<char>| (room, shown_names_in_room(s, room).sort_by(text_order())),
    )
}

/// A listing of rooms and their people, as plain values.
pub open spec fn listing_view(v: Seq<(String, Vec<String>)>) -> Seq<(Seq<char>, Seq<Seq<char>>)> {
    v.map_values(|e: (String, Vec<String>)| (e.0@, texts(e.1@)))
}

/// Whether `t` is one of the strings in `v`.
pub fn contains_text(v: &Vec<String>, t: &str) -> (r: bool)
    ensures
        r == texts(v@).contains(t@),
{
    let mut i: usize = 0;
    while i < v.len()
        invariant
            i <= v.len(),
            forall|j: int| 0 <= j < i ==> #[trigger] texts(v@)[j] != t@,
        decreases v.len() - i,
    {
        if same_text(v[i].as_str(), t) {
            assert(texts(v@)[i as int] == t@);
            return true;
        }
        i = i + 1;
    }
    false
}

/// Everyone in one room agrees on whether it is hidden, and nobody in
/// `general` has it hidden.
pub open spec fn rooms_consistent(s: Seq<MemberView>) -> bool {
    &&& forall|i: int, j: int|
        0 <= i < s.len() && 0 <= j < s.len() && #[trigger] s[i].room == #[trigger] s[j].room
            ==> s[i].room_hidden == s[j].room_hidden
    &&& forall|i: int| 0 <= i < s.len() && #[trigger] s[i].room == DEFAULT_ROOM@ ==> !s[i].room_hidden
}

proof fn lemma_listed_rooms_contains(s: Seq<MemberView>, room: Seq<char>)
    ensures
        listed_rooms(s).contains(room) <==> (room == DEFAULT_ROOM@ || exists|i: int|
            0 <= i < s.len() && #[trigger] s[i].room == room && !s[i].room_hidden),
    decreases s.len(),
{
    if s.len() == 0 {
        if listed_rooms(s).contains(room) {
            assert(listed_rooms(s)[0] == DEFAULT_ROOM@);
        }
        if room == DEFAULT_ROOM@ {
            assert(listed_rooms(s)[0] == room);
        }
    } else {
        let t = s.drop_last();
        lemma_listed_rooms_contains(t, room);
        let rest = listed_rooms(t);
        if exists|i: int| 0 <= i < t.len() && #[trigger] t[i].room == room && !t[i].room_hidden {
            let i = choose|i: int| 0 <= i < t.len() && #[trigger] t[i].room == room && !t[i].room_hidden;
            assert(s[i].room == room);
        }
        if exists|i: int| 0 <= i < s.len() && #[trigger] s[i].room == room && !s[i].room_hidden {
            let i = choose|i: int| 0 <= i < s.len() && #[trigger] s[i].room == room && !s[i].room_hidden;
            if i < t.len() {
                assert(t[i].room == room);
            }
        }
        if !s.last().room_hidden && !rest.contains(s.last().room) {
            let after = rest.push(s.last().room);
            assert(after[after.len() - 1] == s.last().room);
            if after.contains(room) {
                let k = choose|k: int| 0 <= k < after.len() && after[k] == room;
                if k < rest.len() {
                    assert(rest[k] == room);
                }
            }
            if rest.contains(room) {
                let k = choose|k: int| 0 <= k < rest.len() && rest[k] == room;
                assert(after[k] == room);
            }
        }
    }
}

/// `general` and every room with somebody shown in it are listed, and
/// nothing else. Where the people of each room agree on whether it is hidden,
/// a room is listed exactly when it exists and is not hidden: hidden rooms
/// never show up in a listing, and `general` always does.
pub proof fn lemma_listed_rooms(s: Seq<MemberView>, room: Seq<char>)
    ensures
        listed_rooms(s).contains(room) <==> (room == DEFAULT_ROOM@ || exists|i: int|
            0 <= i < s.len() && #[trigger] s[i].room == room && !s[i].room_hidden),
        rooms_consistent(s) ==> (listed_rooms(s).contains(room) <==> (room_exists(s, room)
            && !room_is_hidden(s, room))),
        room_listing(s).map_values(|e: (Seq<char>, Seq<Seq<char>>)| e.0).contains(room)
            <==> listed_rooms(s).contains(room),
{
    lemma_listed_rooms_contains(s, room);
    if rooms_consistent(s) && room_exists(s, room) && !room_is_hidden(s, room) && room
        != DEFAULT_ROOM@ {
        let i = choose|i: int| 0 <= i < s.len() && #[trigger] s[i].room == room;
        assert(!s[i].room_hidden);
    }
    if rooms_consistent(s) && listed_rooms(s).contains(room) && room != DEFAULT_ROOM@ {
        let i = choose|i: int| 0 <= i < s.len() && #[trigger] s[i].room == room && !s[i].room_hidden;
        assert(room_exists(s, room));
        if room_is_hidden(s, room) {
            let j = choose|j: int| 0 <= j < s.len() && #[trigger] s[j].room == room && s[j].room_hidden;
            assert(s[i].room == s[j].room);
        }
    }
    let listed = listed_rooms(s);
    crate::text::lemma_text_order_total();
    listed.lemma_sort_by_ensures(text_order());
    let sorted = listed.sort_by(text_order());
    let names = room_listing(s).map_values(|e: (Seq<char>, Seq<Seq<char>>)| e.0);
    assert(names =~= sorted);
    vstd::seq_lib::to_multiset_contains(listed, room);
    vstd::seq_lib::to_multiset_contains(sorted, room);
}

/// Moving one person into a room whose people all have the given hidden flag
/// (and `general` only unhidden) keeps the rooms consistent.
pub proof fn lemma_moved_consistent(s: Seq<MemberView>, name: Seq<char>, room: Seq<char>, hidden: bool)
    requires
        rooms_consistent(s),
        room == DEFAULT_ROOM@ ==> !hidden,
        forall|i: int| 0 <= i < s.len() && #[trigger] s[i].room == room && s[i].name != name
            ==> s[i].room_hidden == hidden,
    ensures
        rooms_consistent(moved(s, name, room, hidden)),
{
    let t = moved(s, name, room, hidden);
    assert forall|i: int, j: int|
        0 <= i < t.len() && 0 <= j < t.len() && #[trigger] t[i].room == #[trigger] t[j].room
        implies t[i].room_hidden == t[j].room_hidden by {
        if s[i].name != name && s[j].name != name {
            assert(s[i].room == s[j].room);
        } else if s[i].name == name && s[j].name != name {
            assert(s[j].room == room);
        } else if s[i].name != name && s[j].name == name {
            assert(s[i].room == room);
        }
    }
    assert forall|i: int| 0 <= i < t.len() && #[trigger] t[i].room == DEFAULT_ROOM@ implies !t[i].room_hidden by {
        if s[i].name != name {
            assert(s[i].room == DEFAULT_ROOM@);
        }
    }
}

/// Recording a key changes nobody's room.
pub proof fn lemma_with_pubkey_consistent(s: Seq<MemberView>, name: Seq<char>, key: Seq<char>)
    requires
        rooms_consistent(s),
    ensures
        rooms_consistent(with_pubkey(s, name, key)),
{
    let t = with_pubkey(s, name, key);
    assert forall|i: int, j: int|
        0 <= i < t.len() && 0 <= j < t.len() && #[trigger] t[i].room == #[trigger] t[j].room
        implies t[i].room_hidden == t[j].room_hidden by {
        assert(s[i].room == s[j].room);
    }
    assert forall|i: int| 0 <= i < t.len() && #[trigger] t[i].room == DEFAULT_ROOM@ implies !t[i].room_hidden by {
        assert(s[i].room == DEFAULT_ROOM@);
    }
}

/// A newcomer in `general`, or somebody leaving, keeps the rooms consistent.
pub proof fn lemma_join_leave_consistent(s: Seq<MemberView>, name: Seq<char>, i: int)
    requires
        rooms_consistent(s),
    ensures
        rooms_consistent(s.push(newcomer(name))),
        0 <= i < s.len() ==> rooms_consistent(s.remove(i)),
{
    let t = s.push(newcomer(name));
    assert forall|a: int, b: int|
        0 <= a < t.len() && 0 <= b < t.len() && #[trigger] t[a].room == #[trigger] t[b].room
        implies t[a].room_hidden == t[b].room_hidden by {
        if a < s.len() && b < s.len() {
            assert(s[a].room == s[b].room);
        } else if a < s.len() {
            assert(s[a].room == DEFAULT_ROOM@);
        } else if b < s.len() {
            assert(s[b].room == DEFAULT_ROOM@);
        }
    }
    assert forall|a: int| 0 <= a < t.len() && #[trigger] t[a].room == DEFAULT_ROOM@ implies !t[a].room_hidden by {
        if a < s.len() {
            assert(s[a].room == DEFAULT_ROOM@);
        }
    }
    if 0 <= i < s.len() {
        let u = s.remove(i);
        assert forall|a: int, b: int|
            0 <= a < u.len() && 0 <= b < u.len() && #[trigger] u[a].room == #[trigger] u[b].room
            implies u[a].room_hidden == u[b].room_hidden by {
            let a0 = if a < i { a } else { a + 1 };
            let b0 = if b < i { b } else { b + 1 };
            assert(s[a0].room == s[b0].room);
        }
        assert forall|a: int| 0 <= a < u.len() && #[trigger] u[a].room == DEFAULT_ROOM@ implies !u[a].room_hidden by {
            let a0 = if a < i { a } else { a + 1 };
            assert(s[a0].room == DEFAULT_ROOM@);
        }
    }
}

/// In a registry without repeated names, the person found under a name is
/// the one who has it.
pub proof fn lemma_member_at(s: Seq<MemberView>, name: Seq<char>, i: int)
    requires
        names_distinct(s),
        0 <= i < s.len(),
        s[i].name == name,
    ensures
        has_member(s, name),
        member_at(s, name) == i,
{
    assert(has_member(s, name));
    let k = member_at(s, name);
    if k != i {
        if k < i {
            assert(s[k].name != s[i].name);
        } else {
            assert(s[i].name != s[k].name);
        }
    }
}

/// The `name=key` entry of someone who has sent a public key.
pub open spec fn key_entry(m: MemberView) -> Seq<char> {
    m.name + seq!['='] + m.pubkey->0
}

/// Whether `line` tells `room` of `s` who is there: `\members ` and then
/// entries separated by spaces, which are exactly the `name=key` entries of
/// the people in that room who have sent a key.
pub open spec fn lists_room_keys(line: Seq<char>, s: Seq<MemberView>, room: Seq<char>) -> bool {
    exists|es: Seq<Seq<char>>|
        {
            &&& line == MEMBERS_PREFIX@ + #[trigger] joined(es, seq![' '])
            &&& forall|e: Seq<char>|
                es.contains(e) <==> exists|j: int|
                    0 <= j < s.len() && s[j].room == room && s[j].pubkey is Some && e
                        == #[trigger] key_entry(s[j])
        }
}

proof fn lemma_key_entries_contains(s: Seq<MemberView>, room: Seq<char>, e: Seq<char>)
    ensures
        key_entries(s, room).contains(e) <==> exists|j: int|
            0 <= j < s.len() && s[j].room == room && s[j].pubkey is Some && e
                == #[trigger] key_entry(s[j]),
    decreases s.len(),
{
    if s.len() > 0 {
        let t = s.drop_last();
        lemma_key_entries_contains(t, room, e);
        let rest = key_entries(t, room);
        if exists|j: int|
            0 <= j < t.len() && t[j].room == room && t[j].pubkey is Some && e
                == #[trigger] key_entry(t[j]) {
            let j = choose|j: int|
                0 <= j < t.len() && t[j].room == room && t[j].pubkey is Some && e
                    == #[trigger] key_entry(t[j]);
            assert(key_entry(s[j]) == key_entry(t[j]));
        }
        if exists|j: int|
            0 <= j < s.len() && s[j].room == room && s[j].pubkey is Some && e
                == #[trigger] key_entry(s[j]) {
            let j = choose|j: int|
                0 <= j < s.len() && s[j].room == room && s[j].pubkey is Some && e
                    == #[trigger] key_entry(s[j]);
            if j < t.len() {
                assert(key_entry(t[j]) == key_entry(s[j]));
            }
        }
        if s.last().room == room && s.last().pubkey is Some {
            let after = rest.push(key_entry(s.last()));
            assert(key_entries(s, room) == after);
            assert(after[after.len() - 1] == key_entry(s.last()));
            assert(key_entry(s[s.len() - 1]) == key_entry(s.last()));
            if after.contains(e) {
                let k = choose|k: int| 0 <= k < after.len() && after[k] == e;
                if k < rest.len() {
                    assert(rest[k] == e);
                }
            }
            if rest.contains(e) {
                let k = choose|k: int| 0 <= k < rest.len() && rest[k] == e;
                assert(after[k] == e);
            }
        }
    }
}

/// The member line of a room names exactly the people in that room who have
/// sent a key, each with that key: nobody from another room, nobody who is
/// not connected, and nobody left out.
pub proof fn lemma_members_line_lists_the_room(s: Seq<MemberView>, room: Seq<char>)
    ensures
        lists_room_keys(members_line(s, room), s, room),
{
    let entries = key_entries(s, room);
    crate::text::lemma_text_order_total();
    entries.lemma_sort_by_ensures(text_order());
    let es = entries.sort_by(text_order());
    assert forall|e: Seq<char>|
        es.contains(e) <==> exists|j: int|
            0 <= j < s.len() && s[j].room == room && s[j].pubkey is Some && e
                == #[trigger] key_entry(s[j]) by {
        lemma_key_entries_contains(s, room, e);
        vstd::seq_lib::to_multiset_contains(entries, e);
        vstd::seq_lib::to_multiset_contains(es, e);
    }
    assert(members_line(s, room) == MEMBERS_PREFIX@ + joined(es, seq![' ']));
}

/// Someone is among the names of a room exactly when they are connected and
/// in it.
pub proof fn lemma_names_in_room_contains(s: Seq<MemberView>, room: Seq<char>, n: Seq<char>)
    ensures
        names_in_room(s, room).contains(n) <==> exists|j: int|
            0 <= j < s.len() && #[trigger] s[j].room == room && s[j].name == n,
    decreases s.len(),
{
    if s.len() > 0 {
        let t = s.drop_last();
        lemma_names_in_room_contains(t, room, n);
        let rest = names_in_room(t, room);
        if exists|j: int| 0 <= j < t.len() && #[trigger] t[j].room == room && t[j].name == n {
            let j = choose|j: int| 0 <= j < t.len() && #[trigger] t[j].room == room && t[j].name == n;
            assert(s[j].room == room);
        }
        if exists|j: int| 0 <= j < s.len() && #[trigger] s[j].room == room && s[j].name == n {
            let j = choose|j: int| 0 <= j < s.len() && #[trigger] s[j].room == room && s[j].name == n;
            if j < t.len() {
                assert(t[j].room == room);
            }
        }
        if s.last().room == room {
            let after = rest.push(s.last().name);
            assert(after[after.len() - 1] == s.last().name);
            if after.contains(n) {
                let k = choose|k: int| 0 <= k < after.len() && after[k] == n;
                if k < rest.len() {
                    assert(rest[k] == n);
                }
            }
            if rest.contains(n) {
                let k = choose|k: int| 0 <= k < rest.len() && rest[k] == n;
                assert(after[k] == n);
            }
        }
    }
}

/// Someone is among the others in a room exactly when they are connected,
/// in it, and not the sender.
pub proof fn lemma_others_in_room_contains(
    s: Seq<MemberView>,
    room: Seq<char>,
    sender: Seq<char>,
    n: Seq<char>,
)
    ensures
        others_in_room(s, room, sender).contains(n) <==> n != sender && exists|j: int|
            0 <= j < s.len() && #[trigger] s[j].room == room && s[j].name == n,
    decreases s.len(),
{
    if s.len() > 0 {
        let t = s.drop_last();
        lemma_others_in_room_contains(t, room, sender, n);
        let rest = others_in_room(t, room, sender);
        if exists|j: int| 0 <= j < t.len() && #[trigger] t[j].room == room && t[j].name == n {
            let j = choose|j: int| 0 <= j < t.len() && #[trigger] t[j].room == room && t[j].name == n;
            assert(s[j].room == room);
        }
        if exists|j: int| 0 <= j < s.len() && #[trigger] s[j].room == room && s[j].name == n {
            let j = choose|j: int| 0 <= j < s.len() && #[trigger] s[j].room == room && s[j].name == n;
            if j < t.len() {
                assert(t[j].room == room);
            }
        }
        if s.last().room == room && s.last().name != sender {
            let after = rest.push(s.last().name);
            assert(after[after.len() - 1] == s.last().name);
            if after.contains(n) {
                let k = choose|k: int| 0 <= k < after.len() && after[k] == n;
                if k < rest.len() {
                    assert(rest[k] == n);
                }
            }
            if rest.contains(n) {
                let k = choose|k: int| 0 <= k < rest.len() && rest[k] == n;
                assert(after[k] == n);
            }
        }
    }
}

proof fn lemma_listed_rooms_distinct(s: Seq<MemberView>)
    ensures
        listed_rooms(s).no_duplicates(),
    decreases s.len(),
{
    if s.len() > 0 {
        let t = s.drop_last();
        lemma_listed_rooms_distinct(t);
        let rest = listed_rooms(t);
        if !s.last().room_hidden && !rest.contains(s.last().room) {
            let after = rest.push(s.last().room);
            assert forall|i: int, j: int|
                0 <= i < after.len() && 0 <= j < after.len() && i != j implies after[i]
                != after[j] by {
                if i == rest.len() {
                    assert(rest[j] == after[j]);
                } else if j == rest.len() {
                    assert(rest[i] == after[i]);
                }
            }
        }
    }
}

/// A room listing holds each room once, in order of name: of two entries,
/// the earlier names a room that sorts strictly before the later one.
pub proof fn lemma_room_listing_distinct(s: Seq<MemberView>)
    ensures
        forall|i: int, j: int|
            0 <= i < j < room_listing(s).len() ==> (#[trigger] room_listing(s)[i]).0 != (
            #[trigger] room_listing(s)[j]).0 && text_le(room_listing(s)[i].0, room_listing(s)[j].0),
{
    let listed = listed_rooms(s);
    lemma_listed_rooms_distinct(s);
    crate::text::lemma_text_order_total();
    listed.lemma_sort_by_ensures(text_order());
    let sorted = listed.sort_by(text_order());
    listed.lemma_multiset_has_no_duplicates();
    assert forall|x: Seq<char>| sorted.to_multiset().contains(x) implies sorted.to_multiset().count(
        x,
    ) == 1 by {
        assert(listed.to_multiset().contains(x));
    }
    sorted.lemma_multiset_has_no_duplicates_conv();
    assert forall|i: int, j: int| 0 <= i < j < room_listing(s).len() implies (
    #[trigger] room_listing(s)[i]).0 != (#[trigger] room_listing(s)[j]).0 && text_le(
        room_listing(s)[i].0,
        room_listing(s)[j].0,
    ) by {
        assert(room_listing(s)[i].0 == sorted[i]);
        assert(room_listing(s)[j].0 == sorted[j]);
        assert(text_order()(sorted[i], sorted[j]));
    }
}

impl Registry {
    /// The registry holds no two people of one name.
    #[verifier::type_invariant]
    spec fn wf(&self) -> bool {
        names_distinct(self@)
    }

    /// Nobody connected yet.
    pub fn new() -> (r: Registry)
        ensures
            r@ == Seq::<MemberView>::empty(),
    {
        let r = Registry { members: Vec::new() };
        assert(r@ =~= Seq::<MemberView>::empty());
        r
    }

    /// The number of people connected.
    pub fn len(&self) -> (n: usize)
        ensures
            n == self@.len(),
    {
        self.members.len()
    }

    /// Where `name` stands, or the number of people when nobody has it.
    fn find(&self, name: &str) -> (i: usize)
        ensures
            i <= self@.len(),
            i < self@.len() ==> self@[i as int].name == name@ && member_at(self@, name@) == i
                && has_member(self@, name@),
            i == self@.len() ==> !has_member(self@, name@),
    {
        proof {
            use_type_invariant(self);
        }
        let mut i: usize = 0;
        while i < self.members.len()
            invariant
                i <= self.members.len(),
                self@.len() == self.members.len(),
                names_distinct(self@),
                forall|j: int| 0 <= j < i ==> #[trigger] self@[j].name != name@,
            decreases self.members.len() - i,
        {
            if same_text(self.members[i].name.as_str(), name) {
                proof {
                    lemma_member_at(self@, name@, i as int);
                }
                return i;
            }
            i = i + 1;
        }
        i
    }

    /// Whether someone of this name is connected.
    pub fn contains(&self, name: &str) -> (r: bool)
        ensures
            r == has_member(self@, name@),
    {
        self.find(name) < self.members.len()
    }

    /// Registers a new user in `general`, unless the name is taken: the check
    /// and the insert happen together, so two people cannot both get one name.
    pub fn register(&mut self, name: &str) -> (r: bool)
        ensures
            r == !has_member(old(self)@, name@),
            r ==> final(self)@ == old(self)@.push(newcomer(name@)),
            !r ==> final(self)@ == old(self)@,
    {
        if self.contains(name) {
            return false;
        }
        let m = Member {
            name: name.to_string(),
            room: DEFAULT_ROOM.to_string(),
            room_hidden: false,
            pubkey: None,
        };
        proof {
            use_type_invariant(&*self);
        }
        let ghost before = self@;
        let mut v: Vec<Member> = Vec::new();
        std::mem::swap(&mut v, &mut self.members);
        v.push(m);
        let ghost after = v@.map_values(|m: Member| m@);
        proof {
            assert(after =~= before.push(newcomer(name@)));
            assert forall|i: int, j: int| 0 <= i < j < after.len() implies #[trigger] after[i].name
                != #[trigger] after[j].name by {
                if j == after.len() - 1 {
                    assert(before[i].name != name@);
                } else {
                    assert(before[i].name != before[j].name);
                }
            }
        }
        self.members = v;
        true
    }

    /// Takes a user out; gives back the room they were in.
    pub fn remove(&mut self, name: &str) -> (r: Option<String>)
        ensures
            match r {
                Some(room) => has_member(old(self)@, name@) && room@ == room_of(old(self)@, name@)
                    && final(self)@ == old(self)@.remove(member_at(old(self)@, name@)),
                None => !has_member(old(self)@, name@) && final(self)@ == old(self)@,
            },
    {
        let i = self.find(name);
        if i == self.members.len() {
            return None;
        }
        proof {
            use_type_invariant(&*self);
        }
        let ghost before = self@;
        let mut v: Vec<Member> = Vec::new();
        std::mem::swap(&mut v, &mut self.members);
        let m = v.remove(i);
        let ghost after = v@.map_values(|m: Member| m@);
        proof {
            assert(after =~= before.remove(i as int));
            assert forall|a: int, b: int| 0 <= a < b < after.len() implies #[trigger] after[a].name
                != #[trigger] after[b].name by {
                let a0 = if a < i { a } else { a + 1 };
                let b0 = if b < i { b } else { b + 1 };
                assert(before[a0].name != before[b0].name);
            }
        }
        self.members = v;
        Some(m.room)
    }

    /// Records the public key a user sent.
    pub fn set_pubkey(&mut self, name: &str, key: &str)
        ensures
            final(self)@ == with_pubkey(old(self)@, name@, key@),
    {
        let i = self.find(name);
        if i == self.members.len() {
            assert(self@ =~= with_pubkey(old(self)@, name@, key@));
            return ;
        }
        proof {
            use_type_invariant(&*self);
        }
        let ghost before = self@;
        let mut v: Vec<Member> = Vec::new();
        std::mem::swap(&mut v, &mut self.members);
        let mut m = v.remove(i);
        m.pubkey = Some(key.to_string());
        v.insert(i, m);
        let ghost after = v@.map_values(|m: Member| m@);
        proof {
            assert forall|j: int| 0 <= j < after.len() implies #[trigger] after[j] == with_pubkey(
                before,
                name@,
                key@,
            )[j] by {
                if j != i {
                    assert(before[j].name != name@) by {
                        if j < i {
                            assert(before[j].name != before[i as int].name);
                        } else {
                            assert(before[i as int].name != before[j].name);
                        }
                    }
                }
            }
            assert(after =~= with_pubkey(before, name@, key@));
            assert forall|a: int, b: int| 0 <= a < b < after.len() implies #[trigger] after[a].name
                != #[trigger] after[b].name by {
                assert(before[a].name != before[b].name);
            }
        }
        self.members = v;
    }

    /// Moves a user to another room, which is hidden or not as `hidden` says.
    pub fn move_member(&mut self, name: &str, room: &str, hidden: bool)
        ensures
            final(self)@ == moved(old(self)@, name@, room@, hidden),
    {
        let i = self.find(name);
        if i == self.members.len() {
            assert(self@ =~= moved(old(self)@, name@, room@, hidden));
            return ;
        }
        proof {
            use_type_invariant(&*self);
        }
        let ghost before = self@;
        let mut v: Vec<Member> = Vec::new();
        std::mem::swap(&mut v, &mut self.members);
        let mut m = v.remove(i);
        m.room = room.to_string();
        m.room_hidden = hidden;
        v.insert(i, m);
        let ghost after = v@.map_values(|m: Member| m@);
        proof {
            assert forall|j: int| 0 <= j < after.len() implies #[trigger] after[j] == moved(
                before,
                name@,
                room@,
                hidden,
            )[j] by {
                if j != i {
                    assert(before[j].name != name@) by {
                        if j < i {
                            assert(before[j].name != before[i as int].name);
                        } else {
                            assert(before[i as int].name != before[j].name);
                        }
                    }
                }
            }
            assert(after =~= moved(before, name@, room@, hidden));
            assert forall|a: int, b: int| 0 <= a < b < after.len() implies #[trigger] after[a].name
                != #[trigger] after[b].name by {
                assert(before[a].name != before[b].name);
            }
        }
        self.members = v;
    }

    /// Which room this user is in right now.
    pub fn room_of(&self, name: &str) -> (r: String)
        ensures
            r@ == room_of(self@, name@),
    {
        let i = self.find(name);
        if i == self.members.len() {
            DEFAULT_ROOM.to_string()
        } else {
            self.members[i].room.clone()
        }
    }

    /// Whether this user is connected and in this room.
    pub fn is_in_room(&self, name: &str, room: &str) -> (r: bool)
        ensures
            r == in_room(self@, name@, room@),
    {
        let i = self.find(name);
        if i == self.members.len() {
            false
        } else {
            same_text(self.members[i].room.as_str(), room)
        }
    }

    /// A room exists for as long as at least one person is in it. `general`
    /// is always treated as existing, which is what keeps it alive when it
    /// empties.
    pub fn room_exists(&self, room: &str) -> (r: bool)
        ensures
            r == room_exists(self@, room@),
    {
        if same_text(room, DEFAULT_ROOM) {
            return true;
        }
        let mut i: usize = 0;
        while i < self.members.len()
            invariant
                i <= self.members.len(),
                self@.len() == self.members.len(),
                room@ != DEFAULT_ROOM@,
                forall|j: int| 0 <= j < i ==> #[trigger] self@[j].room != room@,
            decreases self.members.len() - i,
        {
            if same_text(self.members[i].room.as_str(), room) {
                assert(self@[i as int].room == room@);
                return true;
            }
            i = i + 1;
        }
        false
    }

    /// Is this room hidden? A room is hidden when the people in it say it
    /// is. `general` can never be hidden.
    pub fn room_is_hidden(&self, room: &str) -> (r: bool)
        ensures
            r == room_is_hidden(self@, room@),
    {
        if same_text(room, DEFAULT_ROOM) {
            return false;
        }
        let mut i: usize = 0;
        while i < self.members.len()
            invariant
                i <= self.members.len(),
                self@.len() == self.members.len(),
                room@ != DEFAULT_ROOM@,
                forall|j: int| 0 <= j < i ==> !(#[trigger] self@[j].room == room@ && self@[j].room_hidden),
            decreases self.members.len() - i,
        {
            if self.members[i].room_hidden && same_text(self.members[i].room.as_str(), room) {
                assert(self@[i as int].room == room@);
                return true;
            }
            i = i + 1;
        }
        false
    }

    /// The names of the people in a room, in registration order.
    pub fn names_in(&self, room: &str) -> (r: Vec<String>)
        ensures
            texts(r@) == names_in_room(self@, room@),
    {
        let mut r: Vec<String> = Vec::new();
        let mut i: usize = 0;
        while i < self.members.len()
            invariant
                i <= self.members.len(),
                self@.len() == self.members.len(),
                texts(r@) == names_in_room(self@.take(i as int), room@),
            decreases self.members.len() - i,
        {
            let ghost before = texts(r@);
            proof {
                assert(self@.take(i + 1).drop_last() =~= self@.take(i as int));
            }
            if same_text(self.members[i].room.as_str(), room) {
                r.push(self.members[i].name.clone());
                assert(texts(r@) =~= before.push(self@[i as int].name));
            }
            i = i + 1;
        }
        assert(self@.take(self@.len() as int) =~= self@);
        r
    }

    /// The names of the people in a room other than `sender`, in
    /// registration order: who a message from `sender` to the room goes to.
    pub fn others_in(&self, room: &str, sender: &str) -> (r: Vec<String>)
        ensures
            texts(r@) == others_in_room(self@, room@, sender@),
    {
        let mut r: Vec<String> = Vec::new();
        let mut i: usize = 0;
        while i < self.members.len()
            invariant
                i <= self.members.len(),
                self@.len() == self.members.len(),
                texts(r@) == others_in_room(self@.take(i as int), room@, sender@),
            decreases self.members.len() - i,
        {
            let ghost before = texts(r@);
            proof {
                assert(self@.take(i + 1).drop_last() =~= self@.take(i as int));
            }
            if same_text(self.members[i].room.as_str(), room) && !same_text(
                self.members[i].name.as_str(),
                sender,
            ) {
                r.push(self.members[i].name.clone());
                assert(texts(r@) =~= before.push(self@[i as int].name));
            }
            i = i + 1;
        }
        assert(self@.take(self@.len() as int) =~= self@);
        r
    }

    /// The names of the people in a room who are not marked hidden.
    fn shown_names_in(&self, room: &str) -> (r: Vec<String>)
        ensures
            texts(r@) == shown_names_in_room(self@, room@),
    {
        let mut r: Vec<String> = Vec::new();
        let mut i: usize = 0;
        while i < self.members.len()
            invariant
                i <= self.members.len(),
                self@.len() == self.members.len(),
                texts(r@) == shown_names_in_room(self@.take(i as int), room@),
            decreases self.members.len() - i,
        {
            let ghost before = texts(r@);
            proof {
                assert(self@.take(i + 1).drop_last() =~= self@.take(i as int));
            }
            if !self.members[i].room_hidden && same_text(self.members[i].room.as_str(), room) {
                r.push(self.members[i].name.clone());
                assert(texts(r@) =~= before.push(self@[i as int].name));
            }
            i = i + 1;
        }
        assert(self@.take(self@.len() as int) =~= self@);
        r
    }

    /// `name=key` for each person in the room who has sent a key.
    fn key_entries_in(&self, room: &str) -> (r: Vec<String>)
        ensures
            texts(r@) == key_entries(self@, room@),
    {
        let mut r: Vec<String> = Vec::new();
        let mut i: usize = 0;
        while i < self.members.len()
            invariant
                i <= self.members.len(),
                self@.len() == self.members.len(),
                texts(r@) == key_entries(self@.take(i as int), room@),
            decreases self.members.len() - i,
        {
            let ghost before = texts(r@);
            proof {
                assert(self@.take(i + 1).drop_last() =~= self@.take(i as int));
            }
            if same_text(self.members[i].room.as_str(), room) {
                match &self.members[i].pubkey {
                    Some(key) => {
                        let mut entry = self.members[i].name.clone();
                        entry.append("=");
                        entry.append(key.as_str());
                        proof {
                            reveal_strlit("=");
                            assert(self@[i as int] == self.members@[i as int]@);
                            assert(self@[i as int].pubkey->0 == key@);
                            assert(entry@ == self@[i as int].name + seq!['='] + key@);
                        }
                        r.push(entry);
                        assert(texts(r@) =~= before.push(
                            self@[i as int].name + seq!['='] + self@[i as int].pubkey->0,
                        ));
                    },
                    None => {},
                }
            }
            i = i + 1;
        }
        assert(self@.take(self@.len() as int) =~= self@);
        r
    }

    /// The people in one room, sorted. Works for hidden rooms too, which is
    /// what lets `\people` show you who is in the private room you are in.
    pub fn people_in(&self, room: &str) -> (r: Vec<String>)
        ensures
            texts(r@) == names_in_room(self@, room@).sort_by(text_order()),
    {
        sort_texts(self.names_in(room))
    }

    /// The line that tells everyone in a room who else is there and what
    /// their public keys are, and who it goes to: everyone in the room.
    pub fn member_list(&self, room: &str) -> (r: (String, Vec<String>))
        ensures
            r.0@ == members_line(self@, room@),
            texts(r.1@) == names_in_room(self@, room@),
    {
        let entries = sort_texts(self.key_entries_in(room));
        let mut line = MEMBERS_PREFIX.to_string();
        let joined_entries = join_texts(&entries, " ");
        line.append(joined_entries.as_str());
        proof {
            reveal_strlit(" ");
            assert(" "@ =~= seq![' ']);
            assert(joined_entries@ == joined(key_entries(self@, room@).sort_by(text_order()), seq![' ']));
        }
        (line, self.names_in(room))
    }

    /// The rooms in which at least one person is shown, each once, plus
    /// `general`.
    fn listed_rooms_in(&self) -> (r: Vec<String>)
        ensures
            texts(r@) == listed_rooms(self@),
    {
        let mut r: Vec<String> = Vec::new();
        r.push(DEFAULT_ROOM.to_string());
        let mut i: usize = 0;
        assert(texts(r@) =~= listed_rooms(self@.take(0)));
        while i < self.members.len()
            invariant
                i <= self.members.len(),
                self@.len() == self.members.len(),
                texts(r@) == listed_rooms(self@.take(i as int)),
            decreases self.members.len() - i,
        {
            let ghost before = texts(r@);
            proof {
                assert(self@.take(i + 1).drop_last() =~= self@.take(i as int));
            }
            if !self.members[i].room_hidden && !contains_text(&r, self.members[i].room.as_str()) {
                r.push(self.members[i].room.clone());
                assert(texts(r@) =~= before.push(self@[i as int].room));
            }
            i = i + 1;
        }
        assert(self@.take(self@.len() as int) =~= self@);
        r
    }

    /// Every room that shows up in a listing, with the people in it. Hidden
    /// rooms are left out entirely. `general` is always included, even empty.
    pub fn visible_rooms(&self) -> (r: Vec<(String, Vec<String>)>)
        ensures
            listing_view(r@) == room_listing(self@),
    {
        let rooms = sort_texts(self.listed_rooms_in());
        let ghost sorted = listed_rooms(self@).sort_by(text_order());
        let mut r: Vec<(String, Vec<String>)> = Vec::new();
        let mut i: usize = 0;
        while i < rooms.len()
            invariant
                i <= rooms.len(),
                texts(rooms@) == sorted,
                sorted == listed_rooms(self@).sort_by(text_order()),
                listing_view(r@) == room_listing(self@).take(i as int),
            decreases rooms.len() - i,
        {
            let ghost before = listing_view(r@);
            let people = sort_texts(self.shown_names_in(rooms[i].as_str()));
            r.push((rooms[i].clone(), people));
            proof {
                assert(texts(rooms@)[i as int] == rooms@[i as int]@);
                assert(listing_view(r@) =~= before.push(room_listing(self@)[i as int]));
                assert(room_listing(self@).take(i + 1) =~= room_listing(self@).take(i as int).push(
                    room_listing(self@)[i as int],
                ));
            }
            i = i + 1;
        }
        assert(room_listing(self@).take(rooms.len() as int) =~= room_listing(self@));
        r
    }
}

} // verus!
