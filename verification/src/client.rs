//! What the client decides: how it reads the server's control lines, which
//! keys it encrypts to, and what it sends for what the user types.
//!
//! A chat message is sealed once per recipient. There is no shared room key,
//! so nobody outside the current member list can read it -- which includes the
//! server, and anyone who has already left the room.

use vstd::prelude::*;
use vstd::utf8::encode_utf8;
use crate::protocol::{
    decode_public, decoded_public, opened_text, open, seal, sealed_text, shared_key, shared_key_of,
    too_long_to_seal, x25519_public, is_base64_char, sealable_size, PublicKey, StaticSecret, FROM_PREFIX, MEMBERS_PREFIX,
    NONCE_LEN, ROOM_PREFIX, TO_PREFIX,
};
use crate::text::{
    after_prefix, head_before, same_text, split_once_at, split_words, starts_with_char,
    strip_prefix, tail_after, texts, trim, trim_end, trim_end_seq, trim_seq, words,
};

verus! {

/// What the client prints when there is nobody to send a message to.
pub const NOBODY_HERE: &'static str = "(nobody else is in this room yet)";

/// The people in our room, each with the public key we encrypt to.
pub struct Members {
    entries: Vec<(String, PublicKey)>,
}

impl View for Members {
    type V = Seq<(Seq<char>, Seq<u8>)>;

    closed spec fn view(&self) -> Seq<(Seq<char>, Seq<u8>)> {
        self.entries@.map_values(|e: (String, PublicKey)| (e.0@, e.1@))
    }
}

/// No name occurs twice.
pub open spec fn member_names_distinct(m: Seq<(Seq<char>, Seq<u8>)>) -> bool {
    forall|i: int, j: int| 0 <= i < j < m.len() ==> #[trigger] m[i].0 != #[trigger] m[j].0
}

/// Whether `name` has a key in `m`.
pub open spec fn has_key(m: Seq<(Seq<char>, Seq<u8>)>, name: Seq<char>) -> bool {
    exists|i: int| 0 <= i < m.len() && #[trigger] m[i].0 == name
}

/// The key of `name` in `m`, if any.
pub open spec fn key_of(m: Seq<(Seq<char>, Seq<u8>)>, name: Seq<char>) -> Option<Seq<u8>> {
    if has_key(m, name) {
        Some(m[choose|i: int| 0 <= i < m.len() && #[trigger] m[i].0 == name].1)
    } else {
        None
    }
}

/// `m` with `name` now having `key`: a new entry at the end, or the old
/// entry's key replaced.
pub open spec fn upsert(m: Seq<(Seq<char>, Seq<u8>)>, name: Seq<char>, key: Seq<u8>) -> Seq<
    (Seq<char>, Seq<u8>),
> {
    if has_key(m, name) {
        m.update(choose|i: int| 0 <= i < m.len() && #[trigger] m[i].0 == name, (name, key))
    } else {
        m.push((name, key))
    }
}

/// The name in a `name=key` entry.
pub open spec fn entry_name(w: Seq<char>) -> Seq<char> {
    head_before(w, '=')
}

/// The key in a `name=key` entry, if it is one.
pub open spec fn entry_key(w: Seq<char>) -> Option<Seq<u8>> {
    decoded_public(
        match tail_after(w, '=') {
            Some(t) => t,
            None => seq![],
        },
    )
}

/// The members that a list of `name=key` entries gives, leaving out
/// ourselves and entries whose key does not decode; a later entry for a name
/// replaces an earlier one.
pub open spec fn members_from(ws: Seq<Seq<char>>, me: Seq<char>) -> Seq<(Seq<char>, Seq<u8>)>
    decreases ws.len(),
{
    if ws.len() == 0 {
        seq![]
    } else {
        let m = members_from(ws.drop_last(), me);
        let w = ws.last();
        if entry_name(w) != me && entry_key(w) is Some {
            upsert(m, entry_name(w), entry_key(w)->0)
        } else {
            m
        }
    }
}

proof fn lemma_find_key(m: Seq<(Seq<char>, Seq<u8>)>, name: Seq<char>, i: int)
    requires
        member_names_distinct(m),
        0 <= i < m.len(),
        m[i].0 == name,
    ensures
        has_key(m, name),
        (choose|k: int| 0 <= k < m.len() && #[trigger] m[k].0 == name) == i,
{
    let k = choose|k: int| 0 <= k < m.len() && #[trigger] m[k].0 == name;
    assert(m[i].0 == name);
    if k != i {
        if k < i {
            assert(m[k].0 != m[i].0);
        } else {
            assert(m[i].0 != m[k].0);
        }
    }
}

impl Members {
    /// No name occurs twice.
    #[verifier::type_invariant]
    spec fn wf(&self) -> bool {
        member_names_distinct(self@)
    }

    /// Nobody yet.
    pub fn new() -> (r: Members)
        ensures
            r@ == Seq::<(Seq<char>, Seq<u8>)>::empty(),
    {
        let r = Members { entries: Vec::new() };
        assert(r@ =~= Seq::<(Seq<char>, Seq<u8>)>::empty());
        r
    }

    /// How many people there are.
    pub fn len(&self) -> (n: usize)
        ensures
            n == self@.len(),
    {
        self.entries.len()
    }

    fn find(&self, name: &str) -> (i: usize)
        ensures
            i <= self@.len(),
            i < self@.len() ==> self@[i as int].0 == name@ && has_key(self@, name@) && (choose|
                k: int,
            | 0 <= k < self@.len() && #[trigger] self@[k].0 == name@) == i,
            i == self@.len() ==> !has_key(self@, name@),
    {
        proof {
            use_type_invariant(self);
        }
        let mut i: usize = 0;
        while i < self.entries.len()
            invariant
                i <= self.entries.len(),
                self@.len() == self.entries.len(),
                member_names_distinct(self@),
                forall|j: int| 0 <= j < i ==> #[trigger] self@[j].0 != name@,
            decreases self.entries.len() - i,
        {
            if same_text(self.entries[i].0.as_str(), name) {
                proof {
                    lemma_find_key(self@, name@, i as int);
                }
                return i;
            }
            i = i + 1;
        }
        i
    }

    /// The key to encrypt to for `name`, if we have one.
    pub fn get(&self, name: &str) -> (r: Option<PublicKey>)
        ensures
            key_of(self@, name@) == match r {
                Some(k) => Some(k@),
                None => None::<Seq<u8>>,
            },
    {
        let i = self.find(name);
        if i == self.entries.len() {
            None
        } else {
            Some(self.entries[i].1)
        }
    }

    /// Records `key` for `name`, replacing any key it had.
    pub fn insert(&mut self, name: &str, key: PublicKey)
        ensures
            final(self)@ == upsert(old(self)@, name@, key@),
    {
        proof {
            use_type_invariant(&*self);
        }
        let i = self.find(name);
        let ghost before = self@;
        let mut v: Vec<(String, PublicKey)> = Vec::new();
        std::mem::swap(&mut v, &mut self.entries);
        assert(v@.map_values(|e: (String, PublicKey)| (e.0@, e.1@)) == before);
        if i == v.len() {
            v.push((name.to_string(), key));
            let ghost after = v@.map_values(|e: (String, PublicKey)| (e.0@, e.1@));
            proof {
                assert(after =~= before.push((name@, key@)));
                assert forall|a: int, b: int| 0 <= a < b < after.len() implies #[trigger] after[a].0
                    != #[trigger] after[b].0 by {
                    if b == after.len() - 1 {
                        assert(before[a].0 != name@);
                    } else {
                        assert(before[a].0 != before[b].0);
                    }
                }
            }
        } else {
            v.remove(i);
            v.insert(i, (name.to_string(), key));
            let ghost after = v@.map_values(|e: (String, PublicKey)| (e.0@, e.1@));
            proof {
                assert(after =~= before.update(i as int, (name@, key@)));
                assert forall|a: int, b: int| 0 <= a < b < after.len() implies #[trigger] after[a].0
                    != #[trigger] after[b].0 by {
                    assert(before[a].0 != before[b].0);
                }
            }
        }
        self.entries = v;
    }
}

/// Reads a member list (the part after `\members `): each `name=key` entry
/// other than our own, whose key decodes.
pub fn parse_members(list: &str, me: &str) -> (r: Members)
    ensures
        r@ == members_from(words(list@), me@),
{
    let entries = split_words(list);
    let ghost ws = words(list@);
    let mut fresh = Members::new();
    let mut i: usize = 0;
    while i < entries.len()
        invariant
            i <= entries.len(),
            texts(entries@) == ws,
            fresh@ == members_from(ws.take(i as int), me@),
        decreases entries.len() - i,
    {
        proof {
            assert(ws.take(i + 1).drop_last() =~= ws.take(i as int));
            assert(ws.take(i + 1).last() == entries@[i as int]@);
        }
        let (name, encoded) = split_once_at(entries[i].as_str(), '=');
        let encoded = match encoded {
            Some(t) => t,
            None => "",
        };
        proof {
            reveal_strlit("");
        }
        let ghost w = entries@[i as int]@;
        assert(entry_name(w) == name@);
        assert(encoded@ == match tail_after(w, '=') {
            Some(t) => t,
            None => seq![],
        });
        let ghost prev = fresh@;
        if !same_text(name, me) {
            match decode_public(encoded) {
                Some(key) => {
                    fresh.insert(name, key);
                    assert(entry_key(w) == Some(key@));
                },
                None => {
                    assert(entry_key(w) is None);
                },
            }
        }
        assert(fresh@ == members_from(ws.take(i + 1), me@));
        i = i + 1;
    }
    assert(ws.take(entries.len() as int) =~= ws);
    fresh
}

/// What a line from the server means to the client.
pub enum ServerLine {
    /// We are now in another room; this is the new prompt.
    Prompt(String),
    /// The people in our room and their keys.
    Members(Members),
    /// Something to show the user.
    Show(String),
}

/// A [`ServerLine`] as plain values.
pub enum ServerLineView {
    Prompt(Seq<char>),
    Members(Seq<(Seq<char>, Seq<u8>)>),
    Show(Seq<char>),
}

impl View for ServerLine {
    type V = ServerLineView;

    open spec fn view(&self) -> ServerLineView {
        match self {
            ServerLine::Prompt(p) => ServerLineView::Prompt(p@),
            ServerLine::Members(m) => ServerLineView::Members(m@),
            ServerLine::Show(t) => ServerLineView::Show(t@),
        }
    }
}

/// The prompt for a room: `[general] `.
pub open spec fn prompt_for(room: Seq<char>) -> Seq<char> {
    "["@ + room + "] "@
}

/// How a sealed message from `sender` is shown: `bob: hello`, or a note that
/// it could not be opened or that the sender is unknown.
pub open spec fn shown_message(
    secret: Seq<u8>,
    members: Seq<(Seq<char>, Seq<u8>)>,
    rest: Seq<char>,
) -> Seq<char> {
    let sender = head_before(rest, ' ');
    let sealed = match tail_after(rest, ' ') {
        Some(t) => t,
        None => seq![],
    };
    match key_of(members, sender) {
        Some(k) => match opened_text(shared_key_of(secret, k), sealed) {
            Some(m) => sender + ": "@ + m,
            None => sender + ": <could not decrypt>"@,
        },
        None => sender + ": <unknown sender>"@,
    }
}

/// What a line from the server means: control lines are acted on, not
/// displayed; anything else is a plain notice.
pub open spec fn line_meaning(
    line: Seq<char>,
    me: Seq<char>,
    secret: Seq<u8>,
    members: Seq<(Seq<char>, Seq<u8>)>,
) -> ServerLineView {
    let text = trim_end_seq(line);
    match after_prefix(text, ROOM_PREFIX@) {
        Some(room) => ServerLineView::Prompt(prompt_for(room)),
        None => match after_prefix(text, MEMBERS_PREFIX@) {
            Some(list) => ServerLineView::Members(members_from(words(list), me)),
            None => match after_prefix(text, FROM_PREFIX@) {
                Some(rest) => ServerLineView::Show(shown_message(secret, members, rest)),
                None => ServerLineView::Show(text),
            },
        },
    }
}

/// The prompt for a room.
pub fn prompt(room: &str) -> (r: String)
    ensures
        r@ == prompt_for(room@),
{
    let mut p = "[".to_string();
    p.append(room);
    p.append("] ");
    p
}

/// Opens a sealed message from `sender` and says how to show it.
fn show_message(secret: &StaticSecret, members: &Members, rest: &str) -> (r: String)
    ensures
        r@ == shown_message(secret@, members@, rest@),
{
    let (sender, sealed) = split_once_at(rest, ' ');
    let sealed = match sealed {
        Some(t) => t,
        None => "",
    };
    proof {
        reveal_strlit("");
    }
    let mut shown = sender.to_string();
    let ghost sealed_view = match tail_after(rest@, ' ') {
        Some(t) => t,
        None => seq![],
    };
    assert(sealed@ == sealed_view);
    assert(sender@ == head_before(rest@, ' '));
    match members.get(sender) {
        Some(key) => {
            let k = shared_key(secret, &key);
            assert(k@ == shared_key_of(secret@, key@));
            match open(&k, sealed) {
                Some(message) => {
                    shown.append(": ");
                    shown.append(message.as_str());
                },
                None => {
                    shown.append(": <could not decrypt>");
                },
            }
        },
        None => {
            shown.append(": <unknown sender>");
        },
    }
    shown
}

/// What a line from the server means to the client holding `secret`, called
/// `me`, with `members` as the people it knows of.
pub fn interpret_line(line: &str, me: &str, secret: &StaticSecret, members: &Members) -> (r:
    ServerLine)
    ensures
        r@ == line_meaning(line@, me@, secret@, members@),
{
    let text = trim_end(line);
    if let Some(room) = strip_prefix(text, ROOM_PREFIX) {
        return ServerLine::Prompt(prompt(room));
    }
    if let Some(list) = strip_prefix(text, MEMBERS_PREFIX) {
        return ServerLine::Members(parse_members(list, me));
    }
    if let Some(rest) = strip_prefix(text, FROM_PREFIX) {
        return ServerLine::Show(show_message(secret, members, rest));
    }
    ServerLine::Show(text.to_string())
}

/// What the user typed, once trimmed.
pub enum Input {
    /// An empty line: nothing to do.
    Nothing,
    /// A command, sent to the server as it is; `quit` when it is `\quit`.
    Command { line: String, quit: bool },
    /// A chat message, to be sealed for everyone in the room.
    Chat(String),
}

/// An [`Input`] as plain values.
pub enum InputView {
    Nothing,
    Command { line: Seq<char>, quit: bool },
    Chat(Seq<char>),
}

impl View for Input {
    type V = InputView;

    open spec fn view(&self) -> InputView {
        match self {
            Input::Nothing => InputView::Nothing,
            Input::Command { line, quit } => InputView::Command { line: line@, quit: *quit },
            Input::Chat(t) => InputView::Chat(t@),
        }
    }
}

/// What a typed line is: commands go to the server as they are, since it
/// needs to read them to route; anything else is chat.
pub open spec fn input_meaning(raw: Seq<char>) -> InputView {
    let t = trim_seq(raw);
    if t.len() == 0 {
        InputView::Nothing
    } else if t[0] == '\\' {
        InputView::Command { line: t, quit: t == "\\quit"@ }
    } else {
        InputView::Chat(t)
    }
}

/// Reads one typed line.
pub fn classify_input(raw: &str) -> (r: Input)
    ensures
        r@ == input_meaning(raw@),
{
    let t = trim(raw);
    if t.unicode_len() == 0 {
        Input::Nothing
    } else if starts_with_char(t, '\\') {
        Input::Command { line: t.to_string(), quit: same_text(t, "\\quit") }
    } else {
        Input::Chat(t.to_string())
    }
}

/// `line` sends `text` to `name`: it is `\to <name> <sealed>`, where `sealed`
/// is `text` sealed under the key shared with `key` using some nonce, and it
/// opens to `text` for the holder of any private key whose public key is `key`.
pub open spec fn line_seals_for(
    line: Seq<char>,
    secret: Seq<u8>,
    name: Seq<char>,
    key: Seq<u8>,
    text: Seq<char>,
) -> bool {
    exists|nonce: Seq<u8>|
        {
            let sealed = #[trigger] sealed_text(shared_key_of(secret, key), nonce, text);
            &&& nonce.len() == NONCE_LEN
            &&& line == TO_PREFIX@ + name + " "@ + sealed
            &&& sealed.len() > 0
            &&& forall|i: int| 0 <= i < sealed.len() ==> is_base64_char(#[trigger] sealed[i])
            &&& opened_text(shared_key_of(secret, key), sealed) == Some(text)
            &&& forall|other: StaticSecret|
                key == #[trigger] x25519_public(other@) ==> opened_text(
                    shared_key_of(other@, x25519_public(secret)),
                    sealed,
                ) == Some(text)
        }
}

/// The lines that send `text` to everyone in `members`: one sealed blob per
/// recipient, in order. When the message is too long to seal, there are none.
pub fn chat_lines(secret: &StaticSecret, members: &Members, text: &str) -> (r: Vec<String>)
    requires
        sealable_size(encode_utf8(text@).len()),
    ensures
        too_long_to_seal(text@) ==> r@.len() == 0,
        !too_long_to_seal(text@) ==> r@.len() == members@.len(),
        forall|i: int|
            0 <= i < r@.len() ==> line_seals_for(
                #[trigger] r@[i]@,
                secret@,
                members@[i].0,
                members@[i].1,
                text@,
            ),
{
    let mut r: Vec<String> = Vec::new();
    let mut i: usize = 0;
    while i < members.entries.len()
        invariant
            i <= members.entries.len(),
            members@.len() == members.entries.len(),
            sealable_size(encode_utf8(text@).len()),
            too_long_to_seal(text@) ==> r@.len() == 0,
            !too_long_to_seal(text@) ==> r@.len() == i,
            forall|k: int|
                0 <= k < r@.len() ==> line_seals_for(
                    #[trigger] r@[k]@,
                    secret@,
                    members@[k].0,
                    members@[k].1,
                    text@,
                ),
        decreases members.entries.len() - i,
    {
        let name = &members.entries[i].0;
        let key = shared_key(secret, &members.entries[i].1);
        match seal(&key, text) {
            Some(sealed) => {
                let mut line = TO_PREFIX.to_string();
                line.append(name.as_str());
                line.append(" ");
                line.append(sealed.as_str());
                proof {
                    let nonce = choose|nonce: Seq<u8>|
                        nonce.len() == NONCE_LEN && sealed@ == #[trigger] sealed_text(
                            key@,
                            nonce,
                            text@,
                        );
                    assert(members@[i as int] == (name@, members.entries@[i as int].1@));
                    assert(line_seals_for(line@, secret@, name@, members@[i as int].1, text@)) by {
                        assert(sealed@ == sealed_text(
                            shared_key_of(secret@, members@[i as int].1),
                            nonce,
                            text@,
                        ));
                    }
                }
                r.push(line);
            },
            None => {},
        }
        i = i + 1;
    }
    r
}

proof fn lemma_members_from_leaves_out_me(ws: Seq<Seq<char>>, me: Seq<char>)
    ensures
        forall|i: int|
            0 <= i < members_from(ws, me).len() ==> (#[trigger] members_from(ws, me)[i]).0 != me,
    decreases ws.len(),
{
    if ws.len() > 0 {
        let m = members_from(ws.drop_last(), me);
        lemma_members_from_leaves_out_me(ws.drop_last(), me);
        let w = ws.last();
        if entry_name(w) != me && entry_key(w) is Some {
            let n = entry_name(w);
            let key = entry_key(w)->0;
            let r = upsert(m, n, key);
            assert(r == members_from(ws, me));
            if has_key(m, n) {
                assert forall|i: int| 0 <= i < r.len() implies (#[trigger] r[i]).0 != me by {
                    assert(r[i].0 == n || r[i] == m[i]);
                }
            } else {
                assert(r == m.push((n, key)));
                assert forall|i: int| 0 <= i < r.len() implies (#[trigger] r[i]).0 != me by {
                    if i < m.len() {
                        assert(r[i] == m[i]);
                    }
                }
            }
        }
    }
}

/// A member list replaces the people the client knew: what a `\members`
/// line gives depends only on that line and on who we are, never on who we
/// knew before or on our key, and it never holds ourselves.
pub proof fn lemma_member_list_replaces_what_was_known(
    line: Seq<char>,
    me: Seq<char>,
    secret: Seq<u8>,
    known: Seq<(Seq<char>, Seq<u8>)>,
    other_secret: Seq<u8>,
    other_known: Seq<(Seq<char>, Seq<u8>)>,
)
    ensures
        line_meaning(line, me, secret, known) is Members ==> line_meaning(
            line,
            me,
            other_secret,
            other_known,
        ) == line_meaning(line, me, secret, known),
        line_meaning(line, me, secret, known) matches ServerLineView::Members(m) ==> forall|i: int|
            0 <= i < m.len() ==> (#[trigger] m[i]).0 != me,
{
    let text = trim_end_seq(line);
    if let Some(list) = after_prefix(text, MEMBERS_PREFIX@) {
        lemma_members_from_leaves_out_me(words(list), me);
    }
}

proof fn lemma_members_from_names(ws: Seq<Seq<char>>, me: Seq<char>)
    ensures
        member_names_distinct(members_from(ws, me)),
        forall|i: int|
            #![trigger members_from(ws, me)[i]]
            0 <= i < members_from(ws, me).len() ==> exists|k: int|
                0 <= k < ws.len() && entry_name(#[trigger] ws[k]) == members_from(ws, me)[i].0
                    && entry_key(ws[k]) == Some(members_from(ws, me)[i].1),
        forall|k: int|
            0 <= k < ws.len() && entry_name(#[trigger] ws[k]) != me && entry_key(ws[k]) is Some
                ==> has_key(members_from(ws, me), entry_name(ws[k])),
    decreases ws.len(),
{
    if ws.len() > 0 {
        let t = ws.drop_last();
        let m = members_from(t, me);
        lemma_members_from_names(t, me);
        let w = ws.last();
        let r = members_from(ws, me);
        assert forall|k: int| 0 <= k < t.len() implies #[trigger] t[k] == ws[k] by {}
        if entry_name(w) != me && entry_key(w) is Some {
            let n = entry_name(w);
            let key = entry_key(w)->0;
            assert(r == upsert(m, n, key));
            if has_key(m, n) {
                let c = choose|i: int| 0 <= i < m.len() && #[trigger] m[i].0 == n;
                assert forall|i: int| 0 <= i < r.len() implies (i == c && r[i] == (n, key)) || (i
                    != c && r[i] == m[i]) by {}
                assert(r[c].0 == n);
            } else {
                assert forall|i: int| 0 <= i < r.len() implies (i == m.len() && r[i] == (n, key))
                    || (i < m.len() && r[i] == m[i]) by {}
                assert(r[m.len() as int].0 == n);
            }
            assert forall|i: int, i2: int| 0 <= i < i2 < r.len() implies #[trigger] r[i].0
                != #[trigger] r[i2].0 by {
                if r[i].0 == n && r[i] != m[i] {
                    if has_key(m, n) {
                        assert(m[i2].0 != m[i].0);
                    }
                } else if r[i2].0 == n && (i2 >= m.len() || r[i2] != m[i2]) {
                    if has_key(m, n) {
                        assert(m[i].0 != m[i2].0);
                    } else {
                        assert(m[i].0 != n);
                    }
                } else {
                    assert(m[i].0 != m[i2].0);
                }
            }
            assert forall|i: int| #![trigger r[i]] 0 <= i < r.len() implies exists|k: int|
                0 <= k < ws.len() && entry_name(#[trigger] ws[k]) == r[i].0 && entry_key(ws[k])
                    == Some(r[i].1) by {
                if r[i] == (n, key) {
                    assert(ws[ws.len() - 1] == w);
                } else {
                    let k = choose|k: int|
                        0 <= k < t.len() && entry_name(#[trigger] t[k]) == m[i].0 && entry_key(t[k])
                            == Some(m[i].1);
                    assert(ws[k] == t[k]);
                }
            }
            assert forall|k: int|
                0 <= k < ws.len() && entry_name(#[trigger] ws[k]) != me && entry_key(ws[k]) is Some
                implies has_key(r, entry_name(ws[k])) by {
                if k < t.len() {
                    assert(t[k] == ws[k]);
                    let i = choose|i: int| 0 <= i < m.len() && #[trigger] m[i].0 == entry_name(t[k]);
                    if i < r.len() && r[i] == m[i] {
                        assert(r[i].0 == entry_name(ws[k]));
                    } else {
                        assert(r[i].0 == n);
                    }
                } else {
                    if has_key(m, n) {
                        let c = choose|i: int| 0 <= i < m.len() && #[trigger] m[i].0 == n;
                        assert(r[c].0 == n);
                    } else {
                        assert(r[m.len() as int].0 == n);
                    }
                }
            }
        } else {
            assert(r == m);
            assert forall|i: int| #![trigger r[i]] 0 <= i < r.len() implies exists|k: int|
                0 <= k < ws.len() && entry_name(#[trigger] ws[k]) == r[i].0 && entry_key(ws[k])
                    == Some(r[i].1) by {
                let k = choose|k: int|
                    0 <= k < t.len() && entry_name(#[trigger] t[k]) == m[i].0 && entry_key(t[k])
                        == Some(m[i].1);
                assert(ws[k] == t[k]);
            }
            assert forall|k: int|
                0 <= k < ws.len() && entry_name(#[trigger] ws[k]) != me && entry_key(ws[k]) is Some
                implies has_key(r, entry_name(ws[k])) by {
                assert(t[k] == ws[k]);
            }
        }
    }
}

/// What a `\members` line gives is who it names: each person in it comes
/// from one of the line's `name=key` entries, with that entry's key, no name
/// twice; and everyone the line names, other than ourselves, whose key
/// decodes, is in it.
pub proof fn lemma_member_list_holds_who_the_line_names(
    line: Seq<char>,
    me: Seq<char>,
    secret: Seq<u8>,
    known: Seq<(Seq<char>, Seq<u8>)>,
)
    ensures
        ({
            let text = trim_end_seq(line);
            let ws = words(after_prefix(text, MEMBERS_PREFIX@)->0);
            let m = match line_meaning(line, me, secret, known) {
                ServerLineView::Members(m) => m,
                _ => seq![],
            };
            (after_prefix(text, ROOM_PREFIX@) is None && after_prefix(text, MEMBERS_PREFIX@) is Some)
                ==> {
                &&& line_meaning(line, me, secret, known) is Members
                &&& member_names_distinct(m)
                &&& forall|i: int|
                    #![trigger m[i]]
                    0 <= i < m.len() ==> exists|k: int|
                        0 <= k < ws.len() && entry_name(#[trigger] ws[k]) == m[i].0 && entry_key(
                            ws[k],
                        ) == Some(m[i].1)
                &&& forall|k: int|
                    0 <= k < ws.len() && entry_name(#[trigger] ws[k]) != me && entry_key(ws[k])
                        is Some ==> has_key(m, entry_name(ws[k]))
            }
        }),
{
    let text = trim_end_seq(line);
    if let Some(list) = after_prefix(text, MEMBERS_PREFIX@) {
        lemma_members_from_names(words(list), me);
    }
}

} // verus!
