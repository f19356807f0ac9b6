//! How a chat message travels: sealed on the sending client, routed by the
//! server as an opaque blob, opened on the receiving client.

use vstd::prelude::*;
use crate::client::{key_of, line_meaning, line_seals_for, ServerLineView};
use crate::protocol::{
    is_base64_char, sealed_text, shared_key_of, x25519_public, StaticSecret, FROM_PREFIX,
    MEMBERS_PREFIX, ROOM_PREFIX, TO_PREFIX,
};
use crate::rooms::{in_room, names_distinct, room_of, MemberView};
use crate::server::{argument_of, command_of, command_outcome, relay_notes};
use crate::text::{
    after_prefix, is_space, lemma_split_at_first, lemma_trim_line_end, lemma_trimmed, trim_seq,
};

verus! {

/// A line of chat that the sender's client made for `recipient`
/// ([`crate::client::chat_lines`]) reaches the recipient and nobody else: the
/// server, reading it off the connection, leaves its state as it was and
/// sends exactly one line, to the recipient, provided the recipient is in the
/// sender's room; and the recipient's client, reading that line, shows
/// `sender: text` -- the message opens with the recipient's own private key
/// and the sender's public key.
///
/// Names here are as the protocol needs them: the recipient's name is not
/// empty and holds no whitespace, and the sender's name holds no space.
pub proof fn lemma_message_travels(
    s: Seq<MemberView>,
    sender: Seq<char>,
    recipient: Seq<char>,
    sender_secret: Seq<u8>,
    recipient_secret: StaticSecret,
    recipient_me: Seq<char>,
    recipient_members: Seq<(Seq<char>, Seq<u8>)>,
    line: Seq<char>,
    text: Seq<char>,
)
    requires
        line_seals_for(line, sender_secret, recipient, x25519_public(recipient_secret@), text),
        names_distinct(s),
        in_room(s, recipient, room_of(s, sender)),
        recipient.len() > 0,
        forall|i: int| 0 <= i < recipient.len() ==> !is_space(#[trigger] recipient[i]),
        forall|i: int| 0 <= i < sender.len() ==> #[trigger] sender[i] != ' ',
        key_of(recipient_members, sender) == Some(x25519_public(sender_secret)),
    ensures
        ({
            let out = command_outcome(s, sender, trim_seq(line + seq!['\n']));
            &&& out.0 == s
            &&& !out.2
            &&& out.1.len() == 1
            &&& out.1[0].to == recipient
            &&& line_meaning(
                out.1[0].text + seq!['\n'],
                recipient_me,
                recipient_secret@,
                recipient_members,
            ) == ServerLineView::Show(sender + ": "@ + text)
        }),
{
    let key = x25519_public(recipient_secret@);
    let nonce = choose|nonce: Seq<u8>|
        {
            let sealed = #[trigger] sealed_text(shared_key_of(sender_secret, key), nonce, text);
            &&& nonce.len() == crate::protocol::NONCE_LEN
            &&& line == TO_PREFIX@ + recipient + " "@ + sealed
            &&& sealed.len() > 0
            &&& forall|i: int| 0 <= i < sealed.len() ==> is_base64_char(#[trigger] sealed[i])
            &&& crate::protocol::opened_text(shared_key_of(sender_secret, key), sealed) == Some(
                text,
            )
            &&& forall|other: StaticSecret|
                key == #[trigger] x25519_public(other@) ==> crate::protocol::opened_text(
                    shared_key_of(other@, x25519_public(sender_secret)),
                    sealed,
                ) == Some(text)
        };
    let sealed = sealed_text(shared_key_of(sender_secret, key), nonce, text);
    reveal_strlit("\\to ");
    reveal_strlit(" ");
    reveal_strlit("\\from ");
    reveal_strlit("\\room ");
    reveal_strlit("\\members ");
    reveal_strlit("\\to");
    reveal_strlit("\\pubkey");
    assert(!is_space(sealed.last())) by {
        assert(is_base64_char(sealed[sealed.len() - 1]));
    }

    // The server reads the line off the connection, trimmed.
    let arg = recipient + seq![' '] + sealed;
    assert(line =~= seq!['\\', 't', 'o'] + seq![' '] + arg);
    assert(line[0] == '\\');
    assert(!is_space(line.last())) by {
        assert(line.last() == sealed.last());
    }
    lemma_trim_line_end(line);
    lemma_split_at_first(seq!['\\', 't', 'o'], ' ', arg);
    assert(command_of(line) == "\\to"@);
    assert(arg[0] == recipient[0]);
    assert(arg.last() == sealed.last());
    lemma_trimmed(arg);
    assert(argument_of(line) == arg);
    assert(command_of(line) != "\\pubkey"@) by {
        assert(command_of(line).len() != "\\pubkey"@.len());
    }
    assert forall|i: int| 0 <= i < recipient.len() implies #[trigger] recipient[i] != ' ' by {
        assert(!is_space(recipient[i]));
        if recipient[i] == ' ' {
            assert((' ' as u32) == 32);
        }
    }
    lemma_split_at_first(recipient, ' ', sealed);
    let out = command_outcome(s, sender, line);
    assert(out.1 == relay_notes(s, sender, arg));
    let delivered = out.1[0].text;
    assert(delivered == FROM_PREFIX@ + sender + " "@ + sealed);

    // The recipient's client reads the delivered line.
    let rest = sender + seq![' '] + sealed;
    let shown = delivered;
    assert(shown =~= FROM_PREFIX@ + rest);
    assert(shown[0] == '\\');
    assert(!is_space(shown.last())) by {
        assert(shown.last() == sealed.last());
    }
    lemma_trim_line_end(shown);
    assert(after_prefix(shown, ROOM_PREFIX@) is None) by {
        assert(shown.take(ROOM_PREFIX@.len() as int)[1] != ROOM_PREFIX@[1]);
    }
    assert(after_prefix(shown, MEMBERS_PREFIX@) is None) by {
        if MEMBERS_PREFIX@.len() <= shown.len() {
            assert(shown.take(MEMBERS_PREFIX@.len() as int)[1] != MEMBERS_PREFIX@[1]);
        }
    }
    assert(shown.take(FROM_PREFIX@.len() as int) =~= FROM_PREFIX@);
    assert(shown.skip(FROM_PREFIX@.len() as int) =~= rest);
    assert(after_prefix(shown, FROM_PREFIX@) == Some(rest));
    lemma_split_at_first(sender, ' ', sealed);
}

} // verus!
