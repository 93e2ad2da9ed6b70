//! What a client does with the messages it receives, and how it reads what
//! its user typed.
use vstd::prelude::*;
use vstd::slice::{slice_subrange, slice_to_vec};
use vstd::string::*;
use vstd::utf8::*;

use crate::codec::string_from_utf8;
use crate::message::{Document, Epistle, Message};

verus! {

/// A line of the chat log.
#[derive(Clone, Debug, PartialEq, Eq)]
pub struct ChatMessage {
    pub username: String,
    pub message: String,
}

/// What a client does with a message it received.
#[derive(Clone, Debug, PartialEq, Eq)]
pub enum Delivery {
    /// Nothing to show: the peer only announced itself.
    Handshake,
    /// A line to add to the chat log.
    Chat(ChatMessage),
    /// A file to write, under its declared name, into the download folder.
    Save { filename: String, data: Vec<u8> },
}

/// Decides what to do with a received message. A file is saved with exactly
/// the bytes it carries, whatever size it announced.
pub fn process_epistle(msg: Epistle) -> (r: Delivery)
    ensures
        match msg {
            Epistle::Handshake => r is Handshake,
            Epistle::Message(m) => match r {
                Delivery::Chat(c) => c.username@ == m.author@ && c.message@ == m.body@,
                _ => false,
            },
            Epistle::Document(d) => match r {
                Delivery::Save { filename, data } => filename@ == d.filename@ && data@ == d.data@,
                _ => false,
            },
        },
{
    match msg {
        Epistle::Handshake => Delivery::Handshake,
        Epistle::Message(Message { author, body }) => Delivery::Chat(
            ChatMessage { username: author, message: body },
        ),
        Epistle::Document(Document { filename, filesize: _, data }) => Delivery::Save {
            filename,
            data,
        },
    }
}

/// What a line typed by the user asks for.
#[derive(Clone, Debug, PartialEq, Eq)]
pub enum Command {
    /// Send the file at this path.
    SendFile(String),
    /// Send the line as a chat message.
    Say(String),
}

/// The UTF-8 bytes of `@file `, the prefix of a file command.
pub open spec fn file_command() -> Seq<u8> {
    seq![64u8, 102u8, 105u8, 108u8, 101u8, 32u8]
}

/// The path named by a file command typed as `line`, if it is one.
pub open spec fn file_path_of(line: Seq<char>) -> Option<Seq<char>> {
    let b = encode_utf8(line);
    if b.len() >= 6 && b.subrange(0, 6) == file_command() && valid_utf8(b.subrange(6, b.len() as int)) {
        Some(decode_utf8(b.subrange(6, b.len() as int)))
    } else {
        None
    }
}

/// Reads a submitted input line: `@file <path>` sends a file, anything else
/// is said in the chat as it stands.
pub fn parse_input(line: &str) -> (r: Command)
    ensures
        match file_path_of(line@) {
            Some(p) => r matches Command::SendFile(q) && q@ == p,
            None => r matches Command::Say(s) && s@ == line@,
        },
{
    let b = line.as_bytes();
    let n = b.len();
    if n >= 6 && b[0] == 64u8 && b[1] == 102u8 && b[2] == 105u8 && b[3] == 108u8 && b[4] == 101u8
        && b[5] == 32u8 {
        proof {
            assert(b@.subrange(0, 6) =~= file_command());
        }
        let rest = slice_to_vec(slice_subrange(b, 6, n));
        match string_from_utf8(rest) {
            Some(path) => Command::SendFile(path),
            None => Command::Say(line.to_owned()),
        }
    } else {
        proof {
            if b@.len() >= 6 && b@.subrange(0, 6) == file_command() {
                assert(b@.subrange(0, 6)[0] == b@[0]);
                assert(b@.subrange(0, 6)[1] == b@[1]);
                assert(b@.subrange(0, 6)[2] == b@[2]);
                assert(b@.subrange(0, 6)[3] == b@[3]);
                assert(b@.subrange(0, 6)[4] == b@[4]);
                assert(b@.subrange(0, 6)[5] == b@[5]);
            }
        }
        Command::Say(line.to_owned())
    }
}

} // verus!
