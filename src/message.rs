use vstd::prelude::*;

verus! {

/// A chat line: who wrote it, and what they wrote.
#[derive(Clone, Debug, PartialEq, Eq)]
pub struct Message {
    pub author: String,
    pub body: String,
}

/// A whole file sent through the relay.
///
/// `filesize` is what the sender announced; it is carried as is and never
/// checked against `data`.
#[derive(Clone, Debug, PartialEq, Eq)]
pub struct Document {
    pub filename: String,
    pub filesize: u64,
    pub data: Vec<u8>,
}

/// The unit of communication between clients and the relay.
#[derive(Clone, Debug, PartialEq, Eq)]
pub enum Epistle {
    /// Reserved for session negotiation; carries nothing.
    Handshake,
    Message(Message),
    Document(Document),
}

/// What a message is, as mathematical values.
pub ghost enum EpistleView {
    Handshake,
    Message { author: Seq<char>, body: Seq<char> },
    Document { filename: Seq<char>, filesize: u64, data: Seq<u8> },
}

impl View for Epistle {
    type V = EpistleView;

    open spec fn view(&self) -> EpistleView {
        match self {
            Epistle::Handshake => EpistleView::Handshake,
            Epistle::Message(m) => EpistleView::Message { author: m.author@, body: m.body@ },
            Epistle::Document(d) => EpistleView::Document {
                filename: d.filename@,
                filesize: d.filesize,
                data: d.data@,
            },
        }
    }
}

impl Epistle {
    /// A chat line from `author`.
    pub fn text(author: String, body: String) -> (r: Epistle)
        ensures
            r@ == (EpistleView::Message { author: author@, body: body@ }),
    {
        Epistle::Message(Message { author, body })
    }

    /// A file transfer whose announced size is the length of `data`.
    pub fn file(filename: String, data: Vec<u8>) -> (r: Epistle)
        ensures
            r@ == (EpistleView::Document {
                filename: filename@,
                filesize: data@.len() as u64,
                data: data@,
            }),
    {
        let filesize = data.len() as u64;
        Epistle::Document(Document { filename, filesize, data })
    }
}

} // verus!
