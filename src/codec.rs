//! The wire format.
//!
//! A frame is one tag byte that names the variant, followed by the variant's
//! fields in declaration order. Every variable-length field is written as its
//! byte length (eight bytes, big-endian) followed by the bytes themselves;
//! text fields are written as UTF-8. A frame therefore says where it ends,
//! and frames are simply written one after another on a stream.
use vstd::prelude::*;
use vstd::slice::{slice_subrange, slice_to_vec};
use vstd::string::*;
use vstd::utf8::*;

use crate::message::{Document, Epistle, EpistleView, Message};

verus! {

pub const TAG_HANDSHAKE: u8 = 0;

pub const TAG_MESSAGE: u8 = 1;

pub const TAG_DOCUMENT: u8 = 2;

/// Why no message could be read at a position of a stream.
#[derive(Clone, Copy, Debug, PartialEq, Eq, Structural)]
pub enum DecodeError {
    /// Not a single byte is left: the peer closed cleanly between frames.
    EndOfStream,
    /// The frame has started but its bytes are not all there.
    Truncated,
    /// The first byte names no variant.
    UnknownTag(u8),
    /// A text field is not valid UTF-8.
    InvalidText,
}

/// The eight big-endian bytes of `n`.
pub open spec fn be_bytes(n: u64) -> Seq<u8> {
    seq![
        (n >> 56u64) as u8,
        (n >> 48u64) as u8,
        (n >> 40u64) as u8,
        (n >> 32u64) as u8,
        (n >> 24u64) as u8,
        (n >> 16u64) as u8,
        (n >> 8u64) as u8,
        n as u8,
    ]
}

/// The number whose big-endian bytes are the first eight of `b`.
pub open spec fn be_value(b: Seq<u8>) -> u64
    recommends
        b.len() >= 8,
{
    (b[0] as u64) << 56u64 | (b[1] as u64) << 48u64 | (b[2] as u64) << 40u64 | (b[3] as u64)
        << 32u64 | (b[4] as u64) << 24u64 | (b[5] as u64) << 16u64 | (b[6] as u64) << 8u64 | (
    b[7] as u64)
}

/// A variable-length field: its length, then its bytes.
pub open spec fn field(b: Seq<u8>) -> Seq<u8> {
    be_bytes(b.len() as u64) + b
}

/// The frame of a message.
pub open spec fn frame(m: EpistleView) -> Seq<u8> {
    match m {
        EpistleView::Handshake => seq![TAG_HANDSHAKE],
        EpistleView::Message { author, body } => seq![TAG_MESSAGE] + field(encode_utf8(author))
            + field(encode_utf8(body)),
        EpistleView::Document { filename, filesize, data } => seq![TAG_DOCUMENT] + field(
            encode_utf8(filename),
        ) + be_bytes(filesize) + field(data),
    }
}

/// Every field of `m` is short enough for its length to be written.
pub open spec fn fits(m: EpistleView) -> bool {
    match m {
        EpistleView::Handshake => true,
        EpistleView::Message { author, body } => encode_utf8(author).len() <= u64::MAX
            && encode_utf8(body).len() <= u64::MAX,
        EpistleView::Document { filename, filesize, data } => encode_utf8(filename).len()
            <= u64::MAX && data.len() <= u64::MAX,
    }
}

/// The number written in the eight bytes at `at`, if they are there.
pub open spec fn read_u64(b: Seq<u8>, at: int) -> Option<u64> {
    if 0 <= at && at + 8 <= b.len() {
        Some(be_value(b.subrange(at, at + 8)))
    } else {
        None
    }
}

/// The field that starts at `at` and where it ends, if all of it is there.
pub open spec fn read_field(b: Seq<u8>, at: int) -> Option<(Seq<u8>, int)> {
    match read_u64(b, at) {
        Some(n) => if at + 8 + n <= b.len() {
            Some((b.subrange(at + 8, at + 8 + n), at + 8 + n))
        } else {
            None
        },
        None => None,
    }
}

/// The text field that starts at `at` and where it ends.
pub open spec fn read_text(b: Seq<u8>, at: int) -> Result<(Seq<char>, int), DecodeError> {
    match read_field(b, at) {
        Some((x, end)) => if valid_utf8(x) {
            Ok((decode_utf8(x), end))
        } else {
            Err(DecodeError::InvalidText)
        },
        None => Err(DecodeError::Truncated),
    }
}

/// The message whose frame starts at `at` in `b`, and the position just past
/// that frame; or why there is none.
pub open spec fn parse_at(b: Seq<u8>, at: int) -> Result<(EpistleView, int), DecodeError> {
    if at >= b.len() {
        Err(DecodeError::EndOfStream)
    } else if b[at] == TAG_HANDSHAKE {
        Ok((EpistleView::Handshake, at + 1))
    } else if b[at] == TAG_MESSAGE {
        match read_text(b, at + 1) {
            Err(e) => Err(e),
            Ok((author, mid)) => match read_text(b, mid) {
                Err(e) => Err(e),
                Ok((body, end)) => Ok((EpistleView::Message { author, body }, end)),
            },
        }
    } else if b[at] == TAG_DOCUMENT {
        match read_text(b, at + 1) {
            Err(e) => Err(e),
            Ok((filename, mid)) => match read_u64(b, mid) {
                None => Err(DecodeError::Truncated),
                Some(filesize) => match read_field(b, mid + 8) {
                    None => Err(DecodeError::Truncated),
                    Some((data, end)) => Ok(
                        (EpistleView::Document { filename, filesize, data }, end),
                    ),
                },
            },
        }
    } else {
        Err(DecodeError::UnknownTag(b[at]))
    }
}

proof fn lemma_be_round_trip(n: u64)
    ensures
        be_bytes(n).len() == 8,
        be_value(be_bytes(n)) == n,
{
    assert((((n >> 56u64) as u8) as u64) << 56u64 | (((n >> 48u64) as u8) as u64) << 48u64 | (((n
        >> 40u64) as u8) as u64) << 40u64 | (((n >> 32u64) as u8) as u64) << 32u64 | (((n
        >> 24u64) as u8) as u64) << 24u64 | (((n >> 16u64) as u8) as u64) << 16u64 | (((n
        >> 8u64) as u8) as u64) << 8u64 | ((n as u8) as u64) == n) by (bit_vector);
}

proof fn lemma_read_u64(b: Seq<u8>, at: int, n: u64)
    requires
        0 <= at,
        at + 8 <= b.len(),
        b.subrange(at, at + 8) == be_bytes(n),
    ensures
        read_u64(b, at) == Some(n),
{
    lemma_be_round_trip(n);
}

proof fn lemma_read_field(b: Seq<u8>, at: int, x: Seq<u8>)
    requires
        0 <= at,
        x.len() <= u64::MAX,
        at + field(x).len() <= b.len(),
        b.subrange(at, at + field(x).len()) == field(x),
    ensures
        field(x).len() == 8 + x.len(),
        read_field(b, at) == Some((x, at + field(x).len())),
{
    let n = x.len() as u64;
    lemma_be_round_trip(n);
    let f = field(x);
    assert(b.subrange(at, at + 8) =~= f.subrange(0, 8));
    assert(f.subrange(0, 8) =~= be_bytes(n));
    lemma_read_u64(b, at, n);
    assert(b.subrange(at + 8, at + 8 + n) =~= x) by {
        assert forall|i: int| 0 <= i < x.len() implies b.subrange(at + 8, at + 8 + n)[i] == x[i] by {
            assert(b[at + 8 + i] == b.subrange(at, at + f.len())[8 + i]);
        }
    }
}

proof fn lemma_read_text(b: Seq<u8>, at: int, s: Seq<char>)
    requires
        0 <= at,
        encode_utf8(s).len() <= u64::MAX,
        at + field(encode_utf8(s)).len() <= b.len(),
        b.subrange(at, at + field(encode_utf8(s)).len()) == field(encode_utf8(s)),
    ensures
        read_text(b, at) == Ok::<(Seq<char>, int), DecodeError>((s, at + field(encode_utf8(s)).len())),
{
    lemma_read_field(b, at, encode_utf8(s));
    encode_utf8_valid_utf8(s);
    encode_utf8_decode_utf8(s);
}

/// `b` holds the bytes `x` from position `at` on.
pub open spec fn holds_at(b: Seq<u8>, at: int, x: Seq<u8>) -> bool {
    0 <= at && at + x.len() <= b.len() && b.subrange(at, at + x.len()) == x
}

proof fn lemma_holds_split(b: Seq<u8>, at: int, x: Seq<u8>, y: Seq<u8>)
    requires
        holds_at(b, at, x + y),
    ensures
        holds_at(b, at, x),
        holds_at(b, at + x.len(), y),
{
    let xy = x + y;
    assert(b.subrange(at, at + x.len()) =~= x) by {
        assert forall|i: int| 0 <= i < x.len() implies b.subrange(at, at + x.len())[i] == x[i] by {
            assert(b[at + i] == b.subrange(at, at + xy.len())[i]);
            assert(xy[i] == x[i]);
        }
    }
    assert(b.subrange(at + x.len(), at + x.len() + y.len()) =~= y) by {
        assert forall|i: int| 0 <= i < y.len() implies b.subrange(at + x.len(), at + x.len() + y.len())[i] == y[i] by {
            assert(b[at + x.len() + i] == b.subrange(at, at + xy.len())[x.len() + i]);
            assert(xy[x.len() + i] == y[i]);
        }
    }
}

/// Wherever a frame stands in a byte sequence, reading from its first byte
/// gives back its message and stops exactly at its last byte.
pub proof fn lemma_parse_frame(b: Seq<u8>, at: int, m: EpistleView)
    requires
        fits(m),
        holds_at(b, at, frame(m)),
    ensures
        parse_at(b, at) == Ok::<(EpistleView, int), DecodeError>((m, at + frame(m).len())),
{
    match m {
        EpistleView::Handshake => {
            assert(b[at] == b.subrange(at, at + 1)[0]);
        },
        EpistleView::Message { author, body } => {
            let t = seq![TAG_MESSAGE];
            let fa = field(encode_utf8(author));
            let fb = field(encode_utf8(body));
            lemma_holds_split(b, at, t + fa, fb);
            lemma_holds_split(b, at, t, fa);
            assert(b[at] == b.subrange(at, at + 1)[0]);
            lemma_read_text(b, at + 1, author);
            lemma_read_text(b, at + 1 + fa.len(), body);
        },
        EpistleView::Document { filename, filesize, data } => {
            let t = seq![TAG_DOCUMENT];
            let ff = field(encode_utf8(filename));
            let fs = be_bytes(filesize);
            let fd = field(data);
            lemma_holds_split(b, at, t + ff + fs, fd);
            lemma_holds_split(b, at, t + ff, fs);
            lemma_holds_split(b, at, t, ff);
            assert(b[at] == b.subrange(at, at + 1)[0]);
            lemma_read_text(b, at + 1, filename);
            lemma_be_round_trip(filesize);
            lemma_read_u64(b, at + 1 + ff.len(), filesize);
            lemma_read_field(b, at + 1 + ff.len() + 8, data);
        },
    }
}

/// Decoding a message's own frame gives back that message, and uses up
/// the whole frame.
pub proof fn lemma_round_trip(m: EpistleView)
    requires
        fits(m),
    ensures
        parse_at(frame(m), 0) == Ok::<(EpistleView, int), DecodeError>((m, frame(m).len() as int)),
{
    assert(frame(m).subrange(0, frame(m).len() as int) =~= frame(m));
    lemma_parse_frame(frame(m), 0, m);
}

/// Two frames written one after the other are read back one after the
/// other: the first read stops where the second frame begins.
pub proof fn lemma_two_frames(m1: EpistleView, m2: EpistleView)
    requires
        fits(m1),
        fits(m2),
    ensures
        parse_at(frame(m1) + frame(m2), 0) == Ok::<(EpistleView, int), DecodeError>(
            (m1, frame(m1).len() as int),
        ),
        parse_at(frame(m1) + frame(m2), frame(m1).len() as int) == Ok::<
            (EpistleView, int),
            DecodeError,
        >((m2, (frame(m1).len() + frame(m2).len()) as int)),
{
    let b = frame(m1) + frame(m2);
    assert(b.subrange(0, b.len() as int) =~= b);
    lemma_holds_split(b, 0, frame(m1), frame(m2));
    lemma_parse_frame(b, 0, m1);
    lemma_parse_frame(b, frame(m1).len() as int, m2);
}

/// Relies on `String::from_utf8`: it accepts exactly the byte sequences that
/// are valid UTF-8, and the string it then returns holds the characters that
/// those bytes encode.
#[verifier::external_body]
pub(crate) fn string_from_utf8(bytes: Vec<u8>) -> (r: Option<String>)
    ensures
        r is Some <==> valid_utf8(bytes@),
        r is Some ==> r->Some_0@ == decode_utf8(bytes@),
{
    String::from_utf8(bytes).ok()
}

fn push_u64(out: &mut Vec<u8>, n: u64)
    ensures
        final(out)@ == old(out)@ + be_bytes(n),
{
    out.push((n >> 56u64) as u8);
    out.push((n >> 48u64) as u8);
    out.push((n >> 40u64) as u8);
    out.push((n >> 32u64) as u8);
    out.push((n >> 24u64) as u8);
    out.push((n >> 16u64) as u8);
    out.push((n >> 8u64) as u8);
    out.push(n as u8);
    assert(out@ =~= old(out)@ + be_bytes(n));
}

fn push_field(out: &mut Vec<u8>, b: &[u8])
    ensures
        final(out)@ == old(out)@ + field(b@),
        b@.len() <= u64::MAX,
{
    push_u64(out, b.len() as u64);
    let ghost start = out@;
    let mut i: usize = 0;
    while i < b.len()
        invariant
            i <= b@.len(),
            out@ == start + b@.subrange(0, i as int),
        decreases b@.len() - i,
    {
        out.push(b[i]);
        i = i + 1;
        assert(out@ =~= start + b@.subrange(0, i as int));
    }
    assert(b@.subrange(0, b@.len() as int) =~= b@);
    assert(out@ =~= old(out)@ + field(b@));
}

/// The frame of `m`, ready to be written on a stream.
pub fn encode(m: &Epistle) -> (r: Vec<u8>)
    ensures
        r@ == frame(m@),
        fits(m@),
{
    let mut out: Vec<u8> = Vec::new();
    match m {
        Epistle::Handshake => {
            out.push(TAG_HANDSHAKE);
            assert(out@ =~= frame(m@));
        },
        Epistle::Message(t) => {
            out.push(TAG_MESSAGE);
            let author = t.author.as_str().as_bytes();
            let body = t.body.as_str().as_bytes();
            push_field(&mut out, author);
            push_field(&mut out, body);
            assert(out@ =~= frame(m@));
        },
        Epistle::Document(d) => {
            out.push(TAG_DOCUMENT);
            let filename = d.filename.as_str().as_bytes();
            push_field(&mut out, filename);
            push_u64(&mut out, d.filesize);
            push_field(&mut out, d.data.as_slice());
            assert(out@ =~= frame(m@));
        },
    }
    out
}

fn read_u64_at(buf: &[u8], at: usize) -> (r: Option<u64>)
    ensures
        r == read_u64(buf@, at as int),
{
    if at <= buf.len() && 8 <= buf.len() - at {
        let v = (buf[at] as u64) << 56u64 | (buf[at + 1] as u64) << 48u64 | (buf[at + 2] as u64)
            << 40u64 | (buf[at + 3] as u64) << 32u64 | (buf[at + 4] as u64) << 24u64 | (buf[at
            + 5] as u64) << 16u64 | (buf[at + 6] as u64) << 8u64 | (buf[at + 7] as u64);
        Some(v)
    } else {
        None
    }
}

/// Where the bytes of the field at `at` begin and end.
fn read_field_at(buf: &[u8], at: usize) -> (r: Option<(usize, usize)>)
    ensures
        match r {
            Some((lo, hi)) => lo <= hi <= buf@.len() && read_field(buf@, at as int) == Some(
                (buf@.subrange(lo as int, hi as int), hi as int),
            ),
            None => read_field(buf@, at as int) is None,
        },
{
    let len = buf.len();
    match read_u64_at(buf, at) {
        None => None,
        Some(n) => {
            let lo = at + 8;
            if n <= (len - lo) as u64 {
                let hi = lo + n as usize;
                Some((lo, hi))
            } else {
                None
            }
        },
    }
}

fn read_text_at(buf: &[u8], at: usize) -> (r: Result<(String, usize), DecodeError>)
    ensures
        match r {
            Ok((s, end)) => end <= buf@.len() && read_text(buf@, at as int) == Ok::<
                (Seq<char>, int),
                DecodeError,
            >((s@, end as int)),
            Err(e) => read_text(buf@, at as int) == Err::<(Seq<char>, int), DecodeError>(e),
        },
{
    match read_field_at(buf, at) {
        None => Err(DecodeError::Truncated),
        Some((lo, hi)) => {
            let bytes = slice_to_vec(slice_subrange(buf, lo, hi));
            match string_from_utf8(bytes) {
                Some(s) => Ok((s, hi)),
                None => Err(DecodeError::InvalidText),
            }
        },
    }
}

/// Reads the frame that starts at `pos` in `buf`: the message and the
/// position just past its frame, or why there is none.
pub fn decode(buf: &[u8], pos: usize) -> (r: Result<(Epistle, usize), DecodeError>)
    ensures
        match r {
            Ok((m, end)) => pos < end <= buf@.len() && parse_at(buf@, pos as int) == Ok::<
                (EpistleView, int),
                DecodeError,
            >((m@, end as int)),
            Err(e) => parse_at(buf@, pos as int) == Err::<(EpistleView, int), DecodeError>(e),
        },
{
    if pos >= buf.len() {
        return Err(DecodeError::EndOfStream);
    }
    let tag = buf[pos];
    if tag == TAG_HANDSHAKE {
        Ok((Epistle::Handshake, pos + 1))
    } else if tag == TAG_MESSAGE {
        let (author, mid) = match read_text_at(buf, pos + 1) {
            Ok(x) => x,
            Err(e) => return Err(e),
        };
        let (body, end) = match read_text_at(buf, mid) {
            Ok(x) => x,
            Err(e) => return Err(e),
        };
        Ok((Epistle::Message(Message { author, body }), end))
    } else if tag == TAG_DOCUMENT {
        let (filename, mid) = match read_text_at(buf, pos + 1) {
            Ok(x) => x,
            Err(e) => return Err(e),
        };
        let filesize = match read_u64_at(buf, mid) {
            Some(n) => n,
            None => return Err(DecodeError::Truncated),
        };
        let (lo, hi) = match read_field_at(buf, mid + 8) {
            Some(x) => x,
            None => return Err(DecodeError::Truncated),
        };
        let data = slice_to_vec(slice_subrange(buf, lo, hi));
        Ok((Epistle::Document(Document { filename, filesize, data }), hi))
    } else {
        Err(DecodeError::UnknownTag(tag))
    }
}

} // verus!
