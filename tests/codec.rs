use epistle::codec::{decode, encode, DecodeError};
use epistle::message::{Document, Epistle, Message};
use epistle::stream::{FrameReader, Poll};

fn round_trip(val: &Epistle) -> Epistle {
    let buf = encode(val);
    let (deval, end) = decode(&buf, 0).unwrap();
    assert_eq!(end, buf.len());
    deval
}

#[test]
fn test_handshake() {
    let val = Epistle::Handshake;
    let buf = encode(&val);
    let (deval, _) = decode(&buf, 0).unwrap();

    assert_eq!(val, deval);
}

#[test]
fn test_message() {
    let val = Epistle::text(String::new(), "Little tornado".into());
    let buf = encode(&val);
    let (deval, _) = decode(&buf, 0).unwrap();

    assert_eq!(val, deval);
}

#[test]
fn handshake_is_one_byte() {
    assert_eq!(encode(&Epistle::Handshake), vec![0u8]);
}

#[test]
fn text_frame_has_exact_bytes() {
    let val = Epistle::text("a".to_string(), "bc".to_string());
    let expected: Vec<u8> = vec![1, 0, 0, 0, 0, 0, 0, 0, 1, 97, 0, 0, 0, 0, 0, 0, 0, 2, 98, 99];
    assert_eq!(encode(&val), expected);
}

#[test]
fn document_frame_has_exact_bytes() {
    let val = Epistle::Document(Document {
        filename: "f".to_string(),
        filesize: 258,
        data: vec![7],
    });
    let expected: Vec<u8> = vec![
        2, 0, 0, 0, 0, 0, 0, 0, 1, 102, 0, 0, 0, 0, 0, 0, 1, 2, 0, 0, 0, 0, 0, 0, 0, 1, 7,
    ];
    assert_eq!(encode(&val), expected);
}

#[test]
fn round_trip_empty_fields() {
    let text = Epistle::text(String::new(), String::new());
    assert_eq!(round_trip(&text), text);
    let doc = Epistle::file(String::new(), Vec::new());
    assert_eq!(round_trip(&doc), doc);
}

#[test]
fn round_trip_non_ascii_text() {
    let val = Epistle::text("zoë".to_string(), "🌪 ça tourne — 旋風".to_string());
    assert_eq!(round_trip(&val), val);
}

#[test]
fn round_trip_large_document() {
    let data: Vec<u8> = (0..(1usize << 20)).map(|i| (i % 251) as u8).collect();
    let val = Epistle::file("big.bin".to_string(), data);
    assert_eq!(round_trip(&val), val);
}

#[test]
fn file_constructor_announces_length() {
    match Epistle::file("x".to_string(), vec![1, 2, 3]) {
        Epistle::Document(d) => assert_eq!(d.filesize, 3),
        other => panic!("unexpected {:?}", other),
    }
}

#[test]
fn size_field_is_not_checked() {
    let val = Epistle::Document(Document {
        filename: "a.txt".to_string(),
        filesize: 99,
        data: vec![104, 105, 33],
    });
    assert_eq!(round_trip(&val), val);
}

#[test]
fn two_frames_read_in_sequence() {
    let m1 = Epistle::text("alice".to_string(), "hi".to_string());
    let m2 = Epistle::file("a.txt".to_string(), vec![1, 2]);
    let mut buf = encode(&m1);
    let first_len = buf.len();
    buf.extend(encode(&m2));
    let (d1, end1) = decode(&buf, 0).unwrap();
    assert_eq!(d1, m1);
    assert_eq!(end1, first_len);
    let (d2, end2) = decode(&buf, end1).unwrap();
    assert_eq!(d2, m2);
    assert_eq!(end2, buf.len());
    assert_eq!(decode(&buf, end2), Err(DecodeError::EndOfStream));
}

#[test]
fn empty_input_is_end_of_stream() {
    assert_eq!(decode(&[], 0), Err(DecodeError::EndOfStream));
}

#[test]
fn unknown_tag_is_rejected() {
    assert_eq!(decode(&[9, 0, 0], 0), Err(DecodeError::UnknownTag(9)));
}

#[test]
fn cut_frames_are_truncated() {
    let buf = encode(&Epistle::Message(Message {
        author: "bob".to_string(),
        body: "hello".to_string(),
    }));
    for cut in 1..buf.len() {
        assert_eq!(decode(&buf[..cut], 0), Err(DecodeError::Truncated));
    }
    let doc = encode(&Epistle::file("n".to_string(), vec![5, 6]));
    for cut in 1..doc.len() {
        assert_eq!(decode(&doc[..cut], 0), Err(DecodeError::Truncated));
    }
}

#[test]
fn huge_length_is_truncated() {
    let buf: Vec<u8> = vec![1, 255, 255, 255, 255, 255, 255, 255, 255, 0];
    assert_eq!(decode(&buf, 0), Err(DecodeError::Truncated));
}

#[test]
fn invalid_utf8_is_rejected() {
    let buf: Vec<u8> = vec![1, 0, 0, 0, 0, 0, 0, 0, 1, 0xff, 0, 0, 0, 0, 0, 0, 0, 0];
    assert_eq!(decode(&buf, 0), Err(DecodeError::InvalidText));
}

#[test]
fn reader_waits_for_whole_frame() {
    let val = Epistle::text("alice".to_string(), "hi".to_string());
    let buf = encode(&val);
    let mut reader = FrameReader::new();
    assert_eq!(reader.next_frame(), Poll::NeedMore);
    reader.feed(&buf[..4]);
    assert_eq!(reader.next_frame(), Poll::NeedMore);
    assert_eq!(reader.close(), DecodeError::Truncated);
    reader.feed(&buf[4..]);
    assert_eq!(reader.next_frame(), Poll::Frame(val));
    assert_eq!(reader.next_frame(), Poll::NeedMore);
    assert_eq!(reader.close(), DecodeError::EndOfStream);
}

#[test]
fn reader_splits_a_burst_into_messages() {
    let m1 = Epistle::Handshake;
    let m2 = Epistle::text("b".to_string(), "second".to_string());
    let mut bytes = encode(&m1);
    bytes.extend(encode(&m2));
    let mut reader = FrameReader::new();
    reader.feed(&bytes);
    assert_eq!(reader.next_frame(), Poll::Frame(m1));
    assert_eq!(reader.next_frame(), Poll::Frame(m2));
    assert_eq!(reader.next_frame(), Poll::NeedMore);
}

#[test]
fn reader_reports_bad_frames() {
    let mut reader = FrameReader::new();
    reader.feed(&[7]);
    assert_eq!(reader.next_frame(), Poll::Fatal(DecodeError::UnknownTag(7)));
}
