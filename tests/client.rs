use epistle::client::{parse_input, process_epistle, ChatMessage, Command, Delivery};
use epistle::codec::{decode, encode};
use epistle::message::{Document, Epistle};

#[test]
fn received_file_keeps_its_bytes_whatever_its_size() {
    let sent = Epistle::Document(Document {
        filename: "a.txt".to_string(),
        filesize: 3,
        data: vec![104, 105, 33],
    });
    let (got, _) = decode(&encode(&sent), 0).unwrap();
    assert_eq!(
        process_epistle(got),
        Delivery::Save {
            filename: "a.txt".to_string(),
            data: vec![104, 105, 33],
        }
    );
    let lying = Epistle::Document(Document {
        filename: "a.txt".to_string(),
        filesize: 1000,
        data: vec![104, 105, 33],
    });
    let (got, _) = decode(&encode(&lying), 0).unwrap();
    assert_eq!(
        process_epistle(got),
        Delivery::Save {
            filename: "a.txt".to_string(),
            data: vec![104, 105, 33],
        }
    );
}

#[test]
fn received_text_becomes_a_chat_line() {
    let got = process_epistle(Epistle::text("alice".to_string(), "hi".to_string()));
    assert_eq!(
        got,
        Delivery::Chat(ChatMessage {
            username: "alice".to_string(),
            message: "hi".to_string(),
        })
    );
    assert_eq!(process_epistle(Epistle::Handshake), Delivery::Handshake);
}

#[test]
fn file_command_names_a_path() {
    assert_eq!(
        parse_input("@file notes/a.txt"),
        Command::SendFile("notes/a.txt".to_string())
    );
    assert_eq!(parse_input("@file "), Command::SendFile(String::new()));
    assert_eq!(parse_input("@file ünï"), Command::SendFile("ünï".to_string()));
}

#[test]
fn other_lines_are_said() {
    assert_eq!(parse_input("hello"), Command::Say("hello".to_string()));
    assert_eq!(parse_input("@filex"), Command::Say("@filex".to_string()));
    assert_eq!(parse_input("@file"), Command::Say("@file".to_string()));
    assert_eq!(parse_input(""), Command::Say(String::new()));
}
