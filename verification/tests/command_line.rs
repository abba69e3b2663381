use kademlia::cli::{
    command, file_trouble, help, no_response, parse_command, parse_key, pong, received,
    received_into, short_id, show_datastore, show_routing_table, show_value, stored, Command,
    KeyError, Shown,
};
use kademlia::text::number;

fn words(line: &[&str]) -> Vec<String> {
    line.iter().map(|word| word.to_string()).collect()
}

#[test]
fn lines_are_read_as_commands() {
    assert!(matches!(parse_command(""), Command::Nothing));
    assert!(matches!(parse_command(" \t "), Command::Nothing));
    assert!(matches!(
        parse_command("  ping   127.0.0.1:8000 "),
        Command::Ping { address } if address == "127.0.0.1:8000"
    ));
    assert!(matches!(
        parse_command("put notes.txt"),
        Command::Put { filename } if filename == "notes.txt"
    ));
    assert!(matches!(
        parse_command("get abcd"),
        Command::Get { key } if key == "abcd"
    ));
    assert!(matches!(
        parse_command("get abcd out.bin"),
        Command::GetInto { key, filename } if key == "abcd" && filename == "out.bin"
    ));
    assert!(matches!(parse_command("show rt"), Command::ShowRoutingTable));
    assert!(matches!(parse_command("show ds"), Command::ShowDatastore));
    assert!(matches!(parse_command("help"), Command::Help));
    assert!(matches!(parse_command("exit"), Command::Exit));
}

#[test]
fn words_are_split_at_white_space() {
    let listed = |code: u32| {
        matches!(
            code,
            0x9..=0xd
                | 0x20
                | 0x85
                | 0xa0
                | 0x1680
                | 0x2000..=0x200a
                | 0x2028
                | 0x2029
                | 0x202f
                | 0x205f
                | 0x3000
        )
    };
    for code in 0..=0x10_ffffu32 {
        if let Some(character) = char::from_u32(code) {
            let line = format!("show{}rt", character);
            let splits = matches!(parse_command(&line), Command::ShowRoutingTable);
            assert_eq!(splits, listed(code), "{:x}", code);
        }
    }
}

#[test]
fn everything_else_is_unknown() {
    for line in [
        &["ping"][..],
        &["ping", "a", "b"],
        &["put"],
        &["get"],
        &["get", "a", "b", "c"],
        &["show"],
        &["show", "everything"],
        &["help", "me"],
        &["exit", "now"],
        &["Ping", "a"],
    ] {
        assert!(matches!(command(&words(line)), Command::Unknown));
    }
}

#[test]
fn keys_are_read_in_hexadecimal() {
    let text = "00ff".repeat(16);
    let mut expected = [0u8; 32];
    for i in 0..16 {
        expected[2 * i + 1] = 0xff;
    }
    assert_eq!(parse_key(&text), Ok(expected));
    assert_eq!(parse_key(&text.to_uppercase()), Ok(expected));
    assert_eq!(parse_key(&text[..62]), Err(KeyError::WrongLength));
    assert_eq!(parse_key(""), Err(KeyError::WrongLength));
    assert_eq!(parse_key(&text[..63]), Err(KeyError::NotHexadecimal));
    assert_eq!(parse_key(&"zz".repeat(32)), Err(KeyError::NotHexadecimal));
    assert_eq!(parse_key("\u{e9}"), Err(KeyError::NotHexadecimal));
    assert_eq!(
        KeyError::NotHexadecimal.message(),
        "key must be hexadecimal"
    );
    assert_eq!(
        KeyError::WrongLength.message(),
        "key must contain exactly 64 hexadecimal characters"
    );
}

#[test]
fn what_is_printed_as_a_key_is_read_as_one() {
    let mut key = [0u8; 32];
    for (i, byte) in key.iter_mut().enumerate() {
        *byte = (i * 8) as u8;
    }
    let line = stored(12, &key);
    assert!(line.starts_with("stored 12 bytes as 0008101820"));
    assert_eq!(parse_key(line.split(' ').last().unwrap()), Ok(key));
}

#[test]
fn ids_are_shortened() {
    assert_eq!(short_id(&[0xab, 0xcd]), "abcd");
    assert_eq!(short_id(&[1, 2, 3, 4]), "01020304");
    assert_eq!(short_id(&[1, 2, 3, 4, 5]), "0102…0405");
    assert_eq!(short_id(&[0xef; 32]), "efef…efef");
}

#[test]
fn numbers_are_written_in_decimal() {
    for value in [0, 7, 10, 99, 100, 1234567890, usize::MAX] {
        assert_eq!(number(value), value.to_string());
    }
}

fn shown(byte: u8, address: &str) -> Shown {
    Shown {
        id: [byte; 32],
        address: address.to_string(),
    }
}

#[test]
fn an_empty_routing_table() {
    assert_eq!(
        show_routing_table(&Vec::new(), &Vec::new()),
        vec!["siblings:", "  <empty>", "buckets:", "  <empty>"]
    );
}

#[test]
fn a_routing_table_with_nodes() {
    let siblings = vec![shown(1, "a:1"), shown(2, "b:2")];
    let buckets = vec![
        (0, vec![shown(1, "a:1")]),
        (31, vec![shown(2, "b:2"), shown(3, "c:3")]),
    ];
    assert_eq!(
        show_routing_table(&siblings, &buckets),
        vec![
            "siblings:",
            "  0101…0101  a:1",
            "  0202…0202  b:2",
            "buckets:",
            "  bucket 0:",
            "    0101…0101  a:1",
            "  bucket 31:",
            "    0202…0202  b:2",
            "    0303…0303  c:3",
        ]
    );
}

#[test]
fn what_is_stored_is_listed() {
    assert_eq!(show_datastore(&Vec::new()), vec!["<empty>"]);
    assert_eq!(
        show_datastore(&vec![([4u8; 32], 5), ([6u8; 32], 70)]),
        vec!["0404…0404  5 bytes", "0606…0606  70 bytes"]
    );
}

#[test]
fn outcomes_are_put_into_words() {
    let id = [7u8; 32];
    assert_eq!(
        pong("127.0.0.1:1", &id, "1.23ms"),
        "pong from 127.0.0.1:1 (0707…0707) in 1.23ms"
    );
    assert_eq!(no_response("127.0.0.1:1"), "no response from 127.0.0.1:1");
    assert_eq!(
        received(3, "127.0.0.1:1", &id),
        "received 3 bytes from 127.0.0.1:1 (0707…0707)"
    );
    assert_eq!(
        received_into(3, "127.0.0.1:1", &id, "out"),
        "received 3 bytes from 127.0.0.1:1 (0707…0707) and wrote out"
    );
    assert_eq!(
        file_trouble("read", "notes", "not there"),
        "could not read notes: not there"
    );
    assert_eq!(help().len(), 8);
    assert_eq!(help()[3], "  get KEY [FILENAME]");
}

#[test]
fn values_are_shown_as_text_if_they_are() {
    assert_eq!(show_value("gr\u{fc}n".as_bytes()), "gr\u{fc}n");
    assert_eq!(show_value(b""), "");
    assert_eq!(show_value(&[0xff, 0x00]), "binary value (hex): ff00");
}
