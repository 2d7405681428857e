//! The framing of the log and the layout of its payloads.
use memmap_fs::bytes::{u64_from_le, u64_to_le};
use memmap_fs::codec::{decode_command, encode_command};
use memmap_fs::error::MemMapError;
use memmap_fs::session::Session;
use memmap_fs::storage::{LogManager, WalCommand};

fn memory(id: u64) -> WalCommand {
    WalCommand::AppendMemory {
        id,
        chunk_id: 2,
        offset: 0x0102,
        length: 5,
        tags: vec!["ab".into(), "\u{e9}".into()],
    }
}

fn every_command() -> Vec<WalCommand> {
    vec![
        memory(7),
        WalCommand::SetKv { key: "k".into(), value: vec![1, 2, 3] },
        WalCommand::DeleteKv { key: "".into() },
        WalCommand::AppendStream { key: "s/1".into(), chunk_id: 3, offset: 9, length: 10 },
        WalCommand::PutSession {
            session: Session {
                id: "id".into(),
                intent_id: "in".into(),
                created_at: 77,
                payload: vec![255],
            },
        },
    ]
}

fn log(commands: &[WalCommand]) -> Vec<u8> {
    let mut log = Vec::new();
    for c in commands {
        log.extend_from_slice(&LogManager::append(c).expect("append"));
    }
    log
}

fn shown(commands: &[WalCommand]) -> String {
    format!("{commands:?}")
}

#[test]
fn lengths_are_little_endian() {
    assert_eq!(u64_to_le(0x0102_0304_0506_0708), vec![8, 7, 6, 5, 4, 3, 2, 1]);
    assert_eq!(u64_to_le(u64::MAX), vec![255; 8]);
    assert_eq!(u64_from_le(&[9, 8, 7, 6, 5, 4, 3, 2, 1, 0], 1), 0x0102_0304_0506_0708);
}

#[test]
fn memory_payload_has_this_layout() {
    let payload = encode_command(&memory(7)).expect("encode");
    let mut expected = vec![0, 0, 0, 0];
    expected.extend_from_slice(&[7, 0, 0, 0, 0, 0, 0, 0]);
    expected.extend_from_slice(&[2, 0, 0, 0]);
    expected.extend_from_slice(&[2, 1, 0, 0, 0, 0, 0, 0]);
    expected.extend_from_slice(&[5, 0, 0, 0, 0, 0, 0, 0]);
    expected.extend_from_slice(&[2, 0, 0, 0, 0, 0, 0, 0]);
    expected.extend_from_slice(&[2, 0, 0, 0, 0, 0, 0, 0, b'a', b'b']);
    expected.extend_from_slice(&[2, 0, 0, 0, 0, 0, 0, 0, 0xc3, 0xa9]);
    assert_eq!(payload, expected);
}

#[test]
fn set_payload_has_this_layout() {
    let set = WalCommand::SetKv { key: "key".into(), value: vec![9, 8] };
    let expected = vec![
        1, 0, 0, 0, 3, 0, 0, 0, 0, 0, 0, 0, b'k', b'e', b'y', 2, 0, 0, 0, 0, 0, 0, 0, 9, 8,
    ];
    assert_eq!(encode_command(&set).expect("encode"), expected);
}

#[test]
fn delete_payload_has_this_layout() {
    let delete = WalCommand::DeleteKv { key: "x".into() };
    let expected = vec![2, 0, 0, 0, 1, 0, 0, 0, 0, 0, 0, 0, b'x'];
    assert_eq!(encode_command(&delete).expect("encode"), expected);
}

#[test]
fn stream_payload_has_this_layout() {
    let append =
        WalCommand::AppendStream { key: "s".into(), chunk_id: 256, offset: 1, length: 65536 };
    let mut expected = vec![3, 0, 0, 0, 1, 0, 0, 0, 0, 0, 0, 0, b's', 0, 1, 0, 0];
    expected.extend_from_slice(&[1, 0, 0, 0, 0, 0, 0, 0]);
    expected.extend_from_slice(&[0, 0, 1, 0, 0, 0, 0, 0]);
    assert_eq!(encode_command(&append).expect("encode"), expected);
}

#[test]
fn session_payload_has_this_layout() {
    let put = WalCommand::PutSession {
        session: Session {
            id: "i".into(),
            intent_id: "jk".into(),
            created_at: 3,
            payload: vec![4, 5],
        },
    };
    let mut expected = vec![4, 0, 0, 0, 1, 0, 0, 0, 0, 0, 0, 0, b'i'];
    expected.extend_from_slice(&[2, 0, 0, 0, 0, 0, 0, 0, b'j', b'k']);
    expected.extend_from_slice(&[3, 0, 0, 0, 0, 0, 0, 0]);
    expected.extend_from_slice(&[2, 0, 0, 0, 0, 0, 0, 0, 4, 5]);
    assert_eq!(encode_command(&put).expect("encode"), expected);
}

#[test]
fn payloads_decode_to_their_commands() {
    for command in every_command() {
        let mut payload = encode_command(&command).expect("encode");
        let whole = decode_command(&payload).expect("decode");
        assert_eq!(format!("{whole:?}"), format!("{command:?}"));

        // Bytes behind the payload are ignored.
        payload.push(1);
        let longer = decode_command(&payload).expect("decode");
        assert_eq!(format!("{longer:?}"), format!("{command:?}"));
        payload.pop();

        // A payload that is cut short holds no command.
        while payload.pop().is_some() {
            assert!(decode_command(&payload).is_err());
        }
    }
}

#[test]
fn copies_say_the_same() {
    for command in every_command() {
        assert_eq!(format!("{:?}", command.clone()), format!("{command:?}"));
    }
}

#[test]
fn malformed_payloads_are_refused_with_a_reason() {
    // A key that is not UTF-8.
    let reason = decode_command(&[2, 0, 0, 0, 1, 0, 0, 0, 0, 0, 0, 0, 0xff]).expect_err("reason");
    assert!(reason.contains("utf8") || reason.contains("utf-8"), "got: {reason}");
    // An unknown variant index.
    let reason = decode_command(&[5, 0, 0, 0]).expect_err("reason");
    assert_eq!(reason, "invalid value: integer `5`, expected variant index 0 <= i < 5");
    let reason = decode_command(&[255, 255, 255, 255, 0]).expect_err("reason");
    assert_eq!(reason, "invalid value: integer `4294967295`, expected variant index 0 <= i < 5");
    // Too short for a variant index.
    assert!(decode_command(&[0, 0, 0]).is_err());
    assert!(decode_command(&[]).is_err());
}

#[test]
fn an_entry_is_a_length_and_a_payload() {
    for command in every_command() {
        let entry = LogManager::append(&command).expect("append");
        let payload = encode_command(&command).expect("encode");
        assert_eq!(entry[..8], (payload.len() as u64).to_le_bytes());
        assert_eq!(entry[8..], payload);
    }
}

#[test]
fn replay_gives_back_what_was_recorded() {
    assert!(LogManager::replay(&[]).expect("replay").is_empty());
    let commands = every_command();
    let replayed = LogManager::replay(&log(&commands)).expect("replay");
    assert_eq!(shown(&replayed), shown(&commands));
}

#[test]
fn entries_that_are_cut_short_are_ignored() {
    let commands = every_command();
    let whole = log(&commands);
    let last = LogManager::append(&commands[4]).expect("append").len();
    for cut in 1..=last {
        let replayed = LogManager::replay(&whole[..whole.len() - cut]).expect("replay");
        assert_eq!(shown(&replayed), shown(&commands[..4]));
    }
}

#[test]
fn complete_entries_end_where_the_torn_one_starts() {
    assert_eq!(LogManager::complete_length(&[]), 0);
    assert_eq!(LogManager::complete_length(&[1, 2, 3]), 0);
    let commands = every_command();
    let whole = log(&commands);
    assert_eq!(LogManager::complete_length(&whole), whole.len());
    let kept = log(&commands[..4]).len();
    for end in kept..whole.len() {
        assert_eq!(LogManager::complete_length(&whole[..end]), kept);
    }
}

#[test]
fn a_cut_log_can_be_extended() {
    let commands = every_command();
    let mut bytes = log(&commands[..3]);
    bytes.extend_from_slice(&log(&commands[3..4])[..11]);
    bytes.truncate(LogManager::complete_length(&bytes));
    bytes.extend_from_slice(&log(&commands[4..]));
    let replayed = LogManager::replay(&bytes).expect("replay");
    assert_eq!(replayed.len(), 4);
    assert_eq!(shown(&replayed[..3]), shown(&commands[..3]));
    assert_eq!(shown(&replayed[3..]), shown(&commands[4..]));
}

#[test]
fn lengths_beyond_the_end_are_taken_for_a_cut() {
    let commands = every_command();
    let mut bytes = log(&commands);
    bytes.extend_from_slice(&[255; 8]);
    bytes.extend_from_slice(&[1, 2, 3]);
    let replayed = LogManager::replay(&bytes).expect("replay");
    assert_eq!(shown(&replayed), shown(&commands));
}

#[test]
fn corruption_is_reported_with_its_offset() {
    let commands = every_command();
    let mut bytes = log(&commands[..2]);
    let offset = bytes.len() as u64;
    bytes.extend_from_slice(&[2, 0, 0, 0, 0, 0, 0, 0, 0, 0]);
    bytes.extend_from_slice(&log(&commands[2..]));
    match LogManager::replay(&bytes) {
        Err(MemMapError::CorruptWal { offset: o, .. }) => assert_eq!(o, offset),
        other => panic!("expected corruption, got {other:?}"),
    }
}

#[test]
fn an_empty_payload_holds_no_command() {
    assert!(matches!(
        LogManager::replay(&[0; 8]),
        Err(MemMapError::CorruptWal { offset: 0, .. })
    ));
}

#[test]
fn the_layout_is_that_of_bincode() {
    let tags: Vec<String> = vec!["ab".into(), "\u{e9}".into()];
    let expected = bincode::serialize(&(0u32, 7u64, 2u32, 0x0102u64, 5u64, tags)).expect("bincode");
    assert_eq!(encode_command(&memory(7)).expect("encode"), expected);
}
