use layout_oracle::message::{
    decode, encode, push_decimal_bytes, Decoded, Message, MessageType, ServerBuffer,
};

fn complete(d: Decoded) -> (MessageType, i32, Vec<u8>, usize) {
    match d {
        Decoded::Complete { message, bytes_read } => {
            (message.message_type, message.length, message.data, bytes_read)
        }
        other => panic!("unexpected {:?}", other),
    }
}

#[test]
fn message_types_on_the_wire() {
    assert_eq!(MessageType::new(0), MessageType::LayoutData);
    assert_eq!(MessageType::new(1), MessageType::Unknown);
    assert_eq!(MessageType::new(-1), MessageType::Unknown);
    assert_eq!(MessageType::LayoutData.as_i32(), 0);
    assert_eq!(MessageType::RequestLayoutData.as_i32(), 1);
    assert_eq!(MessageType::Unknown.as_i32(), -1);
}

#[test]
fn a_message_is_two_header_lines_and_the_data() {
    assert_eq!(encode(&MessageType::RequestLayoutData, b"{\"a\":1}"), b"1\n7\n{\"a\":1}".to_vec());
    assert_eq!(encode(&MessageType::Unknown, b""), b"-1\n0\n".to_vec());
    assert_eq!(encode(&MessageType::LayoutData, b"0123456789ab"), b"0\n12\n0123456789ab".to_vec());
}

#[test]
fn numbers_as_bytes() {
    let mut out = vec![b'x'];
    push_decimal_bytes(&mut out, 0);
    push_decimal_bytes(&mut out, -45);
    push_decimal_bytes(&mut out, 1090);
    push_decimal_bytes(&mut out, i64::MIN);
    assert_eq!(out, b"x0-451090-9223372036854775808".to_vec());
}

#[test]
fn decoding_a_whole_message() {
    assert_eq!(
        complete(decode(b"0\n5\nhelloworld")),
        (MessageType::LayoutData, 5, b"hello".to_vec(), 9)
    );
    assert_eq!(complete(decode(b"3\n0\n")), (MessageType::Unknown, 0, vec![], 4));
    assert_eq!(
        complete(decode(b"+0\n003\nabc")),
        (MessageType::LayoutData, 3, b"abc".to_vec(), 10)
    );
    assert_eq!(complete(decode(b"-0\n1\n\n\n")), (MessageType::LayoutData, 1, b"\n".to_vec(), 6));
}

#[test]
fn decoding_what_was_encoded() {
    let bytes = encode(&MessageType::LayoutData, b"some data\nwith two lines");
    assert_eq!(
        complete(decode(&bytes)),
        (MessageType::LayoutData, 24, b"some data\nwith two lines".to_vec(), bytes.len())
    );
    let bytes = encode(&MessageType::RequestLayoutData, b"12");
    assert_eq!(complete(decode(&bytes)), (MessageType::Unknown, 2, b"12".to_vec(), bytes.len()));
}

#[test]
fn a_message_of_which_more_is_to_come() {
    assert!(matches!(decode(b""), Decoded::Incomplete));
    assert!(matches!(decode(b"0"), Decoded::Incomplete));
    assert!(matches!(decode(b"0\n"), Decoded::Incomplete));
    assert!(matches!(decode(b"0\n12"), Decoded::Incomplete));
    assert!(matches!(decode(b"0\n5\nhell"), Decoded::Incomplete));
    assert!(matches!(decode(b"0\n-1\nhello"), Decoded::Incomplete));
    assert!(matches!(decode(b"x"), Decoded::Incomplete));
}

#[test]
fn headers_that_are_no_numbers() {
    assert!(matches!(decode(b"x\n"), Decoded::Malformed));
    assert!(matches!(decode(b"\n5\nhello"), Decoded::Malformed));
    assert!(matches!(decode(b"-\n5\nhello"), Decoded::Malformed));
    assert!(matches!(decode(b"+\n5\nhello"), Decoded::Malformed));
    assert!(matches!(decode(b"0\n5x\nhello"), Decoded::Malformed));
    assert!(matches!(decode(b"0\n \nhello"), Decoded::Malformed));
    assert!(matches!(decode(b"1 \n5\nhello"), Decoded::Malformed));
    assert!(matches!(decode(b"2147483648\n0\n"), Decoded::Malformed));
    assert!(matches!(decode(b"-2147483649\n0\n"), Decoded::Malformed));
    assert!(matches!(decode(b"99999999999999999999999999\n0\n"), Decoded::Malformed));
    assert_eq!(complete(decode(b"2147483647\n0\n")).0, MessageType::Unknown);
    assert_eq!(complete(decode(b"-2147483648\n0\n")).3, 14);
}

#[test]
fn the_buffer_gives_whole_messages_and_keeps_the_rest() {
    let mut buffer = ServerBuffer::new();
    assert!(buffer.buffer.is_empty());
    assert!(buffer.decode_messages().is_empty());
    buffer.add_to_buffer(b"0\n3\nabc1\n2");
    buffer.add_to_buffer(b"\nxy0\n4\nab");
    let messages = buffer.decode_messages();
    assert_eq!(messages.len(), 2);
    assert_eq!(messages[0].message_type, MessageType::LayoutData);
    assert_eq!(messages[0].length, 3);
    assert_eq!(messages[0].data, b"abc".to_vec());
    assert_eq!(messages[1].message_type, MessageType::Unknown);
    assert_eq!(messages[1].data, b"xy".to_vec());
    assert_eq!(buffer.buffer, b"0\n4\nab".to_vec());
    assert!(!buffer.is_malformed());
    buffer.add_to_buffer(b"cd?\n");
    let messages = buffer.decode_messages();
    assert_eq!(messages.len(), 1);
    assert_eq!(messages[0].data, b"abcd".to_vec());
    assert_eq!(buffer.buffer, b"?\n".to_vec());
    assert!(buffer.is_malformed());
    assert!(buffer.decode_messages().is_empty());
    assert_eq!(buffer.buffer, b"?\n".to_vec());
}

#[test]
fn a_message_writes_itself() {
    let mut message = Message { message_type: MessageType::LayoutData, length: 99, data: b"abc".to_vec() };
    assert_eq!(message.as_bytes(), b"0\n3\nabc".to_vec());
    assert_eq!(message.encode(), b"0\n3\nabc".to_vec());
    assert_eq!(message.length, 99);
    assert_eq!(
        complete(Message::decode(&message.as_bytes())),
        (MessageType::LayoutData, 3, b"abc".to_vec(), 7)
    );
}
