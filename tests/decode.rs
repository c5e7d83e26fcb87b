use arduino_gpio_expander::{
    Action, BufferedIterator, DecodeError, PinName, PinState, Response, MAX_ACTION_WIRE_SIZE,
};

fn decode_action(bytes: &[u8]) -> Result<Action, DecodeError> {
    Action::try_from_iter(&mut bytes.iter().copied())
}

fn decode_response(bytes: &[u8]) -> Result<Response, DecodeError> {
    Response::try_from_iter(&mut bytes.iter().copied())
}

#[test]
fn truncated_output_is_an_error() {
    assert_eq!(decode_action(&[0, 1, b'7']), Err(DecodeError::UnexpectedEnd));
}

#[test]
fn every_truncation_is_an_error() {
    let bytes = Action::Output('€', PinState::High).to_bytes();
    for n in 0..bytes.len() {
        assert_eq!(decode_action(&bytes[..n]), Err(DecodeError::UnexpectedEnd));
    }
    let bytes = Response::List('2', PinName::from_str("D2")).to_bytes();
    for n in 0..bytes.len() {
        assert_eq!(decode_response(&bytes[..n]), Err(DecodeError::UnexpectedEnd));
    }
}

#[test]
fn empty_source_is_an_error() {
    assert_eq!(decode_action(&[]), Err(DecodeError::UnexpectedEnd));
    assert_eq!(decode_response(&[]), Err(DecodeError::UnexpectedEnd));
}

#[test]
fn unknown_tags_are_rejected() {
    assert_eq!(decode_action(&[3]), Err(DecodeError::BadVariant));
    assert_eq!(decode_action(&[0x80, 0]), Err(DecodeError::BadVariant));
    assert_eq!(decode_response(&[4]), Err(DecodeError::BadVariant));
}

#[test]
fn bad_pin_state_is_rejected() {
    assert_eq!(decode_action(&[0, 1, b'7', 2]), Err(DecodeError::BadVariant));
    assert_eq!(decode_response(&[1, 1, b'7', 9]), Err(DecodeError::BadVariant));
}

#[test]
fn bad_labels_are_rejected() {
    // length byte out of range
    assert_eq!(decode_action(&[1, 0]), Err(DecodeError::BadLabel));
    assert_eq!(decode_action(&[1, 5, b'a', b'b', b'c', b'd', b'e']), Err(DecodeError::BadLabel));
    // two characters where one is expected
    assert_eq!(decode_action(&[1, 2, b'a', b'b']), Err(DecodeError::BadLabel));
    // overlong encoding of '/'
    assert_eq!(decode_action(&[1, 2, 0xC0, 0xAF]), Err(DecodeError::BadLabel));
    // a surrogate
    assert_eq!(decode_action(&[1, 3, 0xED, 0xA0, 0x80]), Err(DecodeError::BadLabel));
    // a continuation byte where a leading byte is expected
    assert_eq!(decode_action(&[1, 1, 0x80]), Err(DecodeError::BadLabel));
    // a leading byte whose width disagrees with the length byte
    assert_eq!(decode_action(&[1, 3, 0xC3, 0xA9, 0x41]), Err(DecodeError::BadLabel));
    // beyond the last scalar value
    assert_eq!(decode_action(&[1, 4, 0xF4, 0x90, 0x80, 0x80]), Err(DecodeError::BadLabel));
    assert_eq!(decode_response(&[2, 2, 0xC3, 0x41, b'D', b'1', b'3']), Err(DecodeError::BadLabel));
}

#[test]
fn decoder_reads_exactly_one_message() {
    let mut stream: Vec<u8> = Vec::new();
    stream.extend(Action::Input('é').to_bytes());
    stream.extend(Action::List.to_bytes());
    stream.extend(Action::Output('b', PinState::High).to_bytes());
    stream.push(0xAA);
    let mut iter = stream.into_iter();
    assert_eq!(Action::try_from_iter(&mut iter), Ok(Action::Input('é')));
    assert_eq!(Action::try_from_iter(&mut iter), Ok(Action::List));
    assert_eq!(Action::try_from_iter(&mut iter), Ok(Action::Output('b', PinState::High)));
    assert_eq!(iter.next(), Some(0xAA));
}

#[test]
fn decoder_stops_at_a_malformed_byte() {
    let mut iter = vec![9u8, 2, 0xAA].into_iter();
    assert_eq!(Action::try_from_iter(&mut iter), Err(DecodeError::BadVariant));
    assert_eq!(Action::try_from_iter(&mut iter), Ok(Action::List));
    assert_eq!(iter.next(), Some(0xAA));
}

#[test]
fn buffered_iterator_keeps_only_the_label() {
    let bytes = Action::Output('€', PinState::Low).to_bytes();
    let mut iter = bytes.clone().into_iter();
    let mut buffer = [0u8; MAX_ACTION_WIRE_SIZE];
    let mut src = BufferedIterator::from_iter_and_buffer(&mut iter, &mut buffer);
    assert_eq!(Action::decode(&mut src), Ok(Action::Output('€', PinState::Low)));
    drop(src);
    assert_eq!(buffer, [0xE2, 0x82, 0xAC, 0, 0, 0, 0, 0]);
    assert_eq!(iter.next(), None);
}

#[test]
fn pop_reads_every_byte_and_leaves_the_buffer() {
    let mut iter = vec![1u8, 2, 3].into_iter();
    let mut buffer = [7u8; 2];
    let mut src = BufferedIterator::from_iter_and_buffer(&mut iter, &mut buffer);
    assert_eq!(src.pop(), Some(1));
    assert_eq!(src.pop(), Some(2));
    assert_eq!(src.pop(), Some(3));
    assert_eq!(src.pop(), None);
    drop(src);
    assert_eq!(buffer, [7u8, 7]);
}
