use arduino_gpio_expander::{
    Action, DecodeError, PinName, PinState, Response, MAX_ACTION_WIRE_SIZE,
    MAX_RESPONSE_WIRE_SIZE,
};

fn decode_action(bytes: &[u8]) -> Result<Action, DecodeError> {
    Action::try_from_iter(&mut bytes.iter().copied())
}

fn decode_response(bytes: &[u8]) -> Result<Response, DecodeError> {
    Response::try_from_iter(&mut bytes.iter().copied())
}

#[test]
fn serialize_rountrip() {
    let action = Action::Output('7', PinState::High);
    let serialized = action.to_bytes();
    assert!(serialized.len() <= MAX_ACTION_WIRE_SIZE);
    let deserialized = decode_action(&serialized).unwrap();
    assert_eq!(action, deserialized);
}

#[test]
fn deserialize_from_iter() {
    let action = Action::Output('a', PinState::Low);
    let serialized: Vec<u8> = action.to_bytes();
    let deserialized = Action::try_from_iter(&mut serialized.into_iter()).unwrap();
    assert_eq!(action, deserialized);
}

#[test]
fn action_encodings_are_exact() {
    assert_eq!(Action::Output('7', PinState::High).to_bytes(), vec![0, 1, b'7', 1]);
    assert_eq!(Action::Output('a', PinState::Low).to_bytes(), vec![0, 1, b'a', 0]);
    assert_eq!(Action::Input('B').to_bytes(), vec![1, 1, b'B']);
    assert_eq!(Action::List.to_bytes(), vec![2]);
    assert_eq!(Action::Input('é').to_bytes(), vec![1, 2, 0xC3, 0xA9]);
}

#[test]
fn response_encodings_are_exact() {
    assert_eq!(Response::Output('1', PinState::High).to_bytes(), vec![0, 1, b'1', 1]);
    assert_eq!(Response::Input('1', PinState::Low).to_bytes(), vec![1, 1, b'1', 0]);
    assert_eq!(
        Response::List('2', PinName::from_str("D2")).to_bytes(),
        vec![2, 1, b'2', b'D', b'2', 0]
    );
    assert_eq!(Response::Error.to_bytes(), vec![3]);
}

#[test]
fn layout_matches_postcard() {
    // A variant tag is a varint like a small `u32`; a label is a `char`.
    let expected = postcard::to_allocvec(&(0u32, '7', 1u32)).unwrap();
    assert_eq!(Action::Output('7', PinState::High).to_bytes(), expected);
    let expected = postcard::to_allocvec(&(1u32, '€')).unwrap();
    assert_eq!(Action::Input('€').to_bytes(), expected);
    let expected = postcard::to_allocvec(&(2u32, '😀', [b'A', b'0', 0u8])).unwrap();
    assert_eq!(Response::List('😀', PinName::from_str("A0")).to_bytes(), expected);
}

#[test]
fn every_action_round_trips() {
    let actions = [
        Action::Output('1', PinState::High),
        Action::Output('F', PinState::Low),
        Action::Output('ß', PinState::High),
        Action::Output('€', PinState::Low),
        Action::Output('😀', PinState::High),
        Action::Input('c'),
        Action::Input('\u{7FF}'),
        Action::Input('\u{10FFFF}'),
        Action::List,
    ];
    for action in actions {
        assert_eq!(decode_action(&action.to_bytes()), Ok(action));
    }
}

#[test]
fn every_response_round_trips() {
    let responses = [
        Response::Output('1', PinState::High),
        Response::Output('€', PinState::Low),
        Response::Input('A', PinState::Low),
        Response::Input('😀', PinState::High),
        Response::List('9', PinName::from_str("D9")),
        Response::List('\u{FFFD}', PinName::from_str("A21")),
        Response::List('x', PinName::from_str("")),
        Response::Error,
    ];
    for response in responses {
        assert_eq!(decode_response(&response.to_bytes()), Ok(response));
    }
}

#[test]
fn encodings_fit_the_wire_bounds() {
    let longest_action = Action::Output('😀', PinState::High).to_bytes();
    assert_eq!(longest_action.len(), 7);
    assert!(longest_action.len() <= MAX_ACTION_WIRE_SIZE);
    let longest_response = Response::List('😀', PinName::from_str("D13")).to_bytes();
    assert_eq!(longest_response.len(), 9);
    assert!(longest_response.len() <= MAX_RESPONSE_WIRE_SIZE);
}

#[test]
fn pin_name_is_zero_padded() {
    assert_eq!(PinName::from_str("D13").bytes(), [b'D', b'1', b'3']);
    assert_eq!(PinName::from_str("A0").bytes(), [b'A', b'0', 0]);
    assert_eq!(PinName::from_str("").bytes(), [0, 0, 0]);
    assert_eq!(PinName::from_bytes(b'D', b'2', 0), PinName::from_str("D2"));
}
