use arduino_gpio_expander::{
    convert_state, Action, DecodeError, MutablePin, PinDispatcher, PinMode, PinName, PinOp,
    PinState, Response, UnconnectedPin, PIN_CAPACITY,
};

fn pin(name: &str) -> MutablePin<UnconnectedPin> {
    MutablePin::new(UnconnectedPin::new(), name)
}

fn two_pin_board() -> PinDispatcher<UnconnectedPin> {
    let mut dispatcher = PinDispatcher::new();
    dispatcher.add_pin('1', pin("D13"));
    dispatcher.add_pin('2', pin("D2"));
    dispatcher
}

fn calls(dispatcher: &PinDispatcher<UnconnectedPin>, label: char) -> Vec<PinOp> {
    dispatcher.pin(label).hardware().calls().clone()
}

fn replies_in(bytes: &[u8]) -> Vec<Response> {
    let mut iter = bytes.iter().copied();
    let mut replies = Vec::new();
    loop {
        match Response::try_from_iter(&mut iter) {
            Ok(r) => replies.push(r),
            Err(DecodeError::UnexpectedEnd) => return replies,
            Err(e) => panic!("undecodable reply: {:?}", e),
        }
    }
}

const TO_INPUT: PinOp = PinOp::SetMode(PinMode::Input);
const TO_OUTPUT: PinOp = PinOp::SetMode(PinMode::Output);

#[test]
fn list_replies_once_per_pin_in_registration_order() {
    let mut dispatcher = two_pin_board();
    let bytes = dispatcher.serve(Ok(Action::List)).unwrap();
    assert_eq!(
        replies_in(&bytes),
        vec![
            Response::List('1', PinName::from_str("D13")),
            Response::List('2', PinName::from_str("D2")),
        ]
    );
}

#[test]
fn output_switches_an_input_pin_and_drives_it() {
    let mut dispatcher = two_pin_board();
    let bytes = dispatcher.serve(Ok(Action::Output('1', PinState::High))).unwrap();
    assert_eq!(replies_in(&bytes), vec![Response::Output('1', PinState::High)]);
    assert_eq!(calls(&dispatcher, '1'), vec![TO_INPUT, TO_OUTPUT, PinOp::Drive(PinState::High)]);
}

#[test]
fn input_after_output_switches_back_and_reads_pull_up() {
    let mut dispatcher = two_pin_board();
    dispatcher.serve(Ok(Action::Output('1', PinState::High))).unwrap();
    let bytes = dispatcher.serve(Ok(Action::Input('1'))).unwrap();
    assert_eq!(replies_in(&bytes), vec![Response::Input('1', PinState::High)]);
    assert_eq!(
        calls(&dispatcher, '1'),
        vec![TO_INPUT, TO_OUTPUT, PinOp::Drive(PinState::High), TO_INPUT, PinOp::Sense(PinState::High)]
    );
}

#[test]
fn repeated_output_does_not_switch_again() {
    let mut dispatcher = two_pin_board();
    dispatcher.output('1', PinState::High);
    dispatcher.output('1', PinState::Low);
    assert_eq!(
        calls(&dispatcher, '1'),
        vec![TO_INPUT, TO_OUTPUT, PinOp::Drive(PinState::High), PinOp::Drive(PinState::Low)]
    );
    assert_eq!(dispatcher.input('1'), PinState::High);
    assert_eq!(dispatcher.input('1'), PinState::High);
    assert_eq!(
        calls(&dispatcher, '1'),
        vec![
            TO_INPUT,
            TO_OUTPUT,
            PinOp::Drive(PinState::High),
            PinOp::Drive(PinState::Low),
            TO_INPUT,
            PinOp::Sense(PinState::High),
            PinOp::Sense(PinState::High),
        ]
    );
    assert_eq!(calls(&dispatcher, '2'), vec![TO_INPUT]);
}

#[test]
fn listing_holds_every_registered_label_once() {
    let mut dispatcher = PinDispatcher::new();
    let labels = ['1', '2', 'a', 'A', 'F'];
    let names = ["D13", "D2", "D10", "A0", "A5"];
    for (label, name) in labels.iter().zip(names.iter()) {
        assert!(!dispatcher.has_pin(*label));
        dispatcher.add_pin(*label, pin(name));
        assert!(dispatcher.has_pin(*label));
    }
    assert_eq!(dispatcher.len(), 5);
    assert!(!dispatcher.has_pin('b'));
    dispatcher.output('a', PinState::High);
    dispatcher.input('F');
    let expected: Vec<(char, PinName)> = labels
        .iter()
        .zip(names.iter())
        .map(|(l, n)| (*l, PinName::from_str(n)))
        .collect();
    assert_eq!(dispatcher.list(), expected);
}

#[test]
fn registration_appends_and_keeps_earlier_pins() {
    let mut dispatcher = two_pin_board();
    assert!(!dispatcher.has_pin('3'));
    dispatcher.add_pin('3', pin("D3"));
    assert_eq!(dispatcher.list()[0], ('1', PinName::from_str("D13")));
    assert_eq!(dispatcher.list()[1], ('2', PinName::from_str("D2")));
    assert_eq!(dispatcher.list()[2], ('3', PinName::from_str("D3")));
}

#[test]
fn request_for_an_unregistered_pin_is_not_served() {
    let mut dispatcher = two_pin_board();
    assert!(!dispatcher.can_serve(Action::Output('9', PinState::High)));
    assert!(dispatcher.can_serve(Action::Input('1')));
    assert!(dispatcher.can_serve(Action::List));
    assert_eq!(dispatcher.serve(Ok(Action::Output('9', PinState::High))), None);
    assert_eq!(dispatcher.serve(Ok(Action::Input('9'))), None);
    assert_eq!(calls(&dispatcher, '1'), vec![TO_INPUT]);
    assert_eq!(calls(&dispatcher, '2'), vec![TO_INPUT]);
}

#[test]
fn execute_returns_the_replies() {
    let mut dispatcher = two_pin_board();
    assert_eq!(
        dispatcher.execute(Action::Output('2', PinState::Low)),
        vec![Response::Output('2', PinState::Low)]
    );
    assert_eq!(dispatcher.execute(Action::Input('2')), vec![Response::Input('2', PinState::High)]);
    assert_eq!(dispatcher.execute(Action::List).len(), 2);
}

#[test]
fn undecodable_request_gets_no_reply() {
    let mut dispatcher = two_pin_board();
    assert_eq!(dispatcher.serve(Err(DecodeError::BadVariant)), Some(Vec::new()));
    assert_eq!(dispatcher.serve(Err(DecodeError::UnexpectedEnd)), Some(Vec::new()));
    assert_eq!(calls(&dispatcher, '1'), vec![TO_INPUT]);
}

#[test]
fn new_pin_is_a_named_pulled_up_input() {
    let p = pin("A1");
    assert_eq!(p.name(), PinName::from_str("A1"));
    assert_eq!(*p.hardware().calls(), vec![TO_INPUT]);
}

#[test]
fn unconnected_pin_reads_its_pull_up_or_its_drive() {
    let mut p = pin("D7");
    assert_eq!(p.input(), PinState::High);
    p.output_state(PinState::Low);
    assert_eq!(
        *p.hardware().calls(),
        vec![TO_INPUT, PinOp::Sense(PinState::High), TO_OUTPUT, PinOp::Drive(PinState::Low)]
    );
}

#[test]
fn states_convert_to_embedded_hal() {
    assert_eq!(convert_state(PinState::High), embedded_hal::digital::v2::PinState::High);
    assert_eq!(convert_state(PinState::Low), embedded_hal::digital::v2::PinState::Low);
}

#[test]
fn dispatcher_holds_its_full_capacity() {
    let mut dispatcher = PinDispatcher::new();
    let labels: Vec<char> = (0..PIN_CAPACITY as u32).map(|i| char::from_u32(0x30 + i).unwrap()).collect();
    for label in &labels {
        dispatcher.add_pin(*label, pin("P"));
    }
    assert_eq!(dispatcher.len(), PIN_CAPACITY);
    let listed: Vec<char> = dispatcher.list().iter().map(|(l, _)| *l).collect();
    assert_eq!(listed, labels);
    let last = labels[PIN_CAPACITY - 1];
    assert_eq!(dispatcher.execute(Action::Input(last)), vec![Response::Input(last, PinState::High)]);
    assert_eq!(replies_in(&dispatcher.serve(Ok(Action::List)).unwrap()).len(), PIN_CAPACITY);
}
