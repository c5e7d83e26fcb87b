//! Remote control of a microcontroller's digital pins over a serial link:
//! a compact request/response wire codec, an incremental decoder, and a
//! dispatcher that maps pin labels to pins and switches their direction lazily.
pub mod command;
pub mod decode;
pub mod dispatcher;
pub mod pin_map;
pub mod pins;
pub mod wire;

pub use decode::{BufferedIterator, DecodeError, MAX_LABEL_SIZE};
pub use dispatcher::PinDispatcher;
pub use pin_map::PIN_CAPACITY;
pub use pins::{convert_state, IOPin, MutablePin, PinMode, PinOp, UnconnectedPin};
pub use wire::{
    Action, PinLabel, PinName, PinState, Response, MAX_ACTION_WIRE_SIZE, MAX_PIN_NAME_SIZE,
    MAX_RESPONSE_WIRE_SIZE,
};
