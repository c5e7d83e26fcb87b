//! Pins whose direction is switched on demand.
//!
//! A pin starts as a pulled-up input. Driving it makes it an output and
//! reading it makes it an input again; a pin already in the wanted direction
//! is not reconfigured. Every call made on the hardware is recorded in the
//! pin's history, so that this laziness can be stated and proved.
use vstd::prelude::*;
use vstd::string::StringSliceAdditionalSpecFns;

use embedded_hal::digital::v2::PinState as HalPinState;

use crate::wire::{padded_name, PinName, PinState, MAX_PIN_NAME_SIZE};

verus! {

#[verifier::external_type_specification]
pub struct ExHalPinState(HalPinState);

/// The embedded-hal level that stands for a pin state.
pub fn convert_state(state: PinState) -> (r: HalPinState)
    ensures
        r == (match state {
            PinState::High => HalPinState::High,
            PinState::Low => HalPinState::Low,
        }),
{
    match state {
        PinState::High => HalPinState::High,
        PinState::Low => HalPinState::Low,
    }
}

/// Direction of a digital pin.
#[derive(Clone, Copy, Debug, PartialEq, Eq, Structural)]
pub enum PinMode {
    /// Sensing, with the pull-up resistor enabled.
    Input,
    /// Driving a level.
    Output,
}

/// One call made on a pin's hardware.
#[derive(Clone, Copy, Debug, PartialEq, Eq, Structural)]
pub enum PinOp {
    /// The direction was switched.
    SetMode(PinMode),
    /// The pin was driven to a level.
    Drive(PinState),
    /// The pin was sensed and read this level.
    Sense(PinState),
}

/// The platform's access to one physical pin.
///
/// An implementation keeps the calls made on it as its history, and each
/// method states how it extends that history: the contracts of the pins built
/// on it are stated over it. [`UnconnectedPin`] is one such implementation.
pub trait IOPin {
    /// Every call made on this pin, oldest first.
    spec fn history(&self) -> Seq<PinOp>;

    /// Switches the direction: an input gets its pull-up enabled.
    fn set_mode(&mut self, mode: PinMode)
        ensures
            final(self).history() == old(self).history().push(PinOp::SetMode(mode)),
    ;

    /// Drives the pin, which is an output, to a level.
    fn set_state(&mut self, state: PinState)
        ensures
            final(self).history() == old(self).history().push(PinOp::Drive(state)),
    ;

    /// Senses the level at the pin, which is an input.
    fn read_state(&mut self) -> (r: PinState)
        ensures
            final(self).history() == old(self).history().push(PinOp::Sense(r)),
    ;
}

/// A pin with nothing attached to it. As an input it reads high through its
/// pull-up; as an output it reads back the level it drives. It keeps the
/// calls made on it.
pub struct UnconnectedPin {
    mode: PinMode,
    level: PinState,
    calls: Vec<PinOp>,
}

impl UnconnectedPin {
    /// A pin that has seen no call yet, floating as an input.
    pub fn new() -> (r: UnconnectedPin)
        ensures
            r.history() == Seq::<PinOp>::empty(),
    {
        UnconnectedPin { mode: PinMode::Input, level: PinState::Low, calls: Vec::new() }
    }

    /// The calls made on this pin, oldest first.
    pub fn calls(&self) -> (r: &Vec<PinOp>)
        ensures
            r@ == self.history(),
    {
        &self.calls
    }
}

impl IOPin for UnconnectedPin {
    closed spec fn history(&self) -> Seq<PinOp> {
        self.calls@
    }

    fn set_mode(&mut self, mode: PinMode) {
        self.mode = mode;
        self.calls.push(PinOp::SetMode(mode));
    }

    fn set_state(&mut self, state: PinState) {
        self.level = state;
        self.calls.push(PinOp::Drive(state));
    }

    fn read_state(&mut self) -> (r: PinState) {
        let r = match self.mode {
            PinMode::Input => PinState::High,
            PinMode::Output => self.level,
        };
        self.calls.push(PinOp::Sense(r));
        r
    }
}

/// What a pin is, as far as the logic is concerned.
pub struct PinView {
    pub mode: PinMode,
    pub name: PinName,
    /// Every call made on the hardware, oldest first.
    pub ops: Seq<PinOp>,
}

/// A pin just registered under a name, whose hardware had seen `history`:
/// it has been switched to a pulled-up input.
pub open spec fn fresh_pin(name: PinName, history: Seq<PinOp>) -> PinView {
    PinView { mode: PinMode::Input, name, ops: history.push(PinOp::SetMode(PinMode::Input)) }
}

/// The pin after it was driven to `s`: switched to output only if it was an input.
pub open spec fn after_output(v: PinView, s: PinState) -> PinView {
    PinView {
        mode: PinMode::Output,
        name: v.name,
        ops: if v.mode == PinMode::Output {
            v.ops.push(PinOp::Drive(s))
        } else {
            v.ops.push(PinOp::SetMode(PinMode::Output)).push(PinOp::Drive(s))
        },
    }
}

/// The pin after it was read, sensing `s`: switched to input only if it was an output.
pub open spec fn after_input(v: PinView, s: PinState) -> PinView {
    PinView {
        mode: PinMode::Input,
        name: v.name,
        ops: if v.mode == PinMode::Input {
            v.ops.push(PinOp::Sense(s))
        } else {
            v.ops.push(PinOp::SetMode(PinMode::Input)).push(PinOp::Sense(s))
        },
    }
}

/// A hardware pin together with its current direction and display name.
pub struct MutablePin<P> {
    pin: P,
    mode: PinMode,
    name: PinName,
}

impl<P: IOPin> View for MutablePin<P> {
    type V = PinView;

    /// The pin's direction and name, with the calls its hardware has seen.
    closed spec fn view(&self) -> PinView {
        PinView { mode: self.mode, name: self.name, ops: self.pin.history() }
    }
}

impl<P: IOPin> MutablePin<P> {
    /// Takes a pin, makes it a pulled-up input and names it.
    pub fn new(pin: P, name: &str) -> (r: MutablePin<P>)
        requires
            name.spec_bytes().len() <= MAX_PIN_NAME_SIZE,
        ensures
            r@ == fresh_pin(r@.name, pin.history()),
            r@.name@ == padded_name(name.spec_bytes()),
    {
        let mut pin = pin;
        pin.set_mode(PinMode::Input);
        let name = PinName::from_str(name);
        MutablePin { pin, mode: PinMode::Input, name }
    }

    /// Drives the pin to `state`, switching it to output first if needed.
    pub fn output_state(&mut self, state: PinState)
        ensures
            final(self)@ == after_output(old(self)@, state),
    {
        if self.mode == PinMode::Input {
            self.pin.set_mode(PinMode::Output);
            self.mode = PinMode::Output;
        }
        self.pin.set_state(state);
    }

    /// Reads the pin's level, switching it to a pulled-up input first if needed.
    pub fn input(&mut self) -> (r: PinState)
        ensures
            final(self)@ == after_input(old(self)@, r),
    {
        if self.mode == PinMode::Output {
            self.pin.set_mode(PinMode::Input);
            self.mode = PinMode::Input;
        }
        let r = self.pin.read_state();
        r
    }

    /// The hardware pin.
    pub fn hardware(&self) -> (r: &P)
        ensures
            r.history() == self@.ops,
    {
        &self.pin
    }

    /// The pin's display name.
    pub fn name(&self) -> (r: PinName)
        ensures
            r == self@.name,
    {
        self.name
    }
}

} // verus!
