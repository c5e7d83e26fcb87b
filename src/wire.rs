//! The messages exchanged over the serial link and their byte layout.
//!
//! Every message is a variant tag byte followed by the variant's fields.
//! A label travels as its UTF-8 length followed by its UTF-8 bytes, a pin
//! state as one byte (`0` low, `1` high) and a pin name as its three raw
//! bytes. Nothing frames a message: its end follows from the bytes read.
use vstd::prelude::*;
use vstd::string::StringSliceAdditionalSpecFns;
use vstd::utf8::*;

verus! {

/// A single character that names one registered pin.
pub type PinLabel = char;

/// Number of bytes in a pin's display name.
pub const MAX_PIN_NAME_SIZE: usize = 3;

/// Largest number of bytes an encoded [`Action`] may take on the wire.
pub const MAX_ACTION_WIRE_SIZE: usize = 8;

/// Largest number of bytes an encoded [`Response`] may take on the wire.
pub const MAX_RESPONSE_WIRE_SIZE: usize = 16;

/// Logic level of a digital pin.
#[derive(Clone, Copy, Debug, PartialEq, Eq, Structural, Default)]
pub enum PinState {
    #[default]
    Low,
    High,
}

/// A fixed-size display name such as `D13` or `A0`, padded with zero bytes.
#[derive(Clone, Copy, Debug, PartialEq, Eq, Structural, Default)]
pub struct PinName(u8, u8, u8);

/// A request sent from the host to the device.
#[derive(Clone, Copy, Debug, PartialEq, Eq, Structural)]
pub enum Action {
    /// Drive the labelled pin to the given level.
    Output(PinLabel, PinState),
    /// Read the level of the labelled pin.
    Input(PinLabel),
    /// List every registered pin.
    List,
}

/// A reply sent from the device to the host.
#[derive(Clone, Copy, Debug, PartialEq, Eq, Structural)]
pub enum Response {
    /// The labelled pin now drives this level.
    Output(PinLabel, PinState),
    /// The labelled pin reads this level.
    Input(PinLabel, PinState),
    /// One registered pin; a listing sends one of these per pin.
    List(PinLabel, PinName),
    /// A request could not be served.
    Error,
}

impl View for PinName {
    type V = Seq<u8>;

    closed spec fn view(&self) -> Seq<u8> {
        seq![self.0, self.1, self.2]
    }
}

/// A name is determined by its three bytes.
pub proof fn lemma_pin_name_view(n: PinName, m: PinName)
    ensures
        n@.len() == MAX_PIN_NAME_SIZE,
        n@ == m@ ==> n == m,
{
    assert(n@[0] == n.0 && n@[1] == n.1 && n@[2] == n.2);
    assert(m@[0] == m.0 && m@[1] == m.1 && m@[2] == m.2);
}

/// The name bytes for `s`: its bytes followed by zero bytes up to the fixed size.
pub open spec fn padded_name(s: Seq<u8>) -> Seq<u8> {
    s + Seq::new((MAX_PIN_NAME_SIZE - s.len()) as nat, |i: int| 0u8)
}

impl PinName {
    /// The name made of the bytes of `s`, zero-padded.
    pub fn from_str(s: &str) -> (r: PinName)
        requires
            s.spec_bytes().len() <= MAX_PIN_NAME_SIZE,
        ensures
            r@ == padded_name(s.spec_bytes()),
    {
        let b = s.as_bytes();
        let mut name = [0u8; MAX_PIN_NAME_SIZE];
        let mut i: usize = 0;
        while i < b.len()
            invariant
                b@ == s.spec_bytes(),
                b@.len() <= MAX_PIN_NAME_SIZE,
                i <= b@.len(),
                name@.len() == MAX_PIN_NAME_SIZE,
                forall|j: int| 0 <= j < i ==> name@[j] == b@[j],
                forall|j: int| b@.len() <= j < MAX_PIN_NAME_SIZE ==> name@[j] == 0u8,
            decreases b@.len() - i,
        {
            name[i] = b[i];
            i = i + 1;
        }
        let r = PinName(name[0], name[1], name[2]);
        assert(r@ =~= padded_name(s.spec_bytes()));
        r
    }

    /// The name made of these three bytes.
    pub fn from_bytes(b0: u8, b1: u8, b2: u8) -> (r: PinName)
        ensures
            r@ == seq![b0, b1, b2],
    {
        PinName(b0, b1, b2)
    }

    /// The raw name bytes.
    pub fn bytes(&self) -> (r: [u8; MAX_PIN_NAME_SIZE])
        ensures
            r@ == self@,
    {
        let r = [self.0, self.1, self.2];
        assert(r@ =~= self@);
        r
    }
}

/// The byte that stands for a pin state.
pub open spec fn state_byte(s: PinState) -> u8 {
    match s {
        PinState::Low => 0,
        PinState::High => 1,
    }
}

/// The bytes of a label: its UTF-8 length, then its UTF-8 encoding.
pub open spec fn label_bytes(c: char) -> Seq<u8> {
    seq![encode_scalar(c as u32).len() as u8] + encode_scalar(c as u32)
}

/// The encoding of a request.
pub open spec fn action_wire(a: Action) -> Seq<u8> {
    match a {
        Action::Output(l, s) => seq![0u8] + label_bytes(l) + seq![state_byte(s)],
        Action::Input(l) => seq![1u8] + label_bytes(l),
        Action::List => seq![2u8],
    }
}

/// The encoding of a reply.
pub open spec fn response_wire(r: Response) -> Seq<u8> {
    match r {
        Response::Output(l, s) => seq![0u8] + label_bytes(l) + seq![state_byte(s)],
        Response::Input(l, s) => seq![1u8] + label_bytes(l) + seq![state_byte(s)],
        Response::List(l, n) => seq![2u8] + label_bytes(l) + n@,
        Response::Error => seq![3u8],
    }
}

/// Every request fits in the request bound and every reply in the reply bound.
pub proof fn lemma_wire_size_bounds(a: Action, r: Response)
    ensures
        action_wire(a).len() <= MAX_ACTION_WIRE_SIZE,
        response_wire(r).len() <= MAX_RESPONSE_WIRE_SIZE,
{
    match r {
        Response::List(_, n) => lemma_pin_name_view(n, n),
        _ => {},
    }
}

/// The UTF-8 encoding of a character.
pub fn encode_char(c: char) -> (r: Vec<u8>)
    ensures
        r@ == encode_scalar(c as u32),
{
    let u = c as u32;
    proof {
        char_is_scalar(c);
    }
    let mut out: Vec<u8> = Vec::new();
    if u <= 0x7F {
        out.push((u & 0x7F) as u8);
    } else if u <= 0x7FF {
        out.push(0xC0 | ((u >> 6) & 0x1F) as u8);
        out.push(0x80 | (u & 0x3F) as u8);
    } else if u <= 0xFFFF {
        out.push(0xE0 | ((u >> 12) & 0x0F) as u8);
        out.push(0x80 | ((u >> 6) & 0x3F) as u8);
        out.push(0x80 | (u & 0x3F) as u8);
    } else {
        out.push(0xF0 | ((u >> 18) & 0x7) as u8);
        out.push(0x80 | ((u >> 12) & 0x3F) as u8);
        out.push(0x80 | ((u >> 6) & 0x3F) as u8);
        out.push(0x80 | (u & 0x3F) as u8);
    }
    assert(out@ =~= encode_scalar(c as u32));
    out
}

/// The UTF-8 encoding of a character: the first `r.1` bytes of `r.0`.
pub fn encode_char_array(c: char) -> (r: ([u8; 4], usize))
    ensures
        r.1 == encode_scalar(c as u32).len(),
        r.0@.take(r.1 as int) == encode_scalar(c as u32),
{
    let u = c as u32;
    proof {
        char_is_scalar(c);
    }
    let mut a = [0u8; 4];
    let len: usize;
    if u <= 0x7F {
        a[0] = (u & 0x7F) as u8;
        len = 1;
    } else if u <= 0x7FF {
        a[0] = 0xC0 | ((u >> 6) & 0x1F) as u8;
        a[1] = 0x80 | (u & 0x3F) as u8;
        len = 2;
    } else if u <= 0xFFFF {
        a[0] = 0xE0 | ((u >> 12) & 0x0F) as u8;
        a[1] = 0x80 | ((u >> 6) & 0x3F) as u8;
        a[2] = 0x80 | (u & 0x3F) as u8;
        len = 3;
    } else {
        a[0] = 0xF0 | ((u >> 18) & 0x7) as u8;
        a[1] = 0x80 | ((u >> 12) & 0x3F) as u8;
        a[2] = 0x80 | ((u >> 6) & 0x3F) as u8;
        a[3] = 0x80 | (u & 0x3F) as u8;
        len = 4;
    }
    assert(a@.take(len as int) =~= encode_scalar(c as u32));
    (a, len)
}

/// Appends the bytes of a label.
pub fn push_label(out: &mut Vec<u8>, c: PinLabel)
    ensures
        final(out)@ == old(out)@ + label_bytes(c),
{
    let mut e = encode_char(c);
    proof {
        char_is_scalar(c);
    }
    out.push(e.len() as u8);
    out.append(&mut e);
    assert(final(out)@ =~= old(out)@ + label_bytes(c));
}

/// The byte that stands for a pin state.
pub fn state_to_byte(s: PinState) -> (b: u8)
    ensures
        b == state_byte(s),
{
    match s {
        PinState::Low => 0,
        PinState::High => 1,
    }
}

impl Action {
    /// The wire encoding of this request.
    pub fn to_bytes(&self) -> (r: Vec<u8>)
        ensures
            r@ == action_wire(*self),
            r@.len() <= MAX_ACTION_WIRE_SIZE,
    {
        let mut out: Vec<u8> = Vec::new();
        match *self {
            Action::Output(l, s) => {
                out.push(0);
                push_label(&mut out, l);
                out.push(state_to_byte(s));
            },
            Action::Input(l) => {
                out.push(1);
                push_label(&mut out, l);
            },
            Action::List => {
                out.push(2);
            },
        }
        assert(out@ =~= action_wire(*self));
        out
    }
}

impl Response {
    /// The wire encoding of this reply.
    pub fn to_bytes(&self) -> (r: Vec<u8>)
        ensures
            r@ == response_wire(*self),
            r@.len() <= MAX_RESPONSE_WIRE_SIZE,
    {
        let mut out: Vec<u8> = Vec::new();
        match *self {
            Response::Output(l, s) => {
                out.push(0);
                push_label(&mut out, l);
                out.push(state_to_byte(s));
            },
            Response::Input(l, s) => {
                out.push(1);
                push_label(&mut out, l);
                out.push(state_to_byte(s));
            },
            Response::List(l, n) => {
                out.push(2);
                push_label(&mut out, l);
                let b = n.bytes();
                out.push(b[0]);
                out.push(b[1]);
                out.push(b[2]);
            },
            Response::Error => {
                out.push(3);
            },
        }
        assert(out@ =~= response_wire(*self));
        out
    }
}

} // verus!
