//! One turn of the device's command loop: a decoded request is carried out on
//! the dispatcher and answered with the encoded replies.
use vstd::prelude::*;

use crate::decode::DecodeError;
use crate::dispatcher::{
    index_of, input_at, is_registered, labels_distinct, lemma_index_of, listing, output_at,
    PinDispatcher,
};
use crate::pins::{IOPin, PinMode, PinOp, PinView};
use crate::wire::{response_wire, Action, PinLabel, PinState, Response};

verus! {

/// The request names only registered pins.
pub open spec fn accepts(v: Seq<(PinLabel, PinView)>, a: Action) -> bool {
    match a {
        Action::Output(l, _) => is_registered(v, l),
        Action::Input(l) => is_registered(v, l),
        Action::List => true,
    }
}

/// The level last sensed at the pin labelled `l`.
pub open spec fn sensed(v: Seq<(PinLabel, PinView)>, l: PinLabel) -> PinState {
    match v[index_of(v, l)].1.ops.last() {
        PinOp::Sense(s) => s,
        _ => PinState::Low,
    }
}

/// `new` is what carrying out `a` on `old` leaves; a read senses what `new` records.
pub open spec fn step(old: Seq<(PinLabel, PinView)>, a: Action, new: Seq<(PinLabel, PinView)>) -> bool {
    match a {
        Action::Output(l, s) => new == output_at(old, l, s),
        Action::Input(l) => new == input_at(old, l, sensed(new, l)),
        Action::List => new == old,
    }
}

/// The listing reply for one registered pin.
pub open spec fn list_reply(e: (PinLabel, PinView)) -> Response {
    Response::List(e.0, e.1.name)
}

/// One listing reply per registered pin, in registration order.
pub open spec fn list_responses(v: Seq<(PinLabel, PinView)>) -> Seq<Response> {
    v.map_values(|e: (PinLabel, PinView)| list_reply(e))
}

/// The replies to `a`, carried out on `old` and leaving `new`.
pub open spec fn replies(old: Seq<(PinLabel, PinView)>, a: Action, new: Seq<(PinLabel, PinView)>) -> Seq<Response> {
    match a {
        Action::Output(l, s) => seq![Response::Output(l, s)],
        Action::Input(l) => seq![Response::Input(l, sensed(new, l))],
        Action::List => list_responses(old),
    }
}

/// The replies' encodings, one after the other.
pub open spec fn wire_all(rs: Seq<Response>) -> Seq<u8>
    decreases rs.len(),
{
    if rs.len() == 0 {
        Seq::empty()
    } else {
        wire_all(rs.drop_last()) + response_wire(rs.last())
    }
}

impl<P: IOPin> PinDispatcher<P> {
    /// Carries out one request and returns the replies to send, in order.
    pub fn execute(&mut self, action: Action) -> (r: Vec<Response>)
        requires
            old(self).wf(),
            accepts(old(self)@, action),
        ensures
            final(self).wf(),
            step(old(self)@, action, final(self)@),
            r@ == replies(old(self)@, action, final(self)@),
    {
        match action {
            Action::Output(l, s) => {
                self.output(l, s);
                let mut r: Vec<Response> = Vec::new();
                r.push(Response::Output(l, s));
                assert(r@ =~= seq![Response::Output(l, s)]);
                r
            },
            Action::Input(l) => {
                let ghost i = index_of(self@, l);
                proof {
                    self.lemma_labels_unique();
                }
                let s = self.input(l);
                proof {
                    self.lemma_labels_unique();
                    lemma_index_of(self@, l, i);
                }
                let mut r: Vec<Response> = Vec::new();
                r.push(Response::Input(l, s));
                assert(r@ =~= seq![Response::Input(l, s)]);
                r
            },
            Action::List => {
                let pins = self.list();
                let mut r: Vec<Response> = Vec::new();
                let mut i: usize = 0;
                while i < pins.len()
                    invariant
                        pins@ == listing(self@),
                        pins@.len() == self@.len(),
                        i <= pins@.len(),
                        r@ =~= list_responses(self@).take(i as int),
                    decreases pins@.len() - i,
                {
                    let (label, name) = pins[i];
                    assert(listing(self@)[i as int] == (self@[i as int].0, self@[i as int].1.name));
                    assert(list_responses(self@)[i as int] == Response::List(label, name));
                    r.push(Response::List(label, name));
                    i = i + 1;
                }
                assert(list_responses(self@).take(i as int) =~= list_responses(self@));
                r
            },
        }
    }

    /// Whether the request names only registered pins.
    pub fn can_serve(&self, action: Action) -> (r: bool)
        requires
            self.wf(),
        ensures
            r == accepts(self@, action),
    {
        match action {
            Action::Output(l, _) => self.has_pin(l),
            Action::Input(l) => self.has_pin(l),
            Action::List => true,
        }
    }

    /// The bytes to send back for one decoded request: the encoded replies,
    /// or nothing for a request that could not be decoded. `None` for a
    /// request that names an unregistered pin: the device cannot serve it
    /// and treats it as fatal; nothing is done then.
    pub fn serve(&mut self, request: Result<Action, DecodeError>) -> (r: Option<Vec<u8>>)
        requires
            old(self).wf(),
        ensures
            final(self).wf(),
            match request {
                Ok(a) => if accepts(old(self)@, a) {
                    step(old(self)@, a, final(self)@) && (r matches Some(bytes) && bytes@
                        == wire_all(replies(old(self)@, a, final(self)@)))
                } else {
                    r is None && final(self)@ == old(self)@
                },
                Err(_) => final(self)@ == old(self)@ && (r matches Some(bytes) && bytes@ == Seq::<
                    u8,
                >::empty()),
            },
    {
        let mut out: Vec<u8> = Vec::new();
        match request {
            Ok(a) => {
                if !self.can_serve(a) {
                    return None;
                }
                let rs = self.execute(a);
                let mut i: usize = 0;
                while i < rs.len()
                    invariant
                        i <= rs@.len(),
                        out@ == wire_all(rs@.take(i as int)),
                    decreases rs@.len() - i,
                {
                    let mut bytes = rs[i].to_bytes();
                    out.append(&mut bytes);
                    assert(rs@.take(i + 1).drop_last() =~= rs@.take(i as int));
                    i = i + 1;
                }
                assert(rs@.take(i as int) =~= rs@);
                Some(out)
            },
            Err(_) => {
                assert(out@ =~= Seq::<u8>::empty());
                Some(out)
            },
        }
    }
}

/// Driving a pin twice in a row switches its direction at most the first
/// time: the second drive adds only the drive itself to its history.
pub proof fn lemma_output_twice_is_lazy(
    v: Seq<(PinLabel, PinView)>,
    l: PinLabel,
    s1: PinState,
    s2: PinState,
)
    requires
        labels_distinct(v),
        is_registered(v, l),
    ensures
        ({
            let i = index_of(v, l);
            let v1 = output_at(v, l, s1);
            let v2 = output_at(v1, l, s2);
            &&& v2[i].1.ops == v1[i].1.ops.push(PinOp::Drive(s2))
            &&& v2[i].1.mode == PinMode::Output
            &&& forall|j: int| 0 <= j < v.len() && j != i ==> #[trigger] v2[j] == v[j]
        }),
{
    let i = index_of(v, l);
    let v1 = output_at(v, l, s1);
    assert(labels_distinct(v1)) by {
        assert forall|a: int, b: int| 0 <= a < b < v1.len() implies #[trigger] v1[a].0
            != #[trigger] v1[b].0 by {
            assert(v1[a].0 == v[a].0 && v1[b].0 == v[b].0);
        }
    }
    lemma_index_of(v1, l, i);
}

/// Reading a pin just driven switches it back to a pulled-up input before
/// sensing it.
pub proof fn lemma_input_after_output_switches(
    v: Seq<(PinLabel, PinView)>,
    l: PinLabel,
    s: PinState,
    sensed_level: PinState,
)
    requires
        labels_distinct(v),
        is_registered(v, l),
    ensures
        ({
            let i = index_of(v, l);
            let v1 = output_at(v, l, s);
            let v2 = input_at(v1, l, sensed_level);
            &&& v2[i].1.ops == v1[i].1.ops.push(PinOp::SetMode(PinMode::Input)).push(
                PinOp::Sense(sensed_level),
            )
            &&& v2[i].1.mode == PinMode::Input
        }),
{
    let i = index_of(v, l);
    let v1 = output_at(v, l, s);
    assert(labels_distinct(v1)) by {
        assert forall|a: int, b: int| 0 <= a < b < v1.len() implies #[trigger] v1[a].0
            != #[trigger] v1[b].0 by {
            assert(v1[a].0 == v[a].0 && v1[b].0 == v[b].0);
        }
    }
    lemma_index_of(v1, l, i);
}

/// Registering a pin adds exactly its label and name at the end of the
/// listing; driving or reading a pin changes no label and no name.
pub proof fn lemma_listing_complete(v: Seq<(PinLabel, PinView)>, l: PinLabel, pin: PinView, s: PinState)
    ensures
        listing(v.push((l, pin))) == listing(v).push((l, pin.name)),
        is_registered(v, l) ==> listing(output_at(v, l, s)) == listing(v),
        is_registered(v, l) ==> listing(input_at(v, l, s)) == listing(v),
{
    assert(listing(v.push((l, pin))) =~= listing(v).push((l, pin.name)));
    if is_registered(v, l) {
        let i = index_of(v, l);
        assert(listing(output_at(v, l, s)) =~= listing(v));
        assert(listing(input_at(v, l, s)) =~= listing(v));
    }
}

} // verus!
