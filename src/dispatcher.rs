//! The dispatcher: registered pins, found by their labels.
//!
//! The pins live in an arena in registration order; the label map sends each
//! label to its pin's position there.
use vstd::prelude::*;

use crate::pin_map::{has_key, pin_map_entries, PinMap, PIN_CAPACITY};
use crate::pins::{after_input, after_output, IOPin, MutablePin, PinView};
use crate::wire::{PinLabel, PinName, PinState};

verus! {

/// Registered pins, found by their labels.
pub struct PinDispatcher<P> {
    pin_map: PinMap,
    pins: Vec<MutablePin<P>>,
}

/// Some entry carries label `l`.
pub open spec fn is_registered(v: Seq<(PinLabel, PinView)>, l: PinLabel) -> bool {
    exists|i: int| 0 <= i < v.len() && #[trigger] v[i].0 == l
}

/// No two entries carry the same label.
pub open spec fn labels_distinct(v: Seq<(PinLabel, PinView)>) -> bool {
    forall|i: int, j: int| 0 <= i < j < v.len() ==> #[trigger] v[i].0 != #[trigger] v[j].0
}

/// The position of the entry labelled `l`.
pub open spec fn index_of(v: Seq<(PinLabel, PinView)>, l: PinLabel) -> int {
    choose|i: int| 0 <= i < v.len() && #[trigger] v[i].0 == l
}

/// The entries after the pin labelled `l` was driven to `s`.
pub open spec fn output_at(v: Seq<(PinLabel, PinView)>, l: PinLabel, s: PinState) -> Seq<(PinLabel, PinView)> {
    v.update(index_of(v, l), (l, after_output(v[index_of(v, l)].1, s)))
}

/// The entries after the pin labelled `l` was read, sensing `s`.
pub open spec fn input_at(v: Seq<(PinLabel, PinView)>, l: PinLabel, s: PinState) -> Seq<(PinLabel, PinView)> {
    v.update(index_of(v, l), (l, after_input(v[index_of(v, l)].1, s)))
}

/// Labels and display names, in registration order.
pub open spec fn listing(v: Seq<(PinLabel, PinView)>) -> Seq<(PinLabel, PinName)> {
    v.map_values(|e: (PinLabel, PinView)| (e.0, e.1.name))
}

/// With distinct labels, the entry labelled `l` is at `index_of`.
pub proof fn lemma_index_of(v: Seq<(PinLabel, PinView)>, l: PinLabel, i: int)
    requires
        labels_distinct(v),
        0 <= i < v.len(),
        v[i].0 == l,
    ensures
        index_of(v, l) == i,
{
    let j = index_of(v, l);
    assert(0 <= j < v.len() && v[j].0 == l);
    if j < i {
        assert(v[j].0 != v[i].0);
    } else if i < j {
        assert(v[i].0 != v[j].0);
    }
}

impl<P: IOPin> View for PinDispatcher<P> {
    type V = Seq<(PinLabel, PinView)>;

    closed spec fn view(&self) -> Seq<(PinLabel, PinView)> {
        Seq::new(self.pins@.len(), |i: int| (pin_map_entries(self.pin_map)[i].0, self.pins@[i]@))
    }
}

impl<P: IOPin> PinDispatcher<P> {
    /// The map sends the i-th label to position i of the arena; labels are
    /// distinct and the map is within its capacity.
    pub closed spec fn wf(&self) -> bool {
        let e = pin_map_entries(self.pin_map);
        &&& e.len() == self.pins@.len()
        &&& e.len() <= PIN_CAPACITY
        &&& forall|i: int| 0 <= i < e.len() ==> #[trigger] e[i].1 == i
        &&& forall|i: int, j: int| 0 <= i < j < e.len() ==> #[trigger] e[i].0 != #[trigger] e[j].0
    }

    /// A well-formed dispatcher holds each label once, and no more pins than it can.
    pub proof fn lemma_labels_unique(&self)
        requires
            self.wf(),
        ensures
            labels_distinct(self@),
            self@.len() <= PIN_CAPACITY,
    {
        assert forall|i: int, j: int| 0 <= i < j < self@.len() implies #[trigger] self@[i].0
            != #[trigger] self@[j].0 by {
            assert(pin_map_entries(self.pin_map)[i].0 != pin_map_entries(self.pin_map)[j].0);
        }
    }

    /// A dispatcher with no pins.
    pub fn new() -> (r: PinDispatcher<P>)
        ensures
            r.wf(),
            r@ == Seq::<(PinLabel, PinView)>::empty(),
    {
        let r = PinDispatcher { pin_map: PinMap::new(), pins: Vec::new() };
        assert(r@ =~= Seq::<(PinLabel, PinView)>::empty());
        r
    }

    /// How many pins are registered.
    pub fn len(&self) -> (r: usize)
        requires
            self.wf(),
        ensures
            r == self@.len(),
    {
        self.pins.len()
    }

    /// Registers `pin` under `pin_label`, after the pins already there.
    pub fn add_pin(&mut self, pin_label: PinLabel, pin: MutablePin<P>)
        requires
            old(self).wf(),
            !is_registered(old(self)@, pin_label),
            old(self)@.len() < PIN_CAPACITY,
        ensures
            final(self).wf(),
            final(self)@ == old(self)@.push((pin_label, pin@)),
    {
        let ghost e0 = pin_map_entries(self.pin_map);
        assert(!has_key(e0, pin_label)) by {
            if has_key(e0, pin_label) {
                let i = choose|i: int| 0 <= i < e0.len() && #[trigger] e0[i].0 == pin_label;
                assert(self@[i].0 == pin_label);
            }
        }
        let index = self.pins.len();
        let _ = self.pin_map.insert(pin_label, index);
        self.pins.push(pin);
        assert(self@ =~= old(self)@.push((pin_label, pin@)));
    }

    /// Position in the arena of the pin labelled `pin_label`.
    fn get_pin(&self, pin_label: PinLabel) -> (r: usize)
        requires
            self.wf(),
            is_registered(self@, pin_label),
        ensures
            r == index_of(self@, pin_label),
            r < self@.len(),
    {
        let ghost e = pin_map_entries(self.pin_map);
        let ghost i = choose|i: int| 0 <= i < self@.len() && #[trigger] self@[i].0 == pin_label;
        assert(e[i].0 == pin_label);
        match self.pin_map.get(pin_label) {
            Some(index) => {
                proof {
                    let j = choose|j: int| 0 <= j < e.len() && #[trigger] e[j] == (pin_label, index);
                    assert(e[j].1 == j);
                    assert(self@[j].0 == pin_label);
                    self.lemma_labels_unique();
                    lemma_index_of(self@, pin_label, j);
                }
                index
            },
            None => {
                assert(has_key(e, pin_label));
                0
            },
        }
    }

    /// Drives the pin labelled `pin_label` to `state`, switching it to output if needed.
    pub fn output(&mut self, pin_label: PinLabel, state: PinState)
        requires
            old(self).wf(),
            is_registered(old(self)@, pin_label),
        ensures
            final(self).wf(),
            final(self)@ == output_at(old(self)@, pin_label, state),
    {
        let i = self.get_pin(pin_label);
        self.pins[i].output_state(state);
        assert(self@ =~= output_at(old(self)@, pin_label, state));
    }

    /// Reads the pin labelled `pin_label`, switching it to a pulled-up input if needed.
    pub fn input(&mut self, pin_label: PinLabel) -> (r: PinState)
        requires
            old(self).wf(),
            is_registered(old(self)@, pin_label),
        ensures
            final(self).wf(),
            final(self)@ == input_at(old(self)@, pin_label, r),
    {
        let i = self.get_pin(pin_label);
        let r = self.pins[i].input();
        assert(self@ =~= input_at(old(self)@, pin_label, r));
        r
    }

    /// The pin registered under `pin_label`.
    pub fn pin(&self, pin_label: PinLabel) -> (r: &MutablePin<P>)
        requires
            self.wf(),
            is_registered(self@, pin_label),
        ensures
            r@ == self@[index_of(self@, pin_label)].1,
    {
        let i = self.get_pin(pin_label);
        &self.pins[i]
    }

    /// Whether a pin is registered under `pin_label`.
    pub fn has_pin(&self, pin_label: PinLabel) -> (r: bool)
        requires
            self.wf(),
        ensures
            r == is_registered(self@, pin_label),
    {
        let r = self.pin_map.contains_key(pin_label);
        proof {
            let e = pin_map_entries(self.pin_map);
            if r {
                let i = choose|i: int| 0 <= i < e.len() && #[trigger] e[i].0 == pin_label;
                assert(self@[i].0 == pin_label);
            }
            if is_registered(self@, pin_label) {
                let i = choose|i: int| 0 <= i < self@.len() && #[trigger] self@[i].0 == pin_label;
                assert(e[i].0 == pin_label);
            }
        }
        r
    }

    /// Every registered pin's label and display name, in registration order.
    pub fn list(&self) -> (r: Vec<(PinLabel, PinName)>)
        requires
            self.wf(),
        ensures
            r@ == listing(self@),
    {
        let entries = self.pin_map.entries();
        let mut r: Vec<(PinLabel, PinName)> = Vec::new();
        let mut i: usize = 0;
        while i < entries.len()
            invariant
                self.wf(),
                entries@ == pin_map_entries(self.pin_map),
                i <= entries@.len(),
                r@ =~= listing(self@).take(i as int),
            decreases entries@.len() - i,
        {
            let (label, index) = entries[i];
            let name = self.pins[index].name();
            r.push((label, name));
            i = i + 1;
        }
        assert(listing(self@).take(i as int) =~= listing(self@));
        r
    }
}

} // verus!
