//! Incremental decoding of messages from a byte source.
//!
//! A message is read one byte at a time and the decoder stops as soon as the
//! bytes read decide it: it never reads a byte of the next message. What the
//! bytes read so far decide is stated by the scan functions below.
use vstd::prelude::*;
use vstd::std_specs::iter::IteratorSpec;
use vstd::utf8::*;

use crate::wire::{
    action_wire, encode_char_array, label_bytes, lemma_pin_name_view, response_wire, state_byte, Action,
    PinName, PinState, Response, MAX_ACTION_WIRE_SIZE, MAX_RESPONSE_WIRE_SIZE,
};

verus! {

/// Why a message could not be decoded.
#[derive(Clone, Copy, Debug, PartialEq, Eq, Structural)]
pub enum DecodeError {
    /// The source ran out before the message was complete.
    UnexpectedEnd,
    /// A variant tag or a pin state byte has no meaning.
    BadVariant,
    /// A label field is not the UTF-8 encoding of exactly one character.
    BadLabel,
}

/// What a prefix of the input decides.
pub enum Scan<T> {
    /// More bytes are needed.
    Partial,
    /// The message is complete, or known to be malformed.
    Done(Result<T, DecodeError>),
}

/// The UTF-8 width announced by a leading byte, or 0 for a byte that cannot lead.
pub open spec fn lead_width(b: u8) -> int {
    if b <= 0x7F {
        1
    } else if 0xC0 <= b <= 0xDF {
        2
    } else if 0xE0 <= b <= 0xEF {
        3
    } else if 0xF0 <= b <= 0xF7 {
        4
    } else {
        0
    }
}

/// The character that the bytes of a label field stand for.
pub open spec fn field_char(f: Seq<u8>) -> char {
    decode_first_codepoint(f) as char
}

/// The bytes are exactly the UTF-8 encoding of one character.
pub open spec fn is_label_field(f: Seq<u8>) -> bool {
    &&& f.len() >= 1
    &&& lead_width(f[0]) == f.len()
    &&& encode_scalar(field_char(f) as u32) == f
}

/// What the bytes read of a label decide.
pub open spec fn scan_label(s: Seq<u8>) -> Scan<char> {
    if s.len() == 0 {
        Scan::Partial
    } else if !(1 <= s[0] <= 4) {
        Scan::Done(Err(DecodeError::BadLabel))
    } else if s.len() < 1 + s[0] {
        Scan::Partial
    } else if is_label_field(s.subrange(1, 1 + s[0])) {
        Scan::Done(Ok(field_char(s.subrange(1, 1 + s[0]))))
    } else {
        Scan::Done(Err(DecodeError::BadLabel))
    }
}

/// The pin state that a byte stands for.
pub open spec fn state_of_byte(b: u8) -> Result<PinState, DecodeError> {
    if b == 0 {
        Ok(PinState::Low)
    } else if b == 1 {
        Ok(PinState::High)
    } else {
        Err(DecodeError::BadVariant)
    }
}

/// What the bytes read of a request decide.
pub open spec fn scan_action(s: Seq<u8>) -> Scan<Action> {
    if s.len() == 0 {
        Scan::Partial
    } else if s[0] == 2 {
        Scan::Done(Ok(Action::List))
    } else if s[0] > 2 {
        Scan::Done(Err(DecodeError::BadVariant))
    } else {
        match scan_label(s.skip(1)) {
            Scan::Partial => Scan::Partial,
            Scan::Done(Err(e)) => Scan::Done(Err(e)),
            Scan::Done(Ok(l)) => {
                let end = 2 + s[1];
                if s[0] == 1 {
                    Scan::Done(Ok(Action::Input(l)))
                } else if s.len() <= end {
                    Scan::Partial
                } else {
                    match state_of_byte(s[end]) {
                        Ok(st) => Scan::Done(Ok(Action::Output(l, st))),
                        Err(e) => Scan::Done(Err(e)),
                    }
                }
            },
        }
    }
}

/// What the bytes read of a reply decide.
pub open spec fn scan_response(s: Seq<u8>) -> Scan<Response> {
    if s.len() == 0 {
        Scan::Partial
    } else if s[0] == 3 {
        Scan::Done(Ok(Response::Error))
    } else if s[0] > 3 {
        Scan::Done(Err(DecodeError::BadVariant))
    } else {
        match scan_label(s.skip(1)) {
            Scan::Partial => Scan::Partial,
            Scan::Done(Err(e)) => Scan::Done(Err(e)),
            Scan::Done(Ok(l)) => {
                let end = 2 + s[1];
                if s[0] == 2 {
                    if s.len() < end + 3 {
                        Scan::Partial
                    } else {
                        Scan::Done(Ok(Response::List(l, name_of(s.subrange(end, end + 3)))))
                    }
                } else if s.len() <= end {
                    Scan::Partial
                } else {
                    match state_of_byte(s[end]) {
                        Ok(st) => Scan::Done(
                            Ok(
                                if s[0] == 0 {
                                    Response::Output(l, st)
                                } else {
                                    Response::Input(l, st)
                                },
                            ),
                        ),
                        Err(e) => Scan::Done(Err(e)),
                    }
                }
            },
        }
    }
}

/// The pin name whose bytes are `b`.
pub open spec fn name_of(b: Seq<u8>) -> PinName {
    choose|n: PinName| n@ == b
}

/// `r` is what a label reader returns that read exactly `t`: it stopped at
/// the first prefix that decides, or when the source ran out.
pub open spec fn label_stopped(t: Seq<u8>, r: Result<char, DecodeError>) -> bool {
    &&& forall|k: int| 0 <= k < t.len() ==> #[trigger] scan_label(t.take(k)) == Scan::<char>::Partial
    &&& match scan_label(t) {
        Scan::Partial => r == Err::<char, DecodeError>(DecodeError::UnexpectedEnd),
        Scan::Done(d) => r == d,
    }
}

/// `r` is what a request decoder returns that read exactly `t`: it stopped
/// at the first prefix that decides, or when the source ran out.
pub open spec fn action_stopped(t: Seq<u8>, r: Result<Action, DecodeError>) -> bool {
    &&& forall|k: int| 0 <= k < t.len() ==> #[trigger] scan_action(t.take(k)) == Scan::<Action>::Partial
    &&& match scan_action(t) {
        Scan::Partial => r == Err::<Action, DecodeError>(DecodeError::UnexpectedEnd),
        Scan::Done(d) => r == d,
    }
}

/// `r` is what a reply decoder returns that read exactly `t`: it stopped
/// at the first prefix that decides, or when the source ran out.
pub open spec fn response_stopped(t: Seq<u8>, r: Result<Response, DecodeError>) -> bool {
    &&& forall|k: int| 0 <= k < t.len() ==> #[trigger] scan_response(t.take(k)) == Scan::<Response>::Partial
    &&& match scan_response(t) {
        Scan::Partial => r == Err::<Response, DecodeError>(DecodeError::UnexpectedEnd),
        Scan::Done(d) => r == d,
    }
}


/// Longest label field: the UTF-8 encoding of one character.
pub const MAX_LABEL_SIZE: usize = 4;

/// A byte source paired with a scratch buffer for the variable parts of a
/// message: the bytes of its label.
///
/// What has been read from the source, and whether it has ended, is kept in
/// ghost state only.
pub struct BufferedIterator<'a, I> {
    iter: &'a mut I,
    buffer: &'a mut [u8],
    filled: usize,
    taken: Ghost<Seq<u8>>,
    ended: Ghost<bool>,
}

impl<'a, I: Iterator<Item = u8>> BufferedIterator<'a, I> {
    /// The bytes read from the source so far.
    pub closed spec fn taken(&self) -> Seq<u8> {
        self.taken@
    }

    /// Whether the source has reported its end.
    pub closed spec fn ended(&self) -> bool {
        self.ended@
    }

    /// The contents of the scratch buffer.
    pub closed spec fn buffer(&self) -> Seq<u8> {
        self.buffer@
    }

    /// How many bytes the scratch buffer can still take.
    pub closed spec fn room(&self) -> int {
        self.buffer@.len() - self.filled
    }

    /// The bytes kept fit in the buffer.
    pub closed spec fn wf(&self) -> bool {
        self.filled <= self.buffer@.len()
    }

    /// The byte source, as it stands now. For an iterator that obeys vstd's
    /// iterator laws, `remaining()` of it is what it will still yield.
    pub closed spec fn source(&self) -> I {
        *self.iter
    }

    /// Reads from `iter`, keeping label bytes in `buffer`.
    pub fn from_iter_and_buffer(iter: &'a mut I, buffer: &'a mut [u8]) -> (r: Self)
        ensures
            r.wf(),
            r.taken() == Seq::<u8>::empty(),
            !r.ended(),
            r.buffer() == old(buffer)@,
            r.room() == old(buffer)@.len(),
            r.source() == *old(iter),
    {
        BufferedIterator { iter, buffer, filled: 0, taken: Ghost(Seq::empty()), ended: Ghost(false) }
    }

    /// [`Self::from_iter_and_buffer`], which moreover states that what `iter`
    /// ends as is what the pair leaves of it.
    fn wrap(iter: &'a mut I, buffer: &'a mut [u8]) -> (r: Self)
        ensures
            r.wf(),
            r.taken() == Seq::<u8>::empty(),
            !r.ended(),
            r.room() == old(buffer)@.len(),
            r.source() == *old(iter),
            *final(r.iter) == *final(iter),
    {
        BufferedIterator { iter, buffer, filled: 0, taken: Ghost(Seq::empty()), ended: Ghost(false) }
    }

    /// Reads the next byte of the source: `Some(b)` exactly when the source
    /// gives `b`. The scratch buffer is left as it was.
    pub fn pop(&mut self) -> (r: Option<u8>)
        requires
            old(self).wf(),
        ensures
            final(self).wf(),
            final(self).buffer() == old(self).buffer(),
            final(self).room() == old(self).room(),
            match r {
                Some(b) => final(self).taken() == old(self).taken().push(b) && final(self).ended()
                    == old(self).ended(),
                None => final(self).taken() == old(self).taken() && final(self).ended(),
            },
            old(self).source().obeys_prophetic_iter_laws() ==> {
                &&& final(self).source().obeys_prophetic_iter_laws()
                &&& final(self).taken().len() <= old(self).taken().len() + old(self).source().remaining().len()
                &&& final(self).taken() == old(self).taken() + old(self).source().remaining().take(
                    final(self).taken().len() - old(self).taken().len(),
                )
                &&& final(self).source().remaining() == old(self).source().remaining().skip(
                    final(self).taken().len() - old(self).taken().len(),
                )
            },
            old(self).source().obeys_prophetic_iter_laws() && r is None ==> final(self).source().remaining().len() == 0,
    {
        self.next_byte()
    }

    /// [`Self::pop`], which moreover keeps reading through the same source
    /// reference, so that a caller that lent the source sees what is left of it.
    fn next_byte(&mut self) -> (r: Option<u8>)
        requires
            old(self).wf(),
        ensures
            final(self).wf(),
            final(self).buffer() == old(self).buffer(),
            final(self).room() == old(self).room(),
            final(self).filled == old(self).filled,
            match r {
                Some(b) => final(self).taken() == old(self).taken().push(b) && final(self).ended()
                    == old(self).ended(),
                None => final(self).taken() == old(self).taken() && final(self).ended(),
            },
            old(self).source().obeys_prophetic_iter_laws() ==> {
                &&& final(self).source().obeys_prophetic_iter_laws()
                &&& final(self).taken().len() <= old(self).taken().len() + old(self).source().remaining().len()
                &&& final(self).taken() == old(self).taken() + old(self).source().remaining().take(
                    final(self).taken().len() - old(self).taken().len(),
                )
                &&& final(self).source().remaining() == old(self).source().remaining().skip(
                    final(self).taken().len() - old(self).taken().len(),
                )
            },
            old(self).source().obeys_prophetic_iter_laws() && r is None ==> final(self).source().remaining().len() == 0,
            *final(final(self).iter) == *final(old(self).iter),
    {
        let ghost rest = self.source().remaining();
        proof {
            assert(old(self).taken() + rest.take(0) =~= old(self).taken());
            assert(rest.skip(0) =~= rest);
        }
        match self.iter.next() {
            Some(b) => {
                self.taken = Ghost(self.taken@.push(b));
                proof {
                    if old(self).source().obeys_prophetic_iter_laws() {
                        assert(old(self).taken() + rest.take(1) =~= old(self).taken().push(b));
                        assert(rest.skip(1) =~= rest.drop_first());
                    }
                }
                Some(b)
            },
            None => {
                self.ended = Ghost(true);
                None
            },
        }
    }

    /// Keeps a byte of a label in the scratch buffer.
    fn stash(&mut self, b: u8)
        requires
            old(self).wf(),
            old(self).room() > 0,
        ensures
            final(self).wf(),
            final(self).filled == old(self).filled + 1,
            final(self).buffer() == old(self).buffer().update(old(self).filled as int, b),
            final(self).taken() == old(self).taken(),
            final(self).ended() == old(self).ended(),
            final(self).source() == old(self).source(),
            *final(final(self).iter) == *final(old(self).iter),
    {
        self.buffer[self.filled] = b;
        self.filled = self.filled + 1;
    }
}

/// Taking bytes off the front of a source twice is taking them once.
proof fn lemma_read_on(ta: Seq<u8>, ra: Seq<u8>, tb: Seq<u8>, rb: Seq<u8>, tc: Seq<u8>, rc: Seq<u8>)
    requires
        ta.len() <= tb.len() <= ta.len() + ra.len(),
        tb == ta + ra.take(tb.len() - ta.len()),
        rb == ra.skip(tb.len() - ta.len()),
        tb.len() <= tc.len() <= tb.len() + rb.len(),
        tc == tb + rb.take(tc.len() - tb.len()),
        rc == rb.skip(tc.len() - tb.len()),
    ensures
        tc.len() <= ta.len() + ra.len(),
        tc == ta + ra.take(tc.len() - ta.len()),
        rc == ra.skip(tc.len() - ta.len()),
{
    let n1 = tb.len() - ta.len();
    let n2 = tc.len() - tb.len();
    assert(ra.take(n1) + ra.skip(n1).take(n2) =~= ra.take(n1 + n2));
    assert(ta + ra.take(n1) + ra.skip(n1).take(n2) =~= ta + (ra.take(n1) + ra.skip(n1).take(n2)));
    assert(ra.skip(n1).skip(n2) =~= ra.skip(n1 + n2));
}

/// Relies on `char::from_u32`: `Some` exactly for Unicode scalar values, holding that value.
#[verifier::external_body]
fn char_from_u32(u: u32) -> (r: Option<char>)
    ensures
        r is Some <==> is_scalar(u),
        r matches Some(c) ==> c as u32 == u,
{
    char::from_u32(u)
}

/// The UTF-8 width announced by a leading byte, or 0.
fn lead_width_of(b: u8) -> (r: usize)
    ensures
        r == lead_width(b),
{
    if b <= 0x7F {
        1
    } else if 0xC0 <= b && b <= 0xDF {
        2
    } else if 0xE0 <= b && b <= 0xEF {
        3
    } else if 0xF0 <= b && b <= 0xF7 {
        4
    } else {
        0
    }
}

proof fn lemma_encode_one_char(c: char)
    ensures
        encode_utf8(seq![c]) == encode_scalar(c as u32),
{
    reveal_with_fuel(encode_utf8, 2);
    assert(seq![c].drop_first() =~= Seq::<char>::empty());
    assert(encode_utf8(seq![c]) =~= encode_scalar(c as u32));
}

/// The encoding of a character is a label field that stands for it.
pub proof fn lemma_label_field_of_char(c: char)
    ensures
        is_label_field(encode_scalar(c as u32)),
        field_char(encode_scalar(c as u32)) == c,
{
    encode_utf8_first_scalar(seq![c]);
    lemma_encode_one_char(c);
    char_is_scalar(c);
    char_u32_cast(c, c as u32);
}

/// Bytes that decode to a value outside the scalar range are no encoding of a character.
proof fn lemma_field_not_scalar(f: Seq<u8>)
    requires
        !is_scalar(decode_first_codepoint(f)),
    ensures
        !is_label_field(f),
{
    if is_label_field(f) {
        let c = field_char(f);
        lemma_label_field_of_char(c);
        encode_utf8_first_scalar(seq![c]);
        lemma_encode_one_char(c);
        char_is_scalar(c);
    }
}

/// The character whose UTF-8 encoding is exactly `f[start..start + n]`, if there is one.
fn char_of_field(f: &[u8], start: usize, n: usize) -> (r: Option<char>)
    requires
        1 <= n <= 4,
        start + n <= f@.len(),
    ensures
        r == (if is_label_field(f@.subrange(start as int, start + n)) {
            Some(field_char(f@.subrange(start as int, start + n)))
        } else {
            None::<char>
        }),
{
    let ghost fs = f@.subrange(start as int, start + n);
    let b0 = f[start];
    let w = lead_width_of(b0);
    if w != n {
        return None;
    }
    let cp: u32 = if w == 1 {
        (b0 & 0x7F) as u32
    } else if w == 2 {
        (((b0 & 0x1F) as u32) << 6) | ((f[start + 1] & 0x3F) as u32)
    } else if w == 3 {
        (((b0 & 0x0F) as u32) << 12) | (((f[start + 1] & 0x3F) as u32) << 6) | ((f[start + 2]
            & 0x3F) as u32)
    } else {
        (((b0 & 0x07) as u32) << 18) | (((f[start + 1] & 0x3F) as u32) << 12) | (((f[start + 2]
            & 0x3F) as u32) << 6) | ((f[start + 3] & 0x3F) as u32)
    };
    assert(cp == decode_first_codepoint(fs));
    match char_from_u32(cp) {
        None => {
            proof {
                lemma_field_not_scalar(fs);
            }
            None
        },
        Some(c) => {
            proof {
                char_u32_cast(c, cp);
            }
            let (e, len) = encode_char_array(c);
            let flen = f.len();
            if len != n {
                return None;
            }
            let mut i: usize = 0;
            while i < len
                invariant
                    len == n,
                    1 <= n <= 4,
                    start + n <= f@.len(),
                    flen == f@.len(),
                    fs == f@.subrange(start as int, start + n),
                    e@.take(len as int) == encode_scalar(field_char(fs) as u32),
                    e@.len() == 4,
                    i <= len,
                    forall|j: int| 0 <= j < i ==> e@[j] == fs[j],
                decreases len - i,
            {
                if e[i] != f[start + i] {
                    assert(e@.take(len as int)[i as int] != fs[i as int]);
                    return None;
                }
                i = i + 1;
            }
            assert(e@.take(len as int) =~= fs);
            Some(c)
        },
    }
}

/// A decided label keeps its decision whatever follows it.
proof fn lemma_scan_label_extend(d: Seq<u8>, x: Seq<u8>)
    requires
        d.len() >= 1,
        1 <= d[0] <= 4,
        d.len() == 1 + d[0],
    ensures
        scan_label(d + x) == scan_label(d),
{
    assert((d + x).subrange(1, 1 + d[0]) =~= d.subrange(1, 1 + d[0]));
}

/// Prefixes of a message that starts with a tag byte, seen past the tag.
proof fn lemma_past_tag(t: Seq<u8>, k: int)
    requires
        1 <= k <= t.len(),
    ensures
        t.take(k).skip(1) == t.skip(1).take(k - 1),
        t.take(k)[0] == t[0],
        t.take(k).len() == k,
{
    assert(t.take(k).skip(1) =~= t.skip(1).take(k - 1));
}

/// Reads a label field.
fn read_label<I: Iterator<Item = u8>>(src: &mut BufferedIterator<I>) -> (r: Result<char, DecodeError>)
    requires
        old(src).wf(),
        old(src).room() >= MAX_LABEL_SIZE,
    ensures
        final(src).wf(),
        final(src).taken().len() <= old(src).taken().len() + 5,
        final(src).taken() == old(src).taken() + final(src).taken().skip(old(src).taken().len() as int),
        label_stopped(final(src).taken().skip(old(src).taken().len() as int), r),
        r is Ok ==> ({
            let d = final(src).taken().skip(old(src).taken().len() as int);
            d.len() >= 1 && 1 <= d[0] <= 4 && d.len() == 1 + d[0]
        }),
        old(src).source().obeys_prophetic_iter_laws() ==> {
            &&& final(src).source().obeys_prophetic_iter_laws()
            &&& final(src).taken().len() <= old(src).taken().len() + old(src).source().remaining().len()
            &&& final(src).taken() == old(src).taken() + old(src).source().remaining().take(
                final(src).taken().len() - old(src).taken().len(),
            )
            &&& final(src).source().remaining() == old(src).source().remaining().skip(
                final(src).taken().len() - old(src).taken().len(),
            )
        },
        old(src).source().obeys_prophetic_iter_laws() && r == Err::<char, DecodeError>(
            DecodeError::UnexpectedEnd,
        ) ==> final(src).source().remaining().len() == 0,
        r == Err::<char, DecodeError>(DecodeError::UnexpectedEnd) ==> final(src).ended(),
        *final(final(src).iter) == *final(old(src).iter),
{
    let ghost t0 = src.taken();
    proof {
        let r0 = src.source().remaining();
        assert(t0 + r0.take(0) =~= t0);
        assert(r0.skip(0) =~= r0);
    }
    let n = match src.next_byte() {
        Some(b) => b,
        None => {
            assert(src.taken().skip(t0.len() as int) =~= Seq::<u8>::empty());
            return Err(DecodeError::UnexpectedEnd);
        },
    };
    assert(src.taken().skip(t0.len() as int) =~= seq![n]);
    if n < 1 || n > 4 {
        assert(seq![n].take(0) =~= Seq::<u8>::empty());
        return Err(DecodeError::BadLabel);
    }
    let start = src.filled;
    let ghost mut f = Seq::<u8>::empty();
    let mut i: u8 = 0;
    while i < n
        invariant
            src.wf(),
            src.filled == start + i,
            start + MAX_LABEL_SIZE <= src.buffer@.len(),
            t0 == old(src).taken(),
            1 <= n <= 4,
            i <= n,
            f.len() == i,
            src.buffer@.subrange(start as int, start + i) == f,
            src.taken() == t0 + seq![n] + f,
            *final(src.iter) == *final(old(src).iter),
            old(src).source().obeys_prophetic_iter_laws() ==> {
                &&& src.source().obeys_prophetic_iter_laws()
                &&& src.taken().len() <= old(src).taken().len() + old(src).source().remaining().len()
                &&& src.taken() == old(src).taken() + old(src).source().remaining().take(
                    src.taken().len() - old(src).taken().len(),
                )
                &&& src.source().remaining() == old(src).source().remaining().skip(
                    src.taken().len() - old(src).taken().len(),
                )
            },
        decreases n - i,
    {
        let ghost tb = src.taken();
        let ghost rb = src.source().remaining();
        let popped = src.next_byte();
        proof {
            if old(src).source().obeys_prophetic_iter_laws() {
                lemma_read_on(t0, old(src).source().remaining(), tb, rb, src.taken(), src.source().remaining());
            }
        }
        match popped {
            Some(b) => {
                src.stash(b);
                proof {
                    f = f.push(b);
                    assert(src.buffer@.subrange(start as int, start + i + 1) =~= f);
                }
            },
            None => {
                let ghost d = seq![n] + f;
                assert(src.taken().skip(t0.len() as int) =~= d);
                assert forall|k: int| 0 <= k < d.len() implies #[trigger] scan_label(d.take(k))
                    == Scan::<char>::Partial by {
                    assert(k == 0 || d.take(k)[0] == n);
                }
                return Err(DecodeError::UnexpectedEnd);
            },
        }
        i = i + 1;
    }
    let ghost d = seq![n] + f;
    assert(src.taken().skip(t0.len() as int) =~= d);
    assert(d.subrange(1, 1 + n) =~= f);
    assert forall|k: int| 0 <= k < d.len() implies #[trigger] scan_label(d.take(k))
        == Scan::<char>::Partial by {
        assert(k == 0 || d.take(k)[0] == n);
    }
    match char_of_field(&*src.buffer, start, n as usize) {
        Some(c) => Ok(c),
        None => Err(DecodeError::BadLabel),
    }
}

/// The pin state that a byte stands for.
fn state_from_byte(b: u8) -> (r: Result<PinState, DecodeError>)
    ensures
        r == state_of_byte(b),
{
    if b == 0 {
        Ok(PinState::Low)
    } else if b == 1 {
        Ok(PinState::High)
    } else {
        Err(DecodeError::BadVariant)
    }
}

impl Action {
    /// Reads one request from `src`, stopping at the first byte that decides it.
    pub fn decode<I: Iterator<Item = u8>>(src: &mut BufferedIterator<I>) -> (r: Result<Action, DecodeError>)
        requires
            old(src).wf(),
            old(src).taken().len() == 0,
            old(src).room() >= MAX_LABEL_SIZE,
        ensures
            final(src).wf(),
            final(src).taken().len() <= MAX_ACTION_WIRE_SIZE,
            action_stopped(final(src).taken(), r),
            old(src).source().obeys_prophetic_iter_laws() ==> {
                &&& final(src).source().obeys_prophetic_iter_laws()
                &&& final(src).taken().len() <= old(src).taken().len() + old(src).source().remaining().len()
                &&& final(src).taken() == old(src).taken() + old(src).source().remaining().take(
                    final(src).taken().len() - old(src).taken().len(),
                )
                &&& final(src).source().remaining() == old(src).source().remaining().skip(
                    final(src).taken().len() - old(src).taken().len(),
                )
            },
            old(src).source().obeys_prophetic_iter_laws() && r == Err::<Action, DecodeError>(
                DecodeError::UnexpectedEnd,
            ) ==> final(src).source().remaining().len() == 0,
            r == Err::<Action, DecodeError>(DecodeError::UnexpectedEnd) ==> final(src).ended(),
    {
        decode_action(src)
    }
}

/// [`Action::decode`], which moreover keeps reading through the same source reference.
fn decode_action<I: Iterator<Item = u8>>(src: &mut BufferedIterator<I>) -> (r: Result<Action, DecodeError>)
    requires
        old(src).wf(),
        old(src).taken().len() == 0,
        old(src).room() >= MAX_LABEL_SIZE,
    ensures
        final(src).wf(),
        final(src).taken().len() <= MAX_ACTION_WIRE_SIZE,
        action_stopped(final(src).taken(), r),
        old(src).source().obeys_prophetic_iter_laws() ==> {
            &&& final(src).source().obeys_prophetic_iter_laws()
            &&& final(src).taken().len() <= old(src).taken().len() + old(src).source().remaining().len()
            &&& final(src).taken() == old(src).taken() + old(src).source().remaining().take(
                final(src).taken().len() - old(src).taken().len(),
            )
            &&& final(src).source().remaining() == old(src).source().remaining().skip(
                final(src).taken().len() - old(src).taken().len(),
            )
        },
        old(src).source().obeys_prophetic_iter_laws() && r == Err::<Action, DecodeError>(
            DecodeError::UnexpectedEnd,
        ) ==> final(src).source().remaining().len() == 0,
        r == Err::<Action, DecodeError>(DecodeError::UnexpectedEnd) ==> final(src).ended(),
        *final(final(src).iter) == *final(old(src).iter),
{
    let tag = match src.next_byte() {
        Some(b) => b,
        None => {
            return Err(DecodeError::UnexpectedEnd);
        },
    };
    let ghost t1 = src.taken();
    assert(t1 =~= seq![tag]);
    assert(t1.take(0) =~= Seq::<u8>::empty());
    if tag == 2 {
        return Ok(Action::List);
    }
    if tag > 2 {
        return Err(DecodeError::BadVariant);
    }
    let ghost tb = src.taken();
    let ghost rb = src.source().remaining();
    let label = read_label(src);
    proof {
        if old(src).source().obeys_prophetic_iter_laws() {
            lemma_read_on(
                old(src).taken(),
                old(src).source().remaining(),
                tb,
                rb,
                src.taken(),
                src.source().remaining(),
            );
        }
    }

    let ghost t2 = src.taken();
    let ghost d = t2.skip(1);
    assert forall|k: int| 0 <= k <= d.len() implies #[trigger] scan_action(t2.take(k + 1))
        == (if k < d.len() { Scan::Partial } else { scan_action(t2) }) by {
        lemma_past_tag(t2, k + 1);
        assert(t2.take(k + 1).skip(1) == d.take(k));
        assert(d.take(d.len() as int) =~= d);
        assert(t2.take(t2.len() as int) =~= t2);
    }
    assert forall|k: int| 0 <= k < t2.len() implies #[trigger] scan_action(t2.take(k))
        == Scan::<Action>::Partial by {
        if k > 0 {
            assert(scan_action(t2.take((k - 1) + 1)) == Scan::<Action>::Partial);
        } else {
            assert(t2.take(0).len() == 0);
        }
    }
    let l = match label {
        Ok(c) => c,
        Err(e) => {
            return Err(e);
        },
    };
    if tag == 1 {
        return Ok(Action::Input(l));
    }
    let ghost tb = src.taken();
    let ghost rb = src.source().remaining();
    let popped = src.next_byte();
    proof {
        if old(src).source().obeys_prophetic_iter_laws() {
            lemma_read_on(
                old(src).taken(),
                old(src).source().remaining(),
                tb,
                rb,
                src.taken(),
                src.source().remaining(),
            );
        }
    }
    let b = match popped {
        Some(b) => b,
        None => {
            return Err(DecodeError::UnexpectedEnd);
        },
    };
    let ghost t3 = src.taken();
    assert(t3.take(t2.len() as int) =~= t2);
    assert forall|k: int| 0 <= k < t3.len() implies #[trigger] scan_action(t3.take(k))
        == Scan::<Action>::Partial by {
        if k < t2.len() {
            assert(t3.take(k) =~= t2.take(k));
        } else {
            assert(t3.take(k) =~= t2);
        }
    }
    assert(t3.skip(1) =~= d + seq![b]);
    proof {
        lemma_scan_label_extend(d, seq![b]);
    }
    match state_from_byte(b) {
        Ok(st) => Ok(Action::Output(l, st)),
        Err(e) => Err(e),
    }
}

/// What a reply decides once its label is read, by the bytes `x` that follow.
proof fn lemma_response_tail(t2: Seq<u8>, x: Seq<u8>, l: char)
    requires
        t2.len() >= 2,
        t2[0] <= 2,
        1 <= t2[1] <= 4,
        t2.len() == 2 + t2[1],
        scan_label(t2.skip(1)) == Scan::Done(Ok::<char, DecodeError>(l)),
    ensures
        scan_response(t2 + x) == (if t2[0] == 2 {
            if x.len() < 3 {
                Scan::Partial
            } else {
                Scan::Done(Ok(Response::List(l, name_of(x.take(3)))))
            }
        } else if x.len() == 0 {
            Scan::Partial
        } else {
            match state_of_byte(x[0]) {
                Ok(st) => Scan::Done(
                    Ok(
                        if t2[0] == 0 {
                            Response::Output(l, st)
                        } else {
                            Response::Input(l, st)
                        },
                    ),
                ),
                Err(e) => Scan::Done(Err(e)),
            }
        }),
{
    let s = t2 + x;
    assert(s.skip(1) =~= t2.skip(1) + x);
    lemma_scan_label_extend(t2.skip(1), x);
    let end = 2 + t2[1];
    if x.len() >= 3 {
        assert(s.subrange(end, end + 3) =~= x.take(3));
    }
    if x.len() > 0 {
        assert(s[end] == x[0]);
    }
}

impl Response {
    /// Reads one reply from `src`, stopping at the first byte that decides it.
    pub fn decode<I: Iterator<Item = u8>>(src: &mut BufferedIterator<I>) -> (r: Result<Response, DecodeError>)
        requires
            old(src).wf(),
            old(src).taken().len() == 0,
            old(src).room() >= MAX_LABEL_SIZE,
        ensures
            final(src).wf(),
            final(src).taken().len() <= MAX_RESPONSE_WIRE_SIZE,
            response_stopped(final(src).taken(), r),
            old(src).source().obeys_prophetic_iter_laws() ==> {
                &&& final(src).source().obeys_prophetic_iter_laws()
                &&& final(src).taken().len() <= old(src).taken().len() + old(src).source().remaining().len()
                &&& final(src).taken() == old(src).taken() + old(src).source().remaining().take(
                    final(src).taken().len() - old(src).taken().len(),
                )
                &&& final(src).source().remaining() == old(src).source().remaining().skip(
                    final(src).taken().len() - old(src).taken().len(),
                )
            },
            old(src).source().obeys_prophetic_iter_laws() && r == Err::<Response, DecodeError>(
                DecodeError::UnexpectedEnd,
            ) ==> final(src).source().remaining().len() == 0,
            r == Err::<Response, DecodeError>(DecodeError::UnexpectedEnd) ==> final(src).ended(),
    {
        decode_response(src)
    }
}

/// [`Response::decode`], which moreover keeps reading through the same source reference.
fn decode_response<I: Iterator<Item = u8>>(src: &mut BufferedIterator<I>) -> (r: Result<Response, DecodeError>)
    requires
        old(src).wf(),
        old(src).taken().len() == 0,
        old(src).room() >= MAX_LABEL_SIZE,
    ensures
        final(src).wf(),
        final(src).taken().len() <= MAX_RESPONSE_WIRE_SIZE,
        response_stopped(final(src).taken(), r),
        old(src).source().obeys_prophetic_iter_laws() ==> {
            &&& final(src).source().obeys_prophetic_iter_laws()
            &&& final(src).taken().len() <= old(src).taken().len() + old(src).source().remaining().len()
            &&& final(src).taken() == old(src).taken() + old(src).source().remaining().take(
                final(src).taken().len() - old(src).taken().len(),
            )
            &&& final(src).source().remaining() == old(src).source().remaining().skip(
                final(src).taken().len() - old(src).taken().len(),
            )
        },
        old(src).source().obeys_prophetic_iter_laws() && r == Err::<Response, DecodeError>(
            DecodeError::UnexpectedEnd,
        ) ==> final(src).source().remaining().len() == 0,
        r == Err::<Response, DecodeError>(DecodeError::UnexpectedEnd) ==> final(src).ended(),
        *final(final(src).iter) == *final(old(src).iter),
{
    let tag = match src.next_byte() {
        Some(b) => b,
        None => {
            return Err(DecodeError::UnexpectedEnd);
        },
    };
    let ghost t1 = src.taken();
    assert(t1 =~= seq![tag]);
    assert(t1.take(0) =~= Seq::<u8>::empty());
    if tag == 3 {
        return Ok(Response::Error);
    }
    if tag > 3 {
        return Err(DecodeError::BadVariant);
    }
    let ghost tb = src.taken();
    let ghost rb = src.source().remaining();
    let label = read_label(src);
    proof {
        if old(src).source().obeys_prophetic_iter_laws() {
            lemma_read_on(
                old(src).taken(),
                old(src).source().remaining(),
                tb,
                rb,
                src.taken(),
                src.source().remaining(),
            );
        }
    }

    let ghost t2 = src.taken();
    let ghost d = t2.skip(1);
    assert forall|k: int| 0 <= k <= d.len() implies #[trigger] scan_response(t2.take(k + 1))
        == (if k < d.len() { Scan::Partial } else { scan_response(t2) }) by {
        lemma_past_tag(t2, k + 1);
        assert(t2.take(k + 1).skip(1) == d.take(k));
        assert(t2.take(t2.len() as int) =~= t2);
    }
    assert forall|k: int| 0 <= k < t2.len() implies #[trigger] scan_response(t2.take(k))
        == Scan::<Response>::Partial by {
        if k > 0 {
            assert(scan_response(t2.take((k - 1) + 1)) == Scan::<Response>::Partial);
        } else {
            assert(t2.take(0).len() == 0);
        }
    }
    let l = match label {
        Ok(c) => c,
        Err(e) => {
            return Err(e);
        },
    };
    assert(t2[1] == d[0]);
    let mut tail = [0u8; 3];
    let mut got: usize = 0;
    let want: usize = if tag == 2 { 3 } else { 1 };
    while got < want
        invariant
            src.wf(),
            t2.len() <= 7,
            tail@.len() == 3,
            src.taken() == t2 + tail@.take(got as int),
            got <= want,
            want == (if tag == 2 { 3usize } else { 1usize }),
            old(src).taken().len() == 0,
            *final(src.iter) == *final(old(src).iter),
            old(src).source().obeys_prophetic_iter_laws() ==> {
                &&& src.source().obeys_prophetic_iter_laws()
                &&& src.taken().len() <= old(src).taken().len() + old(src).source().remaining().len()
                &&& src.taken() == old(src).taken() + old(src).source().remaining().take(
                    src.taken().len() - old(src).taken().len(),
                )
                &&& src.source().remaining() == old(src).source().remaining().skip(
                    src.taken().len() - old(src).taken().len(),
                )
            },
        ensures
            old(src).source().obeys_prophetic_iter_laws() && got < want ==> src.source().remaining().len() == 0,
            got < want ==> src.ended(),
            *final(src.iter) == *final(old(src).iter),
        decreases want - got,
    {
        let ghost tb = src.taken();
        let ghost rb = src.source().remaining();
        let ghost old_tail = tail@;
        let popped = src.next_byte();
        proof {
            if old(src).source().obeys_prophetic_iter_laws() {
                lemma_read_on(
                    old(src).taken(),
                    old(src).source().remaining(),
                    tb,
                    rb,
                    src.taken(),
                    src.source().remaining(),
                );
            }
        }
        match popped {
            Some(b) => {
                tail[got] = b;
                got = got + 1;
                assert(tail@.take(got as int) =~= old_tail.take(got - 1).push(b));
            },
            None => {
                break;
            },
        }
    }
    let ghost ts = tail@.take(got as int);
    let ghost t3 = src.taken();
    assert forall|k: int| 0 <= k < t3.len() implies #[trigger] scan_response(t3.take(k))
        == Scan::<Response>::Partial by {
        if k < t2.len() {
            assert(t3.take(k) =~= t2.take(k));
        } else {
            assert(t3.take(k) =~= t2 + ts.take(k - t2.len()));
            lemma_response_tail(t2, ts.take(k - t2.len()), l);
        }
    }
    proof {
        lemma_response_tail(t2, ts, l);
    }
    if got < want {
        return Err(DecodeError::UnexpectedEnd);
    }
    if tag == 2 {
        let name = PinName::from_bytes(tail[0], tail[1], tail[2]);
        proof {
            assert(ts.take(3) =~= seq![tail@[0], tail@[1], tail@[2]]);
            let n = name_of(ts.take(3));
            lemma_pin_name_view(n, name);
        }
        return Ok(Response::List(l, name));
    }
    assert(ts[0] == tail@[0]);
    match state_from_byte(tail[0]) {
        Ok(st) => {
            if tag == 0 {
                Ok(Response::Output(l, st))
            } else {
                Ok(Response::Input(l, st))
            }
        },
        Err(e) => Err(e),
    }
}


impl Action {
    /// Reads one request from `iter` through a scratch buffer of the wire bound.
    ///
    /// From an iterator that obeys its laws, it takes the shortest run of
    /// bytes that decides a request, or all of them if none does, and
    /// leaves the rest.
    pub fn try_from_iter<I: Iterator<Item = u8>>(iter: &mut I) -> (r: Result<Action, DecodeError>)
        ensures
            (*old(iter)).obeys_prophetic_iter_laws() ==> exists|n: int|
                0 <= n <= MAX_ACTION_WIRE_SIZE && n <= (*old(iter)).remaining().len()
                    && #[trigger] action_stopped((*old(iter)).remaining().take(n), r)
                    && (*final(iter)).remaining() == (*old(iter)).remaining().skip(n) && (r
                    == Err::<Action, DecodeError>(DecodeError::UnexpectedEnd) ==> n == (
                *old(iter)).remaining().len()),
    {
        let ghost rest = (*iter).remaining();
        let ghost obeys = (*iter).obeys_prophetic_iter_laws();
        let mut buffer = [0u8; MAX_ACTION_WIRE_SIZE];
        let mut src = BufferedIterator::wrap(&mut *iter, &mut buffer);
        let r = decode_action(&mut src);
        let ghost n = src.taken().len() as int;
        proof {
            assert(has_resolved(src));
            if obeys {
                assert(Seq::<u8>::empty() + rest.take(n) =~= rest.take(n));
            }
        }
        r
    }
}

impl Response {
    /// Reads one reply from `iter` through a scratch buffer of the wire bound.
    ///
    /// From an iterator that obeys its laws, it takes the shortest run of
    /// bytes that decides a reply, or all of them if none does, and
    /// leaves the rest.
    pub fn try_from_iter<I: Iterator<Item = u8>>(iter: &mut I) -> (r: Result<Response, DecodeError>)
        ensures
            (*old(iter)).obeys_prophetic_iter_laws() ==> exists|n: int|
                0 <= n <= MAX_RESPONSE_WIRE_SIZE && n <= (*old(iter)).remaining().len()
                    && #[trigger] response_stopped((*old(iter)).remaining().take(n), r)
                    && (*final(iter)).remaining() == (*old(iter)).remaining().skip(n) && (r
                    == Err::<Response, DecodeError>(DecodeError::UnexpectedEnd) ==> n == (
                *old(iter)).remaining().len()),
    {
        let ghost rest = (*iter).remaining();
        let ghost obeys = (*iter).obeys_prophetic_iter_laws();
        let mut buffer = [0u8; MAX_RESPONSE_WIRE_SIZE];
        let mut src = BufferedIterator::wrap(&mut *iter, &mut buffer);
        let r = decode_response(&mut src);
        let ghost n = src.taken().len() as int;
        proof {
            assert(has_resolved(src));
            if obeys {
                assert(Seq::<u8>::empty() + rest.take(n) =~= rest.take(n));
            }
        }
        r
    }
}

/// A label's bytes decide that label exactly at their end.
proof fn lemma_scan_label_bytes(l: char)
    ensures
        label_bytes(l).len() >= 1,
        1 <= label_bytes(l)[0] <= 4,
        label_bytes(l).len() == 1 + label_bytes(l)[0],
        scan_label(label_bytes(l)) == Scan::Done(Ok::<char, DecodeError>(l)),
        forall|k: int| 0 <= k < label_bytes(l).len() ==> #[trigger] scan_label(label_bytes(l).take(k))
            == Scan::<char>::Partial,
{
    let lb = label_bytes(l);
    char_is_scalar(l);
    lemma_label_field_of_char(l);
    assert(lb.subrange(1, 1 + lb[0]) =~= encode_scalar(l as u32));
    assert forall|k: int| 0 <= k < lb.len() implies #[trigger] scan_label(lb.take(k))
        == Scan::<char>::Partial by {
        assert(k == 0 || lb.take(k)[0] == lb[0]);
    }
}

/// What the bytes of a message decide, prefix by prefix, once the tag and
/// the label are known: shared by requests and replies.
proof fn lemma_label_prefixes(t: Seq<u8>, l: char, k: int)
    requires
        t.len() >= 1 + label_bytes(l).len(),
        t.skip(1).take(label_bytes(l).len() as int) == label_bytes(l),
        1 <= k <= t.len(),
    ensures
        k < 1 + label_bytes(l).len() ==> scan_label(t.take(k).skip(1)) == Scan::<char>::Partial,
        k >= 1 + label_bytes(l).len() ==> scan_label(t.take(k).skip(1)) == Scan::Done(
            Ok::<char, DecodeError>(l),
        ),
        k >= 2 ==> t.take(k)[1] == label_bytes(l)[0],
{
    let lb = label_bytes(l);
    lemma_scan_label_bytes(l);
    lemma_past_tag(t, k);
    if k < 1 + lb.len() {
        assert(t.take(k).skip(1) =~= lb.take(k - 1));
    } else {
        assert(t.take(k).skip(1) =~= lb + t.take(k).skip(1 + lb.len() as int));
        lemma_scan_label_extend(lb, t.take(k).skip(1 + lb.len() as int));
    }
    if k >= 2 {
        assert(t.take(k)[1] == t.skip(1)[0]);
    }
}

/// A request's encoding decides that request exactly at its last byte.
pub proof fn lemma_action_round_trip(a: Action)
    ensures
        scan_action(action_wire(a)) == Scan::Done(Ok::<Action, DecodeError>(a)),
        forall|k: int| 0 <= k < action_wire(a).len() ==> #[trigger] scan_action(action_wire(a).take(k))
            == Scan::<Action>::Partial,
{
    let w = action_wire(a);
    assert(w.take(0).len() == 0);
    match a {
        Action::List => {},
        Action::Input(l) => {
            assert(w.skip(1).take(label_bytes(l).len() as int) =~= label_bytes(l));
            assert forall|k: int| 0 <= k < w.len() implies #[trigger] scan_action(w.take(k))
                == Scan::<Action>::Partial by {
                if k >= 1 {
                    lemma_label_prefixes(w, l, k);
                }
            }
            lemma_label_prefixes(w, l, w.len() as int);
            assert(w.take(w.len() as int) =~= w);
        },
        Action::Output(l, st) => {
            let lb = label_bytes(l);
            assert(w.skip(1).take(lb.len() as int) =~= lb);
            assert forall|k: int| 0 <= k < w.len() implies #[trigger] scan_action(w.take(k))
                == Scan::<Action>::Partial by {
                if k >= 1 {
                    lemma_label_prefixes(w, l, k);
                }
            }
            lemma_label_prefixes(w, l, w.len() as int);
            assert(w.take(w.len() as int) =~= w);
            assert(w[1 + lb.len() as int] == state_byte(st));
        },
    }
}

/// A reply's encoding decides that reply exactly at its last byte.
pub proof fn lemma_response_round_trip(r: Response)
    ensures
        scan_response(response_wire(r)) == Scan::Done(Ok::<Response, DecodeError>(r)),
        forall|k: int| 0 <= k < response_wire(r).len() ==> #[trigger] scan_response(response_wire(r).take(k))
            == Scan::<Response>::Partial,
{
    let w = response_wire(r);
    assert(w.take(0).len() == 0);
    match r {
        Response::Error => {},
        Response::Output(l, st) | Response::Input(l, st) => {
            let lb = label_bytes(l);
            assert(w.skip(1).take(lb.len() as int) =~= lb);
            assert forall|k: int| 0 <= k < w.len() implies #[trigger] scan_response(w.take(k))
                == Scan::<Response>::Partial by {
                if k >= 1 {
                    lemma_label_prefixes(w, l, k);
                }
            }
            lemma_label_prefixes(w, l, w.len() as int);
            assert(w.take(w.len() as int) =~= w);
            assert(w[1 + lb.len() as int] == state_byte(st));
        },
        Response::List(l, n) => {
            let lb = label_bytes(l);
            lemma_pin_name_view(n, n);
            assert(w.skip(1).take(lb.len() as int) =~= lb);
            assert forall|k: int| 0 <= k < w.len() implies #[trigger] scan_response(w.take(k))
                == Scan::<Response>::Partial by {
                if k >= 1 {
                    lemma_label_prefixes(w, l, k);
                }
            }
            lemma_label_prefixes(w, l, w.len() as int);
            assert(w.take(w.len() as int) =~= w);
            let end = 1 + lb.len() as int;
            assert(w.subrange(end, end + 3) =~= n@);
            let m = name_of(n@);
            lemma_pin_name_view(m, n);
        },
    }
}

/// A decoder fed the encoding of a request, followed by anything, returns
/// that request and reads exactly its bytes, unless the source ran out first.
pub proof fn lemma_decode_encoded_action(a: Action, rest: Seq<u8>, t: Seq<u8>, r: Result<Action, DecodeError>)
    requires
        action_stopped(t, r),
        t.len() <= (action_wire(a) + rest).len(),
        t == (action_wire(a) + rest).take(t.len() as int),
        r == Err::<Action, DecodeError>(DecodeError::UnexpectedEnd) ==> t.len() == (action_wire(a) + rest).len(),
    ensures
        r == Ok::<Action, DecodeError>(a),
        t == action_wire(a),
{
    let w = action_wire(a);
    lemma_action_round_trip(a);
    if t.len() < w.len() {
        assert(t =~= w.take(t.len() as int));
    } else if t.len() > w.len() {
        assert(t.take(w.len() as int) =~= w);
    } else {
        assert(t =~= w);
    }
}

/// A decoder fed the encoding of a reply, followed by anything, returns that
/// reply and reads exactly its bytes, unless the source ran out first.
pub proof fn lemma_decode_encoded_response(
    m: Response,
    rest: Seq<u8>,
    t: Seq<u8>,
    r: Result<Response, DecodeError>,
)
    requires
        response_stopped(t, r),
        t.len() <= (response_wire(m) + rest).len(),
        t == (response_wire(m) + rest).take(t.len() as int),
        r == Err::<Response, DecodeError>(DecodeError::UnexpectedEnd) ==> t.len() == (response_wire(m)
            + rest).len(),
    ensures
        r == Ok::<Response, DecodeError>(m),
        t == response_wire(m),
{
    let w = response_wire(m);
    lemma_response_round_trip(m);
    if t.len() < w.len() {
        assert(t =~= w.take(t.len() as int));
    } else if t.len() > w.len() {
        assert(t.take(w.len() as int) =~= w);
    } else {
        assert(t =~= w);
    }
}

} // verus!
