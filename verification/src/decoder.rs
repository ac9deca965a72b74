//! Resumable decoding of field headers: events, states, and the header
//! decoder that enforces monotonic tag ordering.

use crate::error::Error;
use crate::field::{header_of, header_value, lemma_header_value_round_trip, Header, Tag, MAX_TAG};
use crate::varint;
use crate::varint::{
    complete_result, encoding, lemma_encoding_round_trip, needed_len, stream_complete,
    stream_encoding,
};
use crate::wire_type::WireType;
use vstd::prelude::*;

verus! {

/// Events produced by the decoder.
#[derive(Clone, Copy, Debug, PartialEq, Eq)]
pub enum Event {
    /// A field header was decoded.
    FieldHeader(Header),
}

/// Decoder for field headers: wraps a resumable varint decoder.
#[derive(Debug, Default)]
pub struct Decoder(varint::Decoder);

/// Decoder position: either mid-header, holding the partial varint, or
/// handed over to the value decoding that the last header announced.
#[derive(Debug)]
pub enum State {
    /// Decoding a field header
    Header(Decoder),

    /// Decoding a field's value of the given wire type (outside this
    /// core's scope)
    Value(WireType),
}

/// The state that follows a produced event: a field header hands control
/// to value decoding for its wire type.
pub open spec fn spec_transition(event: Event) -> State {
    match event {
        Event::FieldHeader(h) => State::Value(h.wire_type),
    }
}

impl State {
    /// Compute the next state from a produced event, deterministically
    /// from the event alone.
    pub fn transition(event: &Event) -> (r: State)
        ensures
            r == spec_transition(*event),
    {
        match event {
            Event::FieldHeader(h) => State::Value(h.wire_type),
        }
    }
}

/// Does `tag` respect strict ordering after `last_tag`?
pub open spec fn order_ok(last_tag: Option<Tag>, tag: Tag) -> bool {
    match last_tag {
        Option::None => true,
        Option::Some(t) => tag > t,
    }
}

/// The outcome of decoding the complete header at the front of stream
/// `t` after a field tagged `last_tag`: the header, a decode failure for
/// a malformed varint, or an ordering failure carrying the offending
/// tag.
pub open spec fn header_result(t: Seq<u8>, last_tag: Option<Tag>) -> Result<Header, Error> {
    match complete_result(stream_encoding(t)) {
        Ok(v) => {
            let h = header_of(v);
            if order_ok(last_tag, h.tag) {
                Ok(h)
            } else {
                Err(Error::Order { tag: h.tag })
            }
        },
        Err(e) => Err(e),
    }
}

impl Decoder {
    /// A partial header decoder never holds a complete varint.
    pub closed spec fn wf(self) -> bool {
        self.0.wf()
    }

    /// The bytes consumed so far towards the pending header.
    pub closed spec fn view(self) -> Seq<u8> {
        self.0@
    }

    /// A fresh header decoder with no progress, for the start of a
    /// message scope.
    pub fn new() -> (r: Decoder)
        ensures
            r@ == Seq::<u8>::empty(),
            r.wf(),
    {
        Decoder(varint::Decoder::new())
    }

    /// Process the given input data, advancing the slice for the amount
    /// of data processed, and returning the new state.
    ///
    /// Viewing the decoder's prior bytes followed by the input as one
    /// stream: while the stream is shorter than the header's varint
    /// requires, all input moves into the returned `Header` state and no
    /// event is produced. Once the varint is complete, exactly its bytes
    /// are consumed and it is split into a [`Header`]; a tag not
    /// strictly greater than `last_tag` fails with `Order`, and
    /// otherwise the `FieldHeader` event and the state it implies are
    /// returned.
    pub fn decode<'a>(self, input: &mut &'a [u8], last_tag: Option<Tag>) -> (r: Result<
        (State, Option<Event>),
        Error,
    >)
        requires
            self.wf(),
        ensures
            ({
                let t = self@ + (*old(input))@;
                if !stream_complete(t) {
                    &&& r matches Ok(p)
                    &&& p.1 is None
                    &&& p.0 matches State::Header(d) && d@ == t && d.wf()
                    &&& (*final(input))@ == Seq::<u8>::empty()
                } else {
                    &&& (*final(input))@ == (*old(input))@.skip(needed_len(t[0]) - self@.len())
                    &&& (match header_result(t, last_tag) {
                        Ok(h) => r == Ok::<(State, Option<Event>), Error>(
                            (spec_transition(Event::FieldHeader(h)), Some(Event::FieldHeader(h))),
                        ),
                        Err(e) => r == Err::<(State, Option<Event>), Error>(e),
                    })
                }
            }),
    {
        let mut this = self;
        match this.0.decode(input) {
            Ok(Some(value)) => {
                let header = Header::from_value(value);
                if let Some(tag) = last_tag {
                    if header.tag <= tag {
                        return Err(Error::Order { tag: header.tag });
                    }
                }
                let event = Event::FieldHeader(header);
                let new_state = State::transition(&event);
                Ok((new_state, Some(event)))
            },
            Ok(None) => Ok((State::Header(this), None)),
            Err(e) => Err(e),
        }
    }
}

/// Resumability: feeding a header's bytes in two calls decides exactly
/// as feeding them in one. A first call on an incomplete prefix
/// `bytes.take(k)` consumes it whole and holds it unchanged, so the
/// second call decides on `bytes.take(k) + bytes.skip(k)` — the very
/// stream a single call would see.
pub proof fn lemma_resumability(bytes: Seq<u8>, k: int, last_tag: Option<Tag>)
    requires
        0 <= k <= bytes.len(),
    ensures
        bytes.take(k) + bytes.skip(k) == bytes,
        header_result(bytes.take(k) + bytes.skip(k), last_tag) == header_result(bytes, last_tag),
{
    assert(bytes.take(k) + bytes.skip(k) =~= bytes);
}

/// Round trip: the canonical encoding of a header built from any
/// (tag, wire type) pair decodes back to exactly that pair.
pub proof fn lemma_header_round_trip(tag: Tag, w: WireType, last_tag: Option<Tag>)
    requires
        tag <= MAX_TAG,
        order_ok(last_tag, tag),
    ensures
        stream_complete(encoding(header_value(tag, w))),
        header_result(encoding(header_value(tag, w)), last_tag) == Ok::<Header, Error>(
            Header { tag: tag, wire_type: w },
        ),
{
    let v = header_value(tag, w);
    lemma_encoding_round_trip(v);
    lemma_header_value_round_trip(tag, w);
    let enc = encoding(v);
    assert(enc.take(enc.len() as int) =~= enc);
}

/// Ordering enforcement: after a field tagged `t2`, a header whose tag
/// `t1` is not strictly greater fails with `Order { tag: t1 }`, and one
/// with a strictly greater tag always succeeds.
pub proof fn lemma_ordering(t1: Tag, t2: Tag, w1: WireType, w2: WireType)
    requires
        t1 <= MAX_TAG,
        t2 <= MAX_TAG,
    ensures
        header_result(encoding(header_value(t2, w2)), None) == Ok::<Header, Error>(
            Header { tag: t2, wire_type: w2 },
        ),
        t1 <= t2 ==> header_result(encoding(header_value(t1, w1)), Some(t2)) == Err::<
            Header,
            Error,
        >(Error::Order { tag: t1 }),
        t1 > t2 ==> header_result(encoding(header_value(t1, w1)), Some(t2)) == Ok::<
            Header,
            Error,
        >(Header { tag: t1, wire_type: w1 }),
{
    lemma_header_round_trip(t2, w2, None);
    if t1 > t2 {
        lemma_header_round_trip(t1, w1, Some(t2));
    } else {
        let v = header_value(t1, w1);
        lemma_encoding_round_trip(v);
        lemma_header_value_round_trip(t1, w1);
        let enc = encoding(v);
        assert(enc.take(enc.len() as int) =~= enc);
    }
}

} // verus!
