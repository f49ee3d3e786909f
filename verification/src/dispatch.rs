//! Decoder for the inbound event stream.
//!
//! Inbound bytes are a flat sequence of `eventKind:u32, length:u32,
//! payload` triples, little-endian, with no tag byte and no entity id:
//! a different wire shape from the outbound command buffer, sharing only
//! the length-prefix convention. Decoding walks the stream and collects
//! one `Event` per well-formed triple whose kind is registered; an
//! unregistered kind or a truncation stops the walk, and everything
//! decoded before the stop stands.

use vstd::prelude::*;
use vstd::bytes::*;
use vstd::slice::{slice_subrange, slice_to_vec};
use crate::mem::RpcMem;

verus! {

/// One decoded inbound event, ready to be handed to its handler.
pub struct Event {
    /// The registered event kind the stream named.
    pub t: u32,
    /// The event's payload, exactly `length` bytes.
    pub payload: Vec<u8>,
}

/// Mathematical model of an inbound event.
pub struct EventModel {
    pub t: u32,
    pub payload: Seq<u8>,
}

impl View for Event {
    type V = EventModel;

    open spec fn view(&self) -> EventModel {
        EventModel { t: self.t, payload: self.payload@ }
    }
}

/// How a decode pass over an inbound stream ended.
#[derive(PartialEq, Eq, Structural, Clone, Copy, Debug)]
pub enum DecodeEnd {
    /// The stream was consumed exactly.
    Complete,
    /// An event kind with no registered handler was hit; the rest of the
    /// stream is undecodable and was dropped.
    UnknownKind(u32),
    /// The stream ended inside an event's header or declared payload:
    /// malformed input, nothing partial was dispatched.
    Truncated,
}

/// The events decodable from the front of `s` against the registered
/// kinds `reg`, and how the walk ended.
pub open spec fn spec_decode_events(reg: Seq<u32>, s: Seq<u8>) -> (Seq<EventModel>, DecodeEnd)
    decreases s.len(),
{
    if s.len() == 0 {
        (Seq::empty(), DecodeEnd::Complete)
    } else if s.len() < 4 {
        (Seq::empty(), DecodeEnd::Truncated)
    } else {
        let t = spec_u32_from_le_bytes(s.subrange(0, 4));
        if !reg.contains(t) {
            (Seq::empty(), DecodeEnd::UnknownKind(t))
        } else if s.len() < 8 {
            (Seq::empty(), DecodeEnd::Truncated)
        } else {
            let l = spec_u32_from_le_bytes(s.subrange(4, 8)) as int;
            if s.len() < 8 + l {
                (Seq::empty(), DecodeEnd::Truncated)
            } else {
                let r = spec_decode_events(reg, s.skip(8 + l));
                (seq![EventModel { t, payload: s.subrange(8, 8 + l) }] + r.0, r.1)
            }
        }
    }
}

impl RpcMem {
    /// Whether an inbound event kind has been registered.
    fn is_reg(&self, t: u32) -> (r: bool)
        ensures
            r == self.map@.contains(t),
    {
        let mut p: usize = 0;
        let n = self.map.len();
        while p < n
            invariant
                n == self.map@.len(),
                0 <= p <= n,
                forall|i: int| 0 <= i < p ==> self.map@[i] != t,
            decreases n - p,
        {
            if self.map[p] == t {
                return true;
            }
            p = p + 1;
        }
        false
    }

    /// Decodes an inbound event stream against the registered kinds and
    /// hands back the events to dispatch, in stream order, together with
    /// the way the walk ended. Decoding stops at the first unregistered
    /// kind or truncation; events decoded before the stop stand.
    pub fn invoke(&self, bytes: &[u8]) -> (r: (Vec<Event>, DecodeEnd))
        ensures
            r.0@.map_values(|e: Event| e@) == spec_decode_events(self.map@, bytes@).0,
            r.1 == spec_decode_events(self.map@, bytes@).1,
    {
        let ghost reg = self.map@;
        let ghost full = spec_decode_events(reg, bytes@);
        let mut events: Vec<Event> = Vec::new();
        let mut i: usize = 0;
        let n = bytes.len();
        proof {
            assert(bytes@.skip(0) =~= bytes@);
            assert(events@.map_values(|e: Event| e@) + full.0 =~= full.0);
        }
        while i < n
            invariant
                0 <= i <= n,
                n == bytes@.len(),
                reg == self.map@,
                full == spec_decode_events(reg, bytes@),
                full.0 == events@.map_values(|e: Event| e@) + spec_decode_events(
                    reg,
                    bytes@.skip(i as int),
                ).0,
                full.1 == spec_decode_events(reg, bytes@.skip(i as int)).1,
            decreases n - i,
        {
            let ghost s = bytes@.skip(i as int);
            let rem = n - i;
            if rem < 4 {
                proof {
                    assert(events@.map_values(|e: Event| e@) + Seq::<EventModel>::empty()
                        =~= events@.map_values(|e: Event| e@));
                }
                return (events, DecodeEnd::Truncated);
            }
            let t = u32_from_le_bytes(slice_subrange(bytes, i, i + 4));
            proof {
                assert(bytes@.subrange(i as int, i + 4) =~= s.subrange(0, 4));
            }
            if !self.is_reg(t) {
                proof {
                    assert(events@.map_values(|e: Event| e@) + Seq::<EventModel>::empty()
                        =~= events@.map_values(|e: Event| e@));
                }
                return (events, DecodeEnd::UnknownKind(t));
            }
            if rem < 8 {
                proof {
                    assert(events@.map_values(|e: Event| e@) + Seq::<EventModel>::empty()
                        =~= events@.map_values(|e: Event| e@));
                }
                return (events, DecodeEnd::Truncated);
            }
            let l32 = u32_from_le_bytes(slice_subrange(bytes, i + 4, i + 8));
            proof {
                assert(bytes@.subrange(i + 4, i + 8) =~= s.subrange(4, 8));
            }
            let l = l32 as usize;
            if l > rem - 8 {
                proof {
                    assert(s.len() < 8 + (l as int));
                    assert(events@.map_values(|e: Event| e@) + Seq::<EventModel>::empty()
                        =~= events@.map_values(|e: Event| e@));
                }
                return (events, DecodeEnd::Truncated);
            }
            let payload = slice_to_vec(slice_subrange(bytes, i + 8, i + 8 + l));
            let ghost pre = events@.map_values(|e: Event| e@);
            let ev = Event { t, payload };
            events.push(ev);
            proof {
                assert(bytes@.subrange(i + 8, i + 8 + l) =~= s.subrange(8, 8 + (l as int)));
                assert(bytes@.skip(i + 8 + l) =~= s.skip(8 + (l as int)));
                assert(events@.map_values(|e: Event| e@) =~= pre.push(ev@));
                let rec = spec_decode_events(reg, s.skip(8 + (l as int)));
                assert(spec_decode_events(reg, s).0 == seq![ev@] + rec.0);
                assert(pre.push(ev@) + rec.0 =~= pre + (seq![ev@] + rec.0));
            }
            i = i + 8 + l;
        }
        proof {
            assert(bytes@.skip(n as int) =~= Seq::<u8>::empty());
            assert(events@.map_values(|e: Event| e@) + Seq::<EventModel>::empty()
                =~= events@.map_values(|e: Event| e@));
        }
        (events, DecodeEnd::Complete)
    }
}

} // verus!
