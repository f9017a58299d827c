//! Per-session output streaming: reassembling the bytes read from a
//! pseudo-terminal into clean UTF-8 text without ever splitting a
//! multi-byte character across two emissions.
//!
//! A [`StreamDecoder`] holds the bytes read so far that have not yet been
//! confirmed to end on a UTF-8 boundary.  Each [`StreamDecoder::push`]
//! appends freshly read bytes, emits the longest prefix ending on a
//! boundary as one decoded text chunk, and retains the rest.  At end of
//! stream, [`StreamDecoder::finish`] flushes whatever is still pending —
//! invalid trailing bytes are replaced, never dropped — and records the
//! single exit notification.
//!
//! The decoder carries its whole observable history as ghost state: the
//! bytes ever fed to it and the events ever emitted.  Well-formedness
//! ([`StreamDecoder::wf`]) ties them together, so that when the stream
//! ends the concatenation of all emitted chunks equals the lossy UTF-8
//! decoding of the full byte stream, and the exit notification is the
//! last event and unique.

use crate::strutil::string_from_valid_utf8;
use crate::text::boundary_of;
use crate::text::find_utf8_boundary;
use crate::text::lemma_boundary_split;
use crate::text::lossy_decode;
use crate::text::lossy_reencode;
use vstd::prelude::*;
use vstd::utf8::*;

verus! {

/// One notification produced by a session's output streamer.
pub enum StreamEvent {
    /// A chunk of decoded terminal output.
    Chunk(Seq<char>),
    /// The exit notification: the last event of every session.
    Exited,
}

/// Concatenation of the text carried by a sequence of stream events.
pub open spec fn chunks_concat(evs: Seq<StreamEvent>) -> Seq<char>
    decreases evs.len(),
{
    if evs.len() == 0 {
        Seq::empty()
    } else {
        chunks_concat(evs.drop_last()) + (match evs.last() {
            StreamEvent::Chunk(c) => c,
            StreamEvent::Exited => Seq::empty(),
        })
    }
}

/// The pending-byte buffer and event history of one session's output
/// stream.
pub struct StreamDecoder {
    /// Bytes read from the pseudo-terminal but not yet emitted, because
    /// they may end in the middle of a multi-byte character.
    pending: Vec<u8>,
    /// True until the exit notification has been recorded.
    live: bool,
    /// All bytes ever fed to this decoder.
    history: Ghost<Seq<u8>>,
    /// All events ever emitted by this decoder, in order.
    events: Ghost<Seq<StreamEvent>>,
}

impl StreamDecoder {
    /// Bytes currently held back, waiting for the rest of a character.
    pub closed spec fn pending_bytes(self) -> Seq<u8> {
        self.pending@
    }

    /// True until the exit notification has been emitted.
    pub closed spec fn live(self) -> bool {
        self.live
    }

    /// Every byte ever fed to this decoder.
    pub closed spec fn history(self) -> Seq<u8> {
        self.history@
    }

    /// Every event ever emitted, in emission order.
    pub closed spec fn events(self) -> Seq<StreamEvent> {
        self.events@
    }

    /// Well-formedness.  While the stream is live, the text emitted so far
    /// together with the decoding of the pending bytes joined with any
    /// future bytes always reproduces the decoding of the full stream, and
    /// no exit event exists.  Once finished, the emitted text equals the
    /// lossy decoding of the entire byte history, the pending buffer is
    /// empty, and the event sequence ends in its one exit notification.
    pub closed spec fn wf(self) -> bool {
        &&& (self.live ==> (forall|t: Seq<u8>|
            #[trigger] lossy_decode(self.history@ + t) == chunks_concat(self.events@)
                + lossy_decode(self.pending@ + t)))
        &&& (self.live ==> (forall|i: int|
            0 <= i < self.events@.len() ==> self.events@[i] is Chunk))
        &&& (!self.live ==> {
            &&& self.events@.len() > 0
            &&& self.events@.last() is Exited
            &&& (forall|i: int| 0 <= i < self.events@.len() - 1 ==> self.events@[i] is Chunk)
            &&& chunks_concat(self.events@) == lossy_decode(self.history@)
            &&& self.pending@.len() == 0
        })
    }

    /// A fresh decoder: nothing fed, nothing emitted.
    pub fn new() -> (d: StreamDecoder)
        ensures
            d.wf(),
            d.live(),
            d.history() == Seq::<u8>::empty(),
            d.events() == Seq::<StreamEvent>::empty(),
            d.pending_bytes() == Seq::<u8>::empty(),
    {
        let d = StreamDecoder {
            pending: Vec::new(),
            live: true,
            history: Ghost(Seq::empty()),
            events: Ghost(Seq::empty()),
        };
        proof {
            assert forall|t: Seq<u8>|
                #[trigger] lossy_decode(d.history@ + t) == chunks_concat(d.events@)
                    + lossy_decode(d.pending@ + t) by {
                assert(d.history@ + t =~= d.pending@ + t);
                assert(chunks_concat(d.events@) + lossy_decode(d.pending@ + t) =~= lossy_decode(
                    d.pending@ + t,
                ));
            }
        }
        d
    }

    /// Consume one successful read from the pseudo-terminal.  The new
    /// bytes join the pending buffer; the longest prefix that ends on a
    /// UTF-8 boundary is emitted as one decoded chunk, and the remainder
    /// is retained for the next read.  When no boundary has been reached
    /// yet, nothing is emitted.
    pub fn push(&mut self, data: &[u8]) -> (r: Option<String>)
        requires
            old(self).wf(),
            old(self).live(),
        ensures
            final(self).wf(),
            final(self).live(),
            final(self).history() == old(self).history() + data@,
            ({
                let joined = old(self).pending_bytes() + data@;
                let b = boundary_of(joined);
                if b == 0 {
                    &&& r is None
                    &&& final(self).events() == old(self).events()
                    &&& final(self).pending_bytes() == joined
                } else {
                    &&& (r matches Some(c) && c@ == lossy_decode(joined.take(b)))
                    &&& final(self).events() == old(self).events().push(
                        StreamEvent::Chunk(lossy_decode(joined.take(b))),
                    )
                    &&& final(self).pending_bytes() == joined.skip(b)
                }
            }),
    {
        let ghost old_history = self.history@;
        let ghost old_events = self.events@;
        let ghost old_pending = self.pending@;
        self.pending.extend_from_slice(data);
        self.history = Ghost(old_history + data@);
        let ghost joined = old_pending + data@;
        assert(self.pending@ == joined);
        let b = find_utf8_boundary(self.pending.as_slice());
        if b == 0 {
            proof {
                assert forall|t: Seq<u8>|
                    #[trigger] lossy_decode(self.history@ + t) == chunks_concat(self.events@)
                        + lossy_decode(self.pending@ + t) by {
                    assert(old_history + (data@ + t) =~= self.history@ + t);
                    assert(old_pending + (data@ + t) =~= self.pending@ + t);
                    assert(lossy_decode(old_history + (data@ + t)) == chunks_concat(old_events)
                        + lossy_decode(old_pending + (data@ + t)));
                }
            }
            None
        } else {
            let ghost u = joined.take(b as int);
            let ghost v = joined.skip(b as int);
            let encoded = lossy_reencode(self.pending.as_slice(), 0, b);
            proof {
                assert(joined.subrange(0, b as int) =~= u);
                encode_utf8_valid_utf8(lossy_decode(u));
            }
            let chunk = string_from_valid_utf8(encoded);
            proof {
                encode_utf8_decode_utf8(lossy_decode(u));
                assert(chunk@ == lossy_decode(u));
            }
            let tail = self.pending.split_off(b);
            self.pending = tail;
            self.events = Ghost(old_events.push(StreamEvent::Chunk(chunk@)));
            proof {
                assert(self.pending@ =~= v);
                let new_events = old_events.push(StreamEvent::Chunk(chunk@));
                assert(new_events.drop_last() =~= old_events);
                assert(chunks_concat(new_events) == chunks_concat(old_events) + lossy_decode(u));
                assert forall|t: Seq<u8>|
                    #[trigger] lossy_decode(self.history@ + t) == chunks_concat(self.events@)
                        + lossy_decode(self.pending@ + t) by {
                    assert(old_history + (data@ + t) =~= self.history@ + t);
                    assert(old_pending + (data@ + t) =~= joined + t);
                    assert(lossy_decode(old_history + (data@ + t)) == chunks_concat(old_events)
                        + lossy_decode(old_pending + (data@ + t)));
                    lemma_boundary_split(joined, t);
                    assert(lossy_decode(joined + t) == lossy_decode(u) + lossy_decode(v + t));
                    assert(chunks_concat(old_events) + (lossy_decode(u) + lossy_decode(v + t))
                        =~= chunks_concat(new_events) + lossy_decode(v + t));
                }
            }
            Some(chunk)
        }
    }

    /// End of stream.  Whatever is still pending is emitted as a final
    /// best-effort decoded chunk — invalid trailing bytes are replaced,
    /// never dropped silently — and the exit notification is recorded as
    /// the last event.  Afterward the concatenation of all emitted chunks
    /// equals the lossy UTF-8 decoding of every byte ever fed in.
    pub fn finish(&mut self) -> (r: Option<String>)
        requires
            old(self).wf(),
            old(self).live(),
        ensures
            final(self).wf(),
            !final(self).live(),
            final(self).history() == old(self).history(),
            chunks_concat(final(self).events()) == lossy_decode(final(self).history()),
            final(self).events().last() is Exited,
            ({
                let p = old(self).pending_bytes();
                if p.len() == 0 {
                    &&& r is None
                    &&& final(self).events() == old(self).events().push(StreamEvent::Exited)
                } else {
                    &&& (r matches Some(c) && c@ == lossy_decode(p))
                    &&& final(self).events() == old(self).events().push(
                        StreamEvent::Chunk(lossy_decode(p)),
                    ).push(StreamEvent::Exited)
                }
            }),
    {
        let ghost old_events = self.events@;
        let ghost old_pending = self.pending@;
        proof {
            let t0 = Seq::<u8>::empty();
            assert(lossy_decode(self.history@ + t0) == chunks_concat(self.events@) + lossy_decode(
                self.pending@ + t0,
            ));
            assert(self.history@ + t0 =~= self.history@);
            assert(self.pending@ + t0 =~= self.pending@);
        }
        let r: Option<String>;
        if self.pending.len() == 0 {
            self.events = Ghost(old_events.push(StreamEvent::Exited));
            proof {
                assert(lossy_decode(old_pending) =~= Seq::<char>::empty());
                let new_events = old_events.push(StreamEvent::Exited);
                assert(new_events.drop_last() =~= old_events);
                assert(chunks_concat(new_events) =~= chunks_concat(old_events));
            }
            r = None;
        } else {
            let encoded = lossy_reencode(self.pending.as_slice(), 0, self.pending.len());
            proof {
                assert(old_pending.subrange(0, old_pending.len() as int) =~= old_pending);
                encode_utf8_valid_utf8(lossy_decode(old_pending));
            }
            let chunk = string_from_valid_utf8(encoded);
            proof {
                encode_utf8_decode_utf8(lossy_decode(old_pending));
                assert(chunk@ == lossy_decode(old_pending));
            }
            self.pending.clear();
            self.events = Ghost(
                old_events.push(StreamEvent::Chunk(chunk@)).push(StreamEvent::Exited),
            );
            proof {
                let mid = old_events.push(StreamEvent::Chunk(chunk@));
                let new_events = mid.push(StreamEvent::Exited);
                assert(mid.drop_last() =~= old_events);
                assert(new_events.drop_last() =~= mid);
                assert(chunks_concat(mid) == chunks_concat(old_events) + lossy_decode(
                    old_pending,
                ));
                assert(chunks_concat(new_events) =~= chunks_concat(mid));
            }
            r = Some(chunk);
        }
        self.live = false;
        r
    }

    /// True until [`StreamDecoder::finish`] has run.
    pub fn is_live(&self) -> (r: bool)
        ensures
            r == self.live(),
    {
        self.live
    }
}

/// Law: a session's event stream carries at most one exit notification,
/// and no text chunk follows it.  While the decoder is live every emitted
/// event is a chunk; once it has finished, the exit event exists, stands
/// last, and every earlier event is a chunk.
pub proof fn lemma_single_exit(d: StreamDecoder)
    requires
        d.wf(),
    ensures
        d.live() ==> (forall|i: int| 0 <= i < d.events().len() ==> d.events()[i] is Chunk),
        !d.live() ==> d.events().len() > 0 && d.events().last() is Exited,
        !d.live() ==> (forall|i: int| 0 <= i < d.events().len() - 1 ==> d.events()[i] is Chunk),
{
}

/// Law: however the byte stream was split across reads, once the stream
/// has ended the concatenation of all emitted text chunks equals the
/// lossy UTF-8 decoding of the concatenation of all bytes read.
pub proof fn lemma_stream_reassembly(d: StreamDecoder)
    requires
        d.wf(),
        !d.live(),
    ensures
        chunks_concat(d.events()) == lossy_decode(d.history()),
{
}

/// Law: a stream that was well-formed UTF-8 as a whole is reproduced
/// exactly, character for character, however its bytes were split across
/// reads — no character is ever broken and no replacement character is
/// introduced.
pub proof fn lemma_stream_valid_reassembly(d: StreamDecoder)
    requires
        d.wf(),
        !d.live(),
        valid_utf8(d.history()),
    ensures
        chunks_concat(d.events()) == decode_utf8(d.history()),
{
    crate::text::lemma_lossy_decode_valid(d.history());
}

} // verus!
