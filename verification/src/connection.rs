//! The per-connection state machine, reduced to a pure step function.
//!
//! A connection accumulates incoming bytes, decodes every complete frame,
//! applies the batch to the shared store, drops the consumed prefix, and
//! hands back the encoded responses for the transport to write.  The
//! transport loop around it performs the reads and writes; the decisions
//! all live here.  A pass that leaves more than [`MAX_READ_BUFFER`] bytes
//! pending without completing a frame, a corrupt tag, or a
//! server-originated packet each close the connection.

use vstd::prelude::*;

verus! {

use crate::dispatch::handle_client_packets;
use crate::dispatch::spec_all_client;
use crate::dispatch::spec_dispatch;
use crate::serialisation::deserialize_packets_with_offset;
use crate::serialisation::push_bytes;
use crate::serialisation::serialize_packets;
use crate::serialisation::spec_drain;
use crate::serialisation::spec_drain_corrupt;
use crate::serialisation::spec_encode_packets;
use crate::serialisation::views_of;
use crate::serialisation::wf_packet;
use crate::store::ServerState;
use vstd::slice::slice_subrange;

/// The hard cap on bytes held for a connection without a complete frame:
/// beyond this the peer is treated as abusive or broken.
pub const MAX_READ_BUFFER: usize = 64 * 1024;

/// What a processing pass decided about the connection's fate.
#[derive(Debug, Clone, Copy, PartialEq, Eq, Structural)]
pub enum ConnectionStatus {
    /// Keep reading.
    Open,
    /// An unknown tag arrived inside fully-present data: close.
    CorruptFrame,
    /// The client sent a server-originated packet: close.
    ProtocolViolation,
    /// The accumulation buffer outgrew the cap without completing a
    /// frame: close.
    Overloaded,
}

/// Connection-local state: the accumulation buffer of bytes received but
/// not yet consumed by complete frames.
pub struct Connection {
    read_buffer: Vec<u8>,
}

impl View for Connection {
    type V = Seq<u8>;

    closed spec fn view(&self) -> Seq<u8> {
        self.read_buffer@
    }
}

impl Connection {
    /// A fresh connection with nothing buffered.
    pub fn new() -> (r: Connection)
        ensures
            r@ == Seq::<u8>::empty(),
    {
        Connection { read_buffer: Vec::new() }
    }

    /// One processing pass over newly received bytes.
    ///
    /// The chunk is appended to the accumulation buffer; every complete
    /// frame is decoded and the whole batch applied to the store under a
    /// single critical section; the consumed prefix is dropped; the
    /// encoded responses are returned for the caller to write after
    /// releasing the store.  The returned status says whether to keep
    /// reading or why to close.
    pub fn handle_chunk(
        &mut self,
        state: &mut ServerState,
        chunk: &[u8],
        now: u64,
    ) -> (r: (Vec<u8>, ConnectionStatus))
        requires
            old(state).wf(),
        ensures
            final(state).wf(),
            final(self)@.len() <= old(self)@.len() + chunk@.len(),
            !spec_all_client(spec_drain(old(self)@ + chunk@, 0).0) ==> {
                &&& r.1 == ConnectionStatus::ProtocolViolation
                &&& final(state)@ == old(state)@
                &&& r.0@ == Seq::<u8>::empty()
                &&& final(self)@ == old(self)@ + chunk@
            },
            spec_all_client(spec_drain(old(self)@ + chunk@, 0).0) ==> {
                &&& final(state)@ == spec_dispatch(
                    old(state)@,
                    spec_drain(old(self)@ + chunk@, 0).0,
                    now,
                ).0
                &&& r.0@ == spec_encode_packets(
                    spec_dispatch(old(state)@, spec_drain(old(self)@ + chunk@, 0).0, now).1,
                )
                &&& final(self)@ == (old(self)@ + chunk@).skip(
                    spec_drain(old(self)@ + chunk@, 0).1,
                )
                &&& r.1 == (if spec_drain_corrupt(old(self)@ + chunk@, 0) {
                    ConnectionStatus::CorruptFrame
                } else if final(self)@.len() > MAX_READ_BUFFER {
                    ConnectionStatus::Overloaded
                } else {
                    ConnectionStatus::Open
                })
            },
            r.1 == ConnectionStatus::Open ==> final(self)@.len() <= MAX_READ_BUFFER,
    {
        push_bytes(&mut self.read_buffer, chunk);
        let ghost buf = old(self)@ + chunk@;
        let outcome = deserialize_packets_with_offset(&self.read_buffer);
        let consumed = outcome.consumed;
        let corrupt = outcome.corrupt;
        match handle_client_packets(state, outcome.packets, now) {
            Err(_) => (Vec::new(), ConnectionStatus::ProtocolViolation),
            Ok(responses) => {
                let len = self.read_buffer.len();
                let mut remaining: Vec<u8> = Vec::new();
                push_bytes(
                    &mut remaining,
                    slice_subrange(self.read_buffer.as_slice(), consumed, len),
                );
                self.read_buffer = remaining;
                proof {
                    assert(self.read_buffer@ =~= buf.skip(
                        spec_drain(buf, 0).1,
                    ));
                    assert forall|i: int| 0 <= i < responses@.len() implies wf_packet(
                        #[trigger] responses@[i]@,
                    ) by {
                        assert(views_of(responses@)[i] == responses@[i]@);
                    };
                }
                let out = serialize_packets(responses.as_slice());
                let status = if corrupt {
                    ConnectionStatus::CorruptFrame
                } else if self.read_buffer.len() > MAX_READ_BUFFER {
                    ConnectionStatus::Overloaded
                } else {
                    ConnectionStatus::Open
                };
                (out, status)
            },
        }
    }
}

} // verus!
