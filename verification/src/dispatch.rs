//! The request dispatcher: a pure transformation from store state and an
//! ordered batch of client packets to the new store state and an ordered
//! batch of responses.
//!
//! Only `ClientPing`, the two fetches and `ClientCheckStreamState` yield a
//! response; pure mutations yield none.  Packets within one batch apply
//! sequentially and see each other's effects.  A batch that contains any
//! server-originated packet is a protocol violation: the whole batch is
//! rejected and the store is left untouched.

use vstd::prelude::*;

verus! {

use crate::serialisation::Packet;
use crate::serialisation::PacketView;
use crate::serialisation::views_of;
use crate::serialisation::wf_packet;
use crate::serialisation::wf_packets;
use crate::store::MAX_STREAM_LEN;
use crate::store::ServerState;
use crate::store::StreamView;
use crate::store::spec_create;
use crate::store::spec_delete;
use crate::store::spec_enqueue_all;
use crate::store::spec_enqueue_all_except;
use crate::store::spec_enqueue_multiple;
use crate::store::spec_enqueue_single;
use crate::store::spec_fetch_and_clear;
use crate::store::spec_fetch_peek;
use crate::store::spec_fetched;

/// Why a batch was rejected.
#[derive(Debug, Clone, Copy, PartialEq, Eq, Structural)]
pub enum DispatchError {
    /// A client sent a packet that only the server may originate.
    ServerOriginatedPacket,
}

/// Whether a packet may originate from a client.
pub open spec fn spec_is_client_packet(p: PacketView) -> bool {
    match p {
        PacketView::ServerPong => false,
        PacketView::ServerStreamContents { .. } => false,
        PacketView::ServerStreamState { .. } => false,
        _ => true,
    }
}

/// Whether every packet of the batch may originate from a client.
pub open spec fn spec_all_client(ps: Seq<PacketView>) -> bool {
    forall|i: int| 0 <= i < ps.len() ==> spec_is_client_packet(#[trigger] ps[i])
}

/// The effect of one client packet on the store, and its responses.
pub open spec fn spec_apply_packet(
    m: Map<u32, StreamView>,
    p: PacketView,
    now: u64,
) -> (Map<u32, StreamView>, Seq<PacketView>) {
    match p {
        PacketView::ClientPing => (m, seq![PacketView::ServerPong]),
        PacketView::ClientCreateNewStream { stream_id } => (spec_create(m, stream_id, now), seq![]),
        PacketView::ClientDeleteStream { stream_id } => (spec_delete(m, stream_id), seq![]),
        PacketView::ClientEnqueueSingle { stream_id, enqueue_data } => (
            spec_enqueue_single(m, stream_id, enqueue_data, now),
            seq![],
        ),
        PacketView::ClientEnqueueMultiple { enqueue_data, filter_stream_ids } => (
            spec_enqueue_multiple(m, filter_stream_ids, enqueue_data, now),
            seq![],
        ),
        PacketView::ClientEnqueueAll { enqueue_data } => (
            spec_enqueue_all(m, enqueue_data, now),
            seq![],
        ),
        PacketView::ClientEnqueueAllExcept { enqueue_data, filter_stream_ids } => (
            spec_enqueue_all_except(m, filter_stream_ids, enqueue_data, now),
            seq![],
        ),
        PacketView::ClientRequestStreamContents { stream_id } => (
            spec_fetch_and_clear(m, stream_id, now),
            seq![PacketView::ServerStreamContents { buffer_data: spec_fetched(m, stream_id) }],
        ),
        PacketView::ClientRequestStreamContentsNoClear { stream_id } => (
            spec_fetch_peek(m, stream_id, now),
            seq![PacketView::ServerStreamContents { buffer_data: spec_fetched(m, stream_id) }],
        ),
        PacketView::ClientCheckStreamState { stream_id } => (
            m,
            seq![
                PacketView::ServerStreamState {
                    stream_id,
                    is_valid: m.contains_key(stream_id),
                }
            ],
        ),
        _ => (m, seq![]),
    }
}

/// The effect of a whole client batch, applied in order; responses are
/// concatenated in order.
pub open spec fn spec_dispatch(
    m: Map<u32, StreamView>,
    ps: Seq<PacketView>,
    now: u64,
) -> (Map<u32, StreamView>, Seq<PacketView>)
    decreases ps.len(),
{
    if ps.len() == 0 {
        (m, seq![])
    } else {
        let first = spec_apply_packet(m, ps[0], now);
        let rest = spec_dispatch(first.0, ps.drop_first(), now);
        (rest.0, first.1 + rest.1)
    }
}

fn is_client_packet(p: &Packet) -> (r: bool)
    ensures
        r == spec_is_client_packet(p@),
{
    match p {
        Packet::ServerPong => false,
        Packet::ServerStreamContents { .. } => false,
        Packet::ServerStreamState { .. } => false,
        _ => true,
    }
}

/// Applies a decoded batch to the store, producing the responses in order.
/// A batch holding any server-originated packet is rejected whole: the
/// store is left untouched and the connection should close.
pub fn handle_client_packets(state: &mut ServerState, packets: Vec<Packet>, now: u64) -> (r: Result<
    Vec<Packet>,
    DispatchError,
>)
    requires
        old(state).wf(),
    ensures
        final(state).wf(),
        spec_all_client(views_of(packets@)) ==> {
            &&& r is Ok
            &&& final(state)@ == spec_dispatch(old(state)@, views_of(packets@), now).0
            &&& r matches Ok(resp) ==> views_of(resp@) == spec_dispatch(
                old(state)@,
                views_of(packets@),
                now,
            ).1 && wf_packets(views_of(resp@))
        },
        !spec_all_client(views_of(packets@)) ==> r == Err::<Vec<Packet>, DispatchError>(
            DispatchError::ServerOriginatedPacket,
        ) && final(state)@ == old(state)@,
{
    let ghost vs = views_of(packets@);
    let mut idx: usize = 0;
    while idx < packets.len()
        invariant
            vs == views_of(packets@),
            idx <= packets@.len(),
            state.wf(),
            state@ == old(state)@,
            forall|j: int| 0 <= j < idx ==> spec_is_client_packet(#[trigger] vs[j]),
        decreases packets@.len() - idx,
    {
        if !is_client_packet(&packets[idx]) {
            proof {
                assert(!spec_is_client_packet(vs[idx as int]));
            }
            return Err(DispatchError::ServerOriginatedPacket);
        }
        idx = idx + 1;
    }
    proof {
        assert(spec_all_client(vs));
    }
    let mut responses: Vec<Packet> = Vec::new();
    let mut i: usize = 0;
    proof {
        assert(vs.skip(0) =~= vs);
        assert(views_of(responses@) =~= Seq::<PacketView>::empty());
    }
    while i < packets.len()
        invariant
            vs == views_of(packets@),
            spec_all_client(vs),
            state.wf(),
            i <= packets@.len(),
            spec_dispatch(old(state)@, vs, now).0 == spec_dispatch(
                state@,
                vs.skip(i as int),
                now,
            ).0,
            spec_dispatch(old(state)@, vs, now).1 == views_of(responses@) + spec_dispatch(
                state@,
                vs.skip(i as int),
                now,
            ).1,
            wf_packets(views_of(responses@)),
        decreases packets@.len() - i,
    {
        let ghost pre = state@;
        let ghost resp_pre = responses@;
        let ghost stepped = spec_apply_packet(pre, vs[i as int], now);
        match &packets[i] {
            Packet::ClientPing => {
                responses.push(Packet::ServerPong);
            },
            Packet::ClientCreateNewStream { stream_id } => {
                state.create_new_stream(*stream_id, now);
            },
            Packet::ClientDeleteStream { stream_id } => {
                state.delete_stream(*stream_id);
            },
            Packet::ClientEnqueueSingle { stream_id, enqueue_data } => {
                state.enqueue_single(*stream_id, enqueue_data, now);
            },
            Packet::ClientEnqueueMultiple { enqueue_data, filter_stream_ids } => {
                state.enqueue_multiple(filter_stream_ids.as_slice(), enqueue_data, now);
            },
            Packet::ClientEnqueueAll { enqueue_data } => {
                state.enqueue_all(enqueue_data, now);
            },
            Packet::ClientEnqueueAllExcept { enqueue_data, filter_stream_ids } => {
                state.enqueue_all_except(filter_stream_ids.as_slice(), enqueue_data, now);
            },
            Packet::ClientRequestStreamContents { stream_id } => {
                let buffer_data = match state.fetch_stream_contents(*stream_id, now) {
                    Some(b) => b,
                    None => Vec::new(),
                };
                proof {
                    assert(buffer_data@ == spec_fetched(pre, *stream_id));
                    assert(buffer_data@.len() <= MAX_STREAM_LEN);
                }
                responses.push(Packet::ServerStreamContents { buffer_data });
            },
            Packet::ClientRequestStreamContentsNoClear { stream_id } => {
                let buffer_data = match state.fetch_stream_no_clear(*stream_id, now) {
                    Some(b) => b,
                    None => Vec::new(),
                };
                proof {
                    assert(buffer_data@ == spec_fetched(pre, *stream_id));
                    assert(buffer_data@.len() <= MAX_STREAM_LEN);
                }
                responses.push(Packet::ServerStreamContents { buffer_data });
            },
            Packet::ClientCheckStreamState { stream_id } => {
                let is_valid = state.stream_exists(*stream_id);
                responses.push(Packet::ServerStreamState { stream_id: *stream_id, is_valid });
            },
            Packet::ServerPong
            | Packet::ServerStreamContents { .. }
            | Packet::ServerStreamState { .. } => {
                proof {
                    assert(spec_is_client_packet(vs[i as int]));
                    assert(false);
                }
            },
        }
        proof {
            assert(state@ == stepped.0);
            assert(views_of(responses@) =~= views_of(resp_pre) + stepped.1);
            assert(vs.skip(i as int).drop_first() =~= vs.skip(i as int + 1));
            assert(vs.skip(i as int)[0] == vs[i as int]);
            assert(views_of(resp_pre) + (stepped.1 + spec_dispatch(
                state@,
                vs.skip(i as int + 1),
                now,
            ).1) =~= (views_of(resp_pre) + stepped.1) + spec_dispatch(
                state@,
                vs.skip(i as int + 1),
                now,
            ).1);
        }
        i = i + 1;
    }
    proof {
        assert(vs.skip(vs.len() as int) =~= Seq::<PacketView>::empty());
        assert(views_of(responses@) + Seq::<PacketView>::empty() =~= views_of(responses@));
    }
    Ok(responses)
}

} // verus!
