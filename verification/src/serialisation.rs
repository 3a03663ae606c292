//! Binary framing codec for the broker protocol.
//!
//! Every frame is a 4-byte little-endian tag followed by a tag-specific
//! payload.  Variable-length byte payloads are framed as a 4-byte
//! little-endian length plus the raw bytes; id lists as a 4-byte count plus
//! that many 4-byte little-endian ids; booleans as a full 4-byte
//! little-endian 0 or 1.  Decoding is incremental: it consumes every
//! complete frame and leaves a trailing partial frame untouched,
//! distinguishing "not enough data yet" from a corrupt (unknown) tag.

use vstd::prelude::*;

verus! {

use vstd::bytes::lemma_auto_spec_u32_to_from_le_bytes;
use vstd::bytes::spec_u32_from_le_bytes;
use vstd::bytes::spec_u32_to_le_bytes;
use vstd::bytes::u32_from_le_bytes;
use vstd::bytes::u32_to_le_bytes;
use vstd::slice::slice_subrange;

pub const PACKET_ID_CLIENT_PING: u32 = 0;
pub const PACKET_ID_CLIENT_CREATE_NEW_STREAM: u32 = 1;
pub const PACKET_ID_CLIENT_DELETE_STREAM: u32 = 2;
pub const PACKET_ID_CLIENT_ENQUEUE_SINGLE: u32 = 3;
pub const PACKET_ID_CLIENT_ENQUEUE_MULTIPLE: u32 = 4;
pub const PACKET_ID_CLIENT_ENQUEUE_ALL: u32 = 5;
pub const PACKET_ID_CLIENT_ENQUEUE_ALL_EXCEPT: u32 = 6;
pub const PACKET_ID_CLIENT_REQUEST_STREAM_CONTENTS: u32 = 7;
pub const PACKET_ID_CLIENT_REQUEST_STREAM_CONTENTS_NO_CLEAR: u32 = 8;
pub const PACKET_ID_CLIENT_CHECK_STREAM_STATE: u32 = 9;
pub const PACKET_ID_SERVER_PONG: u32 = 10;
pub const PACKET_ID_SERVER_STREAM_CONTENTS: u32 = 11;
pub const PACKET_ID_SERVER_STREAM_STATE: u32 = 12;

/// One protocol message, client- or server-originated.
#[derive(Debug, Clone, PartialEq, Eq)]
pub enum Packet {
    ClientPing,
    ClientCreateNewStream { stream_id: u32 },
    ClientDeleteStream { stream_id: u32 },
    ClientEnqueueSingle { stream_id: u32, enqueue_data: Vec<u8> },
    ClientEnqueueMultiple { enqueue_data: Vec<u8>, filter_stream_ids: Vec<u32> },
    ClientEnqueueAll { enqueue_data: Vec<u8> },
    ClientEnqueueAllExcept { enqueue_data: Vec<u8>, filter_stream_ids: Vec<u32> },
    ClientRequestStreamContents { stream_id: u32 },
    ClientRequestStreamContentsNoClear { stream_id: u32 },
    ClientCheckStreamState { stream_id: u32 },
    ServerPong,
    ServerStreamContents { buffer_data: Vec<u8> },
    ServerStreamState { stream_id: u32, is_valid: bool },
}

/// The mathematical shape of a packet: byte payloads as `Seq<u8>`,
/// id lists as `Seq<u32>`.
pub enum PacketView {
    ClientPing,
    ClientCreateNewStream { stream_id: u32 },
    ClientDeleteStream { stream_id: u32 },
    ClientEnqueueSingle { stream_id: u32, enqueue_data: Seq<u8> },
    ClientEnqueueMultiple { enqueue_data: Seq<u8>, filter_stream_ids: Seq<u32> },
    ClientEnqueueAll { enqueue_data: Seq<u8> },
    ClientEnqueueAllExcept { enqueue_data: Seq<u8>, filter_stream_ids: Seq<u32> },
    ClientRequestStreamContents { stream_id: u32 },
    ClientRequestStreamContentsNoClear { stream_id: u32 },
    ClientCheckStreamState { stream_id: u32 },
    ServerPong,
    ServerStreamContents { buffer_data: Seq<u8> },
    ServerStreamState { stream_id: u32, is_valid: bool },
}

impl View for Packet {
    type V = PacketView;

    open spec fn view(&self) -> PacketView {
        match self {
            Packet::ClientPing => PacketView::ClientPing,
            Packet::ClientCreateNewStream { stream_id } => PacketView::ClientCreateNewStream {
                stream_id: *stream_id,
            },
            Packet::ClientDeleteStream { stream_id } => PacketView::ClientDeleteStream {
                stream_id: *stream_id,
            },
            Packet::ClientEnqueueSingle { stream_id, enqueue_data } => {
                PacketView::ClientEnqueueSingle {
                    stream_id: *stream_id,
                    enqueue_data: enqueue_data@,
                }
            },
            Packet::ClientEnqueueMultiple { enqueue_data, filter_stream_ids } => {
                PacketView::ClientEnqueueMultiple {
                    enqueue_data: enqueue_data@,
                    filter_stream_ids: filter_stream_ids@,
                }
            },
            Packet::ClientEnqueueAll { enqueue_data } => PacketView::ClientEnqueueAll {
                enqueue_data: enqueue_data@,
            },
            Packet::ClientEnqueueAllExcept { enqueue_data, filter_stream_ids } => {
                PacketView::ClientEnqueueAllExcept {
                    enqueue_data: enqueue_data@,
                    filter_stream_ids: filter_stream_ids@,
                }
            },
            Packet::ClientRequestStreamContents { stream_id } => {
                PacketView::ClientRequestStreamContents { stream_id: *stream_id }
            },
            Packet::ClientRequestStreamContentsNoClear { stream_id } => {
                PacketView::ClientRequestStreamContentsNoClear { stream_id: *stream_id }
            },
            Packet::ClientCheckStreamState { stream_id } => PacketView::ClientCheckStreamState {
                stream_id: *stream_id,
            },
            Packet::ServerPong => PacketView::ServerPong,
            Packet::ServerStreamContents { buffer_data } => PacketView::ServerStreamContents {
                buffer_data: buffer_data@,
            },
            Packet::ServerStreamState { stream_id, is_valid } => PacketView::ServerStreamState {
                stream_id: *stream_id,
                is_valid: *is_valid,
            },
        }
    }
}

/// Wire tag of a packet.
pub open spec fn spec_packet_tag(p: PacketView) -> u32 {
    match p {
        PacketView::ClientPing => PACKET_ID_CLIENT_PING,
        PacketView::ClientCreateNewStream { .. } => PACKET_ID_CLIENT_CREATE_NEW_STREAM,
        PacketView::ClientDeleteStream { .. } => PACKET_ID_CLIENT_DELETE_STREAM,
        PacketView::ClientEnqueueSingle { .. } => PACKET_ID_CLIENT_ENQUEUE_SINGLE,
        PacketView::ClientEnqueueMultiple { .. } => PACKET_ID_CLIENT_ENQUEUE_MULTIPLE,
        PacketView::ClientEnqueueAll { .. } => PACKET_ID_CLIENT_ENQUEUE_ALL,
        PacketView::ClientEnqueueAllExcept { .. } => PACKET_ID_CLIENT_ENQUEUE_ALL_EXCEPT,
        PacketView::ClientRequestStreamContents { .. } => PACKET_ID_CLIENT_REQUEST_STREAM_CONTENTS,
        PacketView::ClientRequestStreamContentsNoClear { .. } => {
            PACKET_ID_CLIENT_REQUEST_STREAM_CONTENTS_NO_CLEAR
        },
        PacketView::ClientCheckStreamState { .. } => PACKET_ID_CLIENT_CHECK_STREAM_STATE,
        PacketView::ServerPong => PACKET_ID_SERVER_PONG,
        PacketView::ServerStreamContents { .. } => PACKET_ID_SERVER_STREAM_CONTENTS,
        PacketView::ServerStreamState { .. } => PACKET_ID_SERVER_STREAM_STATE,
    }
}

/// A packet is encodable when each of its variable-length parts fits the
/// 4-byte length fields of the wire format.
pub open spec fn wf_packet(p: PacketView) -> bool {
    match p {
        PacketView::ClientEnqueueSingle { enqueue_data, .. } => enqueue_data.len() <= u32::MAX,
        PacketView::ClientEnqueueMultiple { enqueue_data, filter_stream_ids } => {
            enqueue_data.len() <= u32::MAX && filter_stream_ids.len() <= u32::MAX
        },
        PacketView::ClientEnqueueAll { enqueue_data } => enqueue_data.len() <= u32::MAX,
        PacketView::ClientEnqueueAllExcept { enqueue_data, filter_stream_ids } => {
            enqueue_data.len() <= u32::MAX && filter_stream_ids.len() <= u32::MAX
        },
        PacketView::ServerStreamContents { buffer_data } => buffer_data.len() <= u32::MAX,
        _ => true,
    }
}

/// Length-framed bytes: 4-byte little-endian length, then the raw bytes.
pub open spec fn spec_framed(data: Seq<u8>) -> Seq<u8> {
    spec_u32_to_le_bytes(data.len() as u32) + data
}

/// The concatenation of the 4-byte little-endian encodings of `ids`.
pub open spec fn spec_ids_bytes(ids: Seq<u32>) -> Seq<u8>
    decreases ids.len(),
{
    if ids.len() == 0 {
        Seq::empty()
    } else {
        spec_ids_bytes(ids.drop_last()) + spec_u32_to_le_bytes(ids.last())
    }
}

/// An id list: 4-byte little-endian count, then the ids.
pub open spec fn spec_id_list(ids: Seq<u32>) -> Seq<u8> {
    spec_u32_to_le_bytes(ids.len() as u32) + spec_ids_bytes(ids)
}

/// A boolean as a full 4-byte little-endian 0 or 1.
pub open spec fn spec_bool_bytes(value: bool) -> Seq<u8> {
    seq![if value { 1u8 } else { 0u8 }, 0u8, 0u8, 0u8]
}

/// The tag-specific payload of a packet.
pub open spec fn spec_packet_payload(p: PacketView) -> Seq<u8> {
    match p {
        PacketView::ClientPing => Seq::empty(),
        PacketView::ClientCreateNewStream { stream_id } => spec_u32_to_le_bytes(stream_id),
        PacketView::ClientDeleteStream { stream_id } => spec_u32_to_le_bytes(stream_id),
        PacketView::ClientEnqueueSingle { stream_id, enqueue_data } => {
            spec_u32_to_le_bytes(stream_id) + spec_framed(enqueue_data)
        },
        PacketView::ClientEnqueueMultiple { enqueue_data, filter_stream_ids } => {
            spec_framed(enqueue_data) + spec_id_list(filter_stream_ids)
        },
        PacketView::ClientEnqueueAll { enqueue_data } => spec_framed(enqueue_data),
        PacketView::ClientEnqueueAllExcept { enqueue_data, filter_stream_ids } => {
            spec_framed(enqueue_data) + spec_id_list(filter_stream_ids)
        },
        PacketView::ClientRequestStreamContents { stream_id } => spec_u32_to_le_bytes(stream_id),
        PacketView::ClientRequestStreamContentsNoClear { stream_id } => {
            spec_u32_to_le_bytes(stream_id)
        },
        PacketView::ClientCheckStreamState { stream_id } => spec_u32_to_le_bytes(stream_id),
        PacketView::ServerPong => Seq::empty(),
        PacketView::ServerStreamContents { buffer_data } => spec_framed(buffer_data),
        PacketView::ServerStreamState { stream_id, is_valid } => {
            spec_u32_to_le_bytes(stream_id) + spec_bool_bytes(is_valid)
        },
    }
}

/// The complete frame of one packet: tag, then payload.
pub open spec fn spec_encode_packet(p: PacketView) -> Seq<u8> {
    spec_u32_to_le_bytes(spec_packet_tag(p)) + spec_packet_payload(p)
}

/// The frames of a batch of packets, concatenated back to back.
pub open spec fn spec_encode_packets(ps: Seq<PacketView>) -> Seq<u8>
    decreases ps.len(),
{
    if ps.len() == 0 {
        Seq::empty()
    } else {
        spec_encode_packets(ps.drop_last()) + spec_encode_packet(ps.last())
    }
}

/// The views of a sequence of packets.
pub open spec fn views_of(ps: Seq<Packet>) -> Seq<PacketView> {
    ps.map_values(|p: Packet| p@)
}

impl Packet {
    /// The wire tag this packet is framed with.
    pub fn packet_id(&self) -> (r: u32)
        ensures
            r == spec_packet_tag(self@),
    {
        match self {
            Packet::ClientPing => PACKET_ID_CLIENT_PING,
            Packet::ClientCreateNewStream { .. } => PACKET_ID_CLIENT_CREATE_NEW_STREAM,
            Packet::ClientDeleteStream { .. } => PACKET_ID_CLIENT_DELETE_STREAM,
            Packet::ClientEnqueueSingle { .. } => PACKET_ID_CLIENT_ENQUEUE_SINGLE,
            Packet::ClientEnqueueMultiple { .. } => PACKET_ID_CLIENT_ENQUEUE_MULTIPLE,
            Packet::ClientEnqueueAll { .. } => PACKET_ID_CLIENT_ENQUEUE_ALL,
            Packet::ClientEnqueueAllExcept { .. } => PACKET_ID_CLIENT_ENQUEUE_ALL_EXCEPT,
            Packet::ClientRequestStreamContents { .. } => PACKET_ID_CLIENT_REQUEST_STREAM_CONTENTS,
            Packet::ClientRequestStreamContentsNoClear { .. } => {
                PACKET_ID_CLIENT_REQUEST_STREAM_CONTENTS_NO_CLEAR
            },
            Packet::ClientCheckStreamState { .. } => PACKET_ID_CLIENT_CHECK_STREAM_STATE,
            Packet::ServerPong => PACKET_ID_SERVER_PONG,
            Packet::ServerStreamContents { .. } => PACKET_ID_SERVER_STREAM_CONTENTS,
            Packet::ServerStreamState { .. } => PACKET_ID_SERVER_STREAM_STATE,
        }
    }
}

/// Appends every byte of `data` to `buffer`.
pub(crate) fn push_bytes(buffer: &mut Vec<u8>, data: &[u8])
    ensures
        final(buffer)@ == old(buffer)@ + data@,
{
    let mut i: usize = 0;
    while i < data.len()
        invariant
            i <= data@.len(),
            buffer@ == old(buffer)@ + data@.take(i as int),
        decreases data@.len() - i,
    {
        let b = data[i];
        buffer.push(b);
        proof {
            assert((old(buffer)@ + data@.take(i as int)).push(data@[i as int]) =~= old(buffer)@
                + data@.take(i as int + 1));
        }
        i = i + 1;
    }
    proof {
        assert(data@.take(data@.len() as int) =~= data@);
    }
}

/// Writes length-framed bytes: 4-byte little-endian length, then the bytes.
pub fn write_stream_into_buffer(buffer: &mut Vec<u8>, stream: &Vec<u8>)
    requires
        stream@.len() <= u32::MAX,
    ensures
        final(buffer)@ == old(buffer)@ + spec_framed(stream@),
{
    let len_bytes = u32_to_le_bytes(stream.len() as u32);
    push_bytes(buffer, len_bytes.as_slice());
    push_bytes(buffer, stream.as_slice());
    proof {
        assert(old(buffer)@ + spec_u32_to_le_bytes(stream@.len() as u32) + stream@ =~= old(buffer)@
            + spec_framed(stream@));
    }
}

/// Writes an id list: 4-byte little-endian count, then the ids.
pub fn write_filter_list_into_buffer(buffer: &mut Vec<u8>, filter_list: &Vec<u32>)
    requires
        filter_list@.len() <= u32::MAX,
    ensures
        final(buffer)@ == old(buffer)@ + spec_id_list(filter_list@),
{
    let len_bytes = u32_to_le_bytes(filter_list.len() as u32);
    push_bytes(buffer, len_bytes.as_slice());
    let ghost count_bytes = spec_u32_to_le_bytes(filter_list@.len() as u32);
    let mut i: usize = 0;
    while i < filter_list.len()
        invariant
            i <= filter_list@.len(),
            buffer@ == old(buffer)@ + count_bytes + spec_ids_bytes(filter_list@.take(i as int)),
        decreases filter_list@.len() - i,
    {
        let id_bytes = u32_to_le_bytes(filter_list[i]);
        push_bytes(buffer, id_bytes.as_slice());
        proof {
            let s = filter_list@;
            assert(s.take(i as int + 1).drop_last() =~= s.take(i as int));
            assert(s.take(i as int + 1).last() == s[i as int]);
            assert(old(buffer)@ + count_bytes + spec_ids_bytes(s.take(i as int))
                + spec_u32_to_le_bytes(s[i as int]) =~= old(buffer)@ + count_bytes
                + spec_ids_bytes(s.take(i as int + 1)));
        }
        i = i + 1;
    }
    proof {
        assert(filter_list@.take(filter_list@.len() as int) =~= filter_list@);
        assert(old(buffer)@ + count_bytes + spec_ids_bytes(filter_list@) =~= old(buffer)@
            + spec_id_list(filter_list@));
    }
}

/// Writes a boolean as a full 4-byte little-endian 0 or 1.
pub fn write_boolean_into_buffer(buffer: &mut Vec<u8>, value: bool)
    ensures
        final(buffer)@ == old(buffer)@ + spec_bool_bytes(value),
{
    let first: u8 = if value { 1 } else { 0 };
    buffer.push(first);
    buffer.push(0);
    buffer.push(0);
    buffer.push(0);
    proof {
        assert(buffer@ =~= old(buffer)@ + spec_bool_bytes(value));
    }
}

/// Appends the complete frame of `packet` to `buffer`.
pub fn write_packet_into_buffer(buffer: &mut Vec<u8>, packet: &Packet)
    requires
        wf_packet(packet@),
    ensures
        final(buffer)@ == old(buffer)@ + spec_encode_packet(packet@),
{
    let tag_bytes = u32_to_le_bytes(packet.packet_id());
    push_bytes(buffer, tag_bytes.as_slice());
    let ghost tag_seq = spec_u32_to_le_bytes(spec_packet_tag(packet@));
    match packet {
        Packet::ClientPing | Packet::ServerPong => {
            proof {
                assert(old(buffer)@ + tag_seq =~= old(buffer)@ + spec_encode_packet(packet@));
            }
        },
        Packet::ClientCreateNewStream { stream_id }
        | Packet::ClientDeleteStream { stream_id }
        | Packet::ClientRequestStreamContents { stream_id }
        | Packet::ClientRequestStreamContentsNoClear { stream_id }
        | Packet::ClientCheckStreamState { stream_id } => {
            let id_bytes = u32_to_le_bytes(*stream_id);
            push_bytes(buffer, id_bytes.as_slice());
            proof {
                assert(old(buffer)@ + tag_seq + spec_u32_to_le_bytes(*stream_id) =~= old(buffer)@
                    + spec_encode_packet(packet@));
            }
        },
        Packet::ClientEnqueueSingle { stream_id, enqueue_data } => {
            let id_bytes = u32_to_le_bytes(*stream_id);
            push_bytes(buffer, id_bytes.as_slice());
            write_stream_into_buffer(buffer, enqueue_data);
            proof {
                assert(old(buffer)@ + tag_seq + spec_u32_to_le_bytes(*stream_id) + spec_framed(
                    enqueue_data@,
                ) =~= old(buffer)@ + spec_encode_packet(packet@));
            }
        },
        Packet::ClientEnqueueMultiple { enqueue_data, filter_stream_ids }
        | Packet::ClientEnqueueAllExcept { enqueue_data, filter_stream_ids } => {
            write_stream_into_buffer(buffer, enqueue_data);
            write_filter_list_into_buffer(buffer, filter_stream_ids);
            proof {
                assert(old(buffer)@ + tag_seq + spec_framed(enqueue_data@) + spec_id_list(
                    filter_stream_ids@,
                ) =~= old(buffer)@ + spec_encode_packet(packet@));
            }
        },
        Packet::ClientEnqueueAll { enqueue_data } => {
            write_stream_into_buffer(buffer, enqueue_data);
            proof {
                assert(old(buffer)@ + tag_seq + spec_framed(enqueue_data@) =~= old(buffer)@
                    + spec_encode_packet(packet@));
            }
        },
        Packet::ServerStreamContents { buffer_data } => {
            write_stream_into_buffer(buffer, buffer_data);
            proof {
                assert(old(buffer)@ + tag_seq + spec_framed(buffer_data@) =~= old(buffer)@
                    + spec_encode_packet(packet@));
            }
        },
        Packet::ServerStreamState { stream_id, is_valid } => {
            let id_bytes = u32_to_le_bytes(*stream_id);
            push_bytes(buffer, id_bytes.as_slice());
            write_boolean_into_buffer(buffer, *is_valid);
            proof {
                assert(old(buffer)@ + tag_seq + spec_u32_to_le_bytes(*stream_id) + spec_bool_bytes(
                    *is_valid,
                ) =~= old(buffer)@ + spec_encode_packet(packet@));
            }
        },
    }
}

/// Encodes a batch of packets back to back.
pub fn serialize_packets(packets: &[Packet]) -> (r: Vec<u8>)
    requires
        forall|i: int| 0 <= i < packets@.len() ==> wf_packet(#[trigger] packets@[i]@),
    ensures
        r@ == spec_encode_packets(views_of(packets@)),
{
    let ghost vs = views_of(packets@);
    let mut buffer: Vec<u8> = Vec::new();
    let mut i: usize = 0;
    while i < packets.len()
        invariant
            i <= packets@.len(),
            vs == views_of(packets@),
            forall|k: int| 0 <= k < packets@.len() ==> wf_packet(#[trigger] packets@[k]@),
            buffer@ == spec_encode_packets(vs.take(i as int)),
        decreases packets@.len() - i,
    {
        write_packet_into_buffer(&mut buffer, &packets[i]);
        proof {
            assert(vs.take(i as int + 1).drop_last() =~= vs.take(i as int));
            assert(vs.take(i as int + 1).last() == packets@[i as int]@);
        }
        i = i + 1;
    }
    proof {
        assert(vs.take(vs.len() as int) =~= vs);
    }
    buffer
}

/// Why a frame could not be decoded: the data seen so far is a strict
/// prefix of a frame (wait for more), or the tag itself is unknown
/// (corrupt input, no resynchronization possible).
#[derive(Debug, Clone, Copy, PartialEq, Eq, Structural)]
pub enum DecodeError {
    Incomplete,
    UnknownTag(u32),
}

/// The value read from a buffer together with the offset just past it.
#[derive(Debug, PartialEq, Eq)]
pub struct ReadResult<T> {
    pub value: T,
    pub new_offset: usize,
}

/// The little-endian `u32` at `off`.
pub open spec fn spec_read_u32(buf: Seq<u8>, off: int) -> u32 {
    spec_u32_from_le_bytes(buf.subrange(off, off + 4))
}

/// Length-framed bytes read at `off`: the bytes and the offset just past
/// them, or `None` when the buffer ends before the declared length.
pub open spec fn spec_take_frame_bytes(buf: Seq<u8>, off: int) -> Option<(Seq<u8>, int)> {
    if off + 4 > buf.len() {
        None
    } else {
        let n = spec_read_u32(buf, off) as int;
        if off + 4 + n > buf.len() {
            None
        } else {
            Some((buf.subrange(off + 4, off + 4 + n), off + 4 + n))
        }
    }
}

/// An id list read at `off`, or `None` when the buffer ends before the
/// declared count of ids.
pub open spec fn spec_take_ids(buf: Seq<u8>, off: int) -> Option<(Seq<u32>, int)> {
    if off + 4 > buf.len() {
        None
    } else {
        let n = spec_read_u32(buf, off) as int;
        if off + 4 + 4 * n > buf.len() {
            None
        } else {
            Some((Seq::new(n as nat, |i: int| spec_read_u32(buf, off + 4 + 4 * i)), off + 4 + 4 * n))
        }
    }
}

/// The outcome of reading one frame: a complete packet and the offset just
/// past it, a partial frame, or an unknown tag.
pub enum FrameResult {
    Frame(PacketView, int),
    NeedMore,
    BadTag,
}

/// Reads one frame at `off`: tag first, then the tag-specific payload.
/// A frame is complete only when every one of its bytes is present.
pub open spec fn spec_read_frame(buf: Seq<u8>, off: int) -> FrameResult {
    if off < 0 || off + 4 > buf.len() {
        FrameResult::NeedMore
    } else {
        let tag = spec_read_u32(buf, off);
        let p = off + 4;
        if tag == PACKET_ID_CLIENT_PING {
            FrameResult::Frame(PacketView::ClientPing, p)
        } else if tag == PACKET_ID_CLIENT_CREATE_NEW_STREAM {
            if p + 4 <= buf.len() {
                FrameResult::Frame(
                    PacketView::ClientCreateNewStream { stream_id: spec_read_u32(buf, p) },
                    p + 4,
                )
            } else {
                FrameResult::NeedMore
            }
        } else if tag == PACKET_ID_CLIENT_DELETE_STREAM {
            if p + 4 <= buf.len() {
                FrameResult::Frame(
                    PacketView::ClientDeleteStream { stream_id: spec_read_u32(buf, p) },
                    p + 4,
                )
            } else {
                FrameResult::NeedMore
            }
        } else if tag == PACKET_ID_CLIENT_ENQUEUE_SINGLE {
            if p + 4 <= buf.len() {
                match spec_take_frame_bytes(buf, p + 4) {
                    Some((data, end)) => FrameResult::Frame(
                        PacketView::ClientEnqueueSingle {
                            stream_id: spec_read_u32(buf, p),
                            enqueue_data: data,
                        },
                        end,
                    ),
                    None => FrameResult::NeedMore,
                }
            } else {
                FrameResult::NeedMore
            }
        } else if tag == PACKET_ID_CLIENT_ENQUEUE_MULTIPLE {
            match spec_take_frame_bytes(buf, p) {
                Some((data, q)) => match spec_take_ids(buf, q) {
                    Some((ids, end)) => FrameResult::Frame(
                        PacketView::ClientEnqueueMultiple {
                            enqueue_data: data,
                            filter_stream_ids: ids,
                        },
                        end,
                    ),
                    None => FrameResult::NeedMore,
                },
                None => FrameResult::NeedMore,
            }
        } else if tag == PACKET_ID_CLIENT_ENQUEUE_ALL {
            match spec_take_frame_bytes(buf, p) {
                Some((data, end)) => FrameResult::Frame(
                    PacketView::ClientEnqueueAll { enqueue_data: data },
                    end,
                ),
                None => FrameResult::NeedMore,
            }
        } else if tag == PACKET_ID_CLIENT_ENQUEUE_ALL_EXCEPT {
            match spec_take_frame_bytes(buf, p) {
                Some((data, q)) => match spec_take_ids(buf, q) {
                    Some((ids, end)) => FrameResult::Frame(
                        PacketView::ClientEnqueueAllExcept {
                            enqueue_data: data,
                            filter_stream_ids: ids,
                        },
                        end,
                    ),
                    None => FrameResult::NeedMore,
                },
                None => FrameResult::NeedMore,
            }
        } else if tag == PACKET_ID_CLIENT_REQUEST_STREAM_CONTENTS {
            if p + 4 <= buf.len() {
                FrameResult::Frame(
                    PacketView::ClientRequestStreamContents { stream_id: spec_read_u32(buf, p) },
                    p + 4,
                )
            } else {
                FrameResult::NeedMore
            }
        } else if tag == PACKET_ID_CLIENT_REQUEST_STREAM_CONTENTS_NO_CLEAR {
            if p + 4 <= buf.len() {
                FrameResult::Frame(
                    PacketView::ClientRequestStreamContentsNoClear {
                        stream_id: spec_read_u32(buf, p),
                    },
                    p + 4,
                )
            } else {
                FrameResult::NeedMore
            }
        } else if tag == PACKET_ID_CLIENT_CHECK_STREAM_STATE {
            if p + 4 <= buf.len() {
                FrameResult::Frame(
                    PacketView::ClientCheckStreamState { stream_id: spec_read_u32(buf, p) },
                    p + 4,
                )
            } else {
                FrameResult::NeedMore
            }
        } else if tag == PACKET_ID_SERVER_PONG {
            FrameResult::Frame(PacketView::ServerPong, p)
        } else if tag == PACKET_ID_SERVER_STREAM_CONTENTS {
            match spec_take_frame_bytes(buf, p) {
                Some((data, end)) => FrameResult::Frame(
                    PacketView::ServerStreamContents { buffer_data: data },
                    end,
                ),
                None => FrameResult::NeedMore,
            }
        } else if tag == PACKET_ID_SERVER_STREAM_STATE {
            if p + 8 <= buf.len() {
                FrameResult::Frame(
                    PacketView::ServerStreamState {
                        stream_id: spec_read_u32(buf, p),
                        is_valid: buf[p + 4] > 0,
                    },
                    p + 8,
                )
            } else {
                FrameResult::NeedMore
            }
        } else {
            FrameResult::BadTag
        }
    }
}

/// A complete frame always consumes its tag and stays inside the buffer.
pub proof fn lemma_frame_advances(buf: Seq<u8>, off: int)
    requires
        spec_read_frame(buf, off) is Frame,
    ensures
        off + 4 <= spec_read_frame(buf, off)->Frame_1 <= buf.len(),
{
}

/// All complete frames at the front of `buf`, starting at `off`, and the
/// offset just past the last of them.
pub open spec fn spec_drain(buf: Seq<u8>, off: int) -> (Seq<PacketView>, int)
    decreases buf.len() - off,
{
    if 0 <= off && off <= buf.len() {
        match spec_read_frame(buf, off) {
            FrameResult::Frame(p, end) => if off < end && end <= buf.len() {
                let rest = spec_drain(buf, end);
                (seq![p] + rest.0, rest.1)
            } else {
                (seq![], off)
            },
            _ => (seq![], off),
        }
    } else {
        (seq![], off)
    }
}

/// Whether draining `buf` from `off` stops on an unknown tag rather than
/// on a partial frame or the end of the buffer.
pub open spec fn spec_drain_corrupt(buf: Seq<u8>, off: int) -> bool
    decreases buf.len() - off,
{
    if 0 <= off && off <= buf.len() {
        match spec_read_frame(buf, off) {
            FrameResult::Frame(p, end) => if off < end && end <= buf.len() {
                spec_drain_corrupt(buf, end)
            } else {
                false
            },
            FrameResult::NeedMore => false,
            FrameResult::BadTag => true,
        }
    } else {
        false
    }
}

/// The little-endian `u32` at `offset`, which must be in bounds.
fn read_u32_exact(buffer: &Vec<u8>, offset: usize) -> (r: u32)
    requires
        offset + 4 <= buffer@.len(),
    ensures
        r == spec_read_u32(buffer@, offset as int),
{
    proof {
        vstd::std_specs::vec::axiom_spec_len(buffer);
    }
    let s = slice_subrange(buffer.as_slice(), offset, offset + 4);
    u32_from_le_bytes(s)
}

/// The little-endian `u32` at `offset`, or `None` past the end.
fn read_u32_at(buffer: &Vec<u8>, offset: usize) -> (r: Option<u32>)
    ensures
        buffer@.len() <= usize::MAX,
        match r {
            Some(x) => offset + 4 <= buffer@.len() && x == spec_read_u32(buffer@, offset as int),
            None => offset + 4 > buffer@.len(),
        },
{
    if buffer.len() >= 4 && offset <= buffer.len() - 4 {
        Some(read_u32_exact(buffer, offset))
    } else {
        None
    }
}

/// Reads a boolean encoded as a 4-byte word: the first byte decides,
/// any nonzero value meaning true.
pub fn read_boolean_from_buffer(buffer: &Vec<u8>, offset: usize) -> (r: ReadResult<bool>)
    requires
        offset + 4 <= buffer@.len(),
    ensures
        r.value == (buffer@[offset as int] > 0),
        r.new_offset == offset + 4,
{
    proof {
        vstd::std_specs::vec::axiom_spec_len(buffer);
    }
    let value = buffer[offset] > 0;
    ReadResult { value, new_offset: offset + 4 }
}

/// Reads length-framed bytes at `offset`.
pub fn read_stream_from_buffer(buffer: &Vec<u8>, offset: usize) -> (r: Result<
    ReadResult<Vec<u8>>,
    DecodeError,
>)
    ensures
        match spec_take_frame_bytes(buffer@, offset as int) {
            Some((data, end)) => r matches Ok(rr) && rr.value@ == data && rr.new_offset == end,
            None => r == Err::<ReadResult<Vec<u8>>, DecodeError>(DecodeError::Incomplete),
        },
{
    let n = match read_u32_at(buffer, offset) {
        Some(n) => n,
        None => {
            return Err(DecodeError::Incomplete);
        },
    };
    let data_start = offset + 4;
    if (n as usize) > buffer.len() - data_start {
        return Err(DecodeError::Incomplete);
    }
    let end = data_start + n as usize;
    let s = slice_subrange(buffer.as_slice(), data_start, end);
    let mut value: Vec<u8> = Vec::new();
    push_bytes(&mut value, s);
    proof {
        assert(value@ =~= buffer@.subrange(data_start as int, end as int));
    }
    Ok(ReadResult { value, new_offset: end })
}

/// Reads an id list at `offset`.
pub fn read_filter_list_from_buffer(buffer: &Vec<u8>, offset: usize) -> (r: Result<
    ReadResult<Vec<u32>>,
    DecodeError,
>)
    ensures
        match spec_take_ids(buffer@, offset as int) {
            Some((ids, end)) => r matches Ok(rr) && rr.value@ == ids && rr.new_offset == end,
            None => r == Err::<ReadResult<Vec<u32>>, DecodeError>(DecodeError::Incomplete),
        },
{
    let n = match read_u32_at(buffer, offset) {
        Some(n) => n,
        None => {
            return Err(DecodeError::Incomplete);
        },
    };
    let ids_start = offset + 4;
    if (n as usize) > (buffer.len() - ids_start) / 4 {
        return Err(DecodeError::Incomplete);
    }
    let end = ids_start + 4 * (n as usize);
    let ghost target = Seq::new(n as nat, |i: int| spec_read_u32(buffer@, ids_start + 4 * i));
    let mut value: Vec<u32> = Vec::new();
    let mut i: usize = 0;
    while i < n as usize
        invariant
            i <= n as usize,
            ids_start + 4 * (n as usize) <= buffer@.len(),
            end == ids_start + 4 * (n as usize),
            target == Seq::new(n as nat, |k: int| spec_read_u32(buffer@, ids_start + 4 * k)),
            value@ == target.take(i as int),
        decreases n as usize - i,
    {
        let id = read_u32_exact(buffer, ids_start + 4 * i);
        value.push(id);
        proof {
            assert(target.take(i as int).push(target[i as int]) =~= target.take(i as int + 1));
        }
        i = i + 1;
    }
    proof {
        assert(target.take(target.len() as int) =~= target);
    }
    Ok(ReadResult { value, new_offset: end })
}

/// Reads one complete packet at `offset`, or says whether the frame is
/// still partial or its tag unknown.
pub fn read_packet_from_buffer(buffer: &Vec<u8>, offset: usize) -> (r: Result<
    ReadResult<Packet>,
    DecodeError,
>)
    ensures
        match spec_read_frame(buffer@, offset as int) {
            FrameResult::Frame(p, end) => r matches Ok(rr) && rr.value@ == p && rr.new_offset
                == end,
            FrameResult::NeedMore => r == Err::<ReadResult<Packet>, DecodeError>(
                DecodeError::Incomplete,
            ),
            FrameResult::BadTag => r == Err::<ReadResult<Packet>, DecodeError>(
                DecodeError::UnknownTag(spec_read_u32(buffer@, offset as int)),
            ),
        },
{
    let packet_id = match read_u32_at(buffer, offset) {
        Some(x) => x,
        None => {
            return Err(DecodeError::Incomplete);
        },
    };
    let p = offset + 4;
    match packet_id {
        PACKET_ID_CLIENT_PING => Ok(ReadResult { value: Packet::ClientPing, new_offset: p }),
        PACKET_ID_CLIENT_CREATE_NEW_STREAM => {
            match read_u32_at(buffer, p) {
                Some(stream_id) => Ok(ReadResult {
                    value: Packet::ClientCreateNewStream { stream_id },
                    new_offset: p + 4,
                }),
                None => Err(DecodeError::Incomplete),
            }
        },
        PACKET_ID_CLIENT_DELETE_STREAM => {
            match read_u32_at(buffer, p) {
                Some(stream_id) => Ok(ReadResult {
                    value: Packet::ClientDeleteStream { stream_id },
                    new_offset: p + 4,
                }),
                None => Err(DecodeError::Incomplete),
            }
        },
        PACKET_ID_CLIENT_ENQUEUE_SINGLE => {
            let stream_id = match read_u32_at(buffer, p) {
                Some(x) => x,
                None => {
                    return Err(DecodeError::Incomplete);
                },
            };
            let enqueue_data = read_stream_from_buffer(buffer, p + 4)?;
            Ok(ReadResult {
                value: Packet::ClientEnqueueSingle {
                    stream_id,
                    enqueue_data: enqueue_data.value,
                },
                new_offset: enqueue_data.new_offset,
            })
        },
        PACKET_ID_CLIENT_ENQUEUE_MULTIPLE => {
            let enqueue_data = read_stream_from_buffer(buffer, p)?;
            let filter_stream_ids = read_filter_list_from_buffer(buffer, enqueue_data.new_offset)?;
            Ok(ReadResult {
                value: Packet::ClientEnqueueMultiple {
                    enqueue_data: enqueue_data.value,
                    filter_stream_ids: filter_stream_ids.value,
                },
                new_offset: filter_stream_ids.new_offset,
            })
        },
        PACKET_ID_CLIENT_ENQUEUE_ALL => {
            let enqueue_data = read_stream_from_buffer(buffer, p)?;
            Ok(ReadResult {
                value: Packet::ClientEnqueueAll { enqueue_data: enqueue_data.value },
                new_offset: enqueue_data.new_offset,
            })
        },
        PACKET_ID_CLIENT_ENQUEUE_ALL_EXCEPT => {
            let enqueue_data = read_stream_from_buffer(buffer, p)?;
            let filter_stream_ids = read_filter_list_from_buffer(buffer, enqueue_data.new_offset)?;
            Ok(ReadResult {
                value: Packet::ClientEnqueueAllExcept {
                    enqueue_data: enqueue_data.value,
                    filter_stream_ids: filter_stream_ids.value,
                },
                new_offset: filter_stream_ids.new_offset,
            })
        },
        PACKET_ID_CLIENT_REQUEST_STREAM_CONTENTS => {
            match read_u32_at(buffer, p) {
                Some(stream_id) => Ok(ReadResult {
                    value: Packet::ClientRequestStreamContents { stream_id },
                    new_offset: p + 4,
                }),
                None => Err(DecodeError::Incomplete),
            }
        },
        PACKET_ID_CLIENT_REQUEST_STREAM_CONTENTS_NO_CLEAR => {
            match read_u32_at(buffer, p) {
                Some(stream_id) => Ok(ReadResult {
                    value: Packet::ClientRequestStreamContentsNoClear { stream_id },
                    new_offset: p + 4,
                }),
                None => Err(DecodeError::Incomplete),
            }
        },
        PACKET_ID_CLIENT_CHECK_STREAM_STATE => {
            match read_u32_at(buffer, p) {
                Some(stream_id) => Ok(ReadResult {
                    value: Packet::ClientCheckStreamState { stream_id },
                    new_offset: p + 4,
                }),
                None => Err(DecodeError::Incomplete),
            }
        },
        PACKET_ID_SERVER_PONG => Ok(ReadResult { value: Packet::ServerPong, new_offset: p }),
        PACKET_ID_SERVER_STREAM_CONTENTS => {
            let buffer_data = read_stream_from_buffer(buffer, p)?;
            Ok(ReadResult {
                value: Packet::ServerStreamContents { buffer_data: buffer_data.value },
                new_offset: buffer_data.new_offset,
            })
        },
        PACKET_ID_SERVER_STREAM_STATE => {
            let stream_id = match read_u32_at(buffer, p) {
                Some(x) => x,
                None => {
                    return Err(DecodeError::Incomplete);
                },
            };
            if buffer.len() < 8 || p > buffer.len() - 8 {
                return Err(DecodeError::Incomplete);
            }
            let is_valid = read_boolean_from_buffer(buffer, p + 4);
            Ok(ReadResult {
                value: Packet::ServerStreamState { stream_id, is_valid: is_valid.value },
                new_offset: is_valid.new_offset,
            })
        },
        _ => Err(DecodeError::UnknownTag(packet_id)),
    }
}

/// The outcome of one incremental decode pass over an accumulation buffer.
pub struct DecodeOutcome {
    /// Every complete packet, in wire order.
    pub packets: Vec<Packet>,
    /// How many bytes of the buffer those packets occupied.
    pub consumed: usize,
    /// Whether decoding stopped on an unknown tag rather than on a partial
    /// frame or the end of the buffer.
    pub corrupt: bool,
}

/// Decodes every complete packet at the front of `buffer`, reporting how
/// many bytes were consumed and whether an unknown tag stopped the pass.
pub fn deserialize_packets_with_offset(buffer: &Vec<u8>) -> (r: DecodeOutcome)
    ensures
        views_of(r.packets@) == spec_drain(buffer@, 0).0,
        r.consumed == spec_drain(buffer@, 0).1,
        r.corrupt == spec_drain_corrupt(buffer@, 0),
        r.consumed <= buffer@.len(),
{
    let mut packets: Vec<Packet> = Vec::new();
    let mut offset: usize = 0;
    let mut corrupt = false;
    proof {
        assert(views_of(packets@) =~= Seq::<PacketView>::empty());
    }
    while offset < buffer.len()
        invariant_except_break
            offset <= buffer@.len(),
            !corrupt,
            spec_drain(buffer@, 0).0 =~= views_of(packets@) + spec_drain(buffer@, offset as int).0,
            spec_drain(buffer@, 0).1 == spec_drain(buffer@, offset as int).1,
            spec_drain_corrupt(buffer@, 0) == spec_drain_corrupt(buffer@, offset as int),
        ensures
            offset <= buffer@.len(),
            views_of(packets@) == spec_drain(buffer@, 0).0,
            offset == spec_drain(buffer@, 0).1,
            corrupt == spec_drain_corrupt(buffer@, 0),
        decreases buffer@.len() - offset,
    {
        match read_packet_from_buffer(buffer, offset) {
            Ok(result) => {
                proof {
                    lemma_frame_advances(buffer@, offset as int);
                    assert(views_of(packets@.push(result.value)) =~= views_of(packets@) + seq![
                        result.value@,
                    ]);
                    assert(views_of(packets@) + (seq![result.value@] + spec_drain(
                        buffer@,
                        result.new_offset as int,
                    ).0) =~= (views_of(packets@) + seq![result.value@]) + spec_drain(
                        buffer@,
                        result.new_offset as int,
                    ).0);
                }
                packets.push(result.value);
                offset = result.new_offset;
            },
            Err(DecodeError::Incomplete) => {
                break ;
            },
            Err(DecodeError::UnknownTag(_)) => {
                corrupt = true;
                break ;
            },
        }
    }
    DecodeOutcome { packets, consumed: offset, corrupt }
}

/// Every packet of a batch is encodable.
pub open spec fn wf_packets(ps: Seq<PacketView>) -> bool {
    forall|i: int| 0 <= i < ps.len() ==> wf_packet(#[trigger] ps[i])
}

proof fn lemma_sub_window(buf: Seq<u8>, off: int, w: Seq<u8>, lo: int, hi: int)
    requires
        0 <= off,
        off + w.len() <= buf.len(),
        buf.subrange(off, off + w.len() as int) == w,
        0 <= lo <= hi <= w.len(),
    ensures
        buf.subrange(off + lo, off + hi) == w.subrange(lo, hi),
{
    assert forall|j: int| 0 <= j < hi - lo implies buf.subrange(off + lo, off + hi)[j]
        == w.subrange(lo, hi)[j] by {
        assert(buf.subrange(off, off + w.len() as int)[lo + j] == w[lo + j]);
    };
    assert(buf.subrange(off + lo, off + hi) =~= w.subrange(lo, hi));
}

proof fn lemma_window_read_u32(buf: Seq<u8>, off: int, x: u32)
    requires
        0 <= off,
        off + 4 <= buf.len(),
        buf.subrange(off, off + 4) == spec_u32_to_le_bytes(x),
    ensures
        spec_read_u32(buf, off) == x,
{
    lemma_auto_spec_u32_to_from_le_bytes();
    assert(spec_u32_to_le_bytes(x).len() == 4);
    assert(spec_u32_from_le_bytes(spec_u32_to_le_bytes(x)) == x);
}

proof fn lemma_ids_bytes_len(ids: Seq<u32>)
    ensures
        spec_ids_bytes(ids).len() == 4 * ids.len(),
    decreases ids.len(),
{
    lemma_auto_spec_u32_to_from_le_bytes();
    if ids.len() > 0 {
        lemma_ids_bytes_len(ids.drop_last());
    }
}

proof fn lemma_ids_bytes_slice(ids: Seq<u32>, i: int)
    requires
        0 <= i < ids.len(),
    ensures
        spec_ids_bytes(ids).subrange(4 * i, 4 * i + 4) == spec_u32_to_le_bytes(ids[i]),
    decreases ids.len(),
{
    lemma_auto_spec_u32_to_from_le_bytes();
    lemma_ids_bytes_len(ids);
    lemma_ids_bytes_len(ids.drop_last());
    if i == ids.len() - 1 {
        assert(spec_ids_bytes(ids).subrange(4 * i, 4 * i + 4) =~= spec_u32_to_le_bytes(
            ids.last(),
        ));
    } else {
        lemma_ids_bytes_slice(ids.drop_last(), i);
        assert(spec_ids_bytes(ids).subrange(4 * i, 4 * i + 4) =~= spec_ids_bytes(
            ids.drop_last(),
        ).subrange(4 * i, 4 * i + 4));
    }
}

proof fn lemma_window_frame_bytes(buf: Seq<u8>, off: int, data: Seq<u8>)
    requires
        0 <= off,
        data.len() <= u32::MAX,
        off + 4 + data.len() <= buf.len(),
        buf.subrange(off, off + 4 + data.len() as int) == spec_framed(data),
    ensures
        spec_take_frame_bytes(buf, off) == Some((data, off + 4 + data.len() as int)),
{
    lemma_auto_spec_u32_to_from_le_bytes();
    let w = spec_framed(data);
    let len = 4 + data.len() as int;
    lemma_sub_window(buf, off, w, 0, 4);
    assert(w.subrange(0, 4) =~= spec_u32_to_le_bytes(data.len() as u32));
    lemma_window_read_u32(buf, off, data.len() as u32);
    lemma_sub_window(buf, off, w, 4, len);
    assert(w.subrange(4, len) =~= data);
}

proof fn lemma_window_ids(buf: Seq<u8>, off: int, ids: Seq<u32>)
    requires
        0 <= off,
        ids.len() <= u32::MAX,
        off + 4 + 4 * ids.len() <= buf.len(),
        buf.subrange(off, off + 4 + 4 * ids.len() as int) == spec_id_list(ids),
    ensures
        spec_take_ids(buf, off) == Some((ids, off + 4 + 4 * ids.len() as int)),
{
    lemma_auto_spec_u32_to_from_le_bytes();
    lemma_ids_bytes_len(ids);
    let n = ids.len() as int;
    let w = spec_id_list(ids);
    let len = 4 + 4 * n;
    lemma_sub_window(buf, off, w, 0, 4);
    assert(w.subrange(0, 4) =~= spec_u32_to_le_bytes(ids.len() as u32));
    lemma_window_read_u32(buf, off, ids.len() as u32);
    lemma_sub_window(buf, off, w, 4, len);
    assert(w.subrange(4, len) =~= spec_ids_bytes(ids));
    assert forall|i: int| 0 <= i < n implies #[trigger] spec_read_u32(buf, off + 4 + 4 * i)
        == ids[i] by {
        lemma_ids_bytes_slice(ids, i);
        lemma_sub_window(buf, off + 4, spec_ids_bytes(ids), 4 * i, 4 * i + 4);
        lemma_window_read_u32(buf, off + 4 + 4 * i, ids[i]);
    };
    assert(Seq::new(n as nat, |i: int| spec_read_u32(buf, off + 4 + 4 * i)) =~= ids);
}

/// Reading at a window that holds the complete frame of `p` yields exactly
/// `p` and stops exactly past that frame.
pub proof fn lemma_read_frame_at(buf: Seq<u8>, off: int, p: PacketView)
    requires
        wf_packet(p),
        0 <= off,
        off + spec_encode_packet(p).len() <= buf.len(),
        buf.subrange(off, off + spec_encode_packet(p).len() as int) == spec_encode_packet(p),
    ensures
        spec_read_frame(buf, off) == FrameResult::Frame(p, off + spec_encode_packet(p).len() as int),
{
    lemma_auto_spec_u32_to_from_le_bytes();
    let enc = spec_encode_packet(p);
    let tag = spec_packet_tag(p);
    let pay = spec_packet_payload(p);
    let pl = pay.len() as int;
    assert(enc.len() == 4 + pl);
    lemma_sub_window(buf, off, enc, 0, 4);
    assert(enc.subrange(0, 4) =~= spec_u32_to_le_bytes(tag));
    lemma_window_read_u32(buf, off, tag);
    let q = off + 4;
    lemma_sub_window(buf, off, enc, 4, 4 + pl);
    assert(enc.subrange(4, 4 + pl) =~= pay);
    match p {
        PacketView::ClientPing => {},
        PacketView::ServerPong => {},
        PacketView::ClientCreateNewStream { stream_id } => {
            lemma_window_read_u32(buf, q, stream_id);
        },
        PacketView::ClientDeleteStream { stream_id } => {
            lemma_window_read_u32(buf, q, stream_id);
        },
        PacketView::ClientRequestStreamContents { stream_id } => {
            lemma_window_read_u32(buf, q, stream_id);
        },
        PacketView::ClientRequestStreamContentsNoClear { stream_id } => {
            lemma_window_read_u32(buf, q, stream_id);
        },
        PacketView::ClientCheckStreamState { stream_id } => {
            lemma_window_read_u32(buf, q, stream_id);
        },
        PacketView::ClientEnqueueSingle { stream_id, enqueue_data } => {
            lemma_sub_window(buf, q, pay, 0, 4);
            assert(pay.subrange(0, 4) =~= spec_u32_to_le_bytes(stream_id));
            lemma_window_read_u32(buf, q, stream_id);
            lemma_sub_window(buf, q, pay, 4, pl);
            assert(pay.subrange(4, pl) =~= spec_framed(enqueue_data));
            lemma_window_frame_bytes(buf, q + 4, enqueue_data);
        },
        PacketView::ClientEnqueueMultiple { enqueue_data, filter_stream_ids } => {
            lemma_ids_bytes_len(filter_stream_ids);
            let fl = 4 + enqueue_data.len() as int;
            lemma_sub_window(buf, q, pay, 0, fl);
            assert(pay.subrange(0, fl) =~= spec_framed(enqueue_data));
            lemma_window_frame_bytes(buf, q, enqueue_data);
            lemma_sub_window(buf, q, pay, fl, pl);
            assert(pay.subrange(fl, pl) =~= spec_id_list(filter_stream_ids));
            lemma_window_ids(buf, q + fl, filter_stream_ids);
        },
        PacketView::ClientEnqueueAll { enqueue_data } => {
            lemma_window_frame_bytes(buf, q, enqueue_data);
        },
        PacketView::ClientEnqueueAllExcept { enqueue_data, filter_stream_ids } => {
            lemma_ids_bytes_len(filter_stream_ids);
            let fl = 4 + enqueue_data.len() as int;
            lemma_sub_window(buf, q, pay, 0, fl);
            assert(pay.subrange(0, fl) =~= spec_framed(enqueue_data));
            lemma_window_frame_bytes(buf, q, enqueue_data);
            lemma_sub_window(buf, q, pay, fl, pl);
            assert(pay.subrange(fl, pl) =~= spec_id_list(filter_stream_ids));
            lemma_window_ids(buf, q + fl, filter_stream_ids);
        },
        PacketView::ServerStreamContents { buffer_data } => {
            lemma_window_frame_bytes(buf, q, buffer_data);
        },
        PacketView::ServerStreamState { stream_id, is_valid } => {
            lemma_sub_window(buf, q, pay, 0, 4);
            assert(pay.subrange(0, 4) =~= spec_u32_to_le_bytes(stream_id));
            lemma_window_read_u32(buf, q, stream_id);
            assert(buf.subrange(q, q + pl)[4] == pay[4]);
            assert(pay[4] == spec_bool_bytes(is_valid)[0]);
            assert((buf[q + 4] > 0) == is_valid);
        },
    }
}

proof fn lemma_encode_packets_first(ps: Seq<PacketView>)
    requires
        ps.len() > 0,
    ensures
        spec_encode_packets(ps) == spec_encode_packet(ps[0]) + spec_encode_packets(
            ps.drop_first(),
        ),
    decreases ps.len(),
{
    if ps.len() == 1 {
        assert(ps.drop_last() =~= Seq::<PacketView>::empty());
        assert(ps.drop_first() =~= Seq::<PacketView>::empty());
        assert(ps.last() == ps[0]);
        assert(spec_encode_packets(ps) =~= spec_encode_packet(ps[0]) + spec_encode_packets(
            ps.drop_first(),
        ));
    } else {
        lemma_encode_packets_first(ps.drop_last());
        assert(ps.drop_last().drop_first() =~= ps.drop_first().drop_last());
        assert(ps.drop_last()[0] == ps[0]);
        assert(ps.drop_first().last() == ps.last());
        assert(spec_encode_packets(ps) == spec_encode_packets(ps.drop_last()) + spec_encode_packet(
            ps.last(),
        ));
        assert(spec_encode_packets(ps) =~= spec_encode_packet(ps[0]) + (spec_encode_packets(
            ps.drop_first().drop_last(),
        ) + spec_encode_packet(ps.drop_first().last())));
    }
}

/// Batching: a buffer that holds exactly the back-to-back frames of a batch
/// of encodable packets decodes to exactly that batch, consumes the whole
/// buffer, and reports no corruption.
pub proof fn lemma_drain_encoded(buf: Seq<u8>, off: int, ps: Seq<PacketView>)
    requires
        wf_packets(ps),
        0 <= off <= buf.len(),
        buf.subrange(off, buf.len() as int) == spec_encode_packets(ps),
    ensures
        spec_drain(buf, off).0 == ps,
        spec_drain(buf, off).1 == buf.len(),
        !spec_drain_corrupt(buf, off),
    decreases ps.len(),
{
    lemma_auto_spec_u32_to_from_le_bytes();
    if ps.len() == 0 {
        assert(buf.len() - off == 0);
        assert(spec_drain(buf, off).0 =~= ps);
    } else {
        let p0 = ps[0];
        assert(wf_packet(p0));
        let enc0 = spec_encode_packet(p0);
        let encb = spec_encode_packets(ps);
        lemma_encode_packets_first(ps);
        assert(buf.len() - off == encb.len());
        lemma_sub_window(buf, off, encb, 0, enc0.len() as int);
        assert(encb.subrange(0, enc0.len() as int) =~= enc0);
        lemma_read_frame_at(buf, off, p0);
        let end = off + enc0.len() as int;
        lemma_sub_window(buf, off, encb, enc0.len() as int, encb.len() as int);
        assert(encb.subrange(enc0.len() as int, encb.len() as int) =~= spec_encode_packets(
            ps.drop_first(),
        ));
        assert(buf.subrange(end, buf.len() as int) == spec_encode_packets(ps.drop_first()));
        assert forall|i: int| 0 <= i < ps.drop_first().len() implies wf_packet(
            #[trigger] ps.drop_first()[i],
        ) by {
            assert(ps.drop_first()[i] == ps[i + 1]);
            assert(wf_packet(ps[i + 1]));
        };
        lemma_drain_encoded(buf, end, ps.drop_first());
        assert(spec_drain(buf, off).0 =~= seq![p0] + ps.drop_first());
        assert(seq![p0] + ps.drop_first() =~= ps);
    }
}

/// Round-trip: the encoding of one encodable message decodes to exactly
/// that message, consuming the whole frame.
pub proof fn lemma_encode_decode_roundtrip(p: PacketView)
    requires
        wf_packet(p),
    ensures
        spec_drain(spec_encode_packet(p), 0).0 == seq![p],
        spec_drain(spec_encode_packet(p), 0).1 == spec_encode_packet(p).len(),
        !spec_drain_corrupt(spec_encode_packet(p), 0),
{
    let enc = spec_encode_packet(p);
    assert(seq![p].drop_last() =~= Seq::<PacketView>::empty());
    assert(seq![p].last() == p);
    assert(spec_encode_packets(Seq::<PacketView>::empty()) == Seq::<u8>::empty());
    assert(spec_encode_packets(seq![p]) =~= enc);
    assert(enc.subrange(0, enc.len() as int) =~= enc);
    assert(wf_packets(seq![p])) by {
        assert(seq![p][0] == p);
    };
    lemma_drain_encoded(enc, 0, seq![p]);
}

/// Batching of two messages: their frames concatenated decode to both
/// messages, consuming the total length.
pub proof fn lemma_encode_decode_pair(p1: PacketView, p2: PacketView)
    requires
        wf_packet(p1),
        wf_packet(p2),
    ensures
        spec_drain(spec_encode_packet(p1) + spec_encode_packet(p2), 0).0 == seq![p1, p2],
        spec_drain(spec_encode_packet(p1) + spec_encode_packet(p2), 0).1 == spec_encode_packet(
            p1,
        ).len() + spec_encode_packet(p2).len(),
        !spec_drain_corrupt(spec_encode_packet(p1) + spec_encode_packet(p2), 0),
{
    let buf = spec_encode_packet(p1) + spec_encode_packet(p2);
    let ps = seq![p1, p2];
    assert(ps.drop_last() =~= seq![p1]);
    assert(ps.last() == p2);
    assert(seq![p1].drop_last() =~= Seq::<PacketView>::empty());
    assert(seq![p1].last() == p1);
    assert(spec_encode_packets(Seq::<PacketView>::empty()) == Seq::<u8>::empty());
    assert(spec_encode_packets(seq![p1]) =~= spec_encode_packet(p1));
    assert(spec_encode_packets(ps) =~= buf);
    assert(buf.subrange(0, buf.len() as int) =~= buf);
    assert(wf_packets(ps)) by {
        assert(ps[0] == p1);
        assert(ps[1] == p2);
    };
    lemma_drain_encoded(buf, 0, ps);
}

/// Partial-frame stability: any strict prefix of one frame decodes to no
/// message at all, consumes nothing, and is not corrupt.
pub proof fn lemma_decode_strict_prefix(p: PacketView, k: int)
    requires
        wf_packet(p),
        0 <= k < spec_encode_packet(p).len(),
    ensures
        spec_read_frame(spec_encode_packet(p).take(k), 0) is NeedMore,
        spec_drain(spec_encode_packet(p).take(k), 0).0 == Seq::<PacketView>::empty(),
        spec_drain(spec_encode_packet(p).take(k), 0).1 == 0,
        !spec_drain_corrupt(spec_encode_packet(p).take(k), 0),
{
    lemma_auto_spec_u32_to_from_le_bytes();
    let enc = spec_encode_packet(p);
    let tag = spec_packet_tag(p);
    let pay = spec_packet_payload(p);
    let pre = enc.take(k);
    assert(enc.len() == 4 + pay.len());
    if k >= 4 {
        assert(pre.subrange(0, 4) =~= spec_u32_to_le_bytes(tag));
        lemma_window_read_u32(pre, 0, tag);
        match p {
            PacketView::ClientPing => {},
            PacketView::ServerPong => {},
            PacketView::ClientCreateNewStream { stream_id } => {},
            PacketView::ClientDeleteStream { stream_id } => {},
            PacketView::ClientRequestStreamContents { stream_id } => {},
            PacketView::ClientRequestStreamContentsNoClear { stream_id } => {},
            PacketView::ClientCheckStreamState { stream_id } => {},
            PacketView::ServerStreamState { stream_id, is_valid } => {},
            PacketView::ClientEnqueueSingle { stream_id, enqueue_data } => {
                if k >= 12 {
                    assert(pre.subrange(8, 12) =~= spec_u32_to_le_bytes(
                        enqueue_data.len() as u32,
                    ));
                    lemma_window_read_u32(pre, 8, enqueue_data.len() as u32);
                }
            },
            PacketView::ClientEnqueueAll { enqueue_data } => {
                if k >= 8 {
                    assert(pre.subrange(4, 8) =~= spec_u32_to_le_bytes(enqueue_data.len() as u32));
                    lemma_window_read_u32(pre, 4, enqueue_data.len() as u32);
                }
            },
            PacketView::ServerStreamContents { buffer_data } => {
                if k >= 8 {
                    assert(pre.subrange(4, 8) =~= spec_u32_to_le_bytes(buffer_data.len() as u32));
                    lemma_window_read_u32(pre, 4, buffer_data.len() as u32);
                }
            },
            PacketView::ClientEnqueueMultiple { enqueue_data, filter_stream_ids } => {
                lemma_ids_bytes_len(filter_stream_ids);
                if k >= 8 {
                    assert(pre.subrange(4, 8) =~= spec_u32_to_le_bytes(enqueue_data.len() as u32));
                    lemma_window_read_u32(pre, 4, enqueue_data.len() as u32);
                    let q = 8 + enqueue_data.len() as int;
                    if k >= q + 4 {
                        assert(pre.subrange(q, q + 4) =~= spec_u32_to_le_bytes(
                            filter_stream_ids.len() as u32,
                        ));
                        lemma_window_read_u32(pre, q, filter_stream_ids.len() as u32);
                    }
                }
            },
            PacketView::ClientEnqueueAllExcept { enqueue_data, filter_stream_ids } => {
                lemma_ids_bytes_len(filter_stream_ids);
                if k >= 8 {
                    assert(pre.subrange(4, 8) =~= spec_u32_to_le_bytes(enqueue_data.len() as u32));
                    lemma_window_read_u32(pre, 4, enqueue_data.len() as u32);
                    let q = 8 + enqueue_data.len() as int;
                    if k >= q + 4 {
                        assert(pre.subrange(q, q + 4) =~= spec_u32_to_le_bytes(
                            filter_stream_ids.len() as u32,
                        ));
                        lemma_window_read_u32(pre, q, filter_stream_ids.len() as u32);
                    }
                }
            },
        }
    }
    assert(spec_drain(pre, 0).0 =~= Seq::<PacketView>::empty());
}

/// Decodes every complete packet at the front of `buffer`.
pub fn deserialize_packets(buffer: &Vec<u8>) -> (r: Vec<Packet>)
    ensures
        views_of(r@) == spec_drain(buffer@, 0).0,
{
    let outcome = deserialize_packets_with_offset(buffer);
    outcome.packets
}

} // verus!
