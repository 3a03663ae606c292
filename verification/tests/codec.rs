use fsdb::serialisation::{
    deserialize_packets, deserialize_packets_with_offset, read_boolean_from_buffer,
    read_filter_list_from_buffer, read_packet_from_buffer, read_stream_from_buffer,
    serialize_packets, write_boolean_into_buffer, write_filter_list_into_buffer,
    write_packet_into_buffer, write_stream_into_buffer, DecodeError, Packet,
};

fn every_packet_kind() -> Vec<Packet> {
    vec![
        Packet::ClientPing,
        Packet::ClientCreateNewStream { stream_id: 1 },
        Packet::ClientDeleteStream { stream_id: 2 },
        Packet::ClientEnqueueSingle {
            stream_id: 3,
            enqueue_data: vec![1, 2, 3],
        },
        Packet::ClientEnqueueMultiple {
            enqueue_data: vec![4, 5],
            filter_stream_ids: vec![7, 8, 9],
        },
        Packet::ClientEnqueueAll {
            enqueue_data: vec![6],
        },
        Packet::ClientEnqueueAllExcept {
            enqueue_data: vec![],
            filter_stream_ids: vec![10],
        },
        Packet::ClientRequestStreamContents { stream_id: 11 },
        Packet::ClientRequestStreamContentsNoClear { stream_id: 12 },
        Packet::ClientCheckStreamState { stream_id: 13 },
        Packet::ServerPong,
        Packet::ServerStreamContents {
            buffer_data: vec![42, 43],
        },
        Packet::ServerStreamState {
            stream_id: 14,
            is_valid: true,
        },
    ]
}

#[test]
fn round_trip_every_kind() {
    for packet in every_packet_kind() {
        let encoded = serialize_packets(std::slice::from_ref(&packet));
        let outcome = deserialize_packets_with_offset(&encoded);
        assert_eq!(outcome.packets, vec![packet]);
        assert_eq!(outcome.consumed, encoded.len());
        assert!(!outcome.corrupt);
    }
}

#[test]
fn strict_prefixes_decode_to_nothing() {
    let packet = Packet::ClientEnqueueMultiple {
        enqueue_data: vec![9, 8, 7],
        filter_stream_ids: vec![1, 2],
    };
    let encoded = serialize_packets(std::slice::from_ref(&packet));
    for k in 0..encoded.len() {
        let prefix: Vec<u8> = encoded[..k].to_vec();
        let outcome = deserialize_packets_with_offset(&prefix);
        assert!(outcome.packets.is_empty());
        assert_eq!(outcome.consumed, 0);
        assert!(!outcome.corrupt);
    }
}

#[test]
fn batching_two_messages() {
    let first = Packet::ClientCreateNewStream { stream_id: 5 };
    let second = Packet::ClientEnqueueSingle {
        stream_id: 5,
        enqueue_data: vec![65, 66],
    };
    let batch = vec![first.clone(), second.clone()];
    let encoded = serialize_packets(&batch);
    let outcome = deserialize_packets_with_offset(&encoded);
    assert_eq!(outcome.packets, vec![first, second]);
    assert_eq!(outcome.consumed, encoded.len());
    assert!(!outcome.corrupt);
}

#[test]
fn exact_wire_bytes_create_stream() {
    let mut buffer = Vec::new();
    write_packet_into_buffer(&mut buffer, &Packet::ClientCreateNewStream { stream_id: 7 });
    assert_eq!(buffer, vec![1, 0, 0, 0, 7, 0, 0, 0]);
}

#[test]
fn exact_wire_bytes_enqueue_single() {
    let mut buffer = Vec::new();
    write_packet_into_buffer(
        &mut buffer,
        &Packet::ClientEnqueueSingle {
            stream_id: 5,
            enqueue_data: vec![65, 66],
        },
    );
    assert_eq!(buffer, vec![3, 0, 0, 0, 5, 0, 0, 0, 2, 0, 0, 0, 65, 66]);
}

#[test]
fn exact_wire_bytes_enqueue_multiple() {
    let mut buffer = Vec::new();
    write_packet_into_buffer(
        &mut buffer,
        &Packet::ClientEnqueueMultiple {
            enqueue_data: vec![88],
            filter_stream_ids: vec![1, 2],
        },
    );
    assert_eq!(
        buffer,
        vec![4, 0, 0, 0, 1, 0, 0, 0, 88, 2, 0, 0, 0, 1, 0, 0, 0, 2, 0, 0, 0]
    );
}

#[test]
fn exact_wire_bytes_stream_state() {
    let mut buffer = Vec::new();
    write_packet_into_buffer(
        &mut buffer,
        &Packet::ServerStreamState {
            stream_id: 9,
            is_valid: true,
        },
    );
    assert_eq!(buffer, vec![12, 0, 0, 0, 9, 0, 0, 0, 1, 0, 0, 0]);
    let mut off = Vec::new();
    write_packet_into_buffer(
        &mut off,
        &Packet::ServerStreamState {
            stream_id: 9,
            is_valid: false,
        },
    );
    assert_eq!(off, vec![12, 0, 0, 0, 9, 0, 0, 0, 0, 0, 0, 0]);
}

#[test]
fn unknown_tag_is_corrupt() {
    let buffer = vec![13, 0, 0, 0, 1, 2, 3, 4];
    let outcome = deserialize_packets_with_offset(&buffer);
    assert!(outcome.packets.is_empty());
    assert_eq!(outcome.consumed, 0);
    assert!(outcome.corrupt);
}

#[test]
fn unknown_tag_after_complete_message() {
    let mut buffer = serialize_packets(&[Packet::ClientPing]);
    let good_len = buffer.len();
    buffer.extend_from_slice(&[200, 0, 0, 0]);
    let outcome = deserialize_packets_with_offset(&buffer);
    assert_eq!(outcome.packets, vec![Packet::ClientPing]);
    assert_eq!(outcome.consumed, good_len);
    assert!(outcome.corrupt);
}

#[test]
fn read_packet_reports_incomplete_and_unknown() {
    let buffer = vec![1, 0, 0];
    assert_eq!(
        read_packet_from_buffer(&buffer, 0),
        Err(DecodeError::Incomplete)
    );
    let buffer = vec![1, 0, 0, 0, 7, 0];
    assert_eq!(
        read_packet_from_buffer(&buffer, 0),
        Err(DecodeError::Incomplete)
    );
    let buffer = vec![99, 0, 0, 0];
    assert_eq!(
        read_packet_from_buffer(&buffer, 0),
        Err(DecodeError::UnknownTag(99))
    );
}

#[test]
fn read_packet_at_offset() {
    let batch = vec![
        Packet::ClientPing,
        Packet::ClientDeleteStream { stream_id: 3 },
    ];
    let encoded = serialize_packets(&batch);
    let first = read_packet_from_buffer(&encoded, 0).unwrap();
    assert_eq!(first.value, Packet::ClientPing);
    assert_eq!(first.new_offset, 4);
    let second = read_packet_from_buffer(&encoded, first.new_offset).unwrap();
    assert_eq!(second.value, Packet::ClientDeleteStream { stream_id: 3 });
    assert_eq!(second.new_offset, encoded.len());
}

#[test]
fn framed_bytes_helpers_round_trip() {
    let mut buffer = Vec::new();
    write_stream_into_buffer(&mut buffer, &vec![10, 20, 30]);
    assert_eq!(buffer, vec![3, 0, 0, 0, 10, 20, 30]);
    let read = read_stream_from_buffer(&buffer, 0).unwrap();
    assert_eq!(read.value, vec![10, 20, 30]);
    assert_eq!(read.new_offset, 7);
    assert_eq!(
        read_stream_from_buffer(&vec![5, 0, 0, 0, 1, 2], 0),
        Err(DecodeError::Incomplete)
    );
}

#[test]
fn filter_list_helpers_round_trip() {
    let mut buffer = Vec::new();
    write_filter_list_into_buffer(&mut buffer, &vec![256, 1]);
    assert_eq!(buffer, vec![2, 0, 0, 0, 0, 1, 0, 0, 1, 0, 0, 0]);
    let read = read_filter_list_from_buffer(&buffer, 0).unwrap();
    assert_eq!(read.value, vec![256, 1]);
    assert_eq!(read.new_offset, 12);
    assert_eq!(
        read_filter_list_from_buffer(&vec![2, 0, 0, 0, 1, 0, 0, 0], 0),
        Err(DecodeError::Incomplete)
    );
}

#[test]
fn boolean_helper_reads_first_byte() {
    let mut buffer = Vec::new();
    write_boolean_into_buffer(&mut buffer, true);
    write_boolean_into_buffer(&mut buffer, false);
    assert_eq!(buffer, vec![1, 0, 0, 0, 0, 0, 0, 0]);
    let first = read_boolean_from_buffer(&buffer, 0);
    assert!(first.value);
    assert_eq!(first.new_offset, 4);
    let second = read_boolean_from_buffer(&buffer, first.new_offset);
    assert!(!second.value);
}

#[test]
fn packet_id_matches_tag_table() {
    let ids: Vec<u32> = every_packet_kind().iter().map(|p| p.packet_id()).collect();
    assert_eq!(ids, vec![0, 1, 2, 3, 4, 5, 6, 7, 8, 9, 10, 11, 12]);
}

#[test]
fn deserialize_without_offset_matches() {
    let batch = vec![
        Packet::ClientPing,
        Packet::ClientCheckStreamState { stream_id: 4 },
    ];
    let encoded = serialize_packets(&batch);
    assert_eq!(deserialize_packets(&encoded), batch);
    let empty: Vec<u8> = Vec::new();
    assert!(deserialize_packets(&empty).is_empty());
}

#[test]
fn empty_payloads_encode_and_decode() {
    let packet = Packet::ClientEnqueueAll {
        enqueue_data: vec![],
    };
    let encoded = serialize_packets(std::slice::from_ref(&packet));
    assert_eq!(encoded, vec![5, 0, 0, 0, 0, 0, 0, 0]);
    let outcome = deserialize_packets_with_offset(&encoded);
    assert_eq!(outcome.packets, vec![packet]);
}
