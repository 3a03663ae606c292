use fsdb::connection::{Connection, ConnectionStatus, MAX_READ_BUFFER};
use fsdb::dispatch::{handle_client_packets, DispatchError};
use fsdb::serialisation::{deserialize_packets, serialize_packets, Packet};
use fsdb::settings::ConnectionMode;
use fsdb::store::ServerState;

#[test]
fn ping_yields_pong_and_mutations_yield_nothing() {
    let mut state = ServerState::new();
    let batch = vec![
        Packet::ClientPing,
        Packet::ClientCreateNewStream { stream_id: 1 },
        Packet::ClientDeleteStream { stream_id: 1 },
    ];
    let responses = handle_client_packets(&mut state, batch, 100).unwrap();
    assert_eq!(responses, vec![Packet::ServerPong]);
}

#[test]
fn batch_members_see_earlier_effects() {
    let mut state = ServerState::new();
    let batch = vec![
        Packet::ClientCreateNewStream { stream_id: 1 },
        Packet::ClientEnqueueSingle {
            stream_id: 1,
            enqueue_data: vec![65, 66],
        },
        Packet::ClientRequestStreamContents { stream_id: 1 },
    ];
    let responses = handle_client_packets(&mut state, batch, 100).unwrap();
    assert_eq!(
        responses,
        vec![Packet::ServerStreamContents {
            buffer_data: vec![65, 66]
        }]
    );
}

#[test]
fn scenario_enqueue_broadcast_fetch_twice() {
    let mut state = ServerState::new();
    let batch = vec![
        Packet::ClientCreateNewStream { stream_id: 1 },
        Packet::ClientEnqueueSingle {
            stream_id: 1,
            enqueue_data: vec![b'A', b'B'],
        },
        Packet::ClientEnqueueAllExcept {
            enqueue_data: vec![b'C', b'D'],
            filter_stream_ids: vec![1],
        },
        Packet::ClientRequestStreamContents { stream_id: 1 },
        Packet::ClientRequestStreamContents { stream_id: 1 },
    ];
    let responses = handle_client_packets(&mut state, batch, 100).unwrap();
    assert_eq!(
        responses,
        vec![
            Packet::ServerStreamContents {
                buffer_data: vec![b'A', b'B']
            },
            Packet::ServerStreamContents {
                buffer_data: vec![]
            },
        ]
    );
}

#[test]
fn check_stream_state_reports_both_ways() {
    let mut state = ServerState::new();
    state.create_new_stream(6, 100);
    let batch = vec![
        Packet::ClientCheckStreamState { stream_id: 6 },
        Packet::ClientCheckStreamState { stream_id: 7 },
    ];
    let responses = handle_client_packets(&mut state, batch, 100).unwrap();
    assert_eq!(
        responses,
        vec![
            Packet::ServerStreamState {
                stream_id: 6,
                is_valid: true
            },
            Packet::ServerStreamState {
                stream_id: 7,
                is_valid: false
            },
        ]
    );
}

#[test]
fn server_packet_from_client_rejects_whole_batch() {
    let mut state = ServerState::new();
    let batch = vec![
        Packet::ClientCreateNewStream { stream_id: 1 },
        Packet::ServerPong,
    ];
    let result = handle_client_packets(&mut state, batch, 100);
    assert_eq!(result, Err(DispatchError::ServerOriginatedPacket));
    assert!(!state.stream_exists(1));
}

#[test]
fn connection_round_trip_over_chunks() {
    let mut state = ServerState::new();
    let mut conn = Connection::new();
    let batch = vec![
        Packet::ClientCreateNewStream { stream_id: 1 },
        Packet::ClientEnqueueSingle {
            stream_id: 1,
            enqueue_data: vec![1, 2, 3],
        },
        Packet::ClientRequestStreamContents { stream_id: 1 },
    ];
    let encoded = serialize_packets(&batch);
    let split = encoded.len() - 3;
    let (out1, status1) = conn.handle_chunk(&mut state, &encoded[..split], 100);
    assert!(out1.is_empty());
    assert_eq!(status1, ConnectionStatus::Open);
    let (out2, status2) = conn.handle_chunk(&mut state, &encoded[split..], 100);
    assert_eq!(status2, ConnectionStatus::Open);
    assert_eq!(
        deserialize_packets(&out2),
        vec![Packet::ServerStreamContents {
            buffer_data: vec![1, 2, 3]
        }]
    );
}

#[test]
fn connection_rejects_server_originated_packet() {
    let mut state = ServerState::new();
    let mut conn = Connection::new();
    let encoded = serialize_packets(&[Packet::ServerPong]);
    let (out, status) = conn.handle_chunk(&mut state, &encoded, 100);
    assert!(out.is_empty());
    assert_eq!(status, ConnectionStatus::ProtocolViolation);
}

#[test]
fn connection_closes_on_corrupt_tag() {
    let mut state = ServerState::new();
    let mut conn = Connection::new();
    let (_, status) = conn.handle_chunk(&mut state, &[77, 0, 0, 0, 1, 2, 3, 4], 100);
    assert_eq!(status, ConnectionStatus::CorruptFrame);
}

#[test]
fn oversized_incomplete_frame_terminates_connection() {
    let mut state = ServerState::new();
    let mut conn = Connection::new();
    // An EnqueueAll frame declaring far more bytes than will ever arrive.
    let mut chunk = vec![5, 0, 0, 0];
    chunk.extend_from_slice(&(200_000u32).to_le_bytes());
    chunk.resize(MAX_READ_BUFFER + 100, 0);
    let (out, status) = conn.handle_chunk(&mut state, &chunk, 100);
    assert!(out.is_empty());
    assert_eq!(status, ConnectionStatus::Overloaded);
}

#[test]
fn slow_trickle_still_hits_the_cap() {
    let mut state = ServerState::new();
    let mut conn = Connection::new();
    let mut header = vec![5, 0, 0, 0];
    header.extend_from_slice(&(200_000u32).to_le_bytes());
    let (_, mut status) = conn.handle_chunk(&mut state, &header, 100);
    assert_eq!(status, ConnectionStatus::Open);
    let filler = vec![0u8; 16 * 1024];
    let mut passes: u32 = 0;
    while status == ConnectionStatus::Open && passes < 16 {
        let (_, next) = conn.handle_chunk(&mut state, &filler, 100);
        status = next;
        passes += 1;
    }
    assert_eq!(status, ConnectionStatus::Overloaded);
}

#[test]
fn connection_mode_names_both_transports() {
    let modes = [ConnectionMode::Tcp, ConnectionMode::UnixSocket];
    assert_ne!(modes[0], modes[1]);
}
