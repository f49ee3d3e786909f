use rpc_codec::codec::{decode_commands, Command};
use rpc_codec::mem::RpcMem;
use rpc_codec::traits::{RpcObject, RpcVariant};

struct Player;

impl RpcObject for Player {
    fn rpc_object_type() -> u32 {
        2
    }
}

struct Health;

impl RpcVariant for Health {
    fn rpc_variant_type() -> u32 {
        10
    }
}

fn replay(cmds: Vec<Command>) -> RpcMem {
    let mut replica = RpcMem::new();
    for c in cmds {
        match c {
            Command::Spawn { id, kind } => replica.spawn(id, kind),
            Command::Despawn { id } => {
                replica.despawn(id);
            }
            Command::Update { id, kind, payload } => {
                replica.serialize(id, kind, &payload);
            }
        }
    }
    replica
}

#[test]
fn scenario_spawn_update_despawn_bytes() {
    let mut rpc = RpcMem::new();
    rpc.spawn(7, Player::rpc_object_type());
    rpc.serialize(7, Health::rpc_variant_type(), &[0x2A, 0x00, 0x00, 0x00]);
    rpc.despawn(7);
    let expected: Vec<u8> = vec![
        0x01, 0x07, 0x00, 0x00, 0x00, 0x02, 0x00, 0x00, 0x00, // Spawn id=7 kind=2
        0x03, 0x07, 0x00, 0x00, 0x00, 0x0A, 0x00, 0x00, 0x00, // Update id=7 kind=10
        0x04, 0x00, 0x00, 0x00, 0x2A, 0x00, 0x00, 0x00, // length=4 payload=2A000000
        0x02, 0x07, 0x00, 0x00, 0x00, // Despawn id=7
    ];
    assert_eq!(rpc.data(), expected.as_slice());
    // the cache is empty afterward, so a snapshot yields an empty buffer
    assert!(rpc.snapshot().is_empty());
}

#[test]
fn round_trip_rebuilds_cache() {
    let mut src = RpcMem::new();
    src.spawn(1, 100);
    src.spawn(2, 200);
    src.serialize(1, 10, b"hello");
    src.serialize(1, 10, b"world"); // latest write wins
    src.serialize(2, 11, &[1, 2, 3]);
    src.serialize(9, 5, &[9]); // uncached id: on the wire, not cached
    src.despawn(2);
    let bytes = src.data().to_vec();
    let cmds = decode_commands(&bytes).expect("a recorded buffer is well-formed");
    let mut replica = replay(cmds);
    assert_eq!(src.snapshot().to_vec(), replica.snapshot().to_vec());
}

#[test]
fn snapshot_idempotent_and_self_sufficient() {
    let mut rpc = RpcMem::new();
    rpc.spawn(3, 30);
    rpc.serialize(3, 1, b"pos");
    rpc.serialize(3, 2, b"hp");
    rpc.spawn(1, 10);
    rpc.serialize(1, 2, b"x");
    let s1 = rpc.snapshot().to_vec();
    let s2 = rpc.snapshot().to_vec();
    // no mutation in between: byte-identical, hence decoded-state identical
    assert_eq!(s1, s2);
    // replaying the snapshot from empty reconstructs the same state
    let cmds = decode_commands(&s1).expect("a snapshot is well-formed");
    let mut replica = replay(cmds);
    assert_eq!(replica.snapshot().to_vec(), s1);
}

#[test]
fn snapshot_orders_by_id_then_kind() {
    let mut rpc = RpcMem::new();
    rpc.spawn(9, 90);
    rpc.spawn(4, 40);
    rpc.serialize(9, 7, b"b");
    rpc.serialize(9, 3, b"a");
    let snap = rpc.snapshot().to_vec();
    let cmds = decode_commands(&snap).expect("well-formed");
    let shape: Vec<(u8, u32, u32)> = cmds
        .iter()
        .map(|c| match c {
            Command::Spawn { id, kind } => (1, *id, *kind),
            Command::Despawn { id } => (2, *id, 0),
            Command::Update { id, kind, .. } => (3, *id, *kind),
        })
        .collect();
    assert_eq!(
        shape,
        vec![(1, 4, 40), (1, 9, 90), (3, 9, 3), (3, 9, 7)]
    );
}

#[test]
fn despawn_removes_fields_from_cache_and_snapshots() {
    let mut rpc = RpcMem::new();
    rpc.spawn(5, 1);
    rpc.spawn(6, 1);
    rpc.serialize(5, 7, b"gone");
    rpc.serialize(6, 7, b"kept");
    assert!(rpc.despawn(5));
    let snap = rpc.snapshot().to_vec();
    let cmds = decode_commands(&snap).expect("well-formed");
    for c in &cmds {
        let id = match c {
            Command::Spawn { id, .. } => *id,
            Command::Despawn { id } => *id,
            Command::Update { id, .. } => *id,
        };
        assert_ne!(id, 5);
    }
    assert_eq!(cmds.len(), 2); // Spawn(6) and its one Update
}

#[test]
fn update_length_prefix_matches_payload() {
    let mut rpc = RpcMem::new();
    rpc.spawn(1, 1);
    rpc.serialize(1, 2, &[0xAA, 0xBB, 0xCC]);
    rpc.serialize(1, 3, b"");
    let bytes = rpc.data().to_vec();
    // first Update starts right after the 9-byte Spawn
    let u = 9;
    assert_eq!(bytes[u], 3); // tag
    let len = u32::from_le_bytes([bytes[u + 9], bytes[u + 10], bytes[u + 11], bytes[u + 12]]);
    assert_eq!(len, 3);
    assert_eq!(&bytes[u + 13..u + 13 + len as usize], &[0xAA, 0xBB, 0xCC]);
    // the next command starts at start_of_payload + length
    let next = u + 13 + len as usize;
    assert_eq!(bytes[next], 3); // tag of the second Update
    let len2 = u32::from_le_bytes([
        bytes[next + 9],
        bytes[next + 10],
        bytes[next + 11],
        bytes[next + 12],
    ]);
    assert_eq!(len2, 0);
    assert_eq!(bytes.len(), next + 13);
}

#[test]
fn spawn_overwrites_live_entry() {
    let mut rpc = RpcMem::new();
    rpc.spawn(1, 10);
    rpc.serialize(1, 2, b"old");
    rpc.spawn(1, 11); // respawn: fresh entry, fields dropped
    let snap = rpc.snapshot().to_vec();
    let cmds = decode_commands(&snap).expect("well-formed");
    assert_eq!(cmds.len(), 1);
    match &cmds[0] {
        Command::Spawn { id, kind } => {
            assert_eq!(*id, 1);
            assert_eq!(*kind, 11);
        }
        _ => panic!("expected a single Spawn"),
    }
}

#[test]
fn stale_references_reported_not_fatal() {
    let mut rpc = RpcMem::new();
    assert!(!rpc.serialize(4, 1, b"nobody")); // uncached id: not cached
    assert!(!rpc.despawn(4)); // not live
    // both commands were still emitted on the wire
    let cmds = decode_commands(&rpc.data().to_vec()).expect("well-formed");
    assert_eq!(cmds.len(), 2);
    rpc.spawn(4, 2);
    assert!(rpc.serialize(4, 1, b"cached"));
    assert!(rpc.despawn(4));
}

#[test]
fn clear_empties_buffer_not_cache() {
    let mut rpc = RpcMem::new();
    rpc.spawn(2, 20);
    rpc.serialize(2, 5, b"v");
    rpc.clear();
    assert!(rpc.data().is_empty());
    // the cache survived: the snapshot still covers the entity
    let cmds = decode_commands(&rpc.snapshot().to_vec()).expect("well-formed");
    assert_eq!(cmds.len(), 2);
}

#[test]
fn decode_rejects_malformed_buffers() {
    assert_eq!(decode_commands(&[]).map(|v| v.len()), Some(0));
    assert!(decode_commands(&[9]).is_none()); // unknown tag
    assert!(decode_commands(&[1, 7, 0, 0]).is_none()); // truncated Spawn
    assert!(decode_commands(&[2, 7, 0, 0]).is_none()); // truncated Despawn
    // Update declaring 4 payload bytes but carrying 2
    assert!(
        decode_commands(&[3, 7, 0, 0, 0, 1, 0, 0, 0, 4, 0, 0, 0, 0x2A, 0x00]).is_none()
    );
}
