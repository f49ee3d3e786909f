//! Wire codec for the outbound command log.
//!
//! A command buffer is a flat byte sequence of back-to-back commands.
//! Every integer on the wire is little-endian and 32 bits wide; each
//! command starts with a one-byte tag:
//!
//! | tag | meaning | payload                                          |
//! |-----|---------|--------------------------------------------------|
//! | 1   | Spawn   | `id:u32, kind:u32`                               |
//! | 2   | Despawn | `id:u32`                                         |
//! | 3   | Update  | `id:u32, kind:u32, length:u32, payload` bytes    |

use vstd::prelude::*;
use vstd::bytes::*;

verus! {

/// Wire tag of a Spawn command.
pub const TAG_SPAWN: u8 = 1;

/// Wire tag of a Despawn command.
pub const TAG_DESPAWN: u8 = 2;

/// Wire tag of an Update command.
pub const TAG_UPDATE: u8 = 3;

/// One operation of the outbound command log, as executable data.
pub enum Command {
    /// A new entity `id` of object kind `kind` came alive.
    Spawn { id: u32, kind: u32 },
    /// Entity `id` is gone.
    Despawn { id: u32 },
    /// The field of variant kind `kind` on entity `id` now holds the
    /// encoded bytes `payload`.
    Update { id: u32, kind: u32, payload: Vec<u8> },
}

/// Mathematical model of a command: the payload is a byte sequence.
pub enum CmdModel {
    Spawn { id: u32, kind: u32 },
    Despawn { id: u32 },
    Update { id: u32, kind: u32, payload: Seq<u8> },
}

impl View for Command {
    type V = CmdModel;

    open spec fn view(&self) -> CmdModel {
        match self {
            Command::Spawn { id, kind } => CmdModel::Spawn { id: *id, kind: *kind },
            Command::Despawn { id } => CmdModel::Despawn { id: *id },
            Command::Update { id, kind, payload } => CmdModel::Update {
                id: *id,
                kind: *kind,
                payload: payload@,
            },
        }
    }
}

/// The entity a command speaks about.
pub open spec fn cmd_id(c: CmdModel) -> u32 {
    match c {
        CmdModel::Spawn { id, .. } => id,
        CmdModel::Despawn { id } => id,
        CmdModel::Update { id, .. } => id,
    }
}

/// A command is encodable: an Update payload must fit its 32-bit length
/// prefix.
pub open spec fn cmd_wf(c: CmdModel) -> bool {
    match c {
        CmdModel::Update { payload, .. } => payload.len() <= u32::MAX,
        _ => true,
    }
}

/// The exact bytes one command occupies on the wire.
pub open spec fn spec_encode_cmd(c: CmdModel) -> Seq<u8> {
    match c {
        CmdModel::Spawn { id, kind } => seq![TAG_SPAWN] + spec_u32_to_le_bytes(id)
            + spec_u32_to_le_bytes(kind),
        CmdModel::Despawn { id } => seq![TAG_DESPAWN] + spec_u32_to_le_bytes(id),
        CmdModel::Update { id, kind, payload } => seq![TAG_UPDATE] + spec_u32_to_le_bytes(id)
            + spec_u32_to_le_bytes(kind) + spec_u32_to_le_bytes(payload.len() as u32) + payload,
    }
}

/// The bytes of a whole command sequence, back to back.
pub open spec fn spec_encode_cmds(cs: Seq<CmdModel>) -> Seq<u8>
    decreases cs.len(),
{
    if cs.len() == 0 {
        Seq::empty()
    } else {
        spec_encode_cmd(cs[0]) + spec_encode_cmds(cs.skip(1))
    }
}

/// Parses a byte sequence back into the command sequence it encodes.
/// `None` when the bytes are not the encoding of any command sequence
/// (unknown tag, or truncated command).
pub open spec fn spec_decode_cmds(s: Seq<u8>) -> Option<Seq<CmdModel>>
    decreases s.len(),
{
    if s.len() == 0 {
        Some(Seq::empty())
    } else if s[0] == TAG_SPAWN {
        if s.len() >= 9 {
            match spec_decode_cmds(s.skip(9)) {
                Some(rest) => Some(
                    seq![
                        CmdModel::Spawn {
                            id: spec_u32_from_le_bytes(s.subrange(1, 5)),
                            kind: spec_u32_from_le_bytes(s.subrange(5, 9)),
                        },
                    ] + rest,
                ),
                None => None,
            }
        } else {
            None
        }
    } else if s[0] == TAG_DESPAWN {
        if s.len() >= 5 {
            match spec_decode_cmds(s.skip(5)) {
                Some(rest) => Some(
                    seq![CmdModel::Despawn { id: spec_u32_from_le_bytes(s.subrange(1, 5)) }]
                        + rest,
                ),
                None => None,
            }
        } else {
            None
        }
    } else if s[0] == TAG_UPDATE {
        if s.len() >= 13 {
            let len = spec_u32_from_le_bytes(s.subrange(9, 13)) as int;
            if s.len() >= 13 + len {
                match spec_decode_cmds(s.skip(13 + len)) {
                    Some(rest) => Some(
                        seq![
                            CmdModel::Update {
                                id: spec_u32_from_le_bytes(s.subrange(1, 5)),
                                kind: spec_u32_from_le_bytes(s.subrange(5, 9)),
                                payload: s.subrange(13, 13 + len),
                            },
                        ] + rest,
                    ),
                    None => None,
                }
            } else {
                None
            }
        } else {
            None
        }
    } else {
        None
    }
}

/// Encoding distributes over concatenation of command sequences.
pub proof fn lemma_encode_cmds_concat(a: Seq<CmdModel>, b: Seq<CmdModel>)
    ensures
        spec_encode_cmds(a + b) == spec_encode_cmds(a) + spec_encode_cmds(b),
    decreases a.len(),
{
    if a.len() == 0 {
        assert(a + b =~= b);
        assert(spec_encode_cmds(a) + spec_encode_cmds(b) =~= spec_encode_cmds(b));
    } else {
        lemma_encode_cmds_concat(a.skip(1), b);
        assert((a + b).skip(1) =~= a.skip(1) + b);
        assert(spec_encode_cmd(a[0]) + (spec_encode_cmds(a.skip(1)) + spec_encode_cmds(b))
            =~= (spec_encode_cmd(a[0]) + spec_encode_cmds(a.skip(1))) + spec_encode_cmds(b));
    }
}

/// A single command encodes to its own bytes.
pub proof fn lemma_encode_singleton(c: CmdModel)
    ensures
        spec_encode_cmds(seq![c]) == spec_encode_cmd(c),
{
    let cs = seq![c];
    assert(cs.skip(1) =~= Seq::<CmdModel>::empty());
    assert(spec_encode_cmds(cs) == spec_encode_cmd(c) + spec_encode_cmds(cs.skip(1)));
    assert(spec_encode_cmd(c) + Seq::<u8>::empty() =~= spec_encode_cmd(c));
}

/// Appending one command appends its bytes.
pub proof fn lemma_encode_cmds_snoc(cs: Seq<CmdModel>, c: CmdModel)
    ensures
        spec_encode_cmds(cs.push(c)) == spec_encode_cmds(cs) + spec_encode_cmd(c),
{
    assert(cs.push(c) =~= cs + seq![c]);
    lemma_encode_cmds_concat(cs, seq![c]);
    lemma_encode_singleton(c);
}

/// Decoding peels one encoded command off the front of a stream.
pub proof fn lemma_decode_encode_prefix(c: CmdModel, t: Seq<u8>)
    requires
        cmd_wf(c),
    ensures
        spec_decode_cmds(t) is Some ==> spec_decode_cmds(spec_encode_cmd(c) + t)
            == Some(seq![c] + spec_decode_cmds(t).unwrap()),
        spec_decode_cmds(t) is None ==> spec_decode_cmds(spec_encode_cmd(c) + t)
            is None,
{
    lemma_auto_spec_u32_to_from_le_bytes();
    let s = spec_encode_cmd(c) + t;
    match c {
        CmdModel::Spawn { id, kind } => {
            assert(s[0] == TAG_SPAWN);
            assert(s.subrange(1, 5) =~= spec_u32_to_le_bytes(id));
            assert(s.subrange(5, 9) =~= spec_u32_to_le_bytes(kind));
            assert(s.skip(9) =~= t);
        },
        CmdModel::Despawn { id } => {
            assert(s[0] == TAG_DESPAWN);
            assert(s.subrange(1, 5) =~= spec_u32_to_le_bytes(id));
            assert(s.skip(5) =~= t);
        },
        CmdModel::Update { id, kind, payload } => {
            let n = payload.len() as int;
            assert(s[0] == TAG_UPDATE);
            assert(s.subrange(1, 5) =~= spec_u32_to_le_bytes(id));
            assert(s.subrange(5, 9) =~= spec_u32_to_le_bytes(kind));
            assert(s.subrange(9, 13) =~= spec_u32_to_le_bytes(payload.len() as u32));
            assert(spec_u32_from_le_bytes(s.subrange(9, 13)) as int == n);
            assert(s.subrange(13, 13 + n) =~= payload);
            assert(s.skip(13 + n) =~= t);
        },
    }
}

/// Round-trip: decoding an encoded command sequence gives the sequence
/// back, so a command buffer fully determines the operations it records.
pub proof fn lemma_round_trip(cs: Seq<CmdModel>)
    requires
        forall|i: int| 0 <= i < cs.len() ==> cmd_wf(#[trigger] cs[i]),
    ensures
        spec_decode_cmds(spec_encode_cmds(cs)) == Some(cs),
    decreases cs.len(),
{
    if cs.len() == 0 {
    } else {
        lemma_round_trip(cs.skip(1));
        lemma_decode_encode_prefix(cs[0], spec_encode_cmds(cs.skip(1)));
        assert(seq![cs[0]] + cs.skip(1) =~= cs);
    }
}

/// Length-prefix integrity of an Update command: the `length` field is
/// exactly the payload's byte count, the payload sits right after it, and
/// the next command starts at `start_of_payload + length`.
pub proof fn lemma_update_length_prefix(id: u32, kind: u32, payload: Seq<u8>)
    requires
        payload.len() <= u32::MAX,
    ensures
        ({
            let b = spec_encode_cmd(CmdModel::Update { id, kind, payload });
            &&& b.len() == 13 + payload.len()
            &&& spec_u32_from_le_bytes(b.subrange(9, 13)) == payload.len()
            &&& b.subrange(13, b.len() as int) == payload
        }),
{
    lemma_auto_spec_u32_to_from_le_bytes();
    let b = spec_encode_cmd(CmdModel::Update { id, kind, payload });
    assert(b.subrange(9, 13) =~= spec_u32_to_le_bytes(payload.len() as u32));
    assert(b.subrange(13, b.len() as int) =~= payload);
}

/// Decodes a command buffer back into its command sequence: the exact
/// inverse of recording. `None` when the bytes are not a well-formed
/// buffer (unknown tag or truncated command).
pub fn decode_commands(bytes: &[u8]) -> (r: Option<Vec<Command>>)
    ensures
        match r {
            Some(cmds) => spec_decode_cmds(bytes@) == Some(
                cmds@.map_values(|c: Command| c@),
            ),
            None => spec_decode_cmds(bytes@) is None,
        },
{
    let ghost full = spec_decode_cmds(bytes@);
    let mut cmds: Vec<Command> = Vec::new();
    let mut i: usize = 0;
    let n = bytes.len();
    proof {
        assert(bytes@.skip(0) =~= bytes@);
        if full is Some {
            assert(cmds@.map_values(|c: Command| c@) + full.unwrap() =~= full.unwrap());
        }
    }
    while i < n
        invariant
            0 <= i <= n,
            n == bytes@.len(),
            full == spec_decode_cmds(bytes@),
            spec_decode_cmds(bytes@.skip(i as int)) is Some ==> full == Some(
                cmds@.map_values(|c: Command| c@) + spec_decode_cmds(
                    bytes@.skip(i as int),
                ).unwrap(),
            ),
            spec_decode_cmds(bytes@.skip(i as int)) is None ==> full is None,
        decreases n - i,
    {
        let ghost s = bytes@.skip(i as int);
        let ghost pre = cmds@.map_values(|c: Command| c@);
        let rem = n - i;
        let tag = *vstd::slice::slice_index_get(bytes, i);
        proof {
            assert(s[0] == bytes@[i as int]);
        }
        if tag == TAG_SPAWN {
            if rem < 9 {
                return None;
            }
            let id = u32_from_le_bytes(vstd::slice::slice_subrange(bytes, i + 1, i + 5));
            let kind = u32_from_le_bytes(vstd::slice::slice_subrange(bytes, i + 5, i + 9));
            let c = Command::Spawn { id, kind };
            cmds.push(c);
            proof {
                assert(bytes@.subrange(i + 1, i + 5) =~= s.subrange(1, 5));
                assert(bytes@.subrange(i + 5, i + 9) =~= s.subrange(5, 9));
                assert(bytes@.skip(i + 9) =~= s.skip(9));
                assert(cmds@.map_values(|c2: Command| c2@) =~= pre.push(c@));
                let rec = spec_decode_cmds(s.skip(9));
                if rec is Some {
                    assert(pre.push(c@) + rec.unwrap() =~= pre + (seq![c@] + rec.unwrap()));
                }
            }
            i = i + 9;
        } else if tag == TAG_DESPAWN {
            if rem < 5 {
                return None;
            }
            let id = u32_from_le_bytes(vstd::slice::slice_subrange(bytes, i + 1, i + 5));
            let c = Command::Despawn { id };
            cmds.push(c);
            proof {
                assert(bytes@.subrange(i + 1, i + 5) =~= s.subrange(1, 5));
                assert(bytes@.skip(i + 5) =~= s.skip(5));
                assert(cmds@.map_values(|c2: Command| c2@) =~= pre.push(c@));
                let rec = spec_decode_cmds(s.skip(5));
                if rec is Some {
                    assert(pre.push(c@) + rec.unwrap() =~= pre + (seq![c@] + rec.unwrap()));
                }
            }
            i = i + 5;
        } else if tag == TAG_UPDATE {
            if rem < 13 {
                return None;
            }
            let id = u32_from_le_bytes(vstd::slice::slice_subrange(bytes, i + 1, i + 5));
            let kind = u32_from_le_bytes(vstd::slice::slice_subrange(bytes, i + 5, i + 9));
            let l32 = u32_from_le_bytes(vstd::slice::slice_subrange(bytes, i + 9, i + 13));
            proof {
                assert(bytes@.subrange(i + 9, i + 13) =~= s.subrange(9, 13));
            }
            let l = l32 as usize;
            if l > rem - 13 {
                proof {
                    assert(s.len() < 13 + (l as int));
                }
                return None;
            }
            let payload = vstd::slice::slice_to_vec(
                vstd::slice::slice_subrange(bytes, i + 13, i + 13 + l),
            );
            let c = Command::Update { id, kind, payload };
            cmds.push(c);
            proof {
                assert(bytes@.subrange(i + 1, i + 5) =~= s.subrange(1, 5));
                assert(bytes@.subrange(i + 5, i + 9) =~= s.subrange(5, 9));
                assert(bytes@.subrange(i + 13, i + 13 + l) =~= s.subrange(13, 13 + (l as int)));
                assert(bytes@.skip(i + 13 + l) =~= s.skip(13 + (l as int)));
                assert(cmds@.map_values(|c2: Command| c2@) =~= pre.push(c@));
                let rec = spec_decode_cmds(s.skip(13 + (l as int)));
                if rec is Some {
                    assert(pre.push(c@) + rec.unwrap() =~= pre + (seq![c@] + rec.unwrap()));
                }
            }
            i = i + 13 + l;
        } else {
            return None;
        }
    }
    proof {
        assert(bytes@.skip(n as int) =~= Seq::<u8>::empty());
        assert(cmds@.map_values(|c: Command| c@) + Seq::<CmdModel>::empty() =~= cmds@.map_values(
            |c: Command| c@,
        ));
    }
    Some(cmds)
}

/// Appends the little-endian bytes of `x` to `buf`.
pub fn push_u32_le(buf: &mut Vec<u8>, x: u32)
    ensures
        final(buf)@ == old(buf)@ + spec_u32_to_le_bytes(x),
{
    let mut b = u32_to_le_bytes(x);
    buf.append(&mut b);
}

/// Appends a copy of `data` to `buf`.
pub fn push_bytes(buf: &mut Vec<u8>, data: &[u8])
    ensures
        final(buf)@ == old(buf)@ + data@,
{
    let mut v = vstd::slice::slice_to_vec(data);
    buf.append(&mut v);
}

} // verus!
