//! The command buffer and its per-entity snapshot cache.
//!
//! `RpcMem` records entity lifecycle and field-update operations twice:
//! as encoded commands appended to the outbound buffer `buf`, and as the
//! current per-entity state in the cache `snapshot`. The buffer is the
//! incremental delta stream; the cache is the source of truth that a full
//! resynchronization is rebuilt from.

use vstd::prelude::*;
use crate::codec::{CmdModel, TAG_SPAWN, TAG_DESPAWN, TAG_UPDATE, cmd_id, cmd_wf,
    spec_encode_cmd, spec_encode_cmds, spec_decode_cmds, lemma_encode_cmds_snoc,
    lemma_encode_cmds_concat, lemma_encode_singleton, lemma_round_trip, push_u32_le, push_bytes};
use crate::kv::{SortedKv, kv_view_of, lemma_kv_view_contains};

verus! {

/// The cached state of one live entity: its object kind and the latest
/// encoded bytes of each field variant it carries.
pub struct EntitySnapshot {
    /// The entity's object kind, fixed at spawn.
    pub t: u32,
    /// Latest encoded payload per variant kind, keyed by variant kind.
    pub var_set: SortedKv<Vec<u8>>,
}

/// Mathematical model of a cached entity.
#[verifier::ext_equal]
pub struct EntityState {
    pub t: u32,
    pub var_set: Map<u32, Seq<u8>>,
}

impl View for EntitySnapshot {
    type V = EntityState;

    open spec fn view(&self) -> EntityState {
        EntityState { t: self.t, var_set: self.var_set@ }
    }
}

/// A cached entity is well-formed: its variant table is sorted and every
/// cached payload fits the wire format's 32-bit length prefix.
pub open spec fn entity_wf(e: EntitySnapshot) -> bool {
    &&& e.var_set.wf()
    &&& forall|j: int|
        0 <= j < e.var_set.entries@.len() ==> (#[trigger] e.var_set.entries@[j]).1@.len()
            <= u32::MAX
}

/// The effect of one command on a cache. Spawn installs a fresh entry
/// (overwriting a live one), Despawn deletes the entry, and Update
/// overwrites one field of a live entity and is dropped for an unknown id.
pub open spec fn apply_cmd(m: Map<u32, EntityState>, c: CmdModel) -> Map<u32, EntityState> {
    match c {
        CmdModel::Spawn { id, kind } => m.insert(id, EntityState { t: kind, var_set: Map::empty() }),
        CmdModel::Despawn { id } => m.remove(id),
        CmdModel::Update { id, kind, payload } => if m.contains_key(id) {
            m.insert(id, EntityState { t: m[id].t, var_set: m[id].var_set.insert(kind, payload) })
        } else {
            m
        },
    }
}

/// A command sequence replayed onto a cache, front to back.
pub open spec fn apply_cmds(m: Map<u32, EntityState>, cs: Seq<CmdModel>) -> Map<u32, EntityState>
    decreases cs.len(),
{
    if cs.len() == 0 {
        m
    } else {
        apply_cmds(apply_cmd(m, cs[0]), cs.skip(1))
    }
}

/// The Update commands a cached entity's variant table contributes, in
/// table order.
pub open spec fn var_cmds(id: u32, vs: Seq<(u32, Vec<u8>)>) -> Seq<CmdModel>
    decreases vs.len(),
{
    if vs.len() == 0 {
        Seq::empty()
    } else {
        var_cmds(id, vs.drop_last()).push(
            CmdModel::Update { id, kind: vs.last().0, payload: vs.last().1@ },
        )
    }
}

/// The commands that reconstruct one cached entity from nothing: its
/// Spawn, then one Update per cached field.
pub open spec fn entity_cmds(id: u32, e: EntitySnapshot) -> Seq<CmdModel> {
    seq![CmdModel::Spawn { id, kind: e.t }] + var_cmds(id, e.var_set.entries@)
}

/// The full-snapshot command sequence: every cached entity, in ascending
/// id order, each with its fields in ascending variant-kind order.
pub open spec fn snapshot_cmds(es: Seq<(u32, EntitySnapshot)>) -> Seq<CmdModel>
    decreases es.len(),
{
    if es.len() == 0 {
        Seq::empty()
    } else {
        snapshot_cmds(es.drop_last()) + entity_cmds(es.last().0, es.last().1)
    }
}

/// The command buffer with its snapshot cache and the registry of inbound
/// event kinds.
pub struct RpcMem {
    /// The outbound command buffer: encoded commands, back to back.
    pub buf: Vec<u8>,
    /// Registered inbound event kinds.
    pub map: Vec<u32>,
    /// The snapshot cache, keyed by entity id.
    pub snapshot: SortedKv<EntitySnapshot>,
}

impl RpcMem {
    /// Well-formed: the cache is sorted by entity id and every cached
    /// entity is well-formed.
    pub open spec fn wf(&self) -> bool {
        &&& self.snapshot.wf()
        &&& forall|i: int|
            0 <= i < self.snapshot.entries@.len() ==> entity_wf(
                (#[trigger] self.snapshot.entries@[i]).1,
            )
    }

    /// The cache as a map from entity id to entity state.
    pub open spec fn cache(&self) -> Map<u32, EntityState> {
        self.snapshot@
    }

    /// Whether an inbound handler kind is registered.
    pub open spec fn is_registered(&self, t: u32) -> bool {
        self.map@.contains(t)
    }

    /// A fresh, empty buffer-and-cache pair with no registered kinds.
    pub fn new() -> (r: Self)
        ensures
            r.wf(),
            r.buf@ == Seq::<u8>::empty(),
            r.cache() == Map::<u32, EntityState>::empty(),
            r.map@ == Seq::<u32>::empty(),
    {
        RpcMem { buf: Vec::new(), map: Vec::new(), snapshot: SortedKv::new() }
    }

    /// Records that entity `id` of object kind `t` came alive: appends a
    /// Spawn command and installs a fresh cache entry (overwriting any
    /// live entry under the same id).
    pub fn spawn(&mut self, id: u32, t: u32)
        requires
            old(self).wf(),
        ensures
            final(self).wf(),
            final(self).buf@ == old(self).buf@ + spec_encode_cmd(CmdModel::Spawn { id, kind: t }),
            final(self).cache() == old(self).cache().insert(
                id,
                EntityState { t, var_set: Map::empty() },
            ),
            final(self).map == old(self).map,
    {
        self.buf.push(TAG_SPAWN);
        push_u32_le(&mut self.buf, id);
        push_u32_le(&mut self.buf, t);
        proof {
            assert(self.buf@ =~= old(self).buf@ + spec_encode_cmd(
                CmdModel::Spawn { id, kind: t },
            ));
        }
        self.snapshot.insert(id, EntitySnapshot { t, var_set: SortedKv::new() });
    }

    /// Records that entity `id` is gone: appends a Despawn command and
    /// drops the cache entry. The append happens even when `id` is not
    /// cached; the report says whether it was.
    pub fn despawn(&mut self, id: u32) -> (was_live: bool)
        requires
            old(self).wf(),
        ensures
            final(self).wf(),
            final(self).buf@ == old(self).buf@ + spec_encode_cmd(CmdModel::Despawn { id }),
            final(self).cache() == old(self).cache().remove(id),
            final(self).map == old(self).map,
            was_live == old(self).cache().contains_key(id),
    {
        self.buf.push(TAG_DESPAWN);
        push_u32_le(&mut self.buf, id);
        proof {
            assert(self.buf@ =~= old(self).buf@ + spec_encode_cmd(CmdModel::Despawn { id }));
        }
        match self.snapshot.take(id) {
            Some(_) => true,
            None => false,
        }
    }

    /// Records that the field of variant kind `t` on entity `id` now holds
    /// the encoded bytes `payload`: appends a tagged, length-prefixed
    /// Update command, and mirrors the payload into the cache. An update
    /// for an uncached id is still emitted on the wire but not cached; the
    /// report says whether the cache took it.
    pub fn serialize(&mut self, id: u32, t: u32, payload: &[u8]) -> (cached: bool)
        requires
            old(self).wf(),
            payload@.len() <= u32::MAX,
        ensures
            final(self).wf(),
            final(self).buf@ == old(self).buf@ + spec_encode_cmd(
                CmdModel::Update { id, kind: t, payload: payload@ },
            ),
            final(self).cache() == apply_cmd(
                old(self).cache(),
                CmdModel::Update { id, kind: t, payload: payload@ },
            ),
            final(self).map == old(self).map,
            cached == old(self).cache().contains_key(id),
    {
        self.buf.push(TAG_UPDATE);
        push_u32_le(&mut self.buf, id);
        push_u32_le(&mut self.buf, t);
        push_u32_le(&mut self.buf, payload.len() as u32);
        push_bytes(&mut self.buf, payload);
        proof {
            assert(self.buf@ =~= old(self).buf@ + spec_encode_cmd(
                CmdModel::Update { id, kind: t, payload: payload@ },
            ));
        }
        match self.snapshot.take(id) {
            Some(mut entity) => {
                proof {
                    let j = choose|j: int|
                        0 <= j < old(self).snapshot.entries@.len() && old(
                            self,
                        ).snapshot.entries@[j] == (id, entity);
                    assert(entity_wf(entity));
                }
                entity.var_set.insert(t, vstd::slice::slice_to_vec(payload));
                proof {
                    assert(entity_wf(entity));
                }
                self.snapshot.insert(id, entity);
                proof {
                    let m = old(self).cache();
                    let st = EntityState {
                        t: m[id].t,
                        var_set: m[id].var_set.insert(t, payload@),
                    };
                    assert(m.remove(id).insert(id, st) =~= m.insert(id, st));
                }
                true
            },
            None => false,
        }
    }

    /// Empties the buffer; the cache is untouched.
    pub fn clear(&mut self)
        ensures
            final(self).buf@ == Seq::<u8>::empty(),
            final(self).snapshot == old(self).snapshot,
            final(self).map == old(self).map,
    {
        self.buf.clear();
    }

    /// A read-only view of the current buffer contents.
    pub fn data(&self) -> (r: &[u8])
        ensures
            r@ == self.buf@,
    {
        self.buf.as_slice()
    }

    /// Drops the incremental stream and rebuilds the buffer as a fresh,
    /// self-contained snapshot: one Spawn plus one Update per cached field
    /// for every live entity, in ascending id order, fields in ascending
    /// variant-kind order. The cache itself is untouched, so the bytes are
    /// a function of the cached state alone.
    pub fn snapshot(&mut self) -> (r: &[u8])
        requires
            old(self).wf(),
        ensures
            final(self).wf(),
            final(self).snapshot == old(self).snapshot,
            final(self).map == old(self).map,
            final(self).buf@ == spec_encode_cmds(snapshot_cmds(old(self).snapshot.entries@)),
            r@ == final(self).buf@,
    {
        self.buf.clear();
        let ghost es = self.snapshot.entries@;
        let n = self.snapshot.entries.len();
        let mut i: usize = 0;
        proof {
            assert(es.take(0) =~= Seq::<(u32, EntitySnapshot)>::empty());
        }
        while i < n
            invariant
                self.wf(),
                self.snapshot == old(self).snapshot,
                self.map == old(self).map,
                es == self.snapshot.entries@,
                n == es.len(),
                0 <= i <= n,
                self.buf@ == spec_encode_cmds(snapshot_cmds(es.take(i as int))),
            decreases n - i,
        {
            let id = self.snapshot.entries[i].0;
            let t = self.snapshot.entries[i].1.t;
            let ghost spawn_c = CmdModel::Spawn { id, kind: t };
            let ghost vs = es[i as int].1.var_set.entries@;
            let ghost base = spec_encode_cmds(snapshot_cmds(es.take(i as int)));
            self.buf.push(TAG_SPAWN);
            push_u32_le(&mut self.buf, id);
            push_u32_le(&mut self.buf, t);
            proof {
                assert(entity_wf(es[i as int].1));
                assert(vs.take(0) =~= Seq::<(u32, Vec<u8>)>::empty());
                assert(self.buf@ =~= base + spec_encode_cmd(spawn_c) + spec_encode_cmds(
                    var_cmds(id, vs.take(0)),
                ));
            }
            let m = self.snapshot.entries[i].1.var_set.entries.len();
            let mut j: usize = 0;
            while j < m
                invariant
                    self.wf(),
                    self.snapshot == old(self).snapshot,
                    self.map == old(self).map,
                    es == self.snapshot.entries@,
                    n == es.len(),
                    0 <= i < n,
                    id == es[i as int].0,
                    t == es[i as int].1.t,
                    spawn_c == (CmdModel::Spawn { id, kind: t }),
                    vs == es[i as int].1.var_set.entries@,
                    base == spec_encode_cmds(snapshot_cmds(es.take(i as int))),
                    m == vs.len(),
                    0 <= j <= m,
                    entity_wf(es[i as int].1),
                    self.buf@ == base + spec_encode_cmd(spawn_c) + spec_encode_cmds(
                        var_cmds(id, vs.take(j as int)),
                    ),
                decreases m - j,
            {
                let vt = self.snapshot.entries[i].1.var_set.entries[j].0;
                let pl = &self.snapshot.entries[i].1.var_set.entries[j].1;
                let ghost upd_c = CmdModel::Update { id, kind: vt, payload: pl@ };
                let ghost before = self.buf@;
                self.buf.push(TAG_UPDATE);
                push_u32_le(&mut self.buf, id);
                push_u32_le(&mut self.buf, vt);
                push_u32_le(&mut self.buf, pl.len() as u32);
                push_bytes(&mut self.buf, pl.as_slice());
                proof {
                    assert(self.buf@ =~= before + spec_encode_cmd(upd_c));
                    assert(vs.take(j + 1).drop_last() =~= vs.take(j as int));
                    assert(vs.take(j + 1).last() == vs[j as int]);
                    assert(var_cmds(id, vs.take(j + 1)) == var_cmds(id, vs.take(j as int)).push(
                        upd_c,
                    ));
                    lemma_encode_cmds_snoc(var_cmds(id, vs.take(j as int)), upd_c);
                    assert(self.buf@ =~= base + spec_encode_cmd(spawn_c) + spec_encode_cmds(
                        var_cmds(id, vs.take(j + 1)),
                    ));
                }
                j = j + 1;
            }
            proof {
                assert(vs.take(j as int) =~= vs);
                assert(es.take(i + 1).drop_last() =~= es.take(i as int));
                assert(es.take(i + 1).last() == es[i as int]);
                assert(snapshot_cmds(es.take(i + 1)) == snapshot_cmds(es.take(i as int))
                    + entity_cmds(id, es[i as int].1));
                lemma_encode_cmds_concat(
                    snapshot_cmds(es.take(i as int)),
                    entity_cmds(id, es[i as int].1),
                );
                lemma_encode_cmds_concat(seq![spawn_c], var_cmds(id, vs));
                lemma_encode_singleton(spawn_c);
                assert(entity_cmds(id, es[i as int].1) == seq![spawn_c] + var_cmds(id, vs));
                assert(self.buf@ =~= spec_encode_cmds(snapshot_cmds(es.take(i + 1))));
            }
            i = i + 1;
        }
        proof {
            assert(es.take(n as int) =~= es);
        }
        self.buf.as_slice()
    }

    /// Registers an inbound event kind; registering a kind twice leaves
    /// one registration.
    pub fn reg_event(&mut self, t: u32)
        ensures
            final(self).buf == old(self).buf,
            final(self).snapshot == old(self).snapshot,
            forall|k: u32|
                final(self).is_registered(k) <==> old(self).is_registered(k) || k == t,
    {
        let mut p: usize = 0;
        let n = self.map.len();
        while p < n
            invariant
                n == self.map@.len(),
                0 <= p <= n,
                forall|i: int| 0 <= i < p ==> self.map@[i] != t,
                self.buf == old(self).buf,
                self.snapshot == old(self).snapshot,
                self.map == old(self).map,
            decreases n - p,
        {
            if self.map[p] == t {
                return ;
            }
            p = p + 1;
        }
        self.map.push(t);
        proof {
            assert forall|k: u32| self.is_registered(k) <==> old(self).is_registered(k)
                || k == t by {
                if self.map@.contains(k) {
                    let i = choose|i: int| 0 <= i < self.map@.len() && self.map@[i] == k;
                    if i < self.map@.len() - 1 {
                        assert(old(self).map@[i] == k);
                    }
                }
                if old(self).map@.contains(k) {
                    let i = choose|i: int|
                        0 <= i < old(self).map@.len() && old(self).map@[i] == k;
                    assert(self.map@[i] == k);
                }
                assert(self.map@[self.map@.len() - 1] == t);
            }
        }
    }
}

/// Replaying a concatenation replays its parts in order.
pub proof fn lemma_apply_cmds_concat(m: Map<u32, EntityState>, a: Seq<CmdModel>, b: Seq<CmdModel>)
    ensures
        apply_cmds(m, a + b) == apply_cmds(apply_cmds(m, a), b),
    decreases a.len(),
{
    if a.len() == 0 {
        assert(a + b =~= b);
    } else {
        lemma_apply_cmds_concat(apply_cmd(m, a[0]), a.skip(1), b);
        assert((a + b)[0] == a[0]);
        assert((a + b).skip(1) =~= a.skip(1) + b);
    }
}

/// Replaying one more command applies it to the replayed state.
pub proof fn lemma_apply_cmds_snoc(m: Map<u32, EntityState>, cs: Seq<CmdModel>, c: CmdModel)
    ensures
        apply_cmds(m, cs.push(c)) == apply_cmd(apply_cmds(m, cs), c),
{
    assert(cs.push(c) =~= cs + seq![c]);
    lemma_apply_cmds_concat(m, cs, seq![c]);
    let m1 = apply_cmds(m, cs);
    let s1 = seq![c];
    assert(apply_cmds(m1, s1) == apply_cmds(apply_cmd(m1, s1[0]), s1.skip(1)));
    assert(s1.skip(1) =~= Seq::<CmdModel>::empty());
}

/// A variant table folded into an existing field map, front to back.
pub open spec fn fields_added(fm: Map<u32, Seq<u8>>, vs: Seq<(u32, Vec<u8>)>) -> Map<u32, Seq<u8>>
    decreases vs.len(),
{
    if vs.len() == 0 {
        fm
    } else {
        fields_added(fm, vs.drop_last()).insert(vs.last().0, vs.last().1@)
    }
}

/// Folding a variant table into an empty field map gives the table's view.
pub proof fn lemma_fields_added_empty(vs: Seq<(u32, Vec<u8>)>)
    ensures
        fields_added(Map::empty(), vs) == kv_view_of(vs),
    decreases vs.len(),
{
    if vs.len() > 0 {
        lemma_fields_added_empty(vs.drop_last());
    }
}

/// Replaying a variant table's Update commands overwrites exactly those
/// fields of the (live) entity they speak of.
pub proof fn lemma_apply_var_cmds(m: Map<u32, EntityState>, id: u32, vs: Seq<(u32, Vec<u8>)>)
    requires
        m.contains_key(id),
    ensures
        apply_cmds(m, var_cmds(id, vs)) == m.insert(
            id,
            EntityState { t: m[id].t, var_set: fields_added(m[id].var_set, vs) },
        ),
    decreases vs.len(),
{
    if vs.len() == 0 {
        assert(m[id] =~= EntityState { t: m[id].t, var_set: fields_added(m[id].var_set, vs) });
        assert(m.insert(id, m[id]) =~= m);
    } else {
        lemma_apply_var_cmds(m, id, vs.drop_last());
        let u = CmdModel::Update { id, kind: vs.last().0, payload: vs.last().1@ };
        lemma_apply_cmds_snoc(m, var_cmds(id, vs.drop_last()), u);
        let m1 = m.insert(
            id,
            EntityState { t: m[id].t, var_set: fields_added(m[id].var_set, vs.drop_last()) },
        );
        assert(apply_cmd(m1, u) =~= m.insert(
            id,
            EntityState { t: m[id].t, var_set: fields_added(m[id].var_set, vs) },
        ));
    }
}

/// Replaying one entity's snapshot commands installs exactly that entity.
pub proof fn lemma_apply_entity_cmds(m: Map<u32, EntityState>, id: u32, e: EntitySnapshot)
    ensures
        apply_cmds(m, entity_cmds(id, e)) == m.insert(id, e@),
{
    let spawn_c = CmdModel::Spawn { id, kind: e.t };
    let s1 = seq![spawn_c];
    lemma_apply_cmds_concat(m, s1, var_cmds(id, e.var_set.entries@));
    assert(apply_cmds(m, s1) == apply_cmds(apply_cmd(m, s1[0]), s1.skip(1)));
    assert(s1.skip(1) =~= Seq::<CmdModel>::empty());
    let m1 = m.insert(id, EntityState { t: e.t, var_set: Map::empty() });
    assert(apply_cmds(m, s1) == m1);
    lemma_apply_var_cmds(m1, id, e.var_set.entries@);
    lemma_fields_added_empty(e.var_set.entries@);
    assert(m1.insert(
        id,
        EntityState { t: e.t, var_set: kv_view_of(e.var_set.entries@) },
    ) =~= m.insert(id, e@));
}

/// Snapshot self-sufficiency: replaying a snapshot's command sequence onto
/// an empty cache reconstructs exactly the cached state it was taken from.
pub proof fn lemma_snapshot_reconstructs(es: Seq<(u32, EntitySnapshot)>)
    ensures
        apply_cmds(Map::empty(), snapshot_cmds(es)) == kv_view_of(es),
    decreases es.len(),
{
    if es.len() > 0 {
        lemma_snapshot_reconstructs(es.drop_last());
        lemma_apply_cmds_concat(
            Map::empty(),
            snapshot_cmds(es.drop_last()),
            entity_cmds(es.last().0, es.last().1),
        );
        lemma_apply_entity_cmds(kv_view_of(es.drop_last()), es.last().0, es.last().1);
    }
}

/// Every Update command of a variant table names the table's entity.
pub proof fn lemma_var_cmds_ids(id: u32, vs: Seq<(u32, Vec<u8>)>)
    ensures
        var_cmds(id, vs).len() == vs.len(),
        forall|k: int| 0 <= k < vs.len() ==> cmd_id(#[trigger] var_cmds(id, vs)[k]) == id,
        forall|k: int|
            0 <= k < vs.len() ==> cmd_wf(#[trigger] var_cmds(id, vs)[k]) == (vs[k].1@.len()
                <= u32::MAX),
    decreases vs.len(),
{
    if vs.len() > 0 {
        lemma_var_cmds_ids(id, vs.drop_last());
        assert(forall|k: int|
            0 <= k < vs.len() - 1 ==> #[trigger] var_cmds(id, vs)[k] == var_cmds(
                id,
                vs.drop_last(),
            )[k]);
        assert(forall|k: int| 0 <= k < vs.len() - 1 ==> vs.drop_last()[k] == vs[k]);
    }
}

/// Every command of a snapshot is well-formed and names a cached entity;
/// in particular an id absent from the cache is absent from the snapshot.
pub proof fn lemma_snapshot_cmds_about_cache(es: Seq<(u32, EntitySnapshot)>)
    requires
        forall|i: int| 0 <= i < es.len() ==> entity_wf((#[trigger] es[i]).1),
    ensures
        forall|k: int|
            0 <= k < snapshot_cmds(es).len() ==> cmd_wf(#[trigger] snapshot_cmds(es)[k]),
        forall|k: int|
            0 <= k < snapshot_cmds(es).len() ==> exists|i: int|
                0 <= i < es.len() && cmd_id(#[trigger] snapshot_cmds(es)[k]) == es[i].0,
    decreases es.len(),
{
    if es.len() > 0 {
        lemma_snapshot_cmds_about_cache(es.drop_last());
        let last = es.last();
        let pre = snapshot_cmds(es.drop_last());
        let ec = entity_cmds(last.0, last.1);
        lemma_var_cmds_ids(last.0, last.1.var_set.entries@);
        assert(entity_wf(es[es.len() - 1].1));
        assert(forall|k: int| 0 <= k < ec.len() ==> cmd_id(#[trigger] ec[k]) == last.0);
        assert(forall|k: int| 0 <= k < ec.len() ==> cmd_wf(#[trigger] ec[k]));
        assert(forall|k: int|
            0 <= k < pre.len() ==> #[trigger] snapshot_cmds(es)[k] == pre[k]);
        assert(forall|k: int|
            pre.len() <= k < snapshot_cmds(es).len() ==> #[trigger] snapshot_cmds(es)[k] == ec[k
                - pre.len()]);
        assert forall|k: int| 0 <= k < snapshot_cmds(es).len() implies exists|i: int|
            0 <= i < es.len() && cmd_id(#[trigger] snapshot_cmds(es)[k]) == es[i].0 by {
            if k < pre.len() {
                let i = choose|i: int|
                    0 <= i < es.drop_last().len() && cmd_id(pre[k]) == es.drop_last()[i].0;
                assert(es[i].0 == es.drop_last()[i].0);
            } else {
                assert(cmd_id(snapshot_cmds(es)[k]) == es[es.len() - 1].0);
            }
        }
    }
}

/// Round trip of a whole log: the commands recorded into a buffer are
/// recovered exactly by decoding it, so replaying the decoded log onto an
/// empty replica cache rebuilds the recording side's cache state.
pub proof fn lemma_buffer_round_trip(cs: Seq<CmdModel>)
    requires
        forall|i: int| 0 <= i < cs.len() ==> cmd_wf(#[trigger] cs[i]),
    ensures
        spec_decode_cmds(spec_encode_cmds(cs)) == Some(cs),
        apply_cmds(Map::empty(), spec_decode_cmds(spec_encode_cmds(cs)).unwrap()) == apply_cmds(
            Map::empty(),
            cs,
        ),
{
    lemma_round_trip(cs);
}

/// Snapshot round trip: a snapshot buffer decodes to its own command
/// sequence, and replaying that sequence onto an empty replica rebuilds
/// exactly the cache the snapshot was taken from. Taking a second
/// snapshot with no mutation in between yields the same bytes (the bytes
/// are a function of the cache alone), hence the same reconstructed state.
pub proof fn lemma_snapshot_round_trip(es: Seq<(u32, EntitySnapshot)>)
    requires
        forall|i: int| 0 <= i < es.len() ==> entity_wf((#[trigger] es[i]).1),
    ensures
        spec_decode_cmds(spec_encode_cmds(snapshot_cmds(es))) == Some(snapshot_cmds(es)),
        apply_cmds(Map::empty(), snapshot_cmds(es)) == kv_view_of(es),
{
    lemma_snapshot_cmds_about_cache(es);
    lemma_round_trip(snapshot_cmds(es));
    lemma_snapshot_reconstructs(es);
}

/// A despawned (or never spawned) id is absent from the cache and from
/// every command of any later snapshot.
pub proof fn lemma_absent_id_out_of_snapshot(es: Seq<(u32, EntitySnapshot)>, id: u32)
    requires
        forall|i: int| 0 <= i < es.len() ==> entity_wf((#[trigger] es[i]).1),
        !kv_view_of(es).contains_key(id),
    ensures
        forall|k: int|
            0 <= k < snapshot_cmds(es).len() ==> cmd_id(#[trigger] snapshot_cmds(es)[k]) != id,
{
    lemma_kv_view_contains(es, id);
    lemma_snapshot_cmds_about_cache(es);
    assert forall|k: int| 0 <= k < snapshot_cmds(es).len() implies cmd_id(
        #[trigger] snapshot_cmds(es)[k],
    ) != id by {
        let i = choose|i: int| 0 <= i < es.len() && cmd_id(snapshot_cmds(es)[k]) == es[i].0;
    }
}

} // verus!
