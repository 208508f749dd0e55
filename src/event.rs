//! Requests and replies of the store, and the dispatcher: the single state
//! machine that applies every request to the trie, says what to append to
//! the write-ahead log, and decides when the log slots rotate.

use vstd::prelude::*;
use crate::record::{
    apply, decode_records, encode_record, get_opt, lemma_parse_records_bytes, lemma_replay_concat,
    lemma_replay_twice, map_fits, parse_records, record_bytes, records_bytes, records_fit,
    records_view, replay, KvMap,
};
use crate::trie::{lemma_snapshot_restores, Trie};

verus! {

/// WAL size, in bytes, above which the dispatcher rotates the slots.
pub const WAL_LIMIT: u64 = 10485760;

/// Number of persistence slots.
pub const FILE_BATCH: usize = 2;

/// A request from a connection, tagged with the connection's id.
pub enum Event {
    GET { id: String, key: Vec<u8> },
    SET { id: String, key: Vec<u8>, value: Option<Vec<u8>> },
}

/// A reply to the connection with the given id.
pub enum EventRes {
    GET { id: String, value: Option<Vec<u8>> },
    SET { id: String },
}

/// What a request asks of the store.
pub enum Op {
    Read { key: Seq<u8> },
    Write { key: Seq<u8>, value: Option<Seq<u8>> },
}

/// What a reply carries.
pub enum Reply {
    Value { value: Option<Seq<u8>> },
    Ack,
}

/// An optional byte vector as an optional sequence.
pub open spec fn opt_view(v: Option<Vec<u8>>) -> Option<Seq<u8>> {
    match v {
        Some(v) => Some(v@),
        None => None,
    }
}

impl Event {
    pub open spec fn id(&self) -> Seq<char> {
        match self {
            Event::GET { id, .. } => id@,
            Event::SET { id, .. } => id@,
        }
    }

    pub open spec fn op(&self) -> Op {
        match self {
            Event::GET { key, .. } => Op::Read { key: key@ },
            Event::SET { key, value, .. } => Op::Write { key: key@, value: opt_view(*value) },
        }
    }
}

impl EventRes {
    pub open spec fn id(&self) -> Seq<char> {
        match self {
            EventRes::GET { id, .. } => id@,
            EventRes::SET { id } => id@,
        }
    }

    pub open spec fn reply(&self) -> Reply {
        match self {
            EventRes::GET { value, .. } => Reply::Value { value: opt_view(*value) },
            EventRes::SET { .. } => Reply::Ack,
        }
    }
}

/// The store after one request, and the reply to it.
pub open spec fn serve(m: KvMap, op: Op) -> (KvMap, Reply) {
    match op {
        Op::Read { key } => (m, Reply::Value { value: get_opt(m, key) }),
        Op::Write { key, value } => (apply(m, key, value), Reply::Ack),
    }
}

/// The replies to a sequence of requests served in order from `m`.
pub open spec fn serve_all(m: KvMap, ops: Seq<Op>) -> Seq<Reply>
    decreases ops.len(),
{
    if ops.len() == 0 {
        Seq::empty()
    } else {
        seq![serve(m, ops[0]).1] + serve_all(serve(m, ops[0]).0, ops.drop_first())
    }
}

/// The bytes a request appends to the write-ahead log: nothing for a read,
/// one record for a write.
pub open spec fn wal_bytes(op: Op) -> Option<Seq<u8>> {
    match op {
        Op::Read { .. } => None,
        Op::Write { key, value } => Some(record_bytes(key, value)),
    }
}

/// The store after serving a sequence of requests in order from `m`.
pub open spec fn serve_store(m: KvMap, ops: Seq<Op>) -> KvMap
    decreases ops.len(),
{
    if ops.len() == 0 {
        m
    } else {
        serve_store(serve(m, ops[0]).0, ops.drop_first())
    }
}

/// The mutations that a sequence of requests makes, in order.
pub open spec fn writes_of(ops: Seq<Op>) -> Seq<(Seq<u8>, Option<Seq<u8>>)>
    decreases ops.len(),
{
    if ops.len() == 0 {
        Seq::empty()
    } else {
        let rest = writes_of(ops.drop_first());
        match ops[0] {
            Op::Read { .. } => rest,
            Op::Write { key, value } => seq![(key, value)] + rest,
        }
    }
}

/// Everything a sequence of requests appends to the write-ahead log.
pub open spec fn wal_of(ops: Seq<Op>) -> Seq<u8>
    decreases ops.len(),
{
    if ops.len() == 0 {
        Seq::empty()
    } else {
        match wal_bytes(ops[0]) {
            Some(b) => b + wal_of(ops.drop_first()),
            None => wal_of(ops.drop_first()),
        }
    }
}

/// Every key and value that a request carries fits in a length field, as
/// it does for every request read off the wire.
pub open spec fn op_fits(op: Op) -> bool {
    match op {
        Op::Read { key } => key.len() <= 0x7fff,
        Op::Write { key, value } => key.len() <= 0x7fff && (value matches Some(v) ==> v.len()
            <= 0x7fff),
    }
}

proof fn lemma_writes_of(m: KvMap, ops: Seq<Op>)
    requires
        forall|i: int| 0 <= i < ops.len() ==> op_fits(#[trigger] ops[i]),
    ensures
        wal_of(ops) == records_bytes(writes_of(ops)),
        records_fit(writes_of(ops)),
        replay(m, writes_of(ops)) == serve_store(m, ops),
    decreases ops.len(),
{
    if ops.len() > 0 {
        let rest = ops.drop_first();
        assert forall|i: int| 0 <= i < rest.len() implies op_fits(#[trigger] rest[i]) by {
            assert(rest[i] == ops[i + 1]);
        }
        assert(op_fits(ops[0]));
        lemma_writes_of(serve(m, ops[0]).0, rest);
        let w = writes_of(rest);
        if let Op::Write { key, value } = ops[0] {
            let ws = seq![(key, value)] + w;
            assert(ws.drop_first() =~= w);
            assert(ws[0] == (key, value));
            assert forall|i: int| 0 <= i < ws.len() implies #[trigger] ws[i].0.len() <= 0x7fff
                && match ws[i].1 {
                Some(v) => v.len() <= 0x7fff,
                None => true,
            } by {
                if i > 0 {
                    assert(ws[i] == w[i - 1]);
                }
            }
        }
    }
}

/// The write-ahead log that serving a sequence of requests appends, read
/// back and replayed onto the store the requests started from, gives the
/// store they left behind: every acknowledged write is recovered.
pub proof fn lemma_wal_recovers(m: KvMap, ops: Seq<Op>)
    requires
        forall|i: int| 0 <= i < ops.len() ==> op_fits(#[trigger] ops[i]),
    ensures
        replay(m, parse_records(wal_of(ops))) == serve_store(m, ops),
{
    lemma_writes_of(m, ops);
    lemma_parse_records_bytes(writes_of(ops));
}

/// Which slot is active, given the index byte read at startup (`None` when
/// it could not be read): 0 or 1 as read, else 0.
pub open spec fn slot_of(index: Option<u8>) -> u8 {
    match index {
        Some(b) => if b < 2 {
            b
        } else {
            0
        },
        None => 0,
    }
}

/// The index byte is rewritten at startup exactly when it was not a valid slot.
pub open spec fn must_rewrite(index: Option<u8>) -> bool {
    match index {
        Some(b) => b >= 2,
        None => true,
    }
}

/// The active slot for an index byte, and whether that slot must be written
/// back to the index file before anything else.
pub fn choose_slot(index: Option<u8>) -> (r: (u8, bool))
    ensures
        r.0 == slot_of(index),
        r.1 == must_rewrite(index),
{
    match index {
        Some(b) => if b < 2 {
            (b, false)
        } else {
            (0, true)
        },
        None => (0, true),
    }
}

/// Choosing the slot from the byte that a first choice wrote back gives the
/// same slot, and asks for no second write: recovery may be repeated.
pub proof fn lemma_slot_choice_stable(index: Option<u8>)
    ensures
        slot_of(Some(slot_of(index))) == slot_of(index),
        !must_rewrite(Some(slot_of(index))),
{
}

/// The store that recovery rebuilds from `m`: the inactive slot's snapshot
/// and log, then the active slot's snapshot and log.
pub open spec fn recovered(
    m: KvMap,
    slot: int,
    logs: Seq<Seq<u8>>,
    wals: Seq<Seq<u8>>,
) -> KvMap {
    let other = 1 - slot;
    replay(
        replay(
            replay(replay(m, parse_records(logs[other])), parse_records(wals[other])),
            parse_records(logs[slot]),
        ),
        parse_records(wals[slot]),
    )
}

/// The dispatcher's state: the store, the active slot, and whether a
/// snapshot is in flight.
pub struct HandlerModel {
    pub store: KvMap,
    pub slot: u8,
    pub snapshotting: bool,
}

/// The state after the check that follows each request, and whether a
/// rotation starts: it does when the log has grown past `WAL_LIMIT` and no
/// snapshot is in flight; it switches slots and marks a snapshot in flight.
pub open spec fn after_check(h: HandlerModel, wal_size: u64) -> (HandlerModel, bool) {
    if wal_size > WAL_LIMIT && !h.snapshotting {
        (HandlerModel { store: h.store, slot: (1 - h.slot) as u8, snapshotting: true }, true)
    } else {
        (h, false)
    }
}

/// A rotation changes nothing that a request can observe: after the check
/// that follows a request, whether or not it rotated, any sequence of
/// further requests gets the replies it would have got without the check.
pub proof fn lemma_rotation_invisible(h: HandlerModel, wal_size: u64, ops: Seq<Op>)
    ensures
        serve_all(after_check(h, wal_size).0.store, ops) == serve_all(h.store, ops),
{
}

/// Recovering a second time from the same files, onto the store that the
/// first recovery rebuilt, rebuilds the same store.
pub proof fn lemma_recovery_repeatable(
    m: KvMap,
    slot: int,
    logs: Seq<Seq<u8>>,
    wals: Seq<Seq<u8>>,
)
    ensures
        recovered(recovered(m, slot, logs, wals), slot, logs, wals) == recovered(
            m,
            slot,
            logs,
            wals,
        ),
{
    let other = 1 - slot;
    let a = parse_records(logs[other]);
    let b = parse_records(wals[other]);
    let c = parse_records(logs[slot]);
    let d = parse_records(wals[slot]);
    let all = a + b + c + d;
    assert forall|x: KvMap| #[trigger] replay(replay(replay(replay(x, a), b), c), d) == replay(
        x,
        all,
    ) by {
        lemma_replay_concat(x, a, b);
        lemma_replay_concat(x, a + b, c);
        lemma_replay_concat(x, a + b + c, d);
    }
    lemma_replay_twice(m, all);
}

/// A slot whose snapshot was taken of a store `t`, with an empty other
/// slot, recovers to `t` with the slot's log replayed on top.
pub proof fn lemma_recovery_restores(
    t: Trie,
    slot: int,
    logs: Seq<Seq<u8>>,
    wals: Seq<Seq<u8>>,
)
    requires
        t.wf(),
        map_fits(t@),
        slot == 0 || slot == 1,
        logs.len() == 2,
        wals.len() == 2,
        logs[slot] == records_bytes(t.entries()),
        logs[1 - slot].len() == 0,
        wals[1 - slot].len() == 0,
    ensures
        recovered(Map::empty(), slot, logs, wals) == replay(t@, parse_records(wals[slot])),
{
    lemma_snapshot_restores(t);
    assert(parse_records(logs[1 - slot]) =~= Seq::<(Seq<u8>, Option<Seq<u8>>)>::empty());
    assert(parse_records(wals[1 - slot]) =~= Seq::<(Seq<u8>, Option<Seq<u8>>)>::empty());
}

/// Whether a snapshot of the trie is being written.
pub enum SnapshotState {
    Idle,
    Snapshotting,
}

/// A rotation: the slot that is now active, and a copy of the store to
/// write as that slot's snapshot.
pub struct Rotation {
    pub slot: u8,
    pub snapshot: Trie,
}

/// What the caller does for one request: append `wal` to the active slot's
/// log, if any, then deliver `reply`.
pub struct Step {
    pub wal: Option<Vec<u8>>,
    pub reply: EventRes,
}

pub struct EventHandler {
    trie: Trie,
    slot: u8,
    state: SnapshotState,
}

impl EventHandler {
    pub closed spec fn wf(&self) -> bool {
        self.trie.wf() && self.slot < 2
    }

    /// The dispatcher's state.
    pub open spec fn model(&self) -> HandlerModel {
        HandlerModel {
            store: self.store(),
            slot: self.active(),
            snapshotting: self.snapshotting(),
        }
    }

    /// The store's content.
    pub closed spec fn store(&self) -> KvMap {
        self.trie@
    }

    /// The active slot.
    pub closed spec fn active(&self) -> u8 {
        self.slot
    }

    /// Whether a snapshot is in flight.
    pub closed spec fn snapshotting(&self) -> bool {
        self.state is Snapshotting
    }

    /// A dispatcher over `trie` with `slot` active and no snapshot in flight.
    pub fn new(trie: Trie, slot: u8) -> (r: EventHandler)
        requires
            trie.wf(),
            slot < 2,
        ensures
            r.wf(),
            r.store() == trie@,
            r.active() == slot,
            !r.snapshotting(),
    {
        EventHandler { trie, slot, state: SnapshotState::Idle }
    }

    /// The active slot.
    pub fn slot(&self) -> (r: u8)
        ensures
            r == self.active(),
    {
        self.slot
    }

    /// Replays the records of `buf` into the store, in order; a trailing
    /// record that is cut short is ignored.
    pub fn load(&mut self, buf: &[u8])
        requires
            old(self).wf(),
        ensures
            final(self).wf(),
            final(self).store() == replay(old(self).store(), parse_records(buf@)),
            final(self).active() == old(self).active(),
            final(self).snapshotting() == old(self).snapshotting(),
    {
        let records = decode_records(buf);
        let ghost rs = records_view(records@);
        let mut i: usize = 0;
        assert(rs.subrange(0, rs.len() as int) =~= rs);
        while i < records.len()
            invariant
                self.wf(),
                self.slot == old(self).slot,
                self.state == old(self).state,
                i <= records@.len(),
                rs == records_view(records@),
                rs == parse_records(buf@),
                replay(self.trie@, rs.subrange(i as int, rs.len() as int)) == replay(
                    old(self).trie@,
                    rs,
                ),
            decreases records@.len() - i,
        {
            let r = &records[i];
            let key = r.key.clone();
            assert(key@ =~= r.key@);
            let value = match &r.value {
                Some(v) => {
                    let c = v.clone();
                    assert(c@ =~= v@);
                    Some(c)
                },
                None => None,
            };
            assert(rs[i as int] == records@[i as int]@);
            assert(rs.subrange(i as int, rs.len() as int).drop_first() =~= rs.subrange(
                i + 1,
                rs.len() as int,
            ));
            self.trie.set(key, value);
            i = i + 1;
        }
        assert(rs.subrange(i as int, rs.len() as int) =~= Seq::<(Seq<u8>, Option<Seq<u8>>)>::empty());
    }

    /// Rebuilds the store from the two slots' snapshots (`logs`) and logs
    /// (`wals`): the inactive slot first, each snapshot before its log, so
    /// that the active slot's latest writes win.
    pub fn recover(&mut self, logs: &Vec<Vec<u8>>, wals: &Vec<Vec<u8>>)
        requires
            old(self).wf(),
            logs@.len() == FILE_BATCH,
            wals@.len() == FILE_BATCH,
        ensures
            final(self).wf(),
            final(self).store() == recovered(
                old(self).store(),
                old(self).active() as int,
                logs@.map_values(|b: Vec<u8>| b@),
                wals@.map_values(|b: Vec<u8>| b@),
            ),
            final(self).active() == old(self).active(),
            final(self).snapshotting() == old(self).snapshotting(),
    {
        let this = self.slot as usize;
        let last = FILE_BATCH - 1 - this;
        self.load(logs[last].as_slice());
        self.load(wals[last].as_slice());
        self.load(logs[this].as_slice());
        self.load(wals[this].as_slice());
    }

    /// Serves one request: a read looks the key up; a write gives the record
    /// to append to the log, then changes the store. The reply goes to the
    /// connection that sent the request.
    pub fn handle(&mut self, event: Event) -> (r: Step)
        requires
            old(self).wf(),
        ensures
            final(self).wf(),
            (final(self).store(), r.reply.reply()) == serve(old(self).store(), event.op()),
            r.reply.id() == event.id(),
            opt_view(r.wal) == wal_bytes(event.op()),
            final(self).active() == old(self).active(),
            final(self).snapshotting() == old(self).snapshotting(),
    {
        match event {
            Event::GET { id, key } => {
                let value = self.trie.get(key);
                Step { wal: None, reply: EventRes::GET { id, value } }
            },
            Event::SET { id, key, value } => {
                let wal = encode_record(&key, &value);
                self.trie.set(key, value);
                Step { wal: Some(wal), reply: EventRes::SET { id } }
            },
        }
    }

    /// Called after each request with the active log's size: when the log
    /// has grown past `WAL_LIMIT` and no snapshot is in flight, switches to
    /// the other slot and hands back a copy of the store to snapshot there.
    pub fn after_request(&mut self, wal_size: u64) -> (r: Option<Rotation>)
        requires
            old(self).wf(),
        ensures
            final(self).wf(),
            (final(self).model(), r is Some) == after_check(old(self).model(), wal_size),
            r matches Some(rot) ==> rot.slot == final(self).active() && rot.snapshot.wf()
                && rot.snapshot@ == old(self).store(),
    {
        if wal_size > WAL_LIMIT && matches!(self.state, SnapshotState::Idle) {
            self.slot = 1 - self.slot;
            self.state = SnapshotState::Snapshotting;
            Some(Rotation { slot: self.slot, snapshot: self.trie.clone() })
        } else {
            None
        }
    }

    /// Records that the snapshot in flight has been written.
    pub fn snapshot_done(&mut self)
        requires
            old(self).wf(),
        ensures
            final(self).wf(),
            final(self).store() == old(self).store(),
            final(self).active() == old(self).active(),
            !final(self).snapshotting(),
    {
        self.state = SnapshotState::Idle;
    }
}

} // verus!
