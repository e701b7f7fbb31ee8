//! The log-structured storage engine.
//!
//! The engine holds an image of every segment file, an index from each live
//! key to the location of its latest `Put` record, and a count of dead bytes.
//! Every change it makes to the segments is also handed back as a list of
//! [`DiskOp`]s, which the caller carries out on the data directory in order.
use vstd::prelude::*;

use crate::codec::{
    encode, encode_record, lemma_parse_bounds, lemma_parse_encode, lemma_parse_local, parse,
    parse_record, push_all, Record,
};
use crate::command::{CmdIdx, Command};
use crate::writer::WriterWithPos;

verus! {

/// Dead bytes above which the single-writer engine compacts.
pub const COMPACTION_THRESHOLD: u64 = 1024;

/// Dead bytes above which the engine shared between threads compacts.
pub const SHARED_COMPACTION_THRESHOLD: u64 = 1048576;

/// Errors of the engine.
#[derive(Clone, Debug, PartialEq, Eq, Structural)]
pub enum KvError {
    /// `remove` of a key that is not in the store.
    KeyNotFound,
    /// A segment holds bytes that are no record.
    CorruptLog,
    /// A segment or the space of segment ids would grow past what this
    /// machine can address.
    LogFull,
}

impl KvError {
    pub open spec fn text(&self) -> Seq<char> {
        match self {
            KvError::KeyNotFound => "Key not found"@,
            KvError::CorruptLog => "Corrupt log"@,
            KvError::LogFull => "Log full"@,
        }
    }

    /// The message of the error.
    pub fn message(&self) -> (r: String)
        ensures
            r@ == self.text(),
    {
        match self {
            KvError::KeyNotFound => String::from_str("Key not found"),
            KvError::CorruptLog => String::from_str("Corrupt log"),
            KvError::LogFull => String::from_str("Log full"),
        }
    }
}

/// A change of the data directory.
pub enum DiskOp {
    /// Create the empty segment file with this id.
    Create(u32),
    /// Append bytes to the segment file with this id.
    Append(u32, Vec<u8>),
    /// Delete the segment file with this id.
    Delete(u32),
}

/// One segment: its id and its contents.
pub struct Segment {
    pub id: u32,
    pub log: WriterWithPos,
}

/// An entry of the index: a live key and where its `Put` record lies.
pub struct IndexEntry {
    pub key: String,
    pub idx: CmdIdx,
}

pub type Store = Map<Seq<char>, Seq<char>>;

pub type Disk = Map<u32, Seq<u8>>;

/// What a record does to the store.
pub open spec fn apply(m: Store, r: Record) -> Store {
    match r {
        Record::Put { key, value } => m.insert(key, value),
        Record::Remove { key } => m.remove(key),
        Record::Get { .. } => m,
    }
}

/// Replays the records of a segment from offset `i` on, starting from `m`;
/// `None` where the bytes from `i` on are not a sequence of records.
pub open spec fn replay_seg(d: Seq<u8>, i: int, m: Store) -> Option<Store>
    decreases d.len() - i,
{
    if i < 0 || i > d.len() {
        None
    } else if i == d.len() {
        Some(m)
    } else {
        match parse(d, i) {
            Some((r, e)) => if e > i {
                replay_seg(d, e, apply(m, r))
            } else {
                None
            },
            None => None,
        }
    }
}

/// Replays segments in order, starting from the empty store.
pub open spec fn replay_all(segs: Seq<Seq<u8>>) -> Option<Store>
    decreases segs.len(),
{
    if segs.len() == 0 {
        Some(Map::empty())
    } else {
        match replay_all(segs.drop_last()) {
            Some(m) => replay_seg(segs.last(), 0, m),
            None => None,
        }
    }
}

pub open spec fn apply_op(d: Disk, op: DiskOp) -> Disk {
    match op {
        DiskOp::Create(id) => d.insert(id, Seq::empty()),
        DiskOp::Append(id, b) => d.insert(id, d[id] + b@),
        DiskOp::Delete(id) => d.remove(id),
    }
}

/// The directory after carrying out `ops` in order.
pub open spec fn apply_ops(d: Disk, ops: Seq<DiskOp>) -> Disk
    decreases ops.len(),
{
    if ops.len() == 0 {
        d
    } else {
        apply_op(apply_ops(d, ops.drop_last()), ops.last())
    }
}

/// The entry's bytes hold the `Put` record of its key and the key's value.
pub open spec fn entry_ok(disk: Disk, e: IndexEntry, state: Store) -> bool {
    &&& disk.contains_key(e.idx.file)
    &&& e.idx.pos + e.idx.len <= disk[e.idx.file].len()
    &&& parse(disk[e.idx.file], e.idx.pos as int) == Some(
        (Record::Put { key: e.key@, value: state[e.key@] }, e.idx.pos + e.idx.len),
    )
}

/// Total length of the records that the entries locate.
pub open spec fn live_len(entries: Seq<IndexEntry>) -> int
    decreases entries.len(),
{
    if entries.len() == 0 {
        0
    } else {
        live_len(entries.drop_last()) + entries.last().idx.len
    }
}

pub open spec fn sat_add(a: u64, b: int) -> u64 {
    if a + b > u64::MAX {
        u64::MAX
    } else {
        (a + b) as u64
    }
}

/// The single-writer storage engine.
///
/// The index is a `Vec` of entries with unique keys, searched linearly.
/// vstd's `BTreeMap` specifications hold only for keys whose order obeys
/// its comparison model (`obeys_cmp`), which vstd does not state of
/// `String`.
pub struct KvStore {
    segments: Vec<Segment>,
    index: Vec<IndexEntry>,
    uncompacted: u64,
    threshold: u64,
    state: Ghost<Store>,
    disk: Ghost<Disk>,
}

impl View for KvStore {
    type V = Store;

    closed spec fn view(&self) -> Store {
        self.state@
    }
}

impl KvStore {
    /// The data directory as this engine has it: segment id to contents.
    pub closed spec fn disk(&self) -> Disk {
        self.disk@
    }

    /// Id of the segment that new records go to.
    pub closed spec fn active_id(&self) -> u32 {
        self.segments@.last().id
    }

    /// Contents of the segments in ascending order of id.
    pub closed spec fn images(&self) -> Seq<Seq<u8>> {
        self.segments@.map_values(|s: Segment| s.log.data@)
    }

    /// Length of the active segment.
    pub closed spec fn active_len(&self) -> int {
        self.segments@.last().log.data@.len() as int
    }

    pub closed spec fn dead_bytes(&self) -> u64 {
        self.uncompacted
    }

    pub closed spec fn compaction_threshold(&self) -> u64 {
        self.threshold
    }

    /// Length of the record of `k`, where `k` is live.
    pub closed spec fn live_record_len(&self, k: Seq<char>) -> int {
        if exists|a: int| 0 <= a < self.index@.len() && self.index@[a].key@ == k {
            self.index@[choose|a: int| 0 <= a < self.index@.len() && self.index@[a].key@ == k].idx.len
                as int
        } else {
            0
        }
    }

    /// After a compaction of `pre`: two segments remain, the compaction
    /// segment `pre.active_id() + 1`, which holds exactly the live records,
    /// and the empty active segment `pre.active_id() + 2`.
    pub closed spec fn compacted_from(&self, pre: &KvStore) -> bool {
        &&& self.active_id() == pre.active_id() + 2
        &&& self.disk@ == Map::<u32, Seq<u8>>::empty().insert(
            (pre.active_id() + 1) as u32,
            self.disk@[(pre.active_id() + 1) as u32],
        ).insert((pre.active_id() + 2) as u32, Seq::empty())
        &&& self.disk@[(pre.active_id() + 1) as u32].len() == self.live_bytes()
    }

    /// Whether a write that displaces the record of `k` brings the dead
    /// bytes over the threshold, so that a compaction follows it.
    pub closed spec fn set_compacts(&self, k: Seq<char>) -> bool {
        sat_add(self.uncompacted, self.live_record_len(k)) > self.threshold
    }

    /// The dead bytes after a `remove` of the live key `k`.
    pub closed spec fn dead_after_remove(&self, k: Seq<char>) -> u64 {
        sat_add(
            sat_add(self.uncompacted, self.live_record_len(k)),
            encode(Record::Remove { key: k }).len() as int,
        )
    }

    /// Every segment that `self` has and `pre` had not has an id above
    /// `pre`'s active one, and the active id did not go back.
    #[verifier::opaque]
    pub closed spec fn later_than(&self, pre: &KvStore) -> bool {
        &&& self.active_id() >= pre.active_id()
        &&& forall|id: u32|
            #[trigger] self.disk@.contains_key(id) && !pre.disk@.contains_key(id) ==> id
                > pre.active_id()
    }

    /// The index: each live key with the location of its record.
    pub closed spec fn entries(&self) -> Seq<IndexEntry> {
        self.index@
    }

    /// Each live key's location, as the index holds it.
    pub closed spec fn locations(&self) -> Map<Seq<char>, CmdIdx> {
        map_of(self.index@)
    }

    /// The segments, in ascending order of id.
    pub closed spec fn segs(&self) -> Seq<Segment> {
        self.segments@
    }

    /// After a compaction of `pre`, each entry keeps its key and length and
    /// now lies in the compaction segment, right after the entries before
    /// it: the records tile that segment from offset 0 on, in index order.
    pub closed spec fn moved_from(&self, pre: &KvStore) -> bool {
        &&& self.index@.len() == pre.index@.len()
        &&& forall|b: int|
            0 <= b < self.index@.len() ==> {
                &&& (#[trigger] self.index@[b]).key@ == pre.index@[b].key@
                &&& self.index@[b].idx.len == pre.index@[b].idx.len
                &&& self.index@[b].idx.file == pre.active_id() + 1
                &&& self.index@[b].idx.pos == live_len(pre.index@.subrange(0, b))
            }
    }

    /// Total length of the live records.
    pub closed spec fn live_bytes(&self) -> int {
        live_len(self.index@)
    }

    /// The segments are sorted by id and agree with the disk image.
    #[verifier::opaque]
    pub closed spec fn wf_segs(&self) -> bool {
        let segs = self.segments@;
        &&& forall|a: int, b: int| 0 <= a < b < segs.len() ==> segs[a].id < segs[b].id
        &&& forall|a: int| 0 <= a < segs.len() ==> (#[trigger] segs[a]).log.wf()
        &&& forall|a: int|
            0 <= a < segs.len() ==> self.disk@.contains_key((#[trigger] segs[a]).id)
                && self.disk@[segs[a].id] == segs[a].log.data@
        &&& forall|id: u32|
            self.disk@.contains_key(id) ==> exists|a: int|
                0 <= a < segs.len() && (#[trigger] segs[a]).id == id
    }

    /// The index holds each live key once, with the location of its record.
    #[verifier::opaque]
    pub closed spec fn wf_index(&self) -> bool {
        let idx = self.index@;
        &&& forall|a: int, b: int|
            0 <= a < idx.len() && 0 <= b < idx.len() && a != b ==> (#[trigger] idx[a]).key@
                != (#[trigger] idx[b]).key@
        &&& forall|k: Seq<char>|
            self.state@.contains_key(k) <==> exists|a: int|
                0 <= a < idx.len() && (#[trigger] idx[a]).key@ == k
        &&& forall|a: int| 0 <= a < idx.len() ==> entry_ok(self.disk@, #[trigger] idx[a], self.state@)
    }

    /// The engine's invariant: segments and index agree, and replaying the
    /// segments gives the store.
    #[verifier::opaque]
    pub closed spec fn wf(&self) -> bool {
        &&& self.segments@.len() >= 1
        &&& self.wf_segs()
        &&& self.wf_index()
        &&& replay_all(self.images()) == Some(self.state@)
    }

    /// Position in the index of the entry of `key`.
    fn lookup(&self, key: &String) -> (r: Option<usize>)
        requires
            self.wf(),
        ensures
            match r {
                Some(a) => a < self.index@.len() && self.index@[a as int].key@ == key@
                    && self@.contains_key(key@),
                None => (forall|a: int| 0 <= a < self.index@.len() ==> self.index@[a].key@ != key@)
                    && !self@.contains_key(key@),
            },
    {
        proof {
            reveal(KvStore::wf);
        }
        proof {
            reveal(KvStore::wf_index);
        }
        let mut a: usize = 0;
        while a < self.index.len()
            invariant
                self.wf(),
                a <= self.index@.len(),
                forall|b: int| 0 <= b < a ==> self.index@[b].key@ != key@,
            decreases self.index@.len() - a,
        {
            if self.index[a].key == *key {
                proof {
                    assert(self.index@[a as int].key@ == key@);
                    assert(self.state@.contains_key(key@)) by {
                        reveal(KvStore::wf);
                        reveal(KvStore::wf_index);
                        assert(exists|b: int|
                            0 <= b < self.index@.len() && (#[trigger] self.index@[b]).key@ == key@);
                    }
                }
                return Some(a);
            }
            a = a + 1;
        }
        proof {
            if self.state@.contains_key(key@) {
                let b = choose|b: int| 0 <= b < self.index@.len() && (#[trigger] self.index@[b]).key@ == key@;
            }
        }
        None
    }

    /// Position of the segment with the given id.
    fn find_segment(&self, id: u32) -> (r: Option<usize>)
        requires
            self.wf_segs(),
        ensures
            match r {
                Some(s) => s < self.segments@.len() && self.segments@[s as int].id == id,
                None => !self.disk@.contains_key(id),
            },
    {
        proof {
            reveal(KvStore::wf_segs);
        }
        let mut s: usize = 0;
        while s < self.segments.len()
            invariant
                s <= self.segments@.len(),
                forall|b: int| 0 <= b < s ==> self.segments@[b].id != id,
            decreases self.segments@.len() - s,
        {
            if self.segments[s].id == id {
                return Some(s);
            }
            s = s + 1;
        }
        None
    }

    /// The value of `key`, or `None` where the key is not in the store.
    pub fn get(&self, key: String) -> (r: Result<Option<String>, KvError>)
        requires
            self.wf(),
        ensures
            r is Ok,
            match r {
                Ok(Some(v)) => self@.contains_key(key@) && self@[key@] == v@,
                Ok(None) => !self@.contains_key(key@),
                Err(_) => false,
            },
    {
        proof {
            reveal(KvStore::wf);
        }
        proof {
            reveal(KvStore::wf_segs);
            reveal(KvStore::wf_index);
        }
        match self.lookup(&key) {
            None => Ok(None),
            Some(a) => {
                let idx = self.index[a].idx;
                proof {
                    assert(entry_ok(self.disk@, self.index@[a as int], self.state@));
                }
                match self.find_segment(idx.file) {
                    None => {
                        assert(false);
                        Err(KvError::CorruptLog)
                    },
                    Some(s) => {
                        let data = self.segments[s].log.as_slice();
                        let len = data.len();
                        proof {
                            assert(self.disk@[self.segments@[s as int].id] == data@);
                            assert(idx.pos <= len);
                            assert(parse(data@, idx.pos as int) == Some(
                                (
                                    Record::Put { key: key@, value: self.state@[key@] },
                                    idx.pos + idx.len,
                                ),
                            ));
                        }
                        let pos = idx.pos as usize;
                        match parse_record(data, pos) {
                            Some((Command::Put { value, .. }, _)) => Ok(Some(value)),
                            _ => Err(KvError::CorruptLog),
                        }
                    },
                }
            },
        }
    }
}

impl KvStore {
    /// Appends `rec` to the active segment and returns where it went.
    fn append_active(&mut self, rec: &Vec<u8>) -> (r: (u64, u64))
        requires
            old(self).wf_segs(),
            old(self).segments@.len() >= 1,
        ensures
            final(self).wf_segs(),
            final(self).index@ == old(self).index@,
            final(self).state@ == old(self).state@,
            final(self).uncompacted == old(self).uncompacted,
            final(self).threshold == old(self).threshold,
            final(self).segments@.len() == old(self).segments@.len(),
            final(self).active_id() == old(self).active_id(),
            final(self).disk@ == old(self).disk@.insert(
                old(self).active_id(),
                old(self).disk@[old(self).active_id()] + rec@,
            ),
            final(self).images() == old(self).images().update(
                old(self).images().len() - 1,
                old(self).images().last() + rec@,
            ),
            old(self).disk@[old(self).active_id()] == old(self).images().last(),
            r.0 == old(self).active_len(),
            r.1 == old(self).active_len() + rec@.len(),
            old(self).active_len() + rec@.len() <= usize::MAX,
            final(self).later_than(old(self)),
    {
        proof {
            reveal(KvStore::wf_segs);
        }
        let ghost old_segs = self.segments@;
        let last = self.segments.len() - 1;
        let mut seg = self.segments.pop().unwrap();
        assert(old_segs[last as int] == seg);
        let start = seg.log.pos;
        seg.log.write(rec.as_slice());
        // The new length as a `usize` bounds the end offset.
        let _len = seg.log.len();
        let end = seg.log.pos;
        let ghost id = seg.id;
        let ghost data = seg.log.data@;
        self.segments.push(seg);
        proof {
            self.disk@ = self.disk@.insert(id, data);
            assert(self.segments@ == old_segs.update(last as int, self.segments@[last as int]));
            assert forall|i: u32| self.disk@.contains_key(i) implies exists|a: int|
                0 <= a < self.segments@.len() && (#[trigger] self.segments@[a]).id == i by {
                if i != id {
                    let a = choose|a: int| 0 <= a < old_segs.len() && (#[trigger] old_segs[a]).id == i;
                    assert(self.segments@[a].id == i);
                } else {
                    assert(self.segments@[last as int].id == i);
                }
            }
            assert forall|a: int| 0 <= a < self.segments@.len() implies self.disk@.contains_key(
                (#[trigger] self.segments@[a]).id,
            ) && self.disk@[self.segments@[a].id] == self.segments@[a].log.data@ by {
                if a != last {
                    assert(old_segs[a].id < old_segs[last as int].id);
                }
            }
            assert(self.images() =~= old(self).images().update(
                old(self).images().len() - 1,
                old(self).images().last() + rec@,
            ));
            reveal(KvStore::later_than);
            assert(old(self).disk@.contains_key(id)) by {
                assert(old_segs[last as int].id == id);
            }
        }
        (start, end)
    }
}

/// Appends `src[from..to]` to `out`.
fn push_range(out: &mut Vec<u8>, src: &[u8], from: usize, to: usize)
    requires
        from <= to <= src@.len(),
    ensures
        final(out)@ == old(out)@ + src@.subrange(from as int, to as int),
{
    let mut i: usize = from;
    while i < to
        invariant
            from <= i <= to <= src@.len(),
            out@ == old(out)@ + src@.subrange(from as int, i as int),
        decreases to - i,
    {
        out.push(src[i]);
        i = i + 1;
        assert(out@ =~= old(out)@ + src@.subrange(from as int, i as int));
    }
}

/// The part of `state` whose keys are those of `entries[..a]`.
pub open spec fn state_of_prefix(entries: Seq<IndexEntry>, a: int, state: Store) -> Store {
    state.restrict(Set::new(|k: Seq<char>| exists|b: int| 0 <= b < a && entries[b].key@ == k))
}

/// The entry was copied into the compaction segment `c`, with its length.
pub open spec fn copied(e: IndexEntry, o: IndexEntry, c: Seq<u8>, comp_id: u32, state: Store) -> bool {
    &&& e.key@ == o.key@
    &&& e.idx.len == o.idx.len
    &&& e.idx.file == comp_id
    &&& e.idx.pos + e.idx.len <= c.len()
    &&& parse(c, e.idx.pos as int) == Some(
        (Record::Put { key: o.key@, value: state[o.key@] }, e.idx.pos + e.idx.len),
    )
}

proof fn lemma_copied_extend(
    e: IndexEntry,
    o: IndexEntry,
    c: Seq<u8>,
    x: Seq<u8>,
    comp_id: u32,
    state: Store,
)
    requires
        copied(e, o, c, comp_id, state),
    ensures
        copied(e, o, c + x, comp_id, state),
{
    let q = e.idx.pos as int;
    lemma_parse_local(c, q, c, q);
    assert((c + x).subrange(q, q + e.idx.len) =~= c.subrange(q, q + e.idx.len));
    lemma_parse_local(c, q, c + x, q);
}

/// Copying a record's bytes to the end of the compaction segment.
proof fn lemma_copy_step(
    c: Seq<u8>,
    chunk: Seq<u8>,
    d: Seq<u8>,
    p: int,
    len: int,
    k: Seq<char>,
    v: Seq<char>,
    m: Store,
)
    requires
        0 <= p,
        0 <= len,
        p + len <= d.len(),
        parse(d, p) == Some((Record::Put { key: k, value: v }, p + len)),
        chunk == d.subrange(p, p + len),
        replay_seg(c, 0, Map::empty()) == Some(m),
    ensures
        parse(c + chunk, c.len() as int) == Some((Record::Put { key: k, value: v }, c.len() + len)),
        replay_seg(c + chunk, 0, Map::empty()) == Some(m.insert(k, v)),
{
    lemma_parse_local(d, p, d, p);
    let cn = c + chunk;
    assert(cn.subrange(c.len() as int, c.len() + len) =~= d.subrange(p, p + len));
    lemma_parse_local(d, p, cn, c.len() as int);
    lemma_replay_record(c, chunk, Record::Put { key: k, value: v }, Map::empty());
}

proof fn lemma_prefix_step(entries: Seq<IndexEntry>, a: int, state: Store)
    requires
        0 <= a < entries.len(),
        state.contains_key(entries[a].key@),
    ensures
        state_of_prefix(entries, a + 1, state) == state_of_prefix(entries, a, state).insert(
            entries[a].key@,
            state[entries[a].key@],
        ),
        live_len(entries.subrange(0, a + 1)) == live_len(entries.subrange(0, a)) + entries[a].idx.len,
{
    assert(state_of_prefix(entries, a + 1, state) =~= state_of_prefix(entries, a, state).insert(
        entries[a].key@,
        state[entries[a].key@],
    ));
    assert(entries.subrange(0, a + 1).drop_last() =~= entries.subrange(0, a));
}

proof fn lemma_live_len_same(x: Seq<IndexEntry>, y: Seq<IndexEntry>)
    requires
        x.len() == y.len(),
        forall|b: int| 0 <= b < x.len() ==> x[b].idx.len == y[b].idx.len,
    ensures
        live_len(x) == live_len(y),
    decreases x.len(),
{
    if x.len() > 0 {
        lemma_live_len_same(x.drop_last(), y.drop_last());
    }
}

impl KvStore {
    /// Where compaction stands after copying the first `a` live records.
    spec fn compact_inv(
        &self,
        a: int,
        comp: &WriterWithPos,
        comp_id: u32,
        old_index: Seq<IndexEntry>,
        state: Store,
        d0: Disk,
    ) -> bool {
        &&& self.wf_segs()
        &&& self.disk@ == d0
        &&& self.state@ == state
        &&& self.index@.len() == old_index.len()
        &&& 0 <= a <= old_index.len()
        &&& comp.wf()
        &&& forall|b: int|
            0 <= b < old_index.len() ==> #[trigger] entry_ok(d0, old_index[b], state)
                && state.contains_key(old_index[b].key@)
        &&& forall|b: int| a <= b < old_index.len() ==> self.index@[b] == old_index[b]
        &&& forall|b: int|
            0 <= b < a ==> copied(#[trigger] self.index@[b], old_index[b], comp.data@, comp_id, state)
        &&& comp.data@.len() == live_len(old_index.subrange(0, a))
        &&& replay_seg(comp.data@, 0, Map::empty()) == Some(state_of_prefix(old_index, a, state))
        &&& forall|b: int|
            0 <= b < a ==> (#[trigger] self.index@[b]).idx.pos == live_len(old_index.subrange(0, b))
    }

    /// Copies the record of entry `a` to the end of `comp` and points the
    /// entry there.
    #[verifier::rlimit(60)]
    fn copy_entry(
        &mut self,
        a: usize,
        comp: &mut WriterWithPos,
        comp_id: u32,
        Ghost(old_index): Ghost<Seq<IndexEntry>>,
        Ghost(state): Ghost<Store>,
        Ghost(d0): Ghost<Disk>,
    )
        requires
            old(self).compact_inv(a as int, old(comp), comp_id, old_index, state, d0),
            a < old_index.len(),
        ensures
            final(self).compact_inv(a + 1, final(comp), comp_id, old_index, state, d0),
            final(self).segments@ == old(self).segments@,
            final(self).threshold == old(self).threshold,
            final(self).uncompacted == old(self).uncompacted,
    {
        proof {
            reveal(KvStore::wf_segs);
        }
        let idx = self.index[a].idx;
        proof {
            assert(entry_ok(d0, old_index[a as int], state));
        }
        let s = match self.find_segment(idx.file) {
            Some(s) => s,
            None => {
                assert(false);
                0
            },
        };
        let data = self.segments[s].log.as_slice();
        // The length as a `usize` bounds the record's offsets.
        let _len = data.len();
        proof {
            assert(self.disk@[self.segments@[s as int].id] == data@);
        }
        let from = idx.pos as usize;
        let to = (idx.pos + idx.len) as usize;
        let mut chunk: Vec<u8> = Vec::new();
        push_range(&mut chunk, data, from, to);
        let ghost comp_old = comp.data@;
        let start = comp.pos;
        comp.write(chunk.as_slice());
        let end = comp.pos;
        let key = self.index[a].key.clone();
        let ghost k = key@;
        let ghost v = state[k];
        proof {
            lemma_copy_step(
                comp_old,
                chunk@,
                data@,
                idx.pos as int,
                idx.len as int,
                k,
                v,
                state_of_prefix(old_index, a as int, state),
            );
            assert forall|b: int| 0 <= b < a implies copied(
                #[trigger] self.index@[b],
                old_index[b],
                comp.data@,
                comp_id,
                state,
            ) by {
                lemma_copied_extend(self.index@[b], old_index[b], comp_old, chunk@, comp_id, state);
            }
            lemma_prefix_step(old_index, a as int, state);
        }
        let entry = IndexEntry { key, idx: CmdIdx::from(comp_id, start, end) };
        let ghost pre = self.index@;
        self.index.set(a, entry);
        proof {
            assert(copied(self.index@[a as int], old_index[a as int], comp.data@, comp_id, state));
            assert forall|b: int| 0 <= b < a + 1 implies copied(
                #[trigger] self.index@[b],
                old_index[b],
                comp.data@,
                comp_id,
                state,
            ) by {
                if b < a {
                    assert(self.index@[b] == pre[b]);
                }
            }
            assert forall|b: int| 0 <= b < a + 1 implies (#[trigger] self.index@[b]).idx.pos == live_len(
                old_index.subrange(0, b),
            ) by {
                if b < a {
                    assert(self.index@[b] == pre[b]);
                }
            }
        }
    }
}

impl KvStore {
    /// Rewrites the live records into segment `active + 1`, moves the active
    /// segment to `active + 2` and deletes every older segment.
    #[verifier::rlimit(100)]
    fn compact_inner(&mut self) -> (ops: Vec<DiskOp>)
        requires
            old(self).wf(),
            old(self).active_id() <= u32::MAX - 2,
        ensures
            final(self).wf(),
            final(self)@ == old(self)@,
            final(self).uncompacted == 0,
            final(self).threshold == old(self).threshold,
            final(self).compacted_from(old(self)),
            final(self).disk() == apply_ops(old(self).disk(), ops@),
            final(self).later_than(old(self)),
            deletes_last(ops@),
            final(self).moved_from(old(self)),
    {
        proof {
            reveal(KvStore::wf);
        }
        proof {
            reveal(KvStore::wf_segs);
            reveal(KvStore::wf_index);
        }
        let ghost old_index = self.index@;
        let ghost state = self.state@;
        let last = self.segments.len() - 1;
        let active_id = self.segments[last].id;
        let comp_id = active_id + 1;
        let new_id = active_id + 2;
        let mut comp = WriterWithPos::new(Vec::new());
        let ghost d0 = self.disk@;
        proof {
            assert(old_index.subrange(0, 0) =~= Seq::<IndexEntry>::empty());
            assert(state_of_prefix(old_index, 0, state) =~= Map::<Seq<char>, Seq<char>>::empty());
            assert forall|b: int| 0 <= b < old_index.len() implies #[trigger] entry_ok(
                d0,
                old_index[b],
                state,
            ) && state.contains_key(old_index[b].key@) by {
                assert(entry_ok(d0, old(self).index@[b], state));
            }
        }
        let mut a: usize = 0;
        while a < self.index.len()
            invariant
                self.compact_inv(a as int, &comp, comp_id, old_index, state, d0),
                self.segments@ == old(self).segments@,
                self.threshold == old(self).threshold,
                self.uncompacted == old(self).uncompacted,
                comp_id == old(self).active_id() + 1,
            decreases old_index.len() - a,
        {
            self.copy_entry(a, &mut comp, comp_id, Ghost(old_index), Ghost(state), Ghost(d0));
            a = a + 1;
        }
        proof {
            assert(old_index.subrange(0, a as int) =~= old_index);
            assert(state_of_prefix(old_index, a as int, state) =~= state) by {
                assert forall|k: Seq<char>| state.contains_key(k) implies exists|b: int|
                    0 <= b < a && old_index[b].key@ == k by {
                    let b = choose|b: int| 0 <= b < old_index.len() && (#[trigger] old_index[b]).key@ == k;
                }
            }
        }
        let mut comp_bytes: Vec<u8> = Vec::new();
        push_all(&mut comp_bytes, comp.as_slice());
        let mut ops: Vec<DiskOp> = Vec::new();
        ops.push(DiskOp::Create(comp_id));
        let ghost o1 = ops@;
        ops.push(DiskOp::Create(new_id));
        let ghost o2 = ops@;
        ops.push(DiskOp::Append(comp_id, comp_bytes));
        let ghost d3 = d0.insert(comp_id, Seq::empty()).insert(new_id, Seq::empty()).insert(
            comp_id,
            comp.data@,
        );
        proof {
            assert(o1.drop_last() =~= Seq::<DiskOp>::empty());
            assert(apply_ops(d0, o1.drop_last()) == d0);
            assert(o2.drop_last() == o1);
            assert(ops@.drop_last() == o2);
            assert(apply_ops(d0, o1) == d0.insert(comp_id, Seq::empty()));
            assert(apply_ops(d0, o2) == d0.insert(comp_id, Seq::empty()).insert(new_id, Seq::empty()));
            assert(apply_ops(d0, ops@) =~= d3);
            assert(!(ops@[0] is Delete) && !(ops@[1] is Delete) && !(ops@[2] is Delete));
        }
        let mut i: usize = 0;
        while i < self.segments.len()
            invariant
                self.wf_segs(),
                self.segments@ == old(self).segments@,
                self.disk@ == d0,
                i <= self.segments@.len(),
                comp_id == self.segments@.last().id + 1,
                new_id == comp_id + 1,
                apply_ops(d0, ops@) == d3.remove_keys(
                    Set::new(|id: u32| exists|b: int| 0 <= b < i && self.segments@[b].id == id),
                ),
                ops@.len() == 3 + i,
                forall|k: int| 0 <= k < 3 ==> !(#[trigger] ops@[k] is Delete),
                forall|k: int| 3 <= k < ops@.len() ==> #[trigger] ops@[k] is Delete,
            decreases self.segments@.len() - i,
        {
            let id = self.segments[i].id;
            let ghost before = ops@;
            ops.push(DiskOp::Delete(id));
            proof {
                assert(ops@.drop_last() == before);
                assert forall|k: int| 0 <= k < 3 implies !(#[trigger] ops@[k] is Delete) by {
                    assert(ops@[k] == before[k]);
                }
                assert forall|k: int| 3 <= k < ops@.len() implies #[trigger] ops@[k] is Delete by {
                    if k < before.len() {
                        assert(ops@[k] == before[k]);
                    }
                }
                assert(d3.remove_keys(
                    Set::new(|x: u32| exists|b: int| 0 <= b < i + 1 && self.segments@[b].id == x),
                ) =~= d3.remove_keys(
                    Set::new(|x: u32| exists|b: int| 0 <= b < i && self.segments@[b].id == x),
                ).remove(id));
            }
            i = i + 1;
        }
        let fresh = WriterWithPos::new(Vec::new());
        let mut segs: Vec<Segment> = Vec::new();
        segs.push(Segment { id: comp_id, log: comp });
        segs.push(Segment { id: new_id, log: fresh });
        self.segments = segs;
        self.uncompacted = 0;
        proof {
            let nd = Map::<u32, Seq<u8>>::empty().insert(comp_id, comp.data@).insert(new_id, Seq::empty());
            assert forall|id: u32| #[trigger] d0.contains_key(id) implies id < comp_id by {
                let b = choose|b: int| 0 <= b < old(self).segments@.len() && (#[trigger] old(self).segments@[b]).id == id;
                if b < old(self).segments@.len() - 1 {
                    assert(old(self).segments@[b].id < old(self).segments@.last().id);
                }
            }
            assert(apply_ops(d0, ops@) =~= nd) by {
                assert forall|id: u32| d0.contains_key(id) implies exists|b: int|
                    0 <= b < i && old(self).segments@[b].id == id by {
                    let b = choose|b: int| 0 <= b < old(self).segments@.len() && (#[trigger] old(self).segments@[b]).id == id;
                }
                assert forall|b: int| 0 <= b < i implies #[trigger] old(self).segments@[b].id < comp_id by {
                    assert(d0.contains_key(old(self).segments@[b].id));
                }
            }
            self.disk@ = nd;
            assert(self.images() =~= seq![comp.data@, Seq::<u8>::empty()]);
            assert(seq![comp.data@, Seq::<u8>::empty()].drop_last() =~= seq![comp.data@]);
            assert(seq![comp.data@].drop_last() =~= Seq::<Seq<u8>>::empty());
            let imgs = seq![comp.data@, Seq::<u8>::empty()];
            assert(replay_all(Seq::<Seq<u8>>::empty()) == Some(Map::<Seq<char>, Seq<char>>::empty()));
            assert(replay_all(seq![comp.data@]) == Some(state));
            assert(replay_all(imgs) == Some(state));
            assert forall|id: u32| self.disk@.contains_key(id) implies exists|b: int|
                0 <= b < self.segments@.len() && (#[trigger] self.segments@[b]).id == id by {
                if id == comp_id {
                    assert(self.segments@[0].id == id);
                } else {
                    assert(self.segments@[1].id == id);
                }
            }
            assert forall|b: int| 0 <= b < self.index@.len() implies entry_ok(
                self.disk@,
                #[trigger] self.index@[b],
                self.state@,
            ) by {
                assert(copied(self.index@[b], old_index[b], comp.data@, comp_id, state));
            }
            assert forall|x: int, y: int|
                0 <= x < self.index@.len() && 0 <= y < self.index@.len() && x != y implies (#[trigger] self.index@[x]).key@
                != (#[trigger] self.index@[y]).key@ by {
                assert(copied(self.index@[x], old_index[x], comp.data@, comp_id, state));
                assert(copied(self.index@[y], old_index[y], comp.data@, comp_id, state));
                assert(old(self).index@[x].key@ != old(self).index@[y].key@);
            }
            assert forall|k: Seq<char>|
                self.state@.contains_key(k) <==> exists|b: int|
                    0 <= b < self.index@.len() && (#[trigger] self.index@[b]).key@ == k by {
                if self.state@.contains_key(k) {
                    let b = choose|b: int| 0 <= b < old_index.len() && (#[trigger] old_index[b]).key@ == k;
                    assert(copied(self.index@[b], old_index[b], comp.data@, comp_id, state));
                    assert(self.index@[b].key@ == k);
                }
                if exists|b: int| 0 <= b < self.index@.len() && (#[trigger] self.index@[b]).key@ == k {
                    let b = choose|b: int| 0 <= b < self.index@.len() && (#[trigger] self.index@[b]).key@ == k;
                    assert(copied(self.index@[b], old_index[b], comp.data@, comp_id, state));
                    assert(old_index[b].key@ == k);
                }
            }
            assert forall|b: int| 0 <= b < self.index@.len() implies self.index@[b].idx.len
                == old_index[b].idx.len by {
                assert(copied(self.index@[b], old_index[b], comp.data@, comp_id, state));
            }
            lemma_live_len_same(self.index@, old_index);
            assert forall|b: int| 0 <= b < self.index@.len() implies {
                &&& (#[trigger] self.index@[b]).key@ == old_index[b].key@
                &&& self.index@[b].idx.len == old_index[b].idx.len
                &&& self.index@[b].idx.file == old(self).active_id() + 1
                &&& self.index@[b].idx.pos == live_len(old_index.subrange(0, b))
            } by {
                assert(copied(self.index@[b], old_index[b], comp.data@, comp_id, state));
            }
            assert(self.moved_from(old(self)));
            assert(self.wf_segs());
            assert(self.wf_index());
            reveal(KvStore::later_than);
        }
        ops
    }
}

/// The one operation that appends `rec` to segment `id`.
fn append_op(id: u32, rec: Vec<u8>, Ghost(d): Ghost<Disk>) -> (ops: Vec<DiskOp>)
    ensures
        apply_ops(d, ops@) == d.insert(id, d[id] + rec@),
        ops@.len() == 1,
        !(ops@[0] is Delete),
{
    let mut ops: Vec<DiskOp> = Vec::new();
    ops.push(DiskOp::Append(id, rec));
    proof {
        assert(ops@.drop_last() =~= Seq::<DiskOp>::empty());
        assert(apply_ops(d, ops@.drop_last()) == d);
    }
    ops
}

impl KvStore {
    proof fn lemma_later_trans(a: KvStore, b: KvStore, c: KvStore)
        requires
            b.later_than(&a),
            c.later_than(&b),
        ensures
            c.later_than(&a),
    {
        reveal(KvStore::later_than);
    }

    proof fn lemma_wf_segs_same(a: KvStore, b: KvStore)
        requires
            a.wf_segs(),
            a.segments@ == b.segments@,
            a.disk@ == b.disk@,
        ensures
            b.wf_segs(),
    {
        reveal(KvStore::wf_segs);
    }

    proof fn lemma_wf_same(a: KvStore, b: KvStore)
        requires
            a.wf_segs(),
            a.wf_index(),
            a.segments@ == b.segments@,
            a.disk@ == b.disk@,
            a.index@ == b.index@,
            a.state@ == b.state@,
        ensures
            b.wf_segs(),
            b.wf_index(),
    {
        reveal(KvStore::wf_segs);
        reveal(KvStore::wf_index);
    }

    proof fn lemma_index_disk_grow(a: KvStore, b: KvStore)
        requires
            a.wf_index(),
            a.index@ == b.index@,
            a.state@ == b.state@,
            forall|id: u32|
                #[trigger] a.disk@.contains_key(id) ==> b.disk@.contains_key(id) && b.disk@[id]
                    == a.disk@[id],
        ensures
            b.wf_index(),
    {
        reveal(KvStore::wf_index);
        assert forall|x: int| 0 <= x < b.index@.len() implies entry_ok(
            b.disk@,
            #[trigger] b.index@[x],
            b.state@,
        ) by {
            assert(entry_ok(a.disk@, a.index@[x], a.state@));
        }
    }

    pub(crate) proof fn lemma_later_refl(a: KvStore, b: KvStore)
        requires
            b.disk() == a.disk(),
            b.active_id() == a.active_id(),
        ensures
            b.later_than(&a),
    {
        reveal(KvStore::later_than);
    }
}

proof fn lemma_apply_ops_concat(d: Disk, x: Seq<DiskOp>, y: Seq<DiskOp>)
    ensures
        apply_ops(d, x + y) == apply_ops(apply_ops(d, x), y),
    decreases y.len(),
{
    if y.len() == 0 {
        assert(x + y =~= x);
    } else {
        assert((x + y).drop_last() =~= x + y.drop_last());
        lemma_apply_ops_concat(d, x, y.drop_last());
    }
}

impl KvStore {
    proof fn lemma_wf_segs(&self)
        requires
            self.wf(),
        ensures
            self.segments@.len() >= 1,
            self.wf_segs(),
    {
        reveal(KvStore::wf);
    }

    proof fn lemma_live_record_len(&self, k: Seq<char>, a: int)
        requires
            self.wf(),
            0 <= a < self.index@.len(),
            self.index@[a].key@ == k,
        ensures
            self.live_record_len(k) == self.index@[a].idx.len,
            self@.contains_key(k),
    {
        reveal(KvStore::wf);
        reveal(KvStore::wf_segs);
        reveal(KvStore::wf_index);
        let b = choose|b: int| 0 <= b < self.index@.len() && self.index@[b].key@ == k;
        if b != a {
            assert(self.index@[a].key@ != self.index@[b].key@);
        }
    }

    proof fn lemma_ids_below_active(&self)
        requires
            self.wf_segs(),
            self.segments@.len() >= 1,
        ensures
            forall|id: u32| #[trigger] self.disk@.contains_key(id) ==> id <= self.active_id(),
    {
        reveal(KvStore::wf_segs);
        assert forall|id: u32| #[trigger] self.disk@.contains_key(id) implies id <= self.active_id() by {
            let b = choose|b: int| 0 <= b < self.segments@.len() && (#[trigger] self.segments@[b]).id == id;
            if b < self.segments@.len() - 1 {
                assert(self.segments@[b].id < self.segments@.last().id);
            }
        }
    }

    /// Records the `Put` of `key` that `append_active` wrote at `[start, end)`.
    #[verifier::rlimit(80)]
    #[verifier::spinoff_prover]
    fn install(
        &mut self,
        key: String,
        found: Option<usize>,
        start: u64,
        end: u64,
        unc: u64,
        Ghost(v): Ghost<Seq<char>>,
        Ghost(pre): Ghost<KvStore>,
    )
        requires
            pre.wf(),
            old(self).wf_segs(),
            old(self).index@ == pre.index@,
            old(self).state@ == pre.state@,
            old(self).segments@.len() == pre.segments@.len(),
            old(self).active_id() == pre.active_id(),
            old(self).disk@ == pre.disk@.insert(
                pre.active_id(),
                pre.disk@[pre.active_id()] + encode(Record::Put { key: key@, value: v }),
            ),
            old(self).images() == pre.images().update(
                pre.images().len() - 1,
                pre.images().last() + encode(Record::Put { key: key@, value: v }),
            ),
            pre.disk@[pre.active_id()] == pre.images().last(),
            start == pre.active_len(),
            end == pre.active_len() + encode(Record::Put { key: key@, value: v }).len(),
            match found {
                Some(a) => a < pre.index@.len() && pre.index@[a as int].key@ == key@,
                None => forall|a: int| 0 <= a < pre.index@.len() ==> pre.index@[a].key@ != key@,
            },
        ensures
            final(self).wf(),
            final(self)@ == pre@.insert(key@, v),
            final(self).segments@ == old(self).segments@,
            final(self).disk@ == old(self).disk@,
            final(self).uncompacted == unc,
            final(self).threshold == old(self).threshold,
    {
        proof {
            reveal(KvStore::wf);
        }
        proof {
            reveal(KvStore::wf_segs);
            reveal(KvStore::wf_index);
        }
        let ghost k = key@;
        let ghost r = Record::Put { key: k, value: v };
        let ghost id = pre.active_id();
        let ghost d = pre.disk@[id];
        let ghost d2 = d + encode(r);
        let ghost st2 = pre.state@.insert(k, v);
        self.uncompacted = unc;
        let entry = IndexEntry { key, idx: CmdIdx::from(self.segments[self.segments.len() - 1].id, start, end) };
        match found {
            Some(a) => {
                self.index.set(a, entry);
            },
            None => {
                self.index.push(entry);
            },
        }
        proof {
            self.state@ = st2;
            assert(d2.subrange(d.len() as int, d2.len() as int) =~= encode(r));
            lemma_parse_encode(r, d2, d.len() as int);
            assert(pre.disk@.contains_key(id)) by {
                assert(pre.segments@[pre.segments@.len() - 1].id == id);
            }
            let n = self.index@.len();
            assert forall|b: int| 0 <= b < n implies entry_ok(self.disk@, #[trigger] self.index@[b], st2)
                by {
                if self.index@[b].key@ != k {
                    assert(self.index@[b] == pre.index@[b]);
                    assert(entry_ok(pre.disk@, pre.index@[b], pre.state@));
                    assert(pre.state@.contains_key(self.index@[b].key@));
                    lemma_entry_extend(pre.disk@, pre.index@[b], pre.state@, id, encode(r), st2);
                } else {
                    if b < pre.index@.len() && self.index@[b] == pre.index@[b] {
                        assert(found is Some);
                        assert(pre.index@[found->0 as int].key@ == k);
                        assert(pre.index@[found->0 as int].key@ != pre.index@[b].key@);
                    }
                }
            }
            assert forall|x: int, y: int|
                0 <= x < n && 0 <= y < n && x != y implies (#[trigger] self.index@[x]).key@
                    != (#[trigger] self.index@[y]).key@ by {
                if x < pre.index@.len() && y < pre.index@.len() {
                    if self.index@[x] == pre.index@[x] && self.index@[y] == pre.index@[y] {
                        assert(pre.index@[x].key@ != pre.index@[y].key@);
                    }
                }
            }
            assert forall|kk: Seq<char>|
                st2.contains_key(kk) <==> exists|b: int| 0 <= b < n && (#[trigger] self.index@[b]).key@ == kk by {
                if st2.contains_key(kk) {
                    if kk == k {
                        match found {
                            Some(a) => assert(self.index@[a as int].key@ == kk),
                            None => assert(self.index@[n - 1].key@ == kk),
                        }
                    } else {
                        let b = choose|b: int| 0 <= b < pre.index@.len() && (#[trigger] pre.index@[b]).key@ == kk;
                        assert(self.index@[b] == pre.index@[b]);
                    }
                }
                if exists|b: int| 0 <= b < n && (#[trigger] self.index@[b]).key@ == kk {
                    let b = choose|b: int| 0 <= b < n && (#[trigger] self.index@[b]).key@ == kk;
                    if kk != k {
                        assert(self.index@[b] == pre.index@[b]);
                    }
                }
            }
            let m0 = replay_all(pre.images().drop_last())->0;
            assert(self.images().drop_last() =~= pre.images().drop_last());
            lemma_replay_encode(pre.images().last(), r, m0);
            assert(self.images().last() == pre.images().last() + encode(r));
        }
    }
}

impl KvStore {
    /// Drops the entry `a` of `key` after its `Remove` record was appended.
    #[verifier::rlimit(80)]
    #[verifier::spinoff_prover]
    fn uninstall(&mut self, key: &String, a: usize, unc: u64, Ghost(pre): Ghost<KvStore>)
        requires
            pre.wf(),
            old(self).wf_segs(),
            old(self).index@ == pre.index@,
            old(self).state@ == pre.state@,
            old(self).segments@.len() == pre.segments@.len(),
            old(self).active_id() == pre.active_id(),
            old(self).disk@ == pre.disk@.insert(
                pre.active_id(),
                pre.disk@[pre.active_id()] + encode(Record::Remove { key: key@ }),
            ),
            old(self).images() == pre.images().update(
                pre.images().len() - 1,
                pre.images().last() + encode(Record::Remove { key: key@ }),
            ),
            pre.disk@[pre.active_id()] == pre.images().last(),
            a < pre.index@.len(),
            pre.index@[a as int].key@ == key@,
        ensures
            final(self).wf(),
            final(self)@ == pre@.remove(key@),
            final(self).segments@ == old(self).segments@,
            final(self).disk@ == old(self).disk@,
            final(self).uncompacted == unc,
            final(self).threshold == old(self).threshold,
    {
        proof {
            reveal(KvStore::wf);
        }
        proof {
            reveal(KvStore::wf_segs);
            reveal(KvStore::wf_index);
        }
        let ghost k = key@;
        let ghost r = Record::Remove { key: k };
        let ghost id = pre.active_id();
        let ghost st2 = pre.state@.remove(k);
        self.uncompacted = unc;
        self.index.remove(a);
        proof {
            self.state@ = st2;
            assert(pre.disk@.contains_key(id)) by {
                assert(pre.segments@[pre.segments@.len() - 1].id == id);
            }
            let n = self.index@.len();
            assert forall|b: int| 0 <= b < n implies #[trigger] self.index@[b] == pre.index@[if b < a {
                b
            } else {
                b + 1
            }] by {}
            assert forall|b: int| 0 <= b < n implies entry_ok(self.disk@, #[trigger] self.index@[b], st2)
                by {
                let ob = if b < a {
                    b
                } else {
                    b + 1
                };
                assert(self.index@[b] == pre.index@[ob]);
                assert(pre.index@[ob].key@ != k);
                assert(entry_ok(pre.disk@, pre.index@[ob], pre.state@));
                lemma_entry_extend(pre.disk@, pre.index@[ob], pre.state@, id, encode(r), st2);
            }
            assert forall|x: int, y: int|
                0 <= x < n && 0 <= y < n && x != y implies (#[trigger] self.index@[x]).key@
                    != (#[trigger] self.index@[y]).key@ by {
                let ox = if x < a {
                    x
                } else {
                    x + 1
                };
                let oy = if y < a {
                    y
                } else {
                    y + 1
                };
                assert(self.index@[x] == pre.index@[ox]);
                assert(self.index@[y] == pre.index@[oy]);
                assert(pre.index@[ox].key@ != pre.index@[oy].key@);
            }
            assert forall|kk: Seq<char>|
                st2.contains_key(kk) <==> exists|b: int| 0 <= b < n && (#[trigger] self.index@[b]).key@ == kk by {
                if st2.contains_key(kk) {
                    let b = choose|b: int| 0 <= b < pre.index@.len() && (#[trigger] pre.index@[b]).key@ == kk;
                    if b != a {
                        let nb = if b < a {
                            b
                        } else {
                            b - 1
                        };
                        assert(self.index@[nb] == pre.index@[b]);
                    }
                }
                if exists|b: int| 0 <= b < n && (#[trigger] self.index@[b]).key@ == kk {
                    let b = choose|b: int| 0 <= b < n && (#[trigger] self.index@[b]).key@ == kk;
                    let ob = if b < a {
                        b
                    } else {
                        b + 1
                    };
                    assert(self.index@[b] == pre.index@[ob]);
                    assert(pre.index@[ob].key@ != k);
                }
            }
            let m0 = replay_all(pre.images().drop_last())->0;
            assert(self.images().drop_last() =~= pre.images().drop_last());
            lemma_replay_encode(pre.images().last(), r, m0);
            assert(self.images().last() == pre.images().last() + encode(r));
        }
    }

    /// Stores `value` under `key`. Where the dead bytes then exceed the
    /// threshold, a compaction follows.
    ///
    /// The returned operations, carried out in order, bring the data
    /// directory to the new image. The one failure: a compaction is due and
    /// the segment ids are used up; then nothing changes.
    #[verifier::rlimit(100)]
    #[verifier::spinoff_prover]
    pub fn set(&mut self, key: String, value: String) -> (r: Result<Vec<DiskOp>, KvError>)
        requires
            old(self).wf(),
        ensures
            final(self).wf(),
            final(self).compaction_threshold() == old(self).compaction_threshold(),
            r is Err <==> old(self).set_compacts(key@) && old(self).active_id() > u32::MAX - 2,
            r is Err ==> r == Err::<Vec<DiskOp>, KvError>(KvError::LogFull) && *final(self) == *old(
                self,
            ),
            r is Ok ==> final(self)@ == old(self)@.insert(key@, value@),
            r is Ok ==> apply_ops(old(self).disk(), r->Ok_0@) == final(self).disk(),
            r is Ok ==> deletes_last(r->Ok_0@),
            r is Ok && !old(self).set_compacts(key@) ==> final(self).disk() == old(self).disk().insert(
                old(self).active_id(),
                old(self).disk()[old(self).active_id()] + encode(
                    Record::Put { key: key@, value: value@ },
                ),
            ),
            r is Ok ==> final(self).later_than(old(self)),
            r is Ok && old(self).set_compacts(key@) ==> final(self).dead_bytes() == 0
                && final(self).compacted_from(old(self)),
            r is Ok && !old(self).set_compacts(key@) ==> final(self).dead_bytes() == sat_add(
                old(self).dead_bytes(),
                old(self).live_record_len(key@),
            ) && final(self).active_id() == old(self).active_id(),
    {
        proof {
            self.lemma_wf_segs();
        }
        let ghost pre = *self;
        let ghost v = value@;
        let found = self.lookup(&key);
        let displaced: u64 = match found {
            Some(a) => self.index[a].idx.len,
            None => 0,
        };
        proof {
            match found {
                Some(a) => self.lemma_live_record_len(key@, a as int),
                None => {},
            }
        }
        let unc = if self.uncompacted > u64::MAX - displaced {
            u64::MAX
        } else {
            self.uncompacted + displaced
        };
        let last = self.segments.len() - 1;
        let active_id = self.segments[last].id;
        if unc > self.threshold && active_id > u32::MAX - 2 {
            return Err(KvError::LogFull);
        }
        let cmd = Command::Put { key: key.clone(), value };
        let rec = encode_record(&cmd);
        let (start, end) = self.append_active(&rec);
        let ghost appended = *self;
        self.install(key, found, start, end, unc, Ghost(v), Ghost(pre));
        proof {
            KvStore::lemma_later_refl(appended, *self);
            KvStore::lemma_later_trans(pre, appended, *self);
        }
        let mut ops = append_op(active_id, rec, Ghost(pre.disk@));
        if unc > self.threshold {
            let ghost mid = *self;
            let ghost first = ops@;
            let mut more = self.compact_inner();
            let ghost more_ops = more@;
            ops.append(&mut more);
            proof {
                lemma_apply_ops_concat(pre.disk@, first, more_ops);
                KvStore::lemma_later_trans(pre, mid, *self);
                lemma_deletes_last_concat(first, more_ops);
            }
        }
        Ok(ops)
    }

    /// Removes `key`. Fails with `KeyNotFound`, writing nothing, where the
    /// key is not in the store. Where the dead bytes then exceed the
    /// threshold, a compaction follows.
    #[verifier::rlimit(100)]
    #[verifier::spinoff_prover]
    pub fn remove(&mut self, key: String) -> (r: Result<Vec<DiskOp>, KvError>)
        requires
            old(self).wf(),
        ensures
            final(self).wf(),
            final(self).compaction_threshold() == old(self).compaction_threshold(),
            r == Err::<Vec<DiskOp>, KvError>(KvError::KeyNotFound) <==> !old(self)@.contains_key(key@),
            r == Err::<Vec<DiskOp>, KvError>(KvError::LogFull) <==> old(self)@.contains_key(key@)
                && old(self).dead_after_remove(key@) > old(self).compaction_threshold()
                && old(self).active_id() > u32::MAX - 2,
            r is Err ==> *final(self) == *old(self),
            r is Ok ==> deletes_last(r->Ok_0@),
            r is Ok && old(self).dead_after_remove(key@) <= old(self).compaction_threshold()
                ==> final(self).disk() == old(self).disk().insert(
                old(self).active_id(),
                old(self).disk()[old(self).active_id()] + encode(Record::Remove { key: key@ }),
            ),
            r is Err ==> r == Err::<Vec<DiskOp>, KvError>(KvError::KeyNotFound) || r == Err::<
                Vec<DiskOp>,
                KvError,
            >(KvError::LogFull),
            r is Ok ==> final(self)@ == old(self)@.remove(key@),
            r is Ok ==> apply_ops(old(self).disk(), r->Ok_0@) == final(self).disk(),
            r is Ok ==> final(self).later_than(old(self)),
            r is Ok && old(self).dead_after_remove(key@) > old(self).compaction_threshold()
                ==> final(self).dead_bytes() == 0 && final(self).compacted_from(old(self)),
            r is Ok && old(self).dead_after_remove(key@) <= old(self).compaction_threshold()
                ==> final(self).dead_bytes() == old(self).dead_after_remove(key@)
                && final(self).active_id() == old(self).active_id(),
    {
        proof {
            self.lemma_wf_segs();
        }
        let ghost pre = *self;
        let found = self.lookup(&key);
        let a = match found {
            Some(a) => a,
            None => {
                return Err(KvError::KeyNotFound);
            },
        };
        proof {
            self.lemma_live_record_len(key@, a as int);
        }
        let displaced = self.index[a].idx.len;
        let cmd = Command::Remove { key: key.clone() };
        let rec = encode_record(&cmd);
        let rec_len = rec.len() as u64;
        let unc1 = if self.uncompacted > u64::MAX - displaced {
            u64::MAX
        } else {
            self.uncompacted + displaced
        };
        let unc = if unc1 > u64::MAX - rec_len {
            u64::MAX
        } else {
            unc1 + rec_len
        };
        let last = self.segments.len() - 1;
        let active_id = self.segments[last].id;
        if unc > self.threshold && active_id > u32::MAX - 2 {
            return Err(KvError::LogFull);
        }
        let (start, end) = self.append_active(&rec);
        let ghost appended = *self;
        self.uninstall(&key, a, unc, Ghost(pre));
        proof {
            KvStore::lemma_later_refl(appended, *self);
            KvStore::lemma_later_trans(pre, appended, *self);
        }
        let mut ops = append_op(active_id, rec, Ghost(pre.disk@));
        if unc > self.threshold {
            let ghost mid = *self;
            let ghost first = ops@;
            let mut more = self.compact_inner();
            let ghost more_ops = more@;
            ops.append(&mut more);
            proof {
                lemma_apply_ops_concat(pre.disk@, first, more_ops);
                KvStore::lemma_later_trans(pre, mid, *self);
                lemma_deletes_last_concat(first, more_ops);
            }
        }
        Ok(ops)
    }

    /// Rewrites the live records into a new segment and deletes the older
    /// segments. Fails, changing nothing, where the segment ids are used up.
    pub fn compact(&mut self) -> (r: Result<Vec<DiskOp>, KvError>)
        requires
            old(self).wf(),
        ensures
            final(self).wf(),
            final(self)@ == old(self)@,
            final(self).compaction_threshold() == old(self).compaction_threshold(),
            r is Err <==> old(self).active_id() > u32::MAX - 2,
            r is Err ==> r == Err::<Vec<DiskOp>, KvError>(KvError::LogFull) && *final(self) == *old(
                self,
            ),
            r is Ok ==> apply_ops(old(self).disk(), r->Ok_0@) == final(self).disk(),
            r is Ok ==> deletes_last(r->Ok_0@),
            r is Ok ==> final(self).moved_from(old(self)),
            r is Ok ==> final(self).dead_bytes() == 0 && final(self).compacted_from(old(self)),
            r is Ok ==> final(self).later_than(old(self)),
    {
        proof {
            self.lemma_wf_segs();
        }
        let last = self.segments.len() - 1;
        if self.segments[last].id > u32::MAX - 2 {
            return Err(KvError::LogFull);
        }
        Ok(self.compact_inner())
    }
}

/// Once a `Delete` comes, only `Delete`s follow: no segment is removed
/// before every write of the list is done.
pub open spec fn deletes_last(ops: Seq<DiskOp>) -> bool {
    forall|i: int, j: int| 0 <= i < j < ops.len() && ops[i] is Delete ==> ops[j] is Delete
}

proof fn lemma_deletes_last_concat(x: Seq<DiskOp>, y: Seq<DiskOp>)
    requires
        forall|i: int| 0 <= i < x.len() ==> !(x[i] is Delete),
        deletes_last(y),
    ensures
        deletes_last(x + y),
{
    assert forall|i: int, j: int|
        0 <= i < j < (x + y).len() && (x + y)[i] is Delete implies (x + y)[j] is Delete by {
        assert(i >= x.len());
        assert((x + y)[i] == y[i - x.len()]);
        assert((x + y)[j] == y[j - x.len()]);
    }
}

/// Contents of segments, in their order.
pub open spec fn seg_images(segs: Seq<Segment>) -> Seq<Seq<u8>> {
    segs.map_values(|s: Segment| s.log.data@)
}

/// Segment ids strictly ascending.
pub open spec fn ids_ascend(segs: Seq<Segment>) -> bool {
    forall|a: int, b: int| 0 <= a < b < segs.len() ==> segs[a].id < segs[b].id
}

/// The data directory that holds exactly these segments.
pub open spec fn disk_of(segs: Seq<Segment>) -> Disk
    decreases segs.len(),
{
    if segs.len() == 0 {
        Map::empty()
    } else {
        disk_of(segs.drop_last()).insert(segs.last().id, segs.last().log.data@)
    }
}

proof fn lemma_replay_all_none(imgs: Seq<Seq<u8>>, j: int)
    requires
        0 <= j <= imgs.len(),
        replay_all(imgs.subrange(0, j)) is None,
    ensures
        replay_all(imgs) is None,
    decreases imgs.len() - j,
{
    if j < imgs.len() {
        assert(imgs.subrange(0, j + 1).drop_last() =~= imgs.subrange(0, j));
        lemma_replay_all_none(imgs, j + 1);
    } else {
        assert(imgs.subrange(0, j) =~= imgs);
    }
}

impl KvStore {
    /// Position in the index of the entry of `key`, with no invariant needed.
    fn position(&self, key: &String) -> (r: Option<usize>)
        ensures
            match r {
                Some(a) => a < self.index@.len() && self.index@[a as int].key@ == key@,
                None => forall|a: int| 0 <= a < self.index@.len() ==> self.index@[a].key@ != key@,
            },
    {
        let mut a: usize = 0;
        while a < self.index.len()
            invariant
                a <= self.index@.len(),
                forall|b: int| 0 <= b < a ==> self.index@[b].key@ != key@,
            decreases self.index@.len() - a,
        {
            if self.index[a].key == *key {
                return Some(a);
            }
            a = a + 1;
        }
        None
    }

    /// Points `key` at `idx`, whose bytes hold its `Put` record of `v`;
    /// returns the length of the record it displaced.
    #[verifier::rlimit(80)]
    #[verifier::spinoff_prover]
    fn upsert(&mut self, key: String, idx: CmdIdx, Ghost(v): Ghost<Seq<char>>) -> (r: u64)
        requires
            old(self).wf_segs(),
            old(self).wf_index(),
            old(self).disk@.contains_key(idx.file),
            idx.pos + idx.len <= old(self).disk@[idx.file].len(),
            parse(old(self).disk@[idx.file], idx.pos as int) == Some(
                (Record::Put { key: key@, value: v }, idx.pos + idx.len),
            ),
        ensures
            final(self).wf_segs(),
            final(self).wf_index(),
            final(self).locations() == old(self).locations().insert(key@, idx),
            r == (if old(self).locations().contains_key(key@) {
                old(self).locations()[key@].len
            } else {
                0
            }),
            final(self).state@ == old(self).state@.insert(key@, v),
            final(self).segments@ == old(self).segments@,
            final(self).disk@ == old(self).disk@,
            final(self).threshold == old(self).threshold,
            final(self).uncompacted == old(self).uncompacted,
    {
        proof {
            reveal(KvStore::wf_segs);
            reveal(KvStore::wf_index);
        }
        let ghost pre = *self;
        let ghost k = key@;
        let ghost st2 = pre.state@.insert(k, v);
        let found = self.position(&key);
        let entry = IndexEntry { key, idx };
        let ghost eg = entry;
        let r = match found {
            Some(a) => {
                let old_len = self.index[a].idx.len;
                self.index.set(a, entry);
                old_len
            },
            None => {
                self.index.push(entry);
                0
            },
        };
        proof {
            self.state@ = st2;
            let n = self.index@.len();
            assert forall|b: int| 0 <= b < n implies entry_ok(self.disk@, #[trigger] self.index@[b], st2)
                by {
                if self.index@[b].key@ != k {
                    assert(self.index@[b] == pre.index@[b]);
                    assert(entry_ok(pre.disk@, pre.index@[b], pre.state@));
                } else {
                    match found {
                        Some(a) => {
                            if b != a {
                                assert(self.index@[b] == pre.index@[b]);
                                assert(pre.index@[a as int].key@ != pre.index@[b].key@);
                            }
                        },
                        None => {
                            if b < pre.index@.len() {
                                assert(self.index@[b] == pre.index@[b]);
                            }
                        },
                    }
                }
            }
            assert forall|x: int, y: int|
                0 <= x < n && 0 <= y < n && x != y implies (#[trigger] self.index@[x]).key@
                    != (#[trigger] self.index@[y]).key@ by {
                if x < pre.index@.len() && y < pre.index@.len() {
                    if self.index@[x] == pre.index@[x] && self.index@[y] == pre.index@[y] {
                        assert(pre.index@[x].key@ != pre.index@[y].key@);
                    }
                }
            }
            assert forall|kk: Seq<char>|
                st2.contains_key(kk) <==> exists|b: int| 0 <= b < n && (#[trigger] self.index@[b]).key@ == kk by {
                if st2.contains_key(kk) {
                    if kk == k {
                        match found {
                            Some(a) => assert(self.index@[a as int].key@ == kk),
                            None => assert(self.index@[n - 1].key@ == kk),
                        }
                    } else {
                        let b = choose|b: int| 0 <= b < pre.index@.len() && (#[trigger] pre.index@[b]).key@ == kk;
                        assert(self.index@[b] == pre.index@[b]);
                    }
                }
                if exists|b: int| 0 <= b < n && (#[trigger] self.index@[b]).key@ == kk {
                    let b = choose|b: int| 0 <= b < n && (#[trigger] self.index@[b]).key@ == kk;
                    if kk != k {
                        assert(self.index@[b] == pre.index@[b]);
                    }
                }
            }
        }
        proof {
            reveal(KvStore::wf_index);
            let x = pre.index@;
            let y = self.index@;
            assert(unique_keys(x));
            assert(unique_keys(y));
            match found {
                Some(a) => {
                    lemma_map_of_at(x, a as int);
                    lemma_map_of_put(x, y, a as int, eg);
                },
                None => {
                    assert(!map_of(x).contains_key(k));
                    lemma_map_of_put(x, y, x.len() as int, eg);
                },
            }
        }
        r
    }

    /// Drops `key` from the index, where it is there; returns the length of
    /// its record, or 0.
    #[verifier::rlimit(80)]
    #[verifier::spinoff_prover]
    fn drop_key(&mut self, key: &String) -> (r: u64)
        requires
            old(self).wf_segs(),
            old(self).wf_index(),
        ensures
            final(self).wf_segs(),
            final(self).wf_index(),
            final(self).locations() == old(self).locations().remove(key@),
            r == (if old(self).locations().contains_key(key@) {
                old(self).locations()[key@].len
            } else {
                0
            }),
            final(self).state@ == old(self).state@.remove(key@),
            final(self).segments@ == old(self).segments@,
            final(self).disk@ == old(self).disk@,
            final(self).threshold == old(self).threshold,
            final(self).uncompacted == old(self).uncompacted,
    {
        proof {
            reveal(KvStore::wf_segs);
            reveal(KvStore::wf_index);
        }
        let ghost pre = *self;
        let ghost k = key@;
        let ghost st2 = pre.state@.remove(k);
        let a = match self.position(key) {
            Some(a) => a,
            None => {
                proof {
                    assert(!map_of(pre.index@).contains_key(k));
                    assert(st2 =~= pre.state@) by {
                        if pre.state@.contains_key(k) {
                            let b = choose|b: int| 0 <= b < pre.index@.len() && (#[trigger] pre.index@[b]).key@ == k;
                        }
                    }
                }
                return 0;
            },
        };
        let old_len = self.index[a].idx.len;
        self.index.remove(a);
        proof {
            reveal(KvStore::wf_segs);
            reveal(KvStore::wf_index);
            self.state@ = st2;
            let n = self.index@.len();
            assert forall|b: int| 0 <= b < n implies #[trigger] self.index@[b] == pre.index@[if b < a {
                b
            } else {
                b + 1
            }] by {}
            assert forall|b: int| 0 <= b < n implies entry_ok(self.disk@, #[trigger] self.index@[b], st2)
                by {
                let ob = if b < a {
                    b
                } else {
                    b + 1
                };
                assert(self.index@[b] == pre.index@[ob]);
                assert(pre.index@[ob].key@ != k);
                assert(entry_ok(pre.disk@, pre.index@[ob], pre.state@));
            }
            assert forall|x: int, y: int|
                0 <= x < n && 0 <= y < n && x != y implies (#[trigger] self.index@[x]).key@
                    != (#[trigger] self.index@[y]).key@ by {
                let ox = if x < a {
                    x
                } else {
                    x + 1
                };
                let oy = if y < a {
                    y
                } else {
                    y + 1
                };
                assert(self.index@[x] == pre.index@[ox]);
                assert(self.index@[y] == pre.index@[oy]);
                assert(pre.index@[ox].key@ != pre.index@[oy].key@);
            }
            assert forall|kk: Seq<char>|
                st2.contains_key(kk) <==> exists|b: int| 0 <= b < n && (#[trigger] self.index@[b]).key@ == kk by {
                if st2.contains_key(kk) {
                    let b = choose|b: int| 0 <= b < pre.index@.len() && (#[trigger] pre.index@[b]).key@ == kk;
                    if b != a {
                        let nb = if b < a {
                            b
                        } else {
                            b - 1
                        };
                        assert(self.index@[nb] == pre.index@[b]);
                    }
                }
                if exists|b: int| 0 <= b < n && (#[trigger] self.index@[b]).key@ == kk {
                    let b = choose|b: int| 0 <= b < n && (#[trigger] self.index@[b]).key@ == kk;
                    let ob = if b < a {
                        b
                    } else {
                        b + 1
                    };
                    assert(self.index@[b] == pre.index@[ob]);
                    assert(pre.index@[ob].key@ != k);
                }
            }
        }
        proof {
            KvStore::lemma_wf_segs_same(pre, *self);
        }
        proof {
            reveal(KvStore::wf_index);
            assert(unique_keys(pre.index@));
            lemma_map_of_at(pre.index@, a as int);
            lemma_map_of_remove(pre.index@, a as int);
        }
        old_len
    }
}

proof fn lemma_disk_of(x: Seq<Segment>)
    requires
        ids_ascend(x),
    ensures
        forall|id: u32|
            #[trigger] disk_of(x).contains_key(id) <==> exists|a: int| 0 <= a < x.len() && x[a].id == id,
        forall|a: int|
            0 <= a < x.len() ==> disk_of(x).contains_key((#[trigger] x[a]).id) && disk_of(x)[x[a].id]
                == x[a].log.data@,
        forall|id: u32| #[trigger] disk_of(x).contains_key(id) && x.len() > 0 ==> id <= x.last().id,
    decreases x.len(),
{
    if x.len() > 0 {
        let y = x.drop_last();
        lemma_disk_of(y);
        assert(disk_of(x) == disk_of(y).insert(x.last().id, x.last().log.data@));
        assert(ids_ascend(y));
        assert forall|id: u32| #[trigger] disk_of(x).contains_key(id) <==> exists|a: int|
            0 <= a < x.len() && x[a].id == id by {
            if disk_of(x).contains_key(id) {
                if id != x.last().id {
                    let a = choose|a: int| 0 <= a < y.len() && y[a].id == id;
                    assert(y[a] == x[a]);
                    assert(x[a].id == id);
                } else {
                    assert(x[x.len() - 1].id == id);
                }
            }
            if exists|a: int| 0 <= a < x.len() && x[a].id == id {
                let a = choose|a: int| 0 <= a < x.len() && x[a].id == id;
                if a < y.len() {
                    assert(y[a] == x[a]);
                    assert(y[a].id == id);
                }
            }
        }
        assert forall|a: int| 0 <= a < x.len() implies disk_of(x).contains_key((#[trigger] x[a]).id)
            && disk_of(x)[x[a].id] == x[a].log.data@ by {
            if a < y.len() {
                assert(y[a] == x[a]);
                assert(x[a].id < x.last().id);
            }
        }
        assert forall|id: u32| #[trigger] disk_of(x).contains_key(id) && x.len() > 0 implies id
            <= x.last().id by {
            let a = choose|a: int| 0 <= a < x.len() && x[a].id == id;
            if a < x.len() - 1 {
                assert(x[a].id < x[x.len() - 1].id);
            }
        }
    }
}

/// Two ascending listings of one directory have the same contents.
proof fn lemma_listing_unique(x: Seq<Segment>, y: Seq<Segment>)
    requires
        ids_ascend(x),
        ids_ascend(y),
        disk_of(x) == disk_of(y),
    ensures
        seg_images(x) == seg_images(y),
    decreases x.len(),
{
    lemma_disk_of(x);
    lemma_disk_of(y);
    if x.len() == 0 {
        if y.len() > 0 {
            assert(disk_of(y).contains_key(y[0].id));
        }
        assert(seg_images(x) =~= seg_images(y));
    } else {
        assert(disk_of(x).contains_key(x[x.len() - 1].id));
        assert(y.len() > 0);
        assert(disk_of(y).contains_key(y[y.len() - 1].id));
        let id = x.last().id;
        assert(id == y.last().id);
        let x2 = x.drop_last();
        let y2 = y.drop_last();
        lemma_disk_of(x2);
        lemma_disk_of(y2);
        assert(!disk_of(x2).contains_key(id)) by {
            if disk_of(x2).contains_key(id) {
                let a = choose|a: int| 0 <= a < x2.len() && x2[a].id == id;
                assert(x[a].id < x[x.len() - 1].id);
            }
        }
        assert(!disk_of(y2).contains_key(id)) by {
            if disk_of(y2).contains_key(id) {
                let a = choose|a: int| 0 <= a < y2.len() && y2[a].id == id;
                assert(y[a].id < y[y.len() - 1].id);
            }
        }
        assert(disk_of(x2) =~= disk_of(x).remove(id));
        assert(disk_of(y2) =~= disk_of(y).remove(id));
        assert(ids_ascend(x2));
        assert(ids_ascend(y2));
        lemma_listing_unique(x2, y2);
        assert(seg_images(x) =~= seg_images(x2).push(x.last().log.data@));
        assert(seg_images(y) =~= seg_images(y2).push(y.last().log.data@));
    }
}

/// The keys of the entries are distinct.
pub open spec fn unique_keys(x: Seq<IndexEntry>) -> bool {
    forall|a: int, b: int|
        0 <= a < x.len() && 0 <= b < x.len() && a != b ==> (#[trigger] x[a]).key@ != (#[trigger] x[b]).key@
}

/// The index as a map from key to location.
pub open spec fn map_of(x: Seq<IndexEntry>) -> Map<Seq<char>, CmdIdx> {
    Map::new(
        |k: Seq<char>| exists|a: int| 0 <= a < x.len() && x[a].key@ == k,
        |k: Seq<char>| x[choose|a: int| 0 <= a < x.len() && x[a].key@ == k].idx,
    )
}

proof fn lemma_map_of_at(x: Seq<IndexEntry>, a: int)
    requires
        unique_keys(x),
        0 <= a < x.len(),
    ensures
        map_of(x).contains_key(x[a].key@),
        map_of(x)[x[a].key@] == x[a].idx,
{
    let k = x[a].key@;
    assert(map_of(x).contains_key(k));
    let b = choose|b: int| 0 <= b < x.len() && x[b].key@ == k;
    if b != a {
        assert(x[a].key@ != x[b].key@);
    }
}

/// Putting entry `e` at position `p` (over the entry of its key, or at the
/// end) updates the map at `e`'s key only.
proof fn lemma_map_of_put(x: Seq<IndexEntry>, y: Seq<IndexEntry>, p: int, e: IndexEntry)
    requires
        unique_keys(x),
        unique_keys(y),
        0 <= p < y.len(),
        y[p] == e,
        x.len() <= y.len(),
        forall|b: int| 0 <= b < y.len() && b != p ==> b < x.len() && y[b] == x[b],
        p < x.len() ==> x[p].key@ == e.key@,
    ensures
        map_of(y) == map_of(x).insert(e.key@, e.idx),
{
    let k = e.key@;
    assert forall|kk: Seq<char>| #[trigger] map_of(y).contains_key(kk) <==> map_of(x).insert(k, e.idx).contains_key(kk) by {
        if map_of(y).contains_key(kk) {
            let b = choose|b: int| 0 <= b < y.len() && y[b].key@ == kk;
            if b != p {
                assert(x[b].key@ == kk);
            }
        }
        if map_of(x).contains_key(kk) {
            let b = choose|b: int| 0 <= b < x.len() && x[b].key@ == kk;
            if b != p {
                assert(y[b].key@ == kk);
            } else {
                assert(y[p].key@ == kk);
            }
        }
        if kk == k {
            assert(y[p].key@ == kk);
        }
    }
    assert forall|kk: Seq<char>| #[trigger] map_of(y).contains_key(kk) implies map_of(y)[kk] == map_of(
        x,
    ).insert(k, e.idx)[kk] by {
        let b = choose|b: int| 0 <= b < y.len() && y[b].key@ == kk;
        lemma_map_of_at(y, b);
        if kk == k {
            if b != p {
                assert(y[b].key@ != y[p].key@);
            }
        } else {
            lemma_map_of_at(x, b);
        }
    }
    assert(map_of(y) =~= map_of(x).insert(k, e.idx));
}

/// Dropping the entry at `a` drops its key from the map.
proof fn lemma_map_of_remove(x: Seq<IndexEntry>, a: int)
    requires
        unique_keys(x),
        0 <= a < x.len(),
    ensures
        map_of(x.remove(a)) == map_of(x).remove(x[a].key@),
{
    let y = x.remove(a);
    let k = x[a].key@;
    assert forall|b: int| 0 <= b < y.len() implies #[trigger] y[b] == x[if b < a {
        b
    } else {
        b + 1
    }] by {}
    assert(unique_keys(y)) by {
        assert forall|b: int, c: int|
            0 <= b < y.len() && 0 <= c < y.len() && b != c implies (#[trigger] y[b]).key@ != (#[trigger] y[c]).key@ by {
            let ob = if b < a {
                b
            } else {
                b + 1
            };
            let oc = if c < a {
                c
            } else {
                c + 1
            };
            assert(x[ob].key@ != x[oc].key@);
        }
    }
    assert forall|kk: Seq<char>| #[trigger] map_of(y).contains_key(kk) <==> map_of(x).remove(k).contains_key(kk) by {
        if map_of(y).contains_key(kk) {
            let b = choose|b: int| 0 <= b < y.len() && y[b].key@ == kk;
            let ob = if b < a {
                b
            } else {
                b + 1
            };
            assert(x[ob].key@ == kk);
            assert(x[ob].key@ != x[a].key@);
        }
        if map_of(x).remove(k).contains_key(kk) {
            let b = choose|b: int| 0 <= b < x.len() && x[b].key@ == kk;
            if b < a {
                assert(y[b].key@ == kk);
            } else {
                assert(b != a);
                assert(y[b - 1].key@ == kk);
            }
        }
    }
    assert forall|kk: Seq<char>| #[trigger] map_of(y).contains_key(kk) implies map_of(y)[kk] == map_of(
        x,
    ).remove(k)[kk] by {
        let b = choose|b: int| 0 <= b < y.len() && y[b].key@ == kk;
        lemma_map_of_at(y, b);
        let ob = if b < a {
            b
        } else {
            b + 1
        };
        lemma_map_of_at(x, ob);
    }
    assert(map_of(y) =~= map_of(x).remove(k));
}

/// What rebuilding the index from one segment gives: from offset `i` on,
/// each `Set` points its key at its own bytes `[start, end)` in segment `id`
/// and kills the record it displaces; each `Remove` drops its key and kills
/// the record it displaces and itself. The dead bytes saturate at
/// `u64::MAX`.
pub open spec fn rebuild_seg(
    d: Seq<u8>,
    id: u32,
    i: int,
    locs: Map<Seq<char>, CmdIdx>,
    dead: u64,
) -> Option<(Map<Seq<char>, CmdIdx>, u64)>
    decreases d.len() - i,
{
    if i < 0 || i > d.len() {
        None
    } else if i == d.len() {
        Some((locs, dead))
    } else {
        match parse(d, i) {
            Some((r, e)) => if e > i {
                let shadowed: int = match r {
                    Record::Put { key, .. } => if locs.contains_key(key) {
                        locs[key].len as int
                    } else {
                        0
                    },
                    Record::Remove { key } => if locs.contains_key(key) {
                        locs[key].len as int
                    } else {
                        0
                    },
                    Record::Get { .. } => 0,
                };
                match r {
                    Record::Put { key, .. } => rebuild_seg(
                        d,
                        id,
                        e,
                        locs.insert(key, CmdIdx { file: id, pos: i as u64, len: (e - i) as u64 }),
                        sat_add(dead, shadowed),
                    ),
                    Record::Remove { key } => rebuild_seg(
                        d,
                        id,
                        e,
                        locs.remove(key),
                        sat_add(dead, shadowed + (e - i)),
                    ),
                    Record::Get { .. } => rebuild_seg(d, id, e, locs, dead),
                }
            } else {
                None
            },
            None => None,
        }
    }
}

/// The index and dead-byte count that `open` rebuilds from the segments,
/// taken in order.
pub open spec fn rebuild(segs: Seq<Segment>) -> Option<(Map<Seq<char>, CmdIdx>, u64)>
    decreases segs.len(),
{
    if segs.len() == 0 {
        Some((Map::empty(), 0))
    } else {
        match rebuild(segs.drop_last()) {
            Some((locs, dead)) => rebuild_seg(segs.last().log.data@, segs.last().id, 0, locs, dead),
            None => None,
        }
    }
}

/// Id of the active segment that `open` adds after `segs`.
pub open spec fn next_id(segs: Seq<Segment>) -> int {
    if segs.len() == 0 {
        1
    } else {
        segs.last().id + 1
    }
}

impl KvStore {
    /// Adds `seg`, whose id is above those present, and replays its records
    /// into the index.
    #[verifier::rlimit(80)]
    fn load_segment(&mut self, seg: Segment) -> (r: Result<(), KvError>)
        requires
            old(self).wf_segs(),
            old(self).wf_index(),
            replay_all(old(self).images()) == Some(old(self).state@),
            seg.log.wf(),
            forall|a: int| 0 <= a < old(self).segments@.len() ==> old(self).segments@[a].id < seg.id,
        ensures
            final(self).segments@ == old(self).segments@.push(seg),
            final(self).disk@ == old(self).disk@.insert(seg.id, seg.log.data@),
            final(self).threshold == old(self).threshold,
            r is Ok <==> replay_all(final(self).images()) is Some,
            r is Err ==> r == Err::<(), KvError>(KvError::CorruptLog),
            r is Ok ==> final(self).wf_segs() && final(self).wf_index() && replay_all(
                final(self).images(),
            ) == Some(final(self).state@),
            r is Ok ==> rebuild_seg(seg.log.data@, seg.id, 0, old(self).locations(), old(self).uncompacted)
                == Some((final(self).locations(), final(self).uncompacted)),
    {
        let ghost pre = *self;
        let ghost m0 = self.state@;
        let ghost d = seg.log.data@;
        let id = seg.id;
        self.segments.push(seg);
        proof {
            reveal(KvStore::wf_segs);
            reveal(KvStore::wf_index);
            self.disk@ = self.disk@.insert(id, d);
            let segs = self.segments@;
            assert(!pre.disk@.contains_key(id)) by {
                if pre.disk@.contains_key(id) {
                    let b = choose|b: int| 0 <= b < pre.segments@.len() && (#[trigger] pre.segments@[b]).id == id;
                    assert(pre.segments@[b].id < id);
                }
            }
            assert forall|x: u32| self.disk@.contains_key(x) implies exists|b: int|
                0 <= b < segs.len() && (#[trigger] segs[b]).id == x by {
                if x != id {
                    let b = choose|b: int| 0 <= b < pre.segments@.len() && (#[trigger] pre.segments@[b]).id == x;
                    assert(segs[b].id == x);
                } else {
                    assert(segs[segs.len() - 1].id == x);
                }
            }
            assert forall|b: int| 0 <= b < segs.len() implies self.disk@.contains_key(
                (#[trigger] segs[b]).id,
            ) && self.disk@[segs[b].id] == segs[b].log.data@ by {
                if b < pre.segments@.len() {
                    assert(segs[b] == pre.segments@[b]);
                    assert(pre.segments@[b].id < id);
                }
            }
            assert(self.wf_segs());
            KvStore::lemma_index_disk_grow(pre, *self);
            assert(self.images().drop_last() =~= pre.images());
            assert(self.images().last() == d);
        }
        let s = self.segments.len() - 1;
        let n = self.segments[s].log.len();
        let mut unc: u64 = self.uncompacted;
        let mut i: usize = 0;
        while i < n
            invariant
                self.wf_segs(),
                self.wf_index(),
                self.segments@ == pre.segments@.push(seg),
                self.segments@ == old(self).segments@.push(seg),
                self.disk@ == pre.disk@.insert(id, d),
                self.disk@ == old(self).disk@.insert(seg.id, seg.log.data@),
                self.threshold == old(self).threshold,
                self.disk@[id] == d,
                self.threshold == pre.threshold,
                s == self.segments@.len() - 1,
                d == self.segments@[s as int].log.data@,
                n == d.len(),
                id == seg.id,
                i <= n,
                replay_seg(d, 0, m0) == replay_seg(d, i as int, self.state@),
                rebuild_seg(d, id, 0, pre.locations(), pre.uncompacted) == rebuild_seg(
                    d,
                    id,
                    i as int,
                    self.locations(),
                    unc,
                ),
                self.images().drop_last() == pre.images(),
                self.images().last() == d,
                replay_all(pre.images()) == Some(m0),
            decreases n - i,
        {
            let data = self.segments[s].log.as_slice();
            match parse_record(data, i) {
                None => {
                    proof {
                        assert(replay_seg(d, i as int, self.state@) is None);
                    }
                    return Err(KvError::CorruptLog);
                },
                Some((cmd, e)) => {
                    proof {
                        lemma_parse_bounds(d, i as int);
                    }
                    let ghost st = self.state@;
                    let ghost locs0 = self.locations();
                    let ghost unc0 = unc;
                    match cmd {
                        Command::Put { key, value } => {
                            let ghost v = value@;
                            let displaced = self.upsert(key, CmdIdx::from(id, i as u64, e as u64), Ghost(v));
                            unc = if unc > u64::MAX - displaced {
                                u64::MAX
                            } else {
                                unc + displaced
                            };
                        },
                        Command::Remove { key } => {
                            let displaced = self.drop_key(&key);
                            let dead = displaced as u128 + (e - i) as u128;
                            unc = if unc as u128 + dead > u64::MAX as u128 {
                                u64::MAX
                            } else {
                                (unc as u128 + dead) as u64
                            };
                        },
                        Command::Get { .. } => {},
                    }
                    proof {
                        assert(self.state@ == apply(st, cmd@));
                        assert(rebuild_seg(d, id, i as int, locs0, unc0) == rebuild_seg(
                            d,
                            id,
                            e as int,
                            self.locations(),
                            unc,
                        ));
                    }
                    i = e;
                },
            }
        }
        let ghost before = *self;
        self.uncompacted = unc;
        proof {
            KvStore::lemma_wf_same(before, *self);
            assert(self.locations() == before.locations());
        }
        Ok(())
    }

    /// Opens the single-writer engine on the segments found on disk, in
    /// ascending order of id: replays their records into the index and adds
    /// an empty active segment after them.
    pub fn open(segments: Vec<Segment>) -> (r: Result<(KvStore, Vec<DiskOp>), KvError>)
        requires
            ids_ascend(segments@),
            forall|a: int| 0 <= a < segments@.len() ==> (#[trigger] segments@[a]).log.wf(),
        ensures
            Self::opened(segments@, COMPACTION_THRESHOLD, r),
    {
        Self::open_with_threshold(segments, COMPACTION_THRESHOLD)
    }

    /// What `open` promises: the store is what the segments replay to, and
    /// the directory gains the new active segment; the error is `CorruptLog`
    /// where the segments do not replay, and `LogFull` where no id is left.
    pub open spec fn opened(
        segments: Seq<Segment>,
        threshold: u64,
        r: Result<(KvStore, Vec<DiskOp>), KvError>,
    ) -> bool {
        match r {
            Ok((s, ops)) => {
                &&& s.wf()
                &&& replay_all(seg_images(segments)) == Some(s@)
                &&& s.disk() == apply_ops(disk_of(segments), ops@)
                &&& s.disk() == disk_of(segments).insert(next_id(segments) as u32, Seq::empty())
                &&& s.segs().drop_last() == segments
                &&& rebuild(segments) == Some((s.locations(), s.dead_bytes()))
                &&& s.active_id() == next_id(segments)
                &&& s.disk()[s.active_id()].len() == 0
                &&& s.compaction_threshold() == threshold
            },
            Err(e) => {
                &&& (e == KvError::CorruptLog <==> replay_all(seg_images(segments)) is None)
                &&& (e == KvError::LogFull <==> replay_all(seg_images(segments)) is Some && next_id(
                    segments,
                ) > u32::MAX)
                &&& (e == KvError::CorruptLog || e == KvError::LogFull)
            },
        }
    }

    /// `open` with the given compaction threshold.
    #[verifier::rlimit(100)]
    #[verifier::spinoff_prover]
    pub fn open_with_threshold(segments: Vec<Segment>, threshold: u64) -> (r: Result<
        (KvStore, Vec<DiskOp>),
        KvError,
    >)
        requires
            ids_ascend(segments@),
            forall|a: int| 0 <= a < segments@.len() ==> (#[trigger] segments@[a]).log.wf(),
        ensures
            Self::opened(segments@, threshold, r),
    {
        let ghost all = segments@;
        let mut st = KvStore {
            segments: Vec::new(),
            index: Vec::new(),
            uncompacted: 0,
            threshold,
            state: Ghost(Map::empty()),
            disk: Ghost(Map::empty()),
        };
        proof {
            reveal(KvStore::wf_segs);
            reveal(KvStore::wf_index);
            assert(st.images() =~= Seq::<Seq<u8>>::empty());
            assert(all.subrange(0, 0) =~= Seq::<Segment>::empty());
            assert(disk_of(Seq::<Segment>::empty()) == Map::<u32, Seq<u8>>::empty());
            assert(st.disk@ =~= Map::<u32, Seq<u8>>::empty());
            assert(st.locations() =~= Map::<Seq<char>, CmdIdx>::empty());
        }
        let total = segments.len();
        let mut input = segments;
        let mut j: usize = 0;
        while input.len() > 0
            invariant
                st.wf_segs(),
                st.wf_index(),
                replay_all(st.images()) == Some(st.state@),
                j <= all.len(),
                all == segments@,
                all.len() == total,
                st.segments@ == all.subrange(0, j as int),
                input@ == all.subrange(j as int, all.len() as int),
                st.disk@ == disk_of(all.subrange(0, j as int)),
                rebuild(all.subrange(0, j as int)) == Some((st.locations(), st.uncompacted)),
                st.threshold == threshold,
                ids_ascend(all),
                forall|a: int| 0 <= a < all.len() ==> (#[trigger] all[a]).log.wf(),
            decreases input@.len(),
        {
            let seg = input.remove(0);
            proof {
                assert(seg == all[j as int]);
                assert(all.subrange(0, j + 1).drop_last() =~= all.subrange(0, j as int));
                assert(st.segments@.push(seg) =~= all.subrange(0, j + 1));
                assert(input@ =~= all.subrange(j + 1, all.len() as int));
            }
            let ghost before = st;
            match st.load_segment(seg) {
                Err(_) => {
                    proof {
                        assert(st.segments@ == all.subrange(0, j + 1));
                        assert(st.images() =~= seg_images(all).subrange(0, j + 1));
                        assert(replay_all(seg_images(all).subrange(0, j + 1)) is None);
                        lemma_replay_all_none(seg_images(all), j + 1);
                        assert(replay_all(seg_images(all)) is None);
                    }
                    return Err(KvError::CorruptLog);
                },
                Ok(()) => {
                    proof {
                        assert(all[j as int] == seg);
                        assert(all.subrange(0, j + 1).last() == seg);
                    }
                },
            }
            j = j + 1;
        }
        proof {
            assert(all.subrange(0, j as int) =~= all);
            assert(st.images() =~= seg_images(all));
        }
        let next: u32 = if j == 0 {
            1
        } else {
            let last_id = st.segments[j - 1].id;
            if last_id == u32::MAX {
                return Err(KvError::LogFull);
            }
            last_id + 1
        };
        let ghost before = st;
        st.segments.push(Segment { id: next, log: WriterWithPos::new(Vec::new()) });
        let mut ops: Vec<DiskOp> = Vec::new();
        ops.push(DiskOp::Create(next));
        proof {
            reveal(KvStore::wf_segs);
            reveal(KvStore::wf_index);
            reveal(KvStore::wf);
            let d0 = before.disk@;
            st.disk@ = d0.insert(next, Seq::empty());
            assert(ops@.drop_last() =~= Seq::<DiskOp>::empty());
            assert(apply_ops(d0, ops@.drop_last()) == d0);
            let segs = st.segments@;
            assert forall|b: int| 0 <= b < before.segments@.len() implies #[trigger] before.segments@[b].id
                < next by {
                if b < before.segments@.len() - 1 {
                    assert(before.segments@[b].id < before.segments@.last().id);
                }
            }
            assert(!d0.contains_key(next)) by {
                if d0.contains_key(next) {
                    let b = choose|b: int| 0 <= b < before.segments@.len() && (#[trigger] before.segments@[b]).id == next;
                }
            }
            assert forall|x: u32| st.disk@.contains_key(x) implies exists|b: int|
                0 <= b < segs.len() && (#[trigger] segs[b]).id == x by {
                if x != next {
                    let b = choose|b: int| 0 <= b < before.segments@.len() && (#[trigger] before.segments@[b]).id == x;
                    assert(segs[b].id == x);
                } else {
                    assert(segs[segs.len() - 1].id == x);
                }
            }
            assert forall|b: int| 0 <= b < segs.len() implies st.disk@.contains_key(
                (#[trigger] segs[b]).id,
            ) && st.disk@[segs[b].id] == segs[b].log.data@ by {
                if b < before.segments@.len() {
                    assert(segs[b] == before.segments@[b]);
                }
            }
            assert forall|b: int| 0 <= b < st.index@.len() implies entry_ok(
                st.disk@,
                #[trigger] st.index@[b],
                st.state@,
            ) by {
                assert(entry_ok(d0, st.index@[b], st.state@));
            }
            assert(st.images().drop_last() =~= before.images());
            assert(st.images().last() =~= Seq::<u8>::empty());
            assert(before.segments@ == all);
            assert(st.segments@.drop_last() =~= all);
            assert(next as int == next_id(all));
            assert(st.locations() == before.locations());
            assert(st.disk@ == disk_of(all).insert(next_id(all) as u32, Seq::empty()));
        }
        Ok((st, ops))
    }
}

/// An entry stays good when bytes are appended to a segment and the store
/// changes elsewhere than at its key.
proof fn lemma_entry_extend(
    disk: Disk,
    e: IndexEntry,
    state: Store,
    id: u32,
    x: Seq<u8>,
    state2: Store,
)
    requires
        entry_ok(disk, e, state),
        disk.contains_key(id),
        state2.contains_key(e.key@) && state2[e.key@] == state[e.key@],
    ensures
        entry_ok(disk.insert(id, disk[id] + x), e, state2),
{
    let d = disk[e.idx.file];
    let p = e.idx.pos as int;
    if e.idx.file == id {
        lemma_parse_local(d, p, d, p);
        assert((d + x).subrange(p, p + e.idx.len) =~= d.subrange(p, p + e.idx.len));
        lemma_parse_local(d, p, d + x, p);
    }
}

// ---------------------------------------------------------------------
// Lemmas on replay
proof fn lemma_replay_extend(d: Seq<u8>, x: Seq<u8>, i: int, m: Store)
    requires
        replay_seg(d, i, m) is Some,
    ensures
        replay_seg(d + x, i, m) == replay_seg(d + x, d.len() as int, replay_seg(d, i, m)->0),
    decreases d.len() - i,
{
    if i < d.len() {
        let (r, e) = parse(d, i)->0;
        lemma_parse_local(d, i, d, i);
        assert((d + x).subrange(i, e) =~= d.subrange(i, e));
        lemma_parse_local(d, i, d + x, i);
        lemma_replay_extend(d, x, e, apply(m, r));
    }
}

/// Appending bytes that read as one record applies that record.
proof fn lemma_replay_record(d: Seq<u8>, x: Seq<u8>, r: Record, m: Store)
    requires
        replay_seg(d, 0, m) is Some,
        parse(d + x, d.len() as int) == Some((r, (d.len() + x.len()) as int)),
        x.len() > 0,
    ensures
        replay_seg(d + x, 0, m) == Some(apply(replay_seg(d, 0, m)->0, r)),
{
    lemma_replay_extend(d, x, 0, m);
    let m1 = replay_seg(d, 0, m)->0;
    let d2 = d + x;
    assert(replay_seg(d2, d2.len() as int, apply(m1, r)) == Some(apply(m1, r)));
    assert(replay_seg(d2, d.len() as int, m1) == replay_seg(d2, d2.len() as int, apply(m1, r)));
}

proof fn lemma_replay_encode(d: Seq<u8>, r: Record, m: Store)
    requires
        replay_seg(d, 0, m) is Some,
    ensures
        replay_seg(d + encode(r), 0, m) == Some(apply(replay_seg(d, 0, m)->0, r)),
{
    let d2 = d + encode(r);
    assert(d2.subrange(d.len() as int, d2.len() as int) =~= encode(r));
    lemma_parse_encode(r, d2, d.len() as int);
    lemma_replay_record(d, encode(r), r, m);
}

} // verus!

verus! {

impl KvStore {
    /// Number of live keys.
    pub fn len(&self) -> (r: usize)
        requires
            self.wf(),
        ensures
            r == self@.dom().len(),
    {
        proof {
            self.lemma_dom_len();
        }
        self.index.len()
    }

    proof fn lemma_dom_len(&self)
        requires
            self.wf(),
        ensures
            self@.dom().len() == self.index@.len(),
            self@.dom().finite(),
    {
        reveal(KvStore::wf);
        reveal(KvStore::wf_index);
        let keys = self.index@.map_values(|e: IndexEntry| e.key@);
        assert(keys.no_duplicates()) by {
            assert forall|x: int, y: int| 0 <= x < keys.len() && 0 <= y < keys.len() && x != y implies keys[x]
                != keys[y] by {
                assert(self.index@[x].key@ != self.index@[y].key@);
            }
        }
        assert(self@.dom() =~= keys.to_set()) by {
            assert forall|k: Seq<char>| self@.dom().contains(k) implies keys.to_set().contains(k) by {
                let b = choose|b: int| 0 <= b < self.index@.len() && (#[trigger] self.index@[b]).key@ == k;
                assert(keys[b] == k);
            }
            assert forall|k: Seq<char>| keys.to_set().contains(k) implies self@.dom().contains(k) by {
                let b = choose|b: int| 0 <= b < keys.len() && keys[b] == k;
                assert(self.index@[b].key@ == k);
            }
        }
        keys.unique_seq_to_set();
    }

    /// The store's segments are a listing of its data directory in
    /// ascending order of id, and replaying them gives the store back.
    pub proof fn lemma_reopen_same(&self)
        requires
            self.wf(),
        ensures
            ids_ascend(self.segs()),
            disk_of(self.segs()) == self.disk(),
            self.images() == seg_images(self.segs()),
            forall|a: int| 0 <= a < self.segs().len() ==> (#[trigger] self.segs()[a]).log.wf(),
            replay_all(self.images()) == Some(self@),
    {
        reveal(KvStore::wf);
        reveal(KvStore::wf_segs);
        let segs = self.segments@;
        lemma_disk_of(segs);
        assert(disk_of(segs) =~= self.disk@) by {
            assert forall|id: u32| #[trigger] self.disk@.contains_key(id) implies disk_of(segs).contains_key(id)
                && disk_of(segs)[id] == self.disk@[id] by {
                let b = choose|b: int| 0 <= b < segs.len() && (#[trigger] segs[b]).id == id;
            }
            assert forall|id: u32| #[trigger] disk_of(segs).contains_key(id) implies self.disk@.contains_key(
                id,
            ) by {
                let b = choose|b: int| 0 <= b < segs.len() && (#[trigger] segs[b]).id == id;
            }
        }
    }

    /// Restarting gives the same answers: `open` on any ascending listing of
    /// this store's data directory yields a store with the same contents.
    pub proof fn lemma_restart(
        &self,
        segments: Seq<Segment>,
        threshold: u64,
        r: Result<(KvStore, Vec<DiskOp>), KvError>,
    )
        requires
            self.wf(),
            ids_ascend(segments),
            disk_of(segments) == self.disk(),
            KvStore::opened(segments, threshold, r),
        ensures
            replay_all(seg_images(segments)) == Some(self@),
            match r {
                Ok((t, _)) => t@ == self@,
                Err(e) => e == KvError::LogFull,
            },
    {
        self.lemma_reopen_same();
        lemma_listing_unique(segments, self.segs());
    }

    /// What a compaction leaves: the active segment is `pre`'s plus two, and
    /// it is on disk and empty.
    pub proof fn lemma_compacted_layout(&self, pre: &KvStore)
        requires
            self.compacted_from(pre),
        ensures
            self.active_id() == pre.active_id() + 2,
            self.disk().contains_key(self.active_id()),
            self.disk()[self.active_id()].len() == 0,
            self.disk().contains_key((pre.active_id() + 1) as u32),
    {
    }

    /// When `set` and `remove` compact, in terms of the public views: the
    /// dead bytes plus what the write kills, against the threshold. An absent
    /// key has no record to kill.
    pub proof fn lemma_compaction_rule(&self, k: Seq<char>)
        requires
            self.wf(),
        ensures
            self.set_compacts(k) == (sat_add(self.dead_bytes(), self.live_record_len(k))
                > self.compaction_threshold()),
            self.dead_after_remove(k) == sat_add(
                sat_add(self.dead_bytes(), self.live_record_len(k)),
                encode(Record::Remove { key: k }).len() as int,
            ),
            !self@.contains_key(k) ==> self.live_record_len(k) == 0,
            self@.contains_key(k) ==> self.live_record_len(k) > 0,
    {
        reveal(KvStore::wf);
        reveal(KvStore::wf_index);
        if self@.contains_key(k) {
            let a = choose|a: int| 0 <= a < self.index@.len() && (#[trigger] self.index@[a]).key@ == k;
            self.lemma_live_record_len(k, a);
            let e = self.index@[a];
            assert(entry_ok(self.disk@, e, self.state@));
            lemma_parse_bounds(self.disk@[e.idx.file], e.idx.pos as int);
        } else {
            if exists|a: int| 0 <= a < self.index@.len() && self.index@[a].key@ == k {
                let a = choose|a: int| 0 <= a < self.index@.len() && self.index@[a].key@ == k;
                assert(self.state@.contains_key(k));
            }
        }
    }

    /// Segment ids never exceed the active one. Together with `later_than`,
    /// which `set`, `remove` and `compact` ensure, segment ids present on disk
    /// only grow and none is used twice.
    pub proof fn lemma_ids_up_to_active(&self)
        requires
            self.wf(),
        ensures
            forall|id: u32| #[trigger] self.disk().contains_key(id) ==> id <= self.active_id(),
            self.disk().contains_key(self.active_id()),
    {
        self.lemma_wf_segs();
        self.lemma_ids_below_active();
        reveal(KvStore::wf_segs);
        assert(self.disk@.contains_key(self.segments@[self.segments@.len() - 1].id));
    }

    /// A segment that appeared after `pre` has an id above every id `pre`
    /// had on disk.
    pub proof fn lemma_new_ids_above_old(&self, pre: &KvStore, id: u32, old_id: u32)
        requires
            pre.wf(),
            self.later_than(pre),
            self.disk().contains_key(id),
            !pre.disk().contains_key(id),
            pre.disk().contains_key(old_id),
        ensures
            old_id < id,
    {
        reveal(KvStore::later_than);
        pre.lemma_ids_up_to_active();
    }

    /// After a compaction the files hold no more than the live records and
    /// the new active segment: their sizes add up to the live bytes.
    pub proof fn lemma_compaction_frees(&self, pre: &KvStore)
        requires
            self.compacted_from(pre),
        ensures
            self.disk().dom() == set![(pre.active_id() + 1) as u32, (pre.active_id() + 2) as u32],
            self.disk()[(pre.active_id() + 1) as u32].len() + self.disk()[(
            pre.active_id() + 2) as u32].len() == self.live_bytes(),
    {
        assert(self.disk().dom() =~= set![(pre.active_id() + 1) as u32, (pre.active_id() + 2) as u32]);
    }
}

/// After `set(k, v)`, `get(k)` returns `v`, whatever the store held.
pub proof fn lemma_read_your_writes(m: Store, k: Seq<char>, v: Seq<char>)
    ensures
        m.insert(k, v).contains_key(k),
        m.insert(k, v)[k] == v,
{
}

/// The store after `set(keys[0], vals[0])`, `set(keys[1], vals[1])`, ...
/// in order, starting from `m`.
pub open spec fn after_sets(m: Store, keys: Seq<Seq<char>>, vals: Seq<Seq<char>>) -> Store
    decreases keys.len(),
{
    if keys.len() == 0 || keys.len() != vals.len() {
        m
    } else {
        after_sets(m, keys.drop_last(), vals.drop_last()).insert(keys.last(), vals.last())
    }
}

/// For any run of `set`s, `get(k)` afterwards returns the value of the last
/// `set` to `k`.
pub proof fn lemma_run_of_sets(m: Store, keys: Seq<Seq<char>>, vals: Seq<Seq<char>>, i: int)
    requires
        keys.len() == vals.len(),
        0 <= i < keys.len(),
        forall|j: int| i < j < keys.len() ==> keys[j] != keys[i],
    ensures
        after_sets(m, keys, vals).contains_key(keys[i]),
        after_sets(m, keys, vals)[keys[i]] == vals[i],
    decreases keys.len(),
{
    if i < keys.len() - 1 {
        let k2 = keys.drop_last();
        let v2 = vals.drop_last();
        assert forall|j: int| i < j < k2.len() implies k2[j] != k2[i] by {
            assert(k2[j] == keys[j]);
        }
        lemma_run_of_sets(m, k2, v2, i);
        assert(keys.last() != keys[i]);
    }
}

/// Of a run of `set`s, the last one to a key decides what `get` returns:
/// later `set`s to other keys leave it alone.
pub proof fn lemma_last_write_wins(m: Store, k: Seq<char>, v: Seq<char>, k2: Seq<char>, v2: Seq<char>)
    requires
        k2 != k,
    ensures
        m.insert(k, v).insert(k2, v2)[k] == v,
        m.insert(k, v).insert(k2, v2).contains_key(k),
{
}

/// After `set(k, v)` and `remove(k)`, `get(k)` finds nothing, and so a
/// second `remove(k)` fails with `KeyNotFound`.
pub proof fn lemma_set_then_remove(m: Store, k: Seq<char>, v: Seq<char>)
    ensures
        !m.insert(k, v).remove(k).contains_key(k),
{
}

} // verus!
