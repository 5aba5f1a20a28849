//! The storage engine: an in-memory index kept consistent with an in-memory
//! image of the append-only segment log.
//!
//! A [`KvStore`] owns the index, the sealed (read-only) segments and the one
//! active segment that accepts appends. Its well-formedness invariant says
//! that replaying every segment in ascending sequence-number order rebuilds
//! exactly the index — which is what makes reopening from the persisted
//! bytes safe. The store itself never touches a file: `open` takes a
//! directory listing as values, and the mutating operations hand back the
//! record bytes that the caller must append to the active segment file.

use vstd::prelude::*;
use vstd::slice::slice_to_vec;
use vstd::utf8::encode_utf8;

use crate::error::KvsError;
use crate::index::{assoc_map, Index};
use crate::protocol::{fits, spec_serialize, Command, CommandV};
use crate::segment::{
    apply_record, is_log_record, lemma_records_append, lemma_replay_cons, seg_records,
    spec_parse_name, spec_records, replay_records, Segment, SegmentFile,
};

verus! {

/// The (sequence number, record bytes) pair of each segment, in order.
pub open spec fn segs_entries(segs: Seq<Segment>) -> Seq<(u64, Seq<u8>)> {
    Seq::new(segs.len(), |i: int| (segs[i].seq, segs[i].data@))
}

/// The (sequence number, contents) pairs of the directory entries whose names
/// have the segment shape, in listing order.
pub open spec fn spec_entries(files: Seq<SegmentFile>) -> Seq<(u64, Seq<u8>)>
    decreases files.len(),
{
    if files.len() == 0 {
        Seq::empty()
    } else {
        let rest = spec_entries(files.drop_last());
        match spec_parse_name(files.last().name@) {
            Some(s) => rest.push((s, files.last().data@)),
            None => rest,
        }
    }
}

/// Entries in ascending sequence-number order.
pub open spec fn sorted_by_seq(entries: Seq<(u64, Seq<u8>)>) -> bool {
    forall|i: int, j: int|
        0 <= i < j < entries.len() ==> (#[trigger] entries[i]).0 <= (#[trigger] entries[j]).0
}

/// Stable insertion into an entry sequence sorted by sequence number: the new
/// entry goes behind every entry whose sequence number is no larger.
pub open spec fn spec_insert_entry(sorted: Seq<(u64, Seq<u8>)>, e: (u64, Seq<u8>)) -> Seq<
    (u64, Seq<u8>),
>
    decreases sorted.len(),
{
    if sorted.len() == 0 {
        seq![e]
    } else if sorted.last().0 <= e.0 {
        sorted.push(e)
    } else {
        spec_insert_entry(sorted.drop_last(), e).push(sorted.last())
    }
}

/// Stable insertion sort of the entries by sequence number.
pub open spec fn spec_sort_entries(entries: Seq<(u64, Seq<u8>)>) -> Seq<(u64, Seq<u8>)>
    decreases entries.len(),
{
    if entries.len() == 0 {
        Seq::empty()
    } else {
        spec_insert_entry(spec_sort_entries(entries.drop_last()), entries.last())
    }
}

/// The matching directory entries, sorted for replay.
pub open spec fn sorted_files_entries(files: Seq<SegmentFile>) -> Seq<(u64, Seq<u8>)> {
    spec_sort_entries(spec_entries(files))
}

/// Every segment parses as a record sequence.
pub open spec fn entries_parse(entries: Seq<(u64, Seq<u8>)>) -> bool {
    forall|i: int| 0 <= i < entries.len() ==> spec_records((#[trigger] entries[i]).1) is Some
}

/// Replay: each segment's records applied in order, oldest segment first.
pub open spec fn replay_entries(m: Map<Seq<char>, Seq<char>>, entries: Seq<(u64, Seq<u8>)>) -> Map<
    Seq<char>,
    Seq<char>,
>
    decreases entries.len(),
{
    if entries.len() == 0 {
        m
    } else {
        replay_records(replay_entries(m, entries.drop_last()), seg_records(entries.last().1))
    }
}

/// The bytes all segments take together.
pub open spec fn size_of_entries(entries: Seq<(u64, Seq<u8>)>) -> nat
    decreases entries.len(),
{
    if entries.len() == 0 {
        0
    } else {
        size_of_entries(entries.drop_last()) + entries.last().1.len()
    }
}

/// Every key and value of the map fits in one log record frame.
pub open spec fn map_bounded(m: Map<Seq<char>, Seq<char>>) -> bool {
    forall|k: Seq<char>|
        #[trigger] m.contains_key(k) ==> encode_utf8(k).len() + encode_utf8(m[k]).len() + 13
            <= u32::MAX
}

/// The bytes the one `SetEntry` record for this pair takes.
pub open spec fn pair_frame_size(p: (String, String)) -> nat {
    spec_serialize(CommandV::SetEntry(p.0@, p.1@)).len()
}

/// The bytes a compacted image of the index takes: one record per entry.
pub open spec fn index_weight(entries: Seq<(String, String)>) -> nat
    decreases entries.len(),
{
    if entries.len() == 0 {
        0
    } else {
        index_weight(entries.drop_last()) + pair_frame_size(entries.last())
    }
}

/// Dropping entry `i` drops exactly its record's bytes.
pub proof fn lemma_weight_remove(entries: Seq<(String, String)>, i: int)
    requires
        0 <= i < entries.len(),
    ensures
        index_weight(entries.remove(i)) + pair_frame_size(entries[i]) == index_weight(entries),
    decreases entries.len(),
{
    if i == entries.len() - 1 {
        assert(entries.remove(i) =~= entries.drop_last());
    } else {
        lemma_weight_remove(entries.drop_last(), i);
        assert(entries.remove(i).drop_last() =~= entries.drop_last().remove(i));
        assert(entries.remove(i).last() == entries.last());
    }
}

/// `Index::set` grows the compacted image by at most one record.
pub proof fn lemma_set_weight(
    before: Seq<(String, String)>,
    after: Seq<(String, String)>,
    key: String,
    value: String,
)
    requires
        crate::index::set_updates_entries(before, after, key, value),
    ensures
        index_weight(after) <= index_weight(before) + pair_frame_size((key, value)),
{
    if after == before.push((key, value)) {
        assert(before.push((key, value)).drop_last() =~= before);
    } else {
        let i = choose|i: int|
            0 <= i < before.len() && (#[trigger] before[i]).0@ == key@ && after == before.remove(
                i,
            ).push((key, value));
        lemma_weight_remove(before, i);
        assert(before.remove(i).push((key, value)).drop_last() =~= before.remove(i));
    }
}

/// `Index::remove` never grows the compacted image.
pub proof fn lemma_remove_weight(
    before: Seq<(String, String)>,
    after: Seq<(String, String)>,
    key: String,
)
    requires
        crate::index::remove_updates_entries(before, after, key),
    ensures
        index_weight(after) <= index_weight(before),
{
    if after != before {
        let i = choose|i: int|
            0 <= i < before.len() && (#[trigger] before[i]).0@ == key@ && after == before.remove(
                i,
            );
        lemma_weight_remove(before, i);
    }
}

/// One `SetEntry` record takes 13 bytes plus the encoded key and value.
pub proof fn lemma_pair_frame_size(key: String, value: String)
    ensures
        pair_frame_size((key, value)) == 13 + encode_utf8(key@).len() + encode_utf8(value@).len(),
{
    vstd::bytes::lemma_auto_spec_u32_to_from_le_bytes();
    crate::protocol::lemma_field_len(key@);
    crate::protocol::lemma_field_len(value@);
}

/// Where stable insertion puts the new entry: at the first position, counted
/// from the right, whose predecessors all have sequence numbers no larger.
pub proof fn lemma_insert_entry_at(sorted: Seq<(u64, Seq<u8>)>, e: (u64, Seq<u8>), j: int)
    requires
        0 <= j <= sorted.len(),
        forall|i: int| j <= i < sorted.len() ==> (#[trigger] sorted[i]).0 > e.0,
        j > 0 ==> sorted[j - 1].0 <= e.0,
    ensures
        spec_insert_entry(sorted, e) == sorted.take(j) + seq![e] + sorted.skip(j),
    decreases sorted.len(),
{
    if sorted.len() == 0 {
        assert(sorted.take(j) + seq![e] + sorted.skip(j) =~= seq![e]);
    } else if sorted.last().0 <= e.0 {
        assert(j == sorted.len());
        assert(sorted.take(j) + seq![e] + sorted.skip(j) =~= sorted.push(e));
    } else {
        assert(j < sorted.len());
        lemma_insert_entry_at(sorted.drop_last(), e, j);
        assert(spec_insert_entry(sorted, e) =~= sorted.take(j) + seq![e] + sorted.skip(j));
    }
}

/// Sorting entries that are already in order leaves them unchanged.
pub proof fn lemma_sort_of_sorted(entries: Seq<(u64, Seq<u8>)>)
    requires
        sorted_by_seq(entries),
    ensures
        spec_sort_entries(entries) == entries,
    decreases entries.len(),
{
    if entries.len() > 0 {
        lemma_sort_of_sorted(entries.drop_last());
        if entries.len() == 1 {
            assert(spec_sort_entries(entries) =~= entries);
        } else {
            assert(entries.drop_last().last().0 <= entries.last().0);
            assert(spec_sort_entries(entries) =~= entries);
        }
    }
}

/// The sequence number the next active segment gets: one past the newest
/// segment, or 1 for an empty directory.
pub open spec fn spec_next_seq(entries: Seq<(u64, Seq<u8>)>) -> int {
    if entries.len() == 0 {
        1
    } else {
        entries.last().0 + 1
    }
}

/// Replays one segment's records into the index. On a malformed segment
/// fails with `Encoding`; the index is then half-updated and the caller
/// discards it.
fn replay_segment(data: &Vec<u8>, idx: &mut Index) -> (r: Result<(), KvsError>)
    requires
        old(idx).wf(),
        map_bounded(old(idx)@),
    ensures
        final(idx).wf(),
        map_bounded(final(idx)@),
        match r {
            Ok(()) => spec_records(data@) is Some && final(idx)@ == replay_records(
                old(idx)@,
                seg_records(data@),
            ) && index_weight(final(idx).entries@) <= index_weight(old(idx).entries@)
                + data@.len(),
            Err(e) => spec_records(data@) is None && e == KvsError::Encoding,
        },
{
    let ghost m0 = idx@;
    let ghost e0 = idx.entries@;
    let len: usize = data.len();
    let mut o: usize = 0;
    proof {
        assert(data@.skip(0) =~= data@);
    }
    while o < len
        invariant
            o <= len,
            len == data@.len(),
            idx.wf(),
            map_bounded(idx@),
            spec_records(data@) is Some <==> spec_records(data@.skip(o as int)) is Some,
            spec_records(data@) is Some ==> replay_records(m0, seg_records(data@))
                == replay_records(idx@, seg_records(data@.skip(o as int))),
            index_weight(idx.entries@) <= index_weight(e0) + o,
        decreases len - o,
    {
        let ghost suffix = data@.skip(o as int);
        if len - o < 5 {
            return Err(KvsError::Encoding);
        }
        proof {
            assert(data@.subrange(o as int, o + 4) =~= suffix.subrange(0, 4));
        }
        let n32: u32 = crate::protocol::read_u32(data.as_slice(), o);
        let n: usize = n32 as usize;
        if n < 5 || n > len - o {
            return Err(KvsError::Encoding);
        }
        let frame: &[u8] = vstd::slice::slice_subrange(data.as_slice(), o, o + n);
        proof {
            assert(frame@ =~= suffix.subrange(0, n as int));
        }
        let ghost fr = suffix.subrange(0, n as int);
        let cmd = match Command::deserialize(frame) {
            Ok(cmd) => cmd,
            Err(_) => {
                return Err(KvsError::Encoding);
            },
        };
        let ghost idx_before = idx@;
        let ghost entries_before = idx.entries@;
        match cmd {
            Command::SetEntry(k, v) => {
                proof {
                    crate::protocol::lemma_deserialize_record_bounds(fr, k@, v@);
                }
                let ghost gk = k;
                let ghost gv = v;
                idx.set(k, v);
                proof {
                    lemma_set_weight(entries_before, idx.entries@, gk, gv);
                    lemma_pair_frame_size(gk, gv);
                }
            },
            Command::Remove(k) => {
                let _was_present: bool = idx.remove(&k);
                proof {
                    lemma_remove_weight(entries_before, idx.entries@, k);
                }
            },
            _ => {
                return Err(KvsError::Encoding);
            },
        }
        proof {
            let suffix2 = suffix.subrange(n as int, suffix.len() as int);
            assert(suffix2 =~= data@.skip(o + n));
            assert(spec_records(suffix) is Some <==> spec_records(suffix2) is Some);
            if spec_records(suffix) is Some {
                assert(seg_records(suffix) == seq![cmd@] + seg_records(suffix2));
                lemma_replay_cons(idx_before, cmd@, seg_records(suffix2));
                assert(replay_records(idx_before, seg_records(suffix)) == replay_records(
                    idx@,
                    seg_records(suffix2),
                ));
            }
        }
        o = o + n;
    }
    proof {
        assert(data@.skip(o as int) =~= Seq::<u8>::empty());
        assert(spec_records(Seq::<u8>::empty()) == Some(Seq::<CommandV>::empty()));
    }
    Ok(())
}

/// Inserts a segment into a run sorted by sequence number, behind every
/// segment whose sequence number is no larger.
fn insert_sorted(segs: &mut Vec<Segment>, e: Segment)
    ensures
        segs_entries(final(segs)@) == spec_insert_entry(
            segs_entries(old(segs)@),
            (e.seq, e.data@),
        ),
        sorted_by_seq(segs_entries(old(segs)@)) ==> sorted_by_seq(segs_entries(final(segs)@)),
        forall|x: int|
            0 <= x < final(segs)@.len() ==> (#[trigger] final(segs)@[x]).seq == e.seq || (exists|
                y: int,
            |
                0 <= y < old(segs)@.len() && final(segs)@[x].seq == old(segs)@[y].seq),
{
    let ghost before = segs_entries(segs@);
    let ghost entry = (e.seq, e.data@);
    let mut j: usize = segs.len();
    while j > 0 && segs[j - 1].seq > e.seq
        invariant
            j <= segs@.len(),
            forall|i: int| j <= i < segs@.len() ==> (#[trigger] segs@[i]).seq > e.seq,
        decreases j,
    {
        j = j - 1;
    }
    proof {
        lemma_insert_entry_at(before, entry, j as int);
    }
    let ghost jj = j as int;
    segs.insert(j, e);
    proof {
        assert(segs_entries(segs@) =~= before.take(jj) + seq![entry] + before.skip(jj));
        let after = segs_entries(segs@);
        assert forall|x: int| 0 <= x < after.len() implies after[x].0 == entry.0 || (exists|y: int|
            0 <= y < before.len() && after[x].0 == before[y].0) by {
            if x < jj {
                assert(after[x] == before[x]);
            } else if x > jj {
                assert(after[x] == before[x - 1]);
            }
        }
        if sorted_by_seq(before) {
            assert forall|a: int, b: int| 0 <= a < b < after.len() implies after[a].0
                <= after[b].0 by {
                if a < jj {
                    assert(after[a] == before[a]);
                } else if a > jj {
                    assert(after[a] == before[a - 1]);
                }
                if b < jj {
                    assert(after[b] == before[b]);
                } else if b > jj {
                    assert(after[b] == before[b - 1]);
                }
            }
        }
    }
}

/// The persistent key-value store: the in-memory index, the sealed segments
/// and the active segment that accepts appends, all as values. The caller
/// owns the backing directory and mirrors every change this type reports.
pub struct KvStore {
    pub index: Index,
    pub sealed: Vec<Segment>,
    pub active: Segment,
    pub threshold: u64,
}

impl View for KvStore {
    type V = Map<Seq<char>, Seq<char>>;

    open spec fn view(&self) -> Map<Seq<char>, Seq<char>> {
        self.index@
    }
}

impl KvStore {
    /// All segments, oldest first, the active one last.
    pub open spec fn entries(&self) -> Seq<(u64, Seq<u8>)> {
        segs_entries(self.sealed@) + seq![(self.active.seq, self.active.data@)]
    }

    /// The sum of all segment sizes: what the store occupies on disk.
    pub open spec fn total_size(&self) -> nat {
        size_of_entries(self.entries())
    }

    /// Well-formedness: the index has unique, frame-sized keys and values;
    /// the segments are ordered, the active one is newest and parseable; and
    /// replaying all segments in order rebuilds exactly the index.
    pub open spec fn wf(&self) -> bool {
        &&& self.index.wf()
        &&& map_bounded(self.index@)
        &&& sorted_by_seq(self.entries())
        &&& (forall|i: int|
            0 <= i < self.sealed@.len() ==> (#[trigger] self.sealed@[i]).seq < self.active.seq)
        &&& entries_parse(self.entries())
        &&& self.index@ == replay_entries(Map::empty(), self.entries())
        &&& index_weight(self.index.entries@) <= self.total_size()
        &&& self.threshold < u64::MAX
    }

    /// A copy of the value for `key`; nothing when the key is absent. A pure
    /// read of the index with no log effect.
    pub fn get(&self, key: String) -> (r: Option<String>)
        requires
            self.wf(),
        ensures
            match r {
                Some(v) => self@.contains_key(key@) && v@ == self@[key@],
                None => !self@.contains_key(key@),
            },
    {
        self.index.get(&key)
    }

    /// Inserts or overwrites the value for `key`, appending one `SetEntry`
    /// record to the active segment. Returns the appended record bytes; the
    /// caller must append exactly these bytes to the active segment file and
    /// flush it.
    pub fn set(&mut self, key: String, value: String) -> (rec: Vec<u8>)
        requires
            old(self).wf(),
            encode_utf8(key@).len() + encode_utf8(value@).len() + 13 <= u32::MAX,
        ensures
            final(self).wf(),
            final(self)@ == old(self)@.insert(key@, value@),
            rec@ == spec_serialize(CommandV::SetEntry(key@, value@)),
            final(self).active.data@ == old(self).active.data@ + rec@,
            final(self).active.seq == old(self).active.seq,
            final(self).sealed@ == old(self).sealed@,
            final(self).threshold == old(self).threshold,
    {
        let ghost before = *self;
        let ghost gkey = key;
        let ghost gvalue = value;
        let cmd = Command::SetEntry(key.clone(), value.clone());
        proof {
            crate::protocol::lemma_field_len(key@);
            crate::protocol::lemma_field_len(value@);
        }
        let rec = cmd.serialize();
        let mut copy = slice_to_vec(rec.as_slice());
        self.active.data.append(&mut copy);
        self.index.set(key, value);
        proof {
            lemma_set_weight(before.index.entries@, self.index.entries@, gkey, gvalue);
            assert(pair_frame_size((gkey, gvalue)) == rec@.len());
            self.lemma_after_append(before, cmd@, rec@);
        }
        rec
    }

    /// Deletes `key`, appending one `Remove` record to the active segment.
    /// On a present key returns the appended record bytes, which the caller
    /// must append to the active segment file and flush; on an absent key
    /// fails with `KeyNotFound` and changes nothing, on disk or in memory.
    pub fn remove(&mut self, key: String) -> (r: Result<Vec<u8>, KvsError>)
        requires
            old(self).wf(),
            encode_utf8(key@).len() + 9 <= u32::MAX,
        ensures
            final(self).wf(),
            r is Ok <==> old(self)@.contains_key(key@),
            r matches Ok(rec) ==> {
                &&& final(self)@ == old(self)@.remove(key@)
                &&& rec@ == spec_serialize(CommandV::Remove(key@))
                &&& final(self).active.data@ == old(self).active.data@ + rec@
                &&& final(self).active.seq == old(self).active.seq
                &&& final(self).sealed@ == old(self).sealed@
                &&& final(self).threshold == old(self).threshold
            },
            r matches Err(e) ==> e == KvsError::KeyNotFound && *final(self) == *old(self),
    {
        let ghost before = *self;
        let present = self.index.get(&key);
        if present.is_none() {
            return Err(KvsError::KeyNotFound);
        }
        let cmd = Command::Remove(key.clone());
        proof {
            crate::protocol::lemma_field_len(key@);
        }
        let rec = cmd.serialize();
        let mut copy = slice_to_vec(rec.as_slice());
        self.active.data.append(&mut copy);
        let _was_present: bool = self.index.remove(&key);
        proof {
            lemma_remove_weight(before.index.entries@, self.index.entries@, key);
            self.lemma_after_append(before, cmd@, rec@);
        }
        Ok(rec)
    }

    /// Opens a store from a directory listing: keeps the files whose names
    /// have the segment shape, replays them in ascending sequence-number
    /// order (ties in listing order), and begins a fresh, empty active
    /// segment under the next sequence number. Fails with `Encoding` exactly
    /// when some matching segment is malformed; no partial store is returned.
    pub fn open(files: Vec<SegmentFile>, threshold: u64) -> (r: Result<KvStore, KvsError>)
        requires
            forall|i: int|
                0 <= i < files@.len() ==> spec_parse_name((#[trigger] files@[i]).name@) != Some(
                    u64::MAX,
                ),
            threshold < u64::MAX,
        ensures
            r is Ok <==> entries_parse(sorted_files_entries(files@)),
            r matches Err(e) ==> e == KvsError::Encoding,
            r matches Ok(s) ==> {
                &&& s.wf()
                &&& s@ == replay_entries(Map::empty(), sorted_files_entries(files@))
                &&& segs_entries(s.sealed@) == sorted_files_entries(files@)
                &&& s.active.data@.len() == 0
                &&& s.active.seq == spec_next_seq(sorted_files_entries(files@))
                &&& s.threshold == threshold
            },
    {
        let files_len: usize = files.len();
        let mut segs: Vec<Segment> = Vec::new();
        let mut fi: usize = 0;
        proof {
            assert(spec_entries(files@.take(0)) =~= Seq::<(u64, Seq<u8>)>::empty());
            assert(segs_entries(segs@) =~= Seq::<(u64, Seq<u8>)>::empty());
        }
        while fi < files_len
            invariant
                fi <= files_len,
                files_len == files@.len(),
                forall|i: int|
                    0 <= i < files@.len() ==> spec_parse_name((#[trigger] files@[i]).name@)
                        != Some(u64::MAX),
                segs_entries(segs@) == spec_sort_entries(spec_entries(files@.take(fi as int))),
                sorted_by_seq(segs_entries(segs@)),
                forall|i: int| 0 <= i < segs@.len() ==> (#[trigger] segs@[i]).seq < u64::MAX,
            decreases files_len - fi,
        {
            let ghost prev_entries = spec_entries(files@.take(fi as int));
            let ghost prev_segs = segs@;
            let name_number = crate::segment::extract_log_number(&files[fi].name);
            proof {
                assert(files@.take(fi + 1).drop_last() =~= files@.take(fi as int));
                assert(files@.take(fi + 1).last() == files@[fi as int]);
            }
            match name_number {
                Some(s) => {
                    let seg = Segment {
                        seq: s,
                        data: slice_to_vec(files[fi].data.as_slice()),
                    };
                    insert_sorted(&mut segs, seg);
                    proof {
                        assert(spec_entries(files@.take(fi + 1)) == prev_entries.push(
                            (s, files@[fi as int].data@),
                        ));
                        assert(prev_entries.push((s, files@[fi as int].data@)).drop_last()
                            =~= prev_entries);
                        assert forall|x: int| 0 <= x < segs@.len() implies (#[trigger] segs@[x]).seq
                            < u64::MAX by {
                            if segs_entries(segs@)[x].0 != s {
                                let y = choose|y: int|
                                    0 <= y < prev_segs.len() && segs_entries(segs@)[x].0
                                        == prev_segs[y].seq;
                                assert(prev_segs[y].seq < u64::MAX);
                            }
                        }
                    }
                },
                None => {
                    proof {
                        assert(spec_entries(files@.take(fi + 1)) == prev_entries);
                    }
                },
            }
            fi = fi + 1;
        }
        proof {
            assert(files@.take(files_len as int) =~= files@);
        }
        let ghost sorted = segs_entries(segs@);
        let mut idx = Index::new();
        let segs_len: usize = segs.len();
        let mut si: usize = 0;
        proof {
            assert(sorted.take(0) =~= Seq::<(u64, Seq<u8>)>::empty());
            assert(index_weight(idx.entries@) == 0);
        }
        while si < segs_len
            invariant
                si <= segs_len,
                segs_len == segs@.len(),
                sorted == segs_entries(segs@),
                sorted == sorted_files_entries(files@),
                sorted_by_seq(sorted),
                forall|i: int| 0 <= i < segs@.len() ==> (#[trigger] segs@[i]).seq < u64::MAX,
                idx.wf(),
                map_bounded(idx@),
                entries_parse(sorted.take(si as int)),
                idx@ == replay_entries(Map::empty(), sorted.take(si as int)),
                index_weight(idx.entries@) <= size_of_entries(sorted.take(si as int)),
            decreases segs_len - si,
        {
            let ghost prefix = sorted.take(si as int);
            match replay_segment(&segs[si].data, &mut idx) {
                Ok(()) => {
                    proof {
                        assert(sorted.take(si + 1).drop_last() =~= prefix);
                        assert(sorted.take(si + 1).last() == sorted[si as int]);
                        assert(sorted[si as int].1 == segs@[si as int].data@);
                        assert(size_of_entries(sorted.take(si + 1)) == size_of_entries(prefix)
                            + sorted[si as int].1.len());
                        assert forall|i: int| 0 <= i < si + 1 implies spec_records(
                            (#[trigger] sorted.take(si + 1)[i]).1,
                        ) is Some by {
                            if i < si {
                                assert(sorted.take(si + 1)[i] == prefix[i]);
                                assert(spec_records(prefix[i].1) is Some);
                            }
                        }
                    }
                },
                Err(_) => {
                    proof {
                        assert(sorted[si as int].1 == segs@[si as int].data@);
                        assert(!entries_parse(sorted));
                    }
                    return Err(KvsError::Encoding);
                },
            }
            si = si + 1;
        }
        proof {
            assert(sorted.take(segs_len as int) =~= sorted);
        }
        let next: u64 = if segs_len == 0 {
            1
        } else {
            segs[segs_len - 1].seq + 1
        };
        let store = KvStore {
            index: idx,
            sealed: segs,
            active: Segment { seq: next, data: Vec::new() },
            threshold,
        };
        proof {
            let entries = store.entries();
            assert(entries.drop_last() =~= sorted);
            assert(entries.last() == (next, Seq::<u8>::empty()));
            assert(spec_records(Seq::<u8>::empty()) == Some(Seq::<CommandV>::empty()));
            assert forall|i: int, j: int| 0 <= i < j < entries.len() implies (#[trigger]
            entries[i]).0 <= (#[trigger] entries[j]).0 by {
                if j < entries.len() - 1 {
                    assert(entries[i] == sorted[i] && entries[j] == sorted[j]);
                } else if i < entries.len() - 1 {
                    assert(entries[i] == sorted[i]);
                    assert(sorted[i].0 <= sorted[sorted.len() - 1].0);
                }
            }
            assert forall|i: int| 0 <= i < entries.len() implies spec_records(
                (#[trigger] entries[i]).1,
            ) is Some by {
                if i < entries.len() - 1 {
                    assert(entries[i] == sorted[i]);
                }
            }
            assert(seg_records(Seq::<u8>::empty()) == Seq::<CommandV>::empty());
            assert(replay_records(idx@, Seq::<CommandV>::empty()) == idx@);
            assert forall|i: int| 0 <= i < store.sealed@.len() implies (#[trigger]
            store.sealed@[i]).seq < store.active.seq by {
                assert(sorted[i].0 <= sorted[sorted.len() - 1].0);
            }
            assert(store.total_size() == size_of_entries(sorted));
            assert(store.wf());
        }
        Ok(store)
    }

    /// The persisted image of the store: one directory entry per segment,
    /// each under its canonical file name, the active segment last. Writing
    /// exactly these files is what keeps the backing directory in step.
    pub fn snapshot(&self) -> (r: Vec<SegmentFile>)
        ensures
            spec_entries(r@) == self.entries(),
            r@.len() == self.sealed@.len() + 1,
            forall|i: int|
                0 <= i < r@.len() ==> (#[trigger] r@[i]).name@ == crate::segment::spec_segment_name(
                    self.entries()[i].0,
                ) && r@[i].data@ == self.entries()[i].1,
    {
        let mut r: Vec<SegmentFile> = Vec::new();
        let n: usize = self.sealed.len();
        let mut i: usize = 0;
        proof {
            assert(spec_entries(r@) =~= segs_entries(self.sealed@).take(0));
        }
        while i < n
            invariant
                i <= n,
                n == self.sealed@.len(),
                r@.len() == i,
                spec_entries(r@) == segs_entries(self.sealed@).take(i as int),
                forall|k: int|
                    0 <= k < i ==> (#[trigger] r@[k]).name@ == crate::segment::spec_segment_name(
                        self.sealed@[k].seq,
                    ) && r@[k].data@ == self.sealed@[k].data@,
            decreases n - i,
        {
            let ghost prev = r@;
            let name = crate::segment::segment_file_name(self.sealed[i].seq);
            let data = slice_to_vec(self.sealed[i].data.as_slice());
            r.push(SegmentFile { name, data });
            proof {
                crate::segment::lemma_name_roundtrip(self.sealed@[i as int].seq);
                assert(r@.drop_last() =~= prev);
                assert(segs_entries(self.sealed@).take(i + 1).drop_last() =~= segs_entries(
                    self.sealed@,
                ).take(i as int));
                assert(spec_entries(r@) =~= segs_entries(self.sealed@).take(i + 1));
            }
            i = i + 1;
        }
        let ghost prev = r@;
        let name = crate::segment::segment_file_name(self.active.seq);
        let data = slice_to_vec(self.active.data.as_slice());
        r.push(SegmentFile { name, data });
        proof {
            crate::segment::lemma_name_roundtrip(self.active.seq);
            assert(r@.drop_last() =~= prev);
            assert(segs_entries(self.sealed@).take(n as int) =~= segs_entries(self.sealed@));
            assert(spec_entries(r@) =~= self.entries());
        }
        r
    }

    /// Compaction: replaces every segment with one new segment that holds
    /// exactly one `SetEntry` record per live key with its current value,
    /// then begins a fresh, empty active segment. The index — and so every
    /// `get` — is unchanged, and the segments never take more bytes than they
    /// did before. The caller must write the two new segment files durably
    /// before deleting the old ones.
    pub fn compact(&mut self)
        requires
            old(self).wf(),
            old(self).active.seq + 2 <= u64::MAX,
        ensures
            final(self).wf(),
            final(self)@ == old(self)@,
            final(self).total_size() <= old(self).total_size(),
            final(self).sealed@.len() == 1,
            final(self).sealed@[0].seq == old(self).active.seq + 1,
            replay_records(Map::empty(), seg_records(final(self).sealed@[0].data@)) == old(
                self,
            )@,
            final(self).active.seq == old(self).active.seq + 2,
            final(self).active.data@.len() == 0,
            final(self).threshold == old(self).threshold,
    {
        let mut data: Vec<u8> = Vec::new();
        let n: usize = self.index.len();
        let mut i: usize = 0;
        proof {
            assert(spec_records(data@) == Some(Seq::<CommandV>::empty()));
            assert(self.index.entries@.take(0) =~= Seq::<(String, String)>::empty());
            assert(assoc_map(self.index.entries@.take(0)) =~= Map::<Seq<char>, Seq<char>>::empty());
            assert(index_weight(self.index.entries@.take(0)) == 0);
        }
        while i < n
            invariant
                i <= n,
                n == self.index.entries@.len(),
                self.index.wf(),
                map_bounded(self.index@),
                spec_records(data@) is Some,
                replay_records(Map::empty(), seg_records(data@)) == assoc_map(
                    self.index.entries@.take(i as int),
                ),
                data@.len() == index_weight(self.index.entries@.take(i as int)),
            decreases n - i,
        {
            let k = self.index.entries[i].0.clone();
            let v = self.index.entries[i].1.clone();
            proof {
                crate::index::lemma_assoc_value(self.index.entries@, i as int);
                crate::protocol::lemma_field_len(k@);
                crate::protocol::lemma_field_len(v@);
            }
            let cmd = Command::SetEntry(k, v);
            let rec = cmd.serialize();
            let mut copy = slice_to_vec(rec.as_slice());
            let ghost prev = data@;
            let ghost prev_records = seg_records(data@);
            data.append(&mut copy);
            proof {
                lemma_records_append(prev, cmd@);
                assert(prev_records.push(cmd@).drop_last() =~= prev_records);
                assert(self.index.entries@.take(i + 1).drop_last() =~= self.index.entries@.take(
                    i as int,
                ));
                assert(self.index.entries@.take(i + 1).last() == self.index.entries@[i as int]);
                assert(rec@.len() == pair_frame_size(self.index.entries@[i as int]));
                assert(index_weight(self.index.entries@.take(i + 1)) == index_weight(
                    self.index.entries@.take(i as int),
                ) + pair_frame_size(self.index.entries@[i as int]));
            }
            i = i + 1;
        }
        proof {
            assert(self.index.entries@.take(n as int) =~= self.index.entries@);
        }
        let compacted_seq: u64 = self.active.seq + 1;
        let next_seq: u64 = self.active.seq + 2;
        let mut sealed: Vec<Segment> = Vec::new();
        sealed.push(Segment { seq: compacted_seq, data });
        self.sealed = sealed;
        self.active = Segment { seq: next_seq, data: Vec::new() };
        proof {
            let entries = self.entries();
            assert(entries.len() == 2);
            assert(entries[0] == (compacted_seq, self.sealed@[0].data@));
            assert(entries[1] == (next_seq, Seq::<u8>::empty()));
            assert(spec_records(Seq::<u8>::empty()) == Some(Seq::<CommandV>::empty()));
            assert(entries.drop_last() =~= seq![entries[0]]);
            assert(seq![entries[0]].drop_last() =~= Seq::<(u64, Seq<u8>)>::empty());
            assert(replay_entries(Map::empty(), Seq::<(u64, Seq<u8>)>::empty())
                == Map::<Seq<char>, Seq<char>>::empty());
            assert(replay_entries(Map::empty(), seq![entries[0]]) == replay_records(
                Map::empty(),
                seg_records(entries[0].1),
            ));
            assert(entries[0].1 == self.sealed@[0].data@);
            assert(replay_entries(Map::empty(), entries.drop_last()) == replay_records(
                Map::empty(),
                seg_records(self.sealed@[0].data@),
            ));
            assert(seg_records(Seq::<u8>::empty()) == Seq::<CommandV>::empty());
            assert(replay_entries(Map::empty(), entries) == self.index@);
            assert(size_of_entries(Seq::<(u64, Seq<u8>)>::empty()) == 0);
            assert(size_of_entries(seq![entries[0]]) == entries[0].1.len());
            assert(size_of_entries(entries.drop_last()) == self.sealed@[0].data@.len());
            assert(self.total_size() == index_weight(self.index.entries@));
        }
    }

    /// The total size of all segments, saturating at `u64::MAX`.
    pub fn log_size(&self) -> (r: u64)
        ensures
            r as nat <= self.total_size(),
            r < u64::MAX ==> r as nat == self.total_size(),
    {
        let n: usize = self.sealed.len();
        let mut acc: u64 = 0;
        let mut i: usize = 0;
        let ghost sealed_entries = segs_entries(self.sealed@);
        proof {
            assert(sealed_entries.take(0) =~= Seq::<(u64, Seq<u8>)>::empty());
        }
        while i < n
            invariant
                i <= n,
                n == self.sealed@.len(),
                sealed_entries == segs_entries(self.sealed@),
                acc as nat <= size_of_entries(sealed_entries.take(i as int)),
                acc < u64::MAX ==> acc as nat == size_of_entries(sealed_entries.take(i as int)),
            decreases n - i,
        {
            let l: u64 = self.sealed[i].data.len() as u64;
            proof {
                assert(sealed_entries.take(i + 1).drop_last() =~= sealed_entries.take(i as int));
                assert(sealed_entries.take(i + 1).last() == sealed_entries[i as int]);
            }
            if l > u64::MAX - acc {
                acc = u64::MAX;
            } else {
                acc = acc + l;
            }
            i = i + 1;
        }
        proof {
            assert(sealed_entries.take(n as int) =~= sealed_entries);
            assert(self.entries().drop_last() =~= sealed_entries);
            assert(self.entries().last() == (self.active.seq, self.active.data@));
        }
        let l: u64 = self.active.data.len() as u64;
        if l > u64::MAX - acc {
            u64::MAX
        } else {
            acc + l
        }
    }

    /// Whether the segments have outgrown the compaction threshold.
    pub fn needs_compaction(&self) -> (r: bool)
        requires
            self.wf(),
        ensures
            r == (self.total_size() > self.threshold),
    {
        let size = self.log_size();
        size > self.threshold
    }

    /// After appending one record frame to the active segment and applying
    /// the same record to the index, the store is well-formed again.
    proof fn lemma_after_append(self, before: KvStore, c: CommandV, rec: Seq<u8>)
        requires
            before.wf(),
            is_log_record(c),
            fits(c),
            rec == spec_serialize(c),
            self.index.wf(),
            self.index@ == apply_record(before.index@, c),
            map_bounded(self.index@),
            index_weight(self.index.entries@) <= index_weight(before.index.entries@) + rec.len(),
            self.sealed@ == before.sealed@,
            self.active.seq == before.active.seq,
            self.active.data@ == before.active.data@ + rec,
            self.threshold == before.threshold,
        ensures
            self.wf(),
    {
        let old_entries = before.entries();
        let new_entries = self.entries();
        assert(old_entries.len() == new_entries.len());
        assert(new_entries.drop_last() =~= old_entries.drop_last());
        assert(forall|i: int|
            0 <= i < new_entries.len() - 1 ==> new_entries[i] == old_entries[i]);
        assert(new_entries.last().0 == old_entries.last().0);
        assert(old_entries[old_entries.len() - 1].1 == before.active.data@);
        lemma_records_append(before.active.data@, c);
        assert(entries_parse(new_entries));
        assert(replay_entries(Map::empty(), new_entries.drop_last()) == replay_entries(
            Map::empty(),
            old_entries.drop_last(),
        ));
        let base = replay_entries(Map::empty(), old_entries.drop_last());
        let old_records = seg_records(before.active.data@);
        assert(seg_records(self.active.data@) == old_records.push(c));
        assert(old_records.push(c).drop_last() =~= old_records);
        assert(replay_records(base, old_records.push(c)) == apply_record(
            replay_records(base, old_records),
            c,
        ));
        assert(replay_entries(Map::empty(), new_entries) == apply_record(before.index@, c));
        assert(size_of_entries(new_entries.drop_last()) == size_of_entries(
            old_entries.drop_last(),
        ));
        assert(self.total_size() == before.total_size() + rec.len());
    }
}

/// Durability: a snapshot of a well-formed store reopens successfully and
/// replays to exactly the store's index. `snapshot` ensures the hypothesis;
/// `open` turns the conclusion into the index of the reopened store.
pub proof fn lemma_snapshot_replay(s: KvStore, files: Seq<SegmentFile>)
    requires
        s.wf(),
        spec_entries(files) == s.entries(),
    ensures
        entries_parse(sorted_files_entries(files)),
        replay_entries(Map::empty(), sorted_files_entries(files)) == s@,
{
    lemma_sort_of_sorted(s.entries());
}

/// Setting a key then reading it yields the value just written: `set` makes
/// the store's view `m.insert(k, v)`, and `get` reads that view.
pub proof fn lemma_set_then_get(m: Map<Seq<char>, Seq<char>>, k: Seq<char>, v: Seq<char>)
    ensures
        m.insert(k, v).contains_key(k),
        m.insert(k, v)[k] == v,
{
}

/// Removing a key then reading it yields nothing: `remove` on a present key
/// makes the store's view `m.remove(k)`, and `get` reads that view. (On an
/// absent key, `remove`'s contract already says the store is unchanged and
/// the result is `KeyNotFound`.)
pub proof fn lemma_remove_then_get(m: Map<Seq<char>, Seq<char>>, k: Seq<char>)
    ensures
        !m.remove(k).contains_key(k),
{
}

/// Last write wins: two sets of one key leave the second value in the view,
/// and — through `lemma_snapshot_replay` — also in any store reopened from a
/// snapshot taken afterwards.
pub proof fn lemma_last_write_wins(
    m: Map<Seq<char>, Seq<char>>,
    k: Seq<char>,
    v1: Seq<char>,
    v2: Seq<char>,
)
    ensures
        m.insert(k, v1).insert(k, v2).contains_key(k),
        m.insert(k, v1).insert(k, v2)[k] == v2,
{
}

} // verus!
