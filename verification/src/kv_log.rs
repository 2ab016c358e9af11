//! The log-structured storage engine: segments of serialized records, the
//! replay that rebuilds the index from them, the write and read paths, the
//! rotation policy, and the compactor that keeps disk growth bounded.

use vstd::prelude::*;
use crate::codec::{
    Command, CommandV, cmd_fits, str_fits, str_byte_len, spec_serialize, spec_deserialize,
    spec_deserialize_str, serialize, deserialize, deserialize_str, get_value_offset,
    lemma_deserialize_at, lemma_deserialize_extend, lemma_serialize_len, lemma_parse_cmd_props,
    spec_value_offset,
    lemma_parse_then_serialize, spec_record_len,
};
use crate::errors::KvError;
use crate::index::{
    KvStorePosition, index_entries, index_new, index_get, index_insert, index_remove, index_clear,
    index_len, replace_if_position_matches,
};

verus! {

/// The cap on a segment file's size in bytes. A single record larger than
/// this is rejected, and the writer rotates to a fresh segment rather than
/// let a segment grow past it.
pub const MAX_SEGMENT_SIZE: u64 = 4_000_000;

/// The segment index used when the store holds no segments yet.
pub const DEFAULT_FILE_IDX: usize = 1;

/// One segment of the log: the integer suffix of its file name and the full
/// bytes of the file.
pub struct Segment {
    pub file_idx: usize,
    pub data: Vec<u8>,
}

/// What replay records about one live key: the segment its value lives in,
/// the byte offset of the value's length prefix inside that segment, and the
/// value itself.
pub struct LiveEntry {
    pub file_idx: int,
    pub offset: int,
    pub value: Seq<char>,
}

/// The effect of one record on the replayed state. A `Put` points the key at
/// the value bytes inside its own record; a `Remove` deletes the key. The
/// wire-only commands never appear in a segment file, so replay refuses them.
pub open spec fn apply_record(
    m: Map<Seq<char>, LiveEntry>,
    fidx: int,
    pos: int,
    c: CommandV,
) -> Option<Map<Seq<char>, LiveEntry>> {
    match c {
        CommandV::Put { key, value } => Some(
            m.insert(
                key,
                LiveEntry { file_idx: fidx, offset: pos + 5 + str_byte_len(key), value },
            ),
        ),
        CommandV::Remove { key } => Some(m.remove(key)),
        CommandV::Get { .. } => None,
        CommandV::Reset => None,
    }
}

/// Replays the records of one segment's bytes from `pos` onward, starting
/// from the accumulated state `m`; `None` when a record is corrupt.
pub open spec fn replay_data(
    data: Seq<u8>,
    fidx: int,
    pos: int,
    m: Map<Seq<char>, LiveEntry>,
) -> Option<Map<Seq<char>, LiveEntry>>
    decreases data.len() - pos,
{
    if pos == data.len() {
        Some(m)
    } else if pos < 0 || pos > data.len() {
        None
    } else {
        match spec_deserialize(data, pos) {
            Some(p) => {
                if pos < p.1 <= data.len() {
                    match apply_record(m, fidx, pos, p.0) {
                        Some(m2) => replay_data(data, fidx, p.1, m2),
                        None => None,
                    }
                } else {
                    None
                }
            },
            None => None,
        }
    }
}

/// Replays the segments from position `i` of the list onward, in order.
pub open spec fn replay_segments(
    segs: Seq<Segment>,
    i: int,
    m: Map<Seq<char>, LiveEntry>,
) -> Option<Map<Seq<char>, LiveEntry>>
    decreases segs.len() - i,
{
    if i >= segs.len() {
        Some(m)
    } else if i < 0 {
        None
    } else {
        match replay_data(segs[i].data@, segs[i].file_idx as int, 0, m) {
            Some(m2) => replay_segments(segs, i + 1, m2),
            None => None,
        }
    }
}

/// The empty replay state.
pub open spec fn empty_live() -> Map<Seq<char>, LiveEntry> {
    Map::empty()
}

/// The record chain of a segment's bytes reaches `target` from `pos`:
/// storage records parse back to back until `target` is the next position.
pub open spec fn parse_reaches(data: Seq<u8>, pos: int, target: int) -> bool
    decreases data.len() - pos,
{
    if pos == target {
        true
    } else if pos < 0 || pos >= data.len() || target < pos {
        false
    } else {
        match spec_deserialize(data, pos) {
            Some(p) => (p.0 is Put || p.0 is Remove) && pos < p.1 <= data.len() && p.1 <= target
                && parse_reaches(data, p.1, target),
            None => false,
        }
    }
}

/// No storage record starts at `offset`: the parse fails there, or yields a
/// wire-only command, which never appears in a segment file.
pub open spec fn fails_at(data: Seq<u8>, offset: int) -> bool {
    &&& 0 <= offset < data.len()
    &&& match spec_deserialize(data, offset) {
        Some(p) => !(p.0 is Put || p.0 is Remove),
        None => true,
    }
}

/// A segment's bytes replay cleanly: the record chain spans the whole file.
pub open spec fn seg_clean(data: Seq<u8>) -> bool {
    parse_reaches(data, 0, data.len() as int)
}

/// The log is corrupt exactly at `(file_idx, offset)`: every earlier
/// segment replays cleanly, and in the named segment the record chain
/// reaches `offset`, where no storage record starts.
pub open spec fn corrupt_at(segs: Seq<Segment>, file_idx: usize, offset: int) -> bool {
    exists|i: int|
        {
            &&& 0 <= i < segs.len()
            &&& (#[trigger] segs[i]).file_idx == file_idx
            &&& (forall|t: int| 0 <= t < i ==> seg_clean(segs[t].data@))
            &&& parse_reaches(segs[i].data@, 0, offset)
            &&& fails_at(segs[i].data@, offset)
        }
}

/// The number of records the chain holds from `pos` to the end of the
/// segment's bytes; meaningful only where the bytes replay cleanly.
pub open spec fn records_from(data: Seq<u8>, pos: int) -> int
    decreases data.len() - pos,
{
    if pos == data.len() {
        0
    } else if pos < 0 || pos > data.len() {
        0
    } else {
        match spec_deserialize(data, pos) {
            Some(p) => if pos < p.1 <= data.len() {
                1 + records_from(data, p.1)
            } else {
                0
            },
            None => 0,
        }
    }
}

/// A segment with records replays to at least one live key or tombstone:
/// its last record leaves one or the other behind.
pub proof fn lemma_replay_full_nonempty(
    data: Seq<u8>,
    fidx: int,
    pos: int,
    a0: Map<Seq<char>, LiveEntry>,
    t0: Map<Seq<char>, int>,
)
    requires
        0 <= pos < data.len(),
        replay_full(data, fidx, pos, a0, t0) is Some,
    ensures
        ({
            let r = replay_full(data, fidx, pos, a0, t0).unwrap();
            r.0.dom() != Set::<Seq<char>>::empty() || r.1.dom() != Set::<Seq<char>>::empty()
        }),
    decreases data.len() - pos,
{
    lemma_parse_cmd_props(data, pos);
    let p = spec_deserialize(data, pos).unwrap();
    let r = replay_full(data, fidx, pos, a0, t0).unwrap();
    match p.0 {
        CommandV::Put { key, value } => {
            let e = LiveEntry { file_idx: fidx, offset: pos + 5 + str_byte_len(key), value };
            if p.1 == data.len() {
                assert(replay_full(data, fidx, p.1, a0.insert(key, e), t0.remove(key)) == Some(
                    (a0.insert(key, e), t0.remove(key)),
                ));
                assert(r.0.dom().contains(key));
            } else {
                lemma_replay_full_nonempty(data, fidx, p.1, a0.insert(key, e), t0.remove(key));
            }
        },
        CommandV::Remove { key } => {
            if p.1 == data.len() {
                assert(replay_full(data, fidx, p.1, a0.remove(key), t0.insert(key, pos)) == Some(
                    (a0.remove(key), t0.insert(key, pos)),
                ));
                assert(r.1.dom().contains(key));
            } else {
                lemma_replay_full_nonempty(data, fidx, p.1, a0.remove(key), t0.insert(key, pos));
            }
        },
        _ => {},
    }
}

/// Record chains compose: one that reaches `b` from `a` and one that
/// reaches `c` from `b` make one that reaches `c` from `a`.
pub proof fn lemma_parse_reaches_trans(data: Seq<u8>, a: int, b: int, c: int)
    requires
        parse_reaches(data, a, b),
        parse_reaches(data, b, c),
    ensures
        parse_reaches(data, a, c),
    decreases data.len() - a,
{
    if a == b {
    } else {
        let p = spec_deserialize(data, a).unwrap();
        lemma_parse_reaches_trans(data, p.1, b, c);
    }
}

/// The position in the segment list holding index `fidx`, or -1 when absent.
pub open spec fn find_seg(segs: Seq<Segment>, fidx: int) -> int
    decreases segs.len(),
{
    if segs.len() == 0 {
        -1
    } else if segs.last().file_idx == fidx {
        segs.len() - 1
    } else {
        find_seg(segs.drop_last(), fidx)
    }
}

/// Segment indices strictly increase along the list.
pub open spec fn sorted_idxs(segs: Seq<Segment>) -> bool {
    forall|i: int, j: int|
        0 <= i < j < segs.len() ==> segs[i].file_idx < segs[j].file_idx
}

/// In a sorted list, `find_seg` locates exactly the position that holds the
/// index searched for.
pub proof fn lemma_find_seg(segs: Seq<Segment>, fidx: int)
    requires
        sorted_idxs(segs),
    ensures
        ({
            let j = find_seg(segs, fidx);
            &&& -1 <= j < segs.len()
            &&& j >= 0 ==> segs[j].file_idx == fidx
            &&& j == -1 ==> forall|t: int| 0 <= t < segs.len() ==> segs[t].file_idx != fidx
        }),
    decreases segs.len(),
{
    if segs.len() > 0 && segs.last().file_idx != fidx {
        assert(sorted_idxs(segs.drop_last())) by {
            assert forall|i: int, j: int|
                0 <= i < j < segs.drop_last().len() implies segs.drop_last()[i].file_idx
                < segs.drop_last()[j].file_idx by {
                assert(segs.drop_last()[i] == segs[i]);
                assert(segs.drop_last()[j] == segs[j]);
            }
        }
        lemma_find_seg(segs.drop_last(), fidx);
        let j = find_seg(segs, fidx);
        if j >= 0 {
            assert(segs.drop_last()[j] == segs[j]);
        } else {
            assert forall|t: int| 0 <= t < segs.len() implies segs[t].file_idx != fidx by {
                if t < segs.len() - 1 {
                    assert(segs.drop_last()[t] == segs[t]);
                }
            }
        }
    }
}

/// In a sorted list, the position holding a given index is unique, so
/// `find_seg` returns the position of any element carrying that index.
pub proof fn lemma_find_seg_at(segs: Seq<Segment>, j: int)
    requires
        sorted_idxs(segs),
        0 <= j < segs.len(),
    ensures
        find_seg(segs, segs[j].file_idx as int) == j,
{
    lemma_find_seg(segs, segs[j].file_idx as int);
    let r = find_seg(segs, segs[j].file_idx as int);
    if r < j {
        assert(segs[r].file_idx < segs[j].file_idx);
    }
    if r > j {
        assert(segs[j].file_idx < segs[r].file_idx);
    }
}

/// One live entry is well placed: its segment exists in the list, and the
/// value's length prefix parses at the recorded offset to the recorded value.
pub open spec fn entry_ok(e: LiveEntry, segs: Seq<Segment>) -> bool {
    let j = find_seg(segs, e.file_idx);
    &&& 0 <= j < segs.len()
    &&& 0 <= e.offset
    &&& spec_deserialize_str(segs[j].data@, e.offset) is Some
    &&& spec_deserialize_str(segs[j].data@, e.offset).unwrap().0 == e.value
}

/// Every live entry of `m` is well placed in the segment list.
pub open spec fn entries_resolve(m: Map<Seq<char>, LiveEntry>, segs: Seq<Segment>) -> bool {
    forall|k: Seq<char>| #[trigger] m.dom().contains(k) ==> entry_ok(m[k], segs)
}

/// Every live entry of `m` lies in a segment whose index is at most `bound`
/// and is placed at a bounded offset with a string that fits the format.
pub open spec fn entries_bounded(m: Map<Seq<char>, LiveEntry>, bound: int) -> bool {
    forall|k: Seq<char>| #[trigger] m.dom().contains(k) ==> {
        &&& 1 <= m[k].file_idx <= bound
        &&& 5 + str_byte_len(k) <= m[k].offset <= MAX_SEGMENT_SIZE
        &&& str_fits(m[k].value)
        &&& str_fits(k)
    }
}

/// Appending one serialized record to a segment's bytes extends its replay
/// by exactly that record's effect.
pub proof fn lemma_replay_data_snoc(
    data: Seq<u8>,
    fidx: int,
    pos: int,
    m: Map<Seq<char>, LiveEntry>,
    c: CommandV,
)
    requires
        0 <= pos <= data.len(),
        replay_data(data, fidx, pos, m) is Some,
        cmd_fits(c),
        c is Put || c is Remove,
    ensures
        replay_data(data + spec_serialize(c), fidx, pos, m) == apply_record(
            replay_data(data, fidx, pos, m).unwrap(),
            fidx,
            data.len() as int,
            c,
        ),
    decreases data.len() - pos,
{
    let data2 = data + spec_serialize(c);
    lemma_serialize_len(c);
    if pos == data.len() {
        lemma_deserialize_at(data, c, Seq::<u8>::empty());
        assert(data + spec_serialize(c) + Seq::<u8>::empty() =~= data2);
        let m2 = apply_record(m, fidx, pos, c).unwrap();
        assert(replay_data(data2, fidx, data2.len() as int, m2) == Some(m2));
    } else {
        lemma_deserialize_extend(data, spec_serialize(c), pos);
        lemma_parse_cmd_props(data, pos);
        let p = spec_deserialize(data, pos).unwrap();
        let m2 = apply_record(m, fidx, pos, p.0).unwrap();
        lemma_replay_data_snoc(data, fidx, p.1, m2, c);
    }
}

/// Replaying a segment keeps every live entry well placed and bounded, when
/// the segment being replayed stands in the list with these very bytes.
pub proof fn lemma_replay_data_resolve(
    data: Seq<u8>,
    fidx: int,
    pos: int,
    m: Map<Seq<char>, LiveEntry>,
    segs: Seq<Segment>,
    bound: int,
)
    requires
        0 <= pos <= data.len(),
        replay_data(data, fidx, pos, m) is Some,
        sorted_idxs(segs),
        ({
            let j = find_seg(segs, fidx);
            0 <= j < segs.len() && segs[j].data@ == data
        }),
        entries_resolve(m, segs),
        entries_bounded(m, bound),
        1 <= fidx <= bound,
        data.len() <= MAX_SEGMENT_SIZE,
    ensures
        entries_resolve(replay_data(data, fidx, pos, m).unwrap(), segs),
        entries_bounded(replay_data(data, fidx, pos, m).unwrap(), bound),
    decreases data.len() - pos,
{
    if pos == data.len() {
    } else {
        lemma_parse_cmd_props(data, pos);
        let p = spec_deserialize(data, pos).unwrap();
        let m2 = apply_record(m, fidx, pos, p.0).unwrap();
        match p.0 {
            CommandV::Put { key, value } => {
                let e = LiveEntry {
                    file_idx: fidx,
                    offset: pos + 5 + str_byte_len(key),
                    value,
                };
                assert(entry_ok(e, segs));
                assert forall|k2: Seq<char>| #[trigger] m2.dom().contains(k2) implies entry_ok(
                    m2[k2],
                    segs,
                ) by {
                    if k2 != key {
                        assert(m.dom().contains(k2));
                    }
                }
            },
            CommandV::Remove { key } => {
                assert forall|k2: Seq<char>| #[trigger] m2.dom().contains(k2) implies entry_ok(
                    m2[k2],
                    segs,
                ) by {
                    assert(m.dom().contains(k2));
                }
            },
            _ => {},
        }
        lemma_replay_data_resolve(data, fidx, p.1, m2, segs, bound);
    }
}

/// Replaying a list of well-formed segments keeps every live entry well
/// placed and bounded.
pub proof fn lemma_replay_segments_resolve(
    segs: Seq<Segment>,
    i: int,
    m: Map<Seq<char>, LiveEntry>,
    bound: int,
)
    requires
        0 <= i <= segs.len(),
        replay_segments(segs, i, m) is Some,
        sorted_idxs(segs),
        forall|t: int| 0 <= t < segs.len() ==> 1 <= #[trigger] segs[t].file_idx <= bound
            && segs[t].data@.len() <= MAX_SEGMENT_SIZE,
        entries_resolve(m, segs),
        entries_bounded(m, bound),
    ensures
        entries_resolve(replay_segments(segs, i, m).unwrap(), segs),
        entries_bounded(replay_segments(segs, i, m).unwrap(), bound),
    decreases segs.len() - i,
{
    if i == segs.len() {
    } else {
        lemma_find_seg_at(segs, i);
        let m2 = replay_data(segs[i].data@, segs[i].file_idx as int, 0, m).unwrap();
        lemma_replay_data_resolve(
            segs[i].data@,
            segs[i].file_idx as int,
            0,
            m,
            segs,
            bound,
        );
        lemma_replay_segments_resolve(segs, i + 1, m2, bound);
    }
}

/// Extending the last segment's bytes by one serialized record extends the
/// whole replay by exactly that record's effect.
pub proof fn lemma_replay_segments_extend_last(
    segs: Seq<Segment>,
    segs2: Seq<Segment>,
    i: int,
    m: Map<Seq<char>, LiveEntry>,
    c: CommandV,
)
    requires
        0 <= i < segs.len(),
        segs2.len() == segs.len(),
        forall|t: int| 0 <= t < segs.len() - 1 ==> segs2[t] == segs[t],
        segs2.last().file_idx == segs.last().file_idx,
        segs2.last().data@ == segs.last().data@ + spec_serialize(c),
        cmd_fits(c),
        c is Put || c is Remove,
        replay_segments(segs, i, m) is Some,
    ensures
        replay_segments(segs2, i, m) == apply_record(
            replay_segments(segs, i, m).unwrap(),
            segs.last().file_idx as int,
            segs.last().data@.len() as int,
            c,
        ),
    decreases segs.len() - i,
{
    if i == segs.len() - 1 {
        lemma_replay_data_snoc(segs[i].data@, segs[i].file_idx as int, 0, m, c);
        let m2 = apply_record(
            replay_data(segs[i].data@, segs[i].file_idx as int, 0, m).unwrap(),
            segs[i].file_idx as int,
            segs[i].data@.len() as int,
            c,
        ).unwrap();
        assert(replay_segments(segs2, i + 1, m2) == Some(m2));
    } else {
        assert(segs2[i] == segs[i]);
        let m2 = replay_data(segs[i].data@, segs[i].file_idx as int, 0, m).unwrap();
        lemma_replay_segments_extend_last(segs, segs2, i + 1, m2, c);
    }
}

/// The index positions that a segment's tombstones map to: the byte position
/// of each tombstone record, in the named segment.
pub open spec fn tomb_positions(t: Map<Seq<char>, int>, fx: usize) -> Map<Seq<char>, KvStorePosition> {
    t.map_values(|p: int| KvStorePosition { file_idx: fx, file_offset: p as u64 })
}

/// Whether the record at `pos` survives compaction of its segment: a `Put`
/// survives when it is the one its key's live entry points at, a `Remove`
/// when it is its key's tombstone of record.
pub open spec fn spec_survives(data: Seq<u8>, fidx: int, pos: int) -> bool {
    let rf = replay_full(
        data,
        fidx,
        0,
        Map::<Seq<char>, LiveEntry>::empty(),
        Map::<Seq<char>, int>::empty(),
    ).unwrap();
    match spec_deserialize(data, pos) {
        Some(p) => match p.0 {
            CommandV::Put { key, value } => rf.0.dom().contains(key) && rf.0[key].offset == pos
                + 5 + str_byte_len(key),
            CommandV::Remove { key } => rf.1.dom().contains(key) && rf.1[key] == pos,
            _ => false,
        },
        None => false,
    }
}

/// The bytes a compacted segment holds: the surviving records of the
/// original bytes, in their original file order.
pub open spec fn spec_survivors(data: Seq<u8>, fidx: int, pos: int) -> Seq<u8>
    decreases data.len() - pos,
{
    if !(0 <= pos < data.len()) {
        Seq::empty()
    } else {
        match spec_deserialize(data, pos) {
            Some(p) => if pos < p.1 <= data.len() {
                if spec_survives(data, fidx, pos) {
                    data.subrange(pos, p.1) + spec_survivors(data, fidx, p.1)
                } else {
                    spec_survivors(data, fidx, p.1)
                }
            } else {
                Seq::empty()
            },
            None => Seq::empty(),
        }
    }
}

/// What compaction leaves of a sealed segment: untouched when every record
/// is its key's record of record, else exactly the surviving records in
/// their original file order.
pub open spec fn compacted_to(data0: Seq<u8>, fidx: usize, data1: Seq<u8>) -> bool {
    let rf = replay_full(
        data0,
        fidx as int,
        0,
        Map::<Seq<char>, LiveEntry>::empty(),
        Map::<Seq<char>, int>::empty(),
    ).unwrap();
    if records_from(data0, 0) == rf.0.dom().len() + rf.1.dom().len() {
        data1 == data0
    } else {
        data1 == spec_survivors(data0, fidx as int, 0)
    }
}

/// The writer's physical effect on the segment list: the serialized record
/// `rec` is appended at the prior end of the active segment, after a
/// rotation exactly when it would not fit. Sealed segments are never
/// touched by the writer itself; rotation hands exactly one — the one it
/// seals — to the compactor.
pub open spec fn writer_appended(
    segs0: Seq<Segment>,
    segs1: Seq<Segment>,
    active0: int,
    active1: int,
    rec: Seq<u8>,
) -> bool {
    if segs0.len() == 0 {
        // First record ever: the active segment is created holding it.
        &&& active1 == active0
        &&& segs1.len() == 1
        &&& segs1[0].file_idx as int == active0
        &&& segs1[0].data@ == rec
    } else if segs0.last().data@.len() + rec.len() <= MAX_SEGMENT_SIZE {
        // The record fits: appended at the prior end of the active segment.
        &&& active1 == active0
        &&& segs1.len() == segs0.len()
        &&& (forall|t: int| 0 <= t < segs0.len() - 1 ==> segs1[t] == segs0[t])
        &&& segs1.last().file_idx == segs0.last().file_idx
        &&& segs1.last().data@ == segs0.last().data@ + rec
    } else {
        // It would overflow the cap: the active segment is sealed and
        // compacted, and the whole record opens a fresh segment of the
        // next index.
        let sealed = segs0[segs0.len() - 1];
        &&& active1 == active0 + 1
        &&& segs1.len() == segs0.len() + 1
        &&& (forall|t: int| 0 <= t < segs0.len() - 1 ==> segs1[t] == segs0[t])
        &&& segs1[segs0.len() - 1].file_idx == sealed.file_idx
        &&& compacted_to(sealed.data@, sealed.file_idx, segs1[segs0.len() - 1].data@)
        &&& segs1.last().file_idx as int == active0 + 1
        &&& segs1.last().data@ == rec
    }
}

/// The keys named by a compaction patch plan.
pub open spec fn plan_keys(s: Seq<(String, KvStorePosition)>) -> Set<Seq<char>> {
    Set::new(|k: Seq<char>| exists|t: int| 0 <= t < s.len() && (#[trigger] s[t].0@) == k)
}

/// Each plan entry names a rebuilt live key and carries its new position.
pub open spec fn plan_ok(
    plan: Seq<(String, KvStorePosition)>,
    a2: Map<Seq<char>, LiveEntry>,
    file_idx: usize,
) -> bool {
    forall|t3: int|
        0 <= t3 < plan.len() ==> a2.dom().contains(#[trigger] plan[t3].0@)
            && plan[t3].1.file_idx == file_idx && plan[t3].1.file_offset as int
            == a2[plan[t3].0@].offset
}

/// Appends `src[from .. to]` to `dst`.
fn push_range(dst: &mut Vec<u8>, src: &Vec<u8>, from: usize, to: usize)
    requires
        from <= to <= src@.len(),
    ensures
        final(dst)@ == old(dst)@ + src@.subrange(from as int, to as int),
{
    let n: usize = src.len();
    let mut i: usize = from;
    proof {
        assert(dst@ =~= dst@ + src@.subrange(from as int, from as int));
    }
    while i < to
        invariant
            from <= i <= to,
            to <= n,
            n == src@.len(),
            dst@ == old(dst)@ + src@.subrange(from as int, i as int),
        decreases to - i,
    {
        dst.push(src[i]);
        i = i + 1;
        proof {
            assert(dst@ =~= old(dst)@ + src@.subrange(from as int, i as int));
        }
    }
}

/// The compactor's first pass over a sealed segment: collects, per key, the
/// position of the live value that the segment's own replay yields, and the
/// position of each tombstone of record.
fn compact_scan(seg_data: &Vec<u8>, file_idx: usize) -> (r: (
    dashmap::DashMap<String, KvStorePosition>,
    dashmap::DashMap<String, KvStorePosition>,
    usize,
))
    requires
        replay_full(seg_data@, file_idx as int, 0, Map::empty(), Map::empty()) is Some,
        seg_data@.len() <= MAX_SEGMENT_SIZE,
    ensures
        ({
            let rf = replay_full(
                seg_data@,
                file_idx as int,
                0,
                Map::<Seq<char>, LiveEntry>::empty(),
                Map::<Seq<char>, int>::empty(),
            ).unwrap();
            &&& index_entries(r.0) == positions_of(rf.0)
            &&& index_entries(r.1) == tomb_positions(rf.1, file_idx)
            &&& r.2 as int == records_from(seg_data@, 0)
        }),
{
    let ghost s_int = file_idx as int;
    let ghost data = seg_data@;
    let ghost rf = replay_full(
        data,
        s_int,
        0,
        Map::<Seq<char>, LiveEntry>::empty(),
        Map::<Seq<char>, int>::empty(),
    ).unwrap();
    let mut alive = index_new();
    let mut tombs = index_new();
    let mut count: usize = 0;
    let ghost mut a_cur: Map<Seq<char>, LiveEntry> = Map::empty();
    let ghost mut t_cur: Map<Seq<char>, int> = Map::empty();
    proof {
        assert(positions_of(a_cur) =~= index_entries(alive));
        assert(tomb_positions(t_cur, file_idx) =~= index_entries(tombs));
    }
    let dlen: usize = seg_data.len();
    let mut pos: usize = 0;
    while pos < dlen
        invariant
            0 <= pos <= dlen,
            dlen == data.len(),
            data == seg_data@,
            dlen <= MAX_SEGMENT_SIZE,
            s_int == file_idx as int,
            replay_full(data, s_int, pos as int, a_cur, t_cur) == Some(rf),
            index_entries(alive) == positions_of(a_cur),
            index_entries(tombs) == tomb_positions(t_cur, file_idx),
            count <= pos,
            count as int + records_from(data, pos as int) == records_from(data, 0),
        decreases dlen - pos,
    {
        match deserialize(seg_data, pos) {
            Ok(Some(p)) => {
                let (cmd, end) = p;
                proof {
                    lemma_parse_cmd_props(data, pos as int);
                    assert(records_from(data, pos as int) == 1 + records_from(data, end as int));
                }
                let voff_opt = get_value_offset(&cmd);
                match cmd {
                    Command::Put { key, value } => {
                        let ghost kk = key@;
                        let newpos = KvStorePosition {
                            file_idx,
                            file_offset: pos as u64 + voff_opt.unwrap(),
                        };
                        index_remove(&mut tombs, &key);
                        index_insert(&mut alive, key, newpos);
                        proof {
                            let e = LiveEntry {
                                file_idx: s_int,
                                offset: pos + 5 + str_byte_len(kk),
                                value: value@,
                            };
                            assert(positions_of(a_cur.insert(kk, e)) =~= positions_of(
                                a_cur,
                            ).insert(kk, newpos));
                            assert(tomb_positions(t_cur.remove(kk), file_idx) =~= tomb_positions(
                                t_cur,
                                file_idx,
                            ).remove(kk));
                            a_cur = a_cur.insert(kk, e);
                            t_cur = t_cur.remove(kk);
                        }
                        count = count + 1;
                    },
                    Command::Remove { key } => {
                        let ghost kk = key@;
                        let newpos = KvStorePosition { file_idx, file_offset: pos as u64 };
                        index_remove(&mut alive, &key);
                        index_insert(&mut tombs, key, newpos);
                        proof {
                            assert(positions_of(a_cur.remove(kk)) =~= positions_of(
                                a_cur,
                            ).remove(kk));
                            assert(tomb_positions(t_cur.insert(kk, pos as int), file_idx)
                                =~= tomb_positions(t_cur, file_idx).insert(kk, newpos));
                            a_cur = a_cur.remove(kk);
                            t_cur = t_cur.insert(kk, pos as int);
                        }
                        count = count + 1;
                    },
                    _ => {
                        proof {
                            assert(false);
                        }
                    },
                }
                pos = end;
            },
            Ok(None) => {
                proof {
                    assert(false);
                }
            },
            Err(_) => {
                proof {
                    assert(false);
                }
            },
        }
    }
    (alive, tombs, count)
}

/// The compactor's rebuild state: the tracked replay of the original bytes
/// up to the position reached, and the tracked replay of the rebuilt bytes.
pub struct RebuildState {
    pub a_mir: Map<Seq<char>, LiveEntry>,
    pub t_mir: Map<Seq<char>, int>,
    pub a2: Map<Seq<char>, LiveEntry>,
    pub t2: Map<Seq<char>, int>,
}

/// Ties the rebuild state, the rebuilt buffer and patch plan, and the
/// position reached in the scanned segment together: the rebuilt bytes
/// replay to exactly the records already emitted, and a key has been emitted
/// precisely when its final record has been passed.
pub open spec fn rebuild_inv(
    data: Seq<u8>,
    file_idx: usize,
    new_data: Seq<u8>,
    plan: Seq<(String, KvStorePosition)>,
    pos: int,
    st: RebuildState,
) -> bool {
    let s_int = file_idx as int;
    let rf = replay_full(
        data,
        s_int,
        0,
        Map::<Seq<char>, LiveEntry>::empty(),
        Map::<Seq<char>, int>::empty(),
    ).unwrap();
    let a_fin = rf.0;
    let t_fin = rf.1;
    &&& 0 <= pos <= data.len()
    &&& data.len() <= MAX_SEGMENT_SIZE
    &&& replay_full(data, s_int, pos, st.a_mir, st.t_mir) == Some(rf)
    &&& replay_full(
        new_data,
        s_int,
        0,
        Map::<Seq<char>, LiveEntry>::empty(),
        Map::<Seq<char>, int>::empty(),
    ) == Some((st.a2, st.t2))
    &&& new_data.len() <= pos
    &&& a_fin.dom().disjoint(t_fin.dom())
    &&& (forall|k: Seq<char>| #[trigger] a_fin.dom().contains(k) ==> 0 <= a_fin[k].offset
        && a_fin[k].offset + 4 <= data.len() && spec_deserialize_str(
        data,
        a_fin[k].offset,
    ) is Some && spec_deserialize_str(data, a_fin[k].offset).unwrap().0 == a_fin[k].value)
    &&& (forall|k: Seq<char>| #[trigger] t_fin.dom().contains(k) ==> 0 <= t_fin[k] < data.len())
    &&& (forall|k: Seq<char>| #[trigger] st.a_mir.dom().contains(k) ==> st.a_mir[k].offset + 4
        <= pos)
    &&& (forall|k: Seq<char>| #[trigger] st.t_mir.dom().contains(k) ==> 0 <= st.t_mir[k] < pos)
    &&& st.a2.dom().finite()
    &&& st.t2.dom().finite()
    &&& (forall|k: Seq<char>|
        #[trigger] st.a2.dom().contains(k) <==> (st.a_mir.dom().contains(k)
            && a_fin.dom().contains(k) && st.a_mir[k].offset == a_fin[k].offset))
    &&& (forall|k: Seq<char>|
        #[trigger] st.t2.dom().contains(k) <==> (st.t_mir.dom().contains(k)
            && t_fin.dom().contains(k) && st.t_mir[k] == t_fin[k]))
    &&& (forall|k: Seq<char>| #[trigger] st.a2.dom().contains(k) ==> st.a2[k].value
        == a_fin[k].value && st.a2[k].file_idx == s_int)
    &&& (forall|t3: int|
        0 <= t3 < plan.len() ==> st.a2.dom().contains(#[trigger] plan[t3].0@)
            && plan[t3].1.file_idx == file_idx && plan[t3].1.file_offset as int
            == st.a2[plan[t3].0@].offset)
    &&& st.a2.dom() == plan_keys(plan)
}

/// The rebuild step for a `Put` record: copy it exactly when the index of
/// this segment still points at this record's value.
#[verifier::rlimit(100)]
fn compact_rebuild_put(
    seg_data: &Vec<u8>,
    file_idx: usize,
    alive: &dashmap::DashMap<String, KvStorePosition>,
    new_data: &mut Vec<u8>,
    plan: &mut Vec<(String, KvStorePosition)>,
    pos: usize,
    end: usize,
    key: String,
    vv: Ghost<Seq<char>>,
    st: Ghost<RebuildState>,
) -> (r: (bool, Ghost<RebuildState>))
    requires
        replay_full(
            seg_data@,
            file_idx as int,
            0,
            Map::<Seq<char>, LiveEntry>::empty(),
            Map::<Seq<char>, int>::empty(),
        ) is Some,
        rebuild_inv(seg_data@, file_idx, old(new_data)@, old(plan)@, pos as int, st@),
        pos < seg_data@.len(),
        index_entries(*alive) == positions_of(
            replay_full(
                seg_data@,
                file_idx as int,
                0,
                Map::<Seq<char>, LiveEntry>::empty(),
                Map::<Seq<char>, int>::empty(),
            ).unwrap().0,
        ),
        spec_deserialize(seg_data@, pos as int) == Some(
            (CommandV::Put { key: key@, value: vv@ }, end as int),
        ),
    ensures
        rebuild_inv(seg_data@, file_idx, final(new_data)@, final(plan)@, end as int, r.1@),
        r.0 == spec_survives(seg_data@, file_idx as int, pos as int),
        r.0 ==> final(new_data)@ == old(new_data)@ + seg_data@.subrange(pos as int, end as int)
            && r.1@.a2.dom() == st@.a2.dom().insert(key@) && !st@.a2.dom().contains(key@)
            && r.1@.t2 == st@.t2,
        !r.0 ==> final(new_data)@ == old(new_data)@ && final(plan)@ == old(plan)@ && r.1@.a2
            == st@.a2 && r.1@.t2 == st@.t2,
{
    let ghost s_int = file_idx as int;
    let ghost data = seg_data@;
    let ghost rf = replay_full(
        data,
        s_int,
        0,
        Map::<Seq<char>, LiveEntry>::empty(),
        Map::<Seq<char>, int>::empty(),
    ).unwrap();
    let ghost a_fin = rf.0;
    let ghost t_fin = rf.1;
    let ghost mut a_mir = st@.a_mir;
    let ghost mut t_mir = st@.t_mir;
    let ghost mut a2 = st@.a2;
    let ghost mut t2 = st@.t2;
    let ghost kk = key@;
    proof {
        lemma_parse_cmd_props(data, pos as int);
    }
    let klen: usize = key.as_str().len();
    let voff: u64 = 5 + klen as u64;
    let ghost e_mir = LiveEntry { file_idx: s_int, offset: pos + 5 + str_byte_len(kk), value: vv@ };
    let surv: bool = match index_get(alive, &key) {
        Some(pp) => pp.file_offset == pos as u64 + voff,
        None => false,
    };
    proof {
        if a_fin.dom().contains(kk) {
            assert(positions_of(a_fin).dom().contains(kk));
            assert(positions_of(a_fin)[kk].file_offset == a_fin[kk].offset as u64);
            assert(0 <= a_fin[kk].offset && a_fin[kk].offset + 4 <= data.len());
        }
        assert(surv == spec_survives(data, s_int, pos as int));
    }
    if surv {
        let off2: usize = new_data.len();
        let ghost nd0 = new_data@;
        let ghost plan0 = plan@;
        proof {
            if a2.dom().contains(kk) {
                assert(a_mir.dom().contains(kk) && a_mir[kk].offset == a_fin[kk].offset);
                assert(a_mir[kk].offset + 4 <= pos);
                assert(a_fin[kk].offset == pos + 5 + str_byte_len(kk));
                assert(false);
            }
        }
        push_range(new_data, seg_data, pos, end);
        plan.push((key, KvStorePosition { file_idx, file_offset: off2 as u64 + voff }));
        proof {
            lemma_parse_then_serialize(data, pos as int);
            assert(new_data@ =~= nd0 + spec_serialize(CommandV::Put { key: kk, value: vv@ }));
            lemma_replay_full_snoc(
                nd0,
                s_int,
                0,
                Map::empty(),
                Map::empty(),
                CommandV::Put { key: kk, value: vv@ },
            );
            let e2 = LiveEntry {
                file_idx: s_int,
                offset: nd0.len() + 5 + str_byte_len(kk),
                value: vv@,
            };
            assert(spec_deserialize_str(data, a_fin[kk].offset).unwrap().0 == a_fin[kk].value);
            assert(a_fin[kk].offset == pos + 5 + str_byte_len(kk));
            assert(a_fin[kk].value == vv@);
            assert(t2.remove(kk) =~= t2);
            a2 = a2.insert(kk, e2);
            t2 = t2.remove(kk);
            a_mir = a_mir.insert(kk, e_mir);
            t_mir = t_mir.remove(kk);
            assert(replay_full(data, s_int, end as int, a_mir, t_mir) == Some(rf));
            assert(a2.dom() =~= plan_keys(plan@)) by {
                assert forall|k: Seq<char>| plan_keys(plan@).contains(k)
                    implies a2.dom().contains(k) by {
                    let t4 = choose|t4: int|
                        0 <= t4 < plan@.len() && (#[trigger] plan@[t4].0@) == k;
                    if t4 < plan0.len() {
                        assert(plan0[t4].0@ == k);
                        assert(plan_keys(plan0).contains(k));
                    }
                }
                assert forall|k: Seq<char>| a2.dom().contains(k) implies plan_keys(
                    plan@,
                ).contains(k) by {
                    if k == kk {
                        assert(plan@[plan@.len() - 1].0@ == k);
                    } else {
                        assert(plan_keys(plan0).contains(k));
                        let t4 = choose|t4: int|
                            0 <= t4 < plan0.len() && (#[trigger] plan0[t4].0@) == k;
                        assert(plan@[t4].0@ == k);
                    }
                }
            }
        }
    } else {
        proof {
            let a_mir0 = a_mir;
            if a2.dom().contains(kk) {
                assert(a_mir0.dom().contains(kk) && a_fin.dom().contains(kk)
                    && a_mir0[kk].offset == a_fin[kk].offset);
                assert(a_mir0[kk].offset + 4 <= pos);
            }
            a_mir = a_mir.insert(kk, e_mir);
            t_mir = t_mir.remove(kk);
            assert(replay_full(data, s_int, end as int, a_mir, t_mir) == Some(rf));
            lemma_replay_full_lb(data, s_int, end as int, a_mir, t_mir);
            if a2.dom().contains(kk) {
                assert(rf.0 == a_fin);
                assert(a_fin.dom().contains(kk));
                assert((a_mir.dom().contains(kk) && a_fin[kk] == a_mir[kk]) || a_fin[kk].offset
                    >= end as int);
                assert(a_mir[kk] == e_mir);
                assert(a_fin[kk].offset != e_mir.offset);
                assert(false);
            }
        }
    }
    (surv, Ghost(RebuildState { a_mir, t_mir, a2, t2 }))
}

/// The rebuild step for a `Remove` record: copy it exactly when it is its
/// key's tombstone of record.
#[verifier::rlimit(100)]
fn compact_rebuild_remove(
    seg_data: &Vec<u8>,
    file_idx: usize,
    tombs: &dashmap::DashMap<String, KvStorePosition>,
    new_data: &mut Vec<u8>,
    plan: &mut Vec<(String, KvStorePosition)>,
    pos: usize,
    end: usize,
    key: String,
    st: Ghost<RebuildState>,
) -> (r: (bool, Ghost<RebuildState>))
    requires
        replay_full(
            seg_data@,
            file_idx as int,
            0,
            Map::<Seq<char>, LiveEntry>::empty(),
            Map::<Seq<char>, int>::empty(),
        ) is Some,
        rebuild_inv(seg_data@, file_idx, old(new_data)@, old(plan)@, pos as int, st@),
        pos < seg_data@.len(),
        index_entries(*tombs) == tomb_positions(
            replay_full(
                seg_data@,
                file_idx as int,
                0,
                Map::<Seq<char>, LiveEntry>::empty(),
                Map::<Seq<char>, int>::empty(),
            ).unwrap().1,
            file_idx,
        ),
        spec_deserialize(seg_data@, pos as int) == Some(
            (CommandV::Remove { key: key@ }, end as int),
        ),
    ensures
        rebuild_inv(seg_data@, file_idx, final(new_data)@, final(plan)@, end as int, r.1@),
        r.0 == spec_survives(seg_data@, file_idx as int, pos as int),
        r.0 ==> final(new_data)@ == old(new_data)@ + seg_data@.subrange(pos as int, end as int)
            && r.1@.t2.dom() == st@.t2.dom().insert(key@) && !st@.t2.dom().contains(key@)
            && r.1@.a2 == st@.a2,
        !r.0 ==> final(new_data)@ == old(new_data)@ && final(plan)@ == old(plan)@ && r.1@.a2
            == st@.a2 && r.1@.t2 == st@.t2,
{
    let ghost s_int = file_idx as int;
    let ghost data = seg_data@;
    let ghost rf = replay_full(
        data,
        s_int,
        0,
        Map::<Seq<char>, LiveEntry>::empty(),
        Map::<Seq<char>, int>::empty(),
    ).unwrap();
    let ghost a_fin = rf.0;
    let ghost t_fin = rf.1;
    let ghost mut a_mir = st@.a_mir;
    let ghost mut t_mir = st@.t_mir;
    let ghost mut a2 = st@.a2;
    let ghost mut t2 = st@.t2;
    let ghost kk = key@;
    proof {
        lemma_parse_cmd_props(data, pos as int);
    }
    let surv: bool = match index_get(tombs, &key) {
        Some(pp) => pp.file_offset == pos as u64,
        None => false,
    };
    proof {
        if t_fin.dom().contains(kk) {
            assert(tomb_positions(t_fin, file_idx).dom().contains(kk));
            assert(tomb_positions(t_fin, file_idx)[kk].file_offset == t_fin[kk] as u64);
            assert(0 <= t_fin[kk] < data.len());
        }
        assert(surv == spec_survives(data, s_int, pos as int));
    }
    if surv {
        let ghost nd0 = new_data@;
        proof {
            if t2.dom().contains(kk) {
                assert(t_mir.dom().contains(kk) && t_mir[kk] == t_fin[kk]);
                assert(t_mir[kk] < pos);
                assert(t_fin[kk] == pos as int);
                assert(false);
            }
        }
        push_range(new_data, seg_data, pos, end);
        proof {
            lemma_parse_then_serialize(data, pos as int);
            assert(new_data@ =~= nd0 + spec_serialize(CommandV::Remove { key: kk }));
            lemma_replay_full_snoc(
                nd0,
                s_int,
                0,
                Map::empty(),
                Map::empty(),
                CommandV::Remove { key: kk },
            );
            assert(t_fin.dom().contains(kk));
            assert(!a_fin.dom().contains(kk));
            assert(!a2.dom().contains(kk));
            assert(a2.remove(kk) =~= a2);
            a2 = a2.remove(kk);
            t2 = t2.insert(kk, nd0.len() as int);
            a_mir = a_mir.remove(kk);
            t_mir = t_mir.insert(kk, pos as int);
            assert(replay_full(data, s_int, end as int, a_mir, t_mir) == Some(rf));
        }
    } else {
        proof {
            let t_mir0 = t_mir;
            if t2.dom().contains(kk) {
                assert(t_mir0.dom().contains(kk) && t_fin.dom().contains(kk) && t_mir0[kk]
                    == t_fin[kk]);
                assert(t_mir0[kk] < pos);
            }
            a_mir = a_mir.remove(kk);
            t_mir = t_mir.insert(kk, pos as int);
            assert(replay_full(data, s_int, end as int, a_mir, t_mir) == Some(rf));
            lemma_replay_full_lb(data, s_int, end as int, a_mir, t_mir);
            if t2.dom().contains(kk) {
                assert(rf.1 == t_fin);
                assert(t_fin.dom().contains(kk));
                assert((t_mir.dom().contains(kk) && t_fin[kk] == t_mir[kk]) || t_fin[kk]
                    >= end as int);
                assert(t_mir[kk] == pos as int);
                assert(t_fin[kk] != pos as int);
                assert(false);
            }
        }
    }
    (surv, Ghost(RebuildState { a_mir, t_mir, a2, t2 }))
}

/// One step of the compactor's rebuild: reads the record at `pos` and copies
/// it to the rebuilt buffer exactly when it is its key's record of record.
fn compact_rebuild_step(
    seg_data: &Vec<u8>,
    file_idx: usize,
    alive: &dashmap::DashMap<String, KvStorePosition>,
    tombs: &dashmap::DashMap<String, KvStorePosition>,
    new_data: &mut Vec<u8>,
    plan: &mut Vec<(String, KvStorePosition)>,
    pos: usize,
    st: Ghost<RebuildState>,
) -> (r: (usize, bool, Ghost<RebuildState>))
    requires
        replay_full(
            seg_data@,
            file_idx as int,
            0,
            Map::<Seq<char>, LiveEntry>::empty(),
            Map::<Seq<char>, int>::empty(),
        ) is Some,
        rebuild_inv(seg_data@, file_idx, old(new_data)@, old(plan)@, pos as int, st@),
        pos < seg_data@.len(),
        index_entries(*alive) == positions_of(
            replay_full(
                seg_data@,
                file_idx as int,
                0,
                Map::<Seq<char>, LiveEntry>::empty(),
                Map::<Seq<char>, int>::empty(),
            ).unwrap().0,
        ),
        index_entries(*tombs) == tomb_positions(
            replay_full(
                seg_data@,
                file_idx as int,
                0,
                Map::<Seq<char>, LiveEntry>::empty(),
                Map::<Seq<char>, int>::empty(),
            ).unwrap().1,
            file_idx,
        ),
    ensures
        rebuild_inv(seg_data@, file_idx, final(new_data)@, final(plan)@, r.0 as int, r.2@),
        pos < r.0 <= seg_data@.len(),
        r.0 as int == spec_deserialize(seg_data@, pos as int).unwrap().1,
        r.1 == spec_survives(seg_data@, file_idx as int, pos as int),
        r.1 ==> final(new_data)@ == old(new_data)@ + seg_data@.subrange(pos as int, r.0 as int)
            && r.2@.a2.dom().len() + r.2@.t2.dom().len() == st@.a2.dom().len()
            + st@.t2.dom().len() + 1,
        !r.1 ==> final(new_data)@ == old(new_data)@ && r.2@.a2.dom().len()
            + r.2@.t2.dom().len() == st@.a2.dom().len() + st@.t2.dom().len(),
{
    match deserialize(seg_data, pos) {
        Ok(Some(p)) => {
            let (cmd, end) = p;
            proof {
                lemma_parse_cmd_props(seg_data@, pos as int);
            }
            match cmd {
                Command::Put { key, value } => {
                    let ghost vv = value@;
                    let ghost kk = key@;
                    let r2 = compact_rebuild_put(
                        seg_data,
                        file_idx,
                        alive,
                        new_data,
                        plan,
                        pos,
                        end,
                        key,
                        Ghost(vv),
                        st,
                    );
                    proof {
                        if r2.0 {
                            assert(r2.1@.a2.dom() == st@.a2.dom().insert(kk)
                                && !st@.a2.dom().contains(kk));
                            assert(r2.1@.a2.dom().len() == st@.a2.dom().len() + 1);
                        }
                    }
                    (end, r2.0, r2.1)
                },
                Command::Remove { key } => {
                    let ghost kk = key@;
                    let r2 = compact_rebuild_remove(
                        seg_data,
                        file_idx,
                        tombs,
                        new_data,
                        plan,
                        pos,
                        end,
                        key,
                        st,
                    );
                    proof {
                        if r2.0 {
                            assert(r2.1@.t2.dom() == st@.t2.dom().insert(kk)
                                && !st@.t2.dom().contains(kk));
                            assert(r2.1@.t2.dom().len() == st@.t2.dom().len() + 1);
                        }
                    }
                    (end, r2.0, r2.1)
                },
                _ => {
                    proof {
                        assert(false);
                    }
                    (end, false, st)
                },
            }
        },
        Ok(None) => {
            proof {
                assert(false);
            }
            (pos, false, st)
        },
        Err(e) => {
            proof {
                assert(false);
            }
            (pos, false, st)
        },
    }
}

/// The compactor's second pass: writes the surviving records — the last
/// `Put` of each key still live within the segment, and the tombstones of
/// record — into a fresh buffer, noting each key's new value position.
fn compact_rebuild(
    seg_data: &Vec<u8>,
    file_idx: usize,
    alive: &dashmap::DashMap<String, KvStorePosition>,
    tombs: &dashmap::DashMap<String, KvStorePosition>,
) -> (r: (Vec<u8>, Vec<(String, KvStorePosition)>, Ghost<(Map<Seq<char>, LiveEntry>, Map<Seq<char>, int>)>))
    requires
        replay_full(seg_data@, file_idx as int, 0, Map::empty(), Map::empty()) is Some,
        seg_data@.len() <= MAX_SEGMENT_SIZE,
        index_entries(*alive) == positions_of(
            replay_full(
                seg_data@,
                file_idx as int,
                0,
                Map::<Seq<char>, LiveEntry>::empty(),
                Map::<Seq<char>, int>::empty(),
            ).unwrap().0,
        ),
        index_entries(*tombs) == tomb_positions(
            replay_full(
                seg_data@,
                file_idx as int,
                0,
                Map::<Seq<char>, LiveEntry>::empty(),
                Map::<Seq<char>, int>::empty(),
            ).unwrap().1,
            file_idx,
        ),
    ensures
        ({
            let rf = replay_full(
                seg_data@,
                file_idx as int,
                0,
                Map::<Seq<char>, LiveEntry>::empty(),
                Map::<Seq<char>, int>::empty(),
            ).unwrap();
            let a2 = r.2@.0;
            let t2 = r.2@.1;
            &&& replay_full(
                r.0@,
                file_idx as int,
                0,
                Map::<Seq<char>, LiveEntry>::empty(),
                Map::<Seq<char>, int>::empty(),
            ) == Some((a2, t2))
            &&& a2.dom() == rf.0.dom()
            &&& t2.dom() == rf.1.dom()
            &&& (forall|k: Seq<char>| #[trigger] a2.dom().contains(k) ==> a2[k].value
                == rf.0[k].value && a2[k].file_idx == file_idx as int)
            &&& r.0@.len() <= seg_data@.len()
            &&& (forall|t3: int|
                0 <= t3 < r.1@.len() ==> a2.dom().contains(#[trigger] r.1@[t3].0@)
                    && r.1@[t3].1.file_idx == file_idx && r.1@[t3].1.file_offset as int
                    == a2[r.1@[t3].0@].offset)
            &&& a2.dom() == plan_keys(r.1@)
            &&& rf.0.dom().finite()
            &&& rf.1.dom().finite()
            &&& records_from(seg_data@, 0) >= rf.0.dom().len() + rf.1.dom().len()
            &&& (records_from(seg_data@, 0) > rf.0.dom().len() + rf.1.dom().len()
                ==> r.0@.len() < seg_data@.len())
            &&& r.0@ == spec_survivors(seg_data@, file_idx as int, 0)
        }),
{
    let ghost s_int = file_idx as int;
    let ghost data = seg_data@;
    let ghost rf = replay_full(
        data,
        s_int,
        0,
        Map::<Seq<char>, LiveEntry>::empty(),
        Map::<Seq<char>, int>::empty(),
    ).unwrap();
    proof {
        lemma_replay_full_props(
            data,
            s_int,
            0,
            Map::empty(),
            Map::empty(),
        );
    }
    let mut new_data: Vec<u8> = Vec::new();
    let mut plan: Vec<(String, KvStorePosition)> = Vec::new();
    let ghost mut st = RebuildState {
        a_mir: Map::empty(),
        t_mir: Map::empty(),
        a2: Map::empty(),
        t2: Map::empty(),
    };
    proof {
        assert(st.a2.dom() =~= plan_keys(plan@));
        assert(rebuild_inv(data, file_idx, new_data@, plan@, 0, st));
    }
    let dlen: usize = seg_data.len();
    let mut pos: usize = 0;
    let mut seen: usize = 0;
    let mut copied: usize = 0;
    while pos < dlen
        invariant
            0 <= pos <= dlen,
            dlen == data.len(),
            data == seg_data@,
            s_int == file_idx as int,
            rf == replay_full(
                data,
                s_int,
                0,
                Map::<Seq<char>, LiveEntry>::empty(),
                Map::<Seq<char>, int>::empty(),
            ).unwrap(),
            replay_full(
                data,
                s_int,
                0,
                Map::<Seq<char>, LiveEntry>::empty(),
                Map::<Seq<char>, int>::empty(),
            ) is Some,
            index_entries(*alive) == positions_of(rf.0),
            index_entries(*tombs) == tomb_positions(rf.1, file_idx),
            rebuild_inv(data, file_idx, new_data@, plan@, pos as int, st),
            copied <= seen <= pos,
            seen as int + records_from(data, pos as int) == records_from(data, 0),
            copied as int == st.a2.dom().len() + st.t2.dom().len(),
            new_data@.len() + 5 * (seen - copied) <= pos as int,
            new_data@ + spec_survivors(data, s_int, pos as int) == spec_survivors(data, s_int, 0),
        decreases dlen - pos,
    {
        let ghost st0 = st;
        let ghost nd0 = new_data@;
        let (next, emitted, st2) = compact_rebuild_step(
            seg_data,
            file_idx,
            alive,
            tombs,
            &mut new_data,
            &mut plan,
            pos,
            Ghost(st),
        );
        proof {
            st = st2@;
            assert(replay_full(data, s_int, pos as int, st0.a_mir, st0.t_mir) == Some(rf));
            lemma_parse_cmd_props(data, pos as int);
            let p = spec_deserialize(data, pos as int).unwrap();
            assert(p.0 is Put || p.0 is Remove);
            assert(next as int == p.1);
            assert(next - pos >= 5);
            assert(records_from(data, pos as int) == 1 + records_from(data, next as int));
            if emitted {
                assert(spec_survivors(data, s_int, pos as int) == data.subrange(
                    pos as int,
                    next as int,
                ) + spec_survivors(data, s_int, next as int));
                assert(new_data@ + spec_survivors(data, s_int, next as int) =~= nd0 + (
                data.subrange(pos as int, next as int) + spec_survivors(
                    data,
                    s_int,
                    next as int,
                )));
            } else {
                assert(spec_survivors(data, s_int, pos as int) == spec_survivors(
                    data,
                    s_int,
                    next as int,
                ));
            }
        }
        if emitted {
            copied = copied + 1;
        }
        seen = seen + 1;
        pos = next;
    }
    proof {
        assert(replay_full(data, s_int, pos as int, st.a_mir, st.t_mir) == Some(rf));
        assert(st.a_mir == rf.0 && st.t_mir == rf.1);
        assert(st.a2.dom() =~= rf.0.dom());
        assert(st.t2.dom() =~= rf.1.dom());
        assert(records_from(data, dlen as int) == 0);
        assert(seen as int == records_from(data, 0));
        assert(copied as int == rf.0.dom().len() + rf.1.dom().len());
        assert(spec_survivors(data, s_int, dlen as int) == Seq::<u8>::empty());
        assert(new_data@ =~= new_data@ + spec_survivors(data, s_int, dlen as int));
    }
    (new_data, plan, Ghost((st.a2, st.t2)))
}

/// The value strings of a replayed state, one per live key.
pub open spec fn values_of(m: Map<Seq<char>, LiveEntry>) -> Map<Seq<char>, Seq<char>> {
    m.map_values(|e: LiveEntry| e.value)
}

/// The index positions of a replayed state, one per live key.
pub open spec fn positions_of(m: Map<Seq<char>, LiveEntry>) -> Map<Seq<char>, KvStorePosition> {
    m.map_values(
        |e: LiveEntry|
            KvStorePosition { file_idx: e.file_idx as usize, file_offset: e.offset as u64 },
    )
}

/// The log-structured store: the in-memory positional index, the segments of
/// the log, and the index of the active segment, the only one appended to.
pub struct KvStore {
    index: dashmap::DashMap<String, KvStorePosition>,
    segments: Vec<Segment>,
    active_file_idx: usize,
}

impl KvStore {
    /// Well-formedness of a segment list against an active index: indices
    /// ascend and stay at least 1, no segment exceeds the cap, the last
    /// segment is the active one, and the whole log replays cleanly.
    pub open spec fn segs_wf(segs: Seq<Segment>, active: int) -> bool {
        &&& active >= 1
        &&& sorted_idxs(segs)
        &&& forall|t: int|
            0 <= t < segs.len() ==> 1 <= #[trigger] segs[t].file_idx
                && segs[t].data@.len() <= MAX_SEGMENT_SIZE
        &&& segs.len() > 0 ==> segs[segs.len() - 1].file_idx == active
        &&& replay_segments(segs, 0, empty_live()) is Some
    }

    /// The store's segment list, as replay and the laws speak of it.
    pub closed spec fn seg_list(self) -> Seq<Segment> {
        self.segments@
    }

    /// The index of the active segment.
    pub closed spec fn active_idx(self) -> int {
        self.active_file_idx as int
    }

    /// The replayed live entries of the store's segments.
    pub closed spec fn live(self) -> Map<Seq<char>, LiveEntry> {
        replay_segments(self.segments@, 0, empty_live()).unwrap()
    }

    /// The logical contents of the store: each live key and its value.
    pub closed spec fn contents(self) -> Map<Seq<char>, Seq<char>> {
        values_of(self.live())
    }

    /// The store invariant: well-formed segments, and an index that holds
    /// exactly the positions that replaying the log yields.
    pub closed spec fn wf(self) -> bool {
        &&& Self::segs_wf(self.segments@, self.active_file_idx as int)
        &&& index_entries(self.index) == positions_of(self.live())
    }

    /// A well-formed segment list's replayed entries are well placed and
    /// bounded by the active index.
    pub proof fn lemma_wf_entries(segs: Seq<Segment>, active: int)
        requires
            Self::segs_wf(segs, active),
        ensures
            entries_resolve(replay_segments(segs, 0, empty_live()).unwrap(), segs),
            entries_bounded(replay_segments(segs, 0, empty_live()).unwrap(), active),
    {
        assert forall|t: int| 0 <= t < segs.len() implies 1 <= #[trigger] segs[t].file_idx
            <= active && segs[t].data@.len() <= MAX_SEGMENT_SIZE by {
            if t < segs.len() - 1 {
                assert(segs[t].file_idx < segs[segs.len() - 1].file_idx);
            }
        }
        lemma_replay_segments_resolve(segs, 0, empty_live(), active);
    }

    /// A fresh, empty store.
    pub fn new() -> (r: KvStore)
        ensures
            r.wf(),
            r.contents() == values_of(empty_live()),
            r.seg_list().len() == 0,
            r.active_idx() == DEFAULT_FILE_IDX as int,
    {
        let r = KvStore {
            index: index_new(),
            segments: Vec::new(),
            active_file_idx: DEFAULT_FILE_IDX,
        };
        proof {
            assert(r.segments@ =~= Seq::<Segment>::empty());
            assert(index_entries(r.index) =~= positions_of(r.live()));
        }
        r
    }

    /// The position of the segment with index `file_idx` in the list.
    fn find_segment(&self, file_idx: usize) -> (j: usize)
        requires
            sorted_idxs(self.segments@),
            find_seg(self.segments@, file_idx as int) >= 0,
        ensures
            j as int == find_seg(self.segments@, file_idx as int),
            j < self.segments@.len(),
            self.segments@[j as int].file_idx == file_idx,
    {
        proof {
            lemma_find_seg(self.segments@, file_idx as int);
        }
        let ghost fs = find_seg(self.segments@, file_idx as int);
        let n: usize = self.segments.len();
        let mut j: usize = 0;
        while self.segments[j].file_idx != file_idx
            invariant
                0 <= j <= fs < self.segments@.len(),
                self.segments@.len() <= usize::MAX,
                sorted_idxs(self.segments@),
                self.segments@[fs].file_idx == file_idx,
                forall|t: int| 0 <= t < j ==> self.segments@[t].file_idx != file_idx,
            decreases fs - j,
        {
            j = j + 1;
        }
        proof {
            lemma_find_seg_at(self.segments@, j as int);
        }
        j
    }

    /// Rebuilds the in-memory index by replaying a sorted list of segments
    /// in ascending index order, applying each record's effect in turn.
    pub fn restore_index(segments: &Vec<Segment>) -> (r: Result<
        dashmap::DashMap<String, KvStorePosition>,
        KvError,
    >)
        requires
            sorted_idxs(segments@),
            forall|t: int|
                0 <= t < segments@.len() ==> 1 <= #[trigger] segments@[t].file_idx
                    && segments@[t].data@.len() <= MAX_SEGMENT_SIZE,
        ensures
            match r {
                Ok(ix) => {
                    &&& replay_segments(segments@, 0, empty_live()) is Some
                    &&& index_entries(ix) == positions_of(
                        replay_segments(segments@, 0, empty_live()).unwrap(),
                    )
                },
                Err(e) => match e {
                    KvError::CorruptSegment { file_idx, offset } => {
                        &&& corrupt_at(segments@, file_idx, offset as int)
                        &&& replay_segments(segments@, 0, empty_live()) is None
                    },
                    _ => false,
                },
            },
    {
        let mut ix = index_new();
        let ghost mut live: Map<Seq<char>, LiveEntry> = empty_live();
        let n: usize = segments.len();
        let mut i: usize = 0;
        while i < n
            invariant
                0 <= i <= n,
                n == segments@.len(),
                sorted_idxs(segments@),
                forall|t: int|
                    0 <= t < segments@.len() ==> 1 <= #[trigger] segments@[t].file_idx
                        && segments@[t].data@.len() <= MAX_SEGMENT_SIZE,
                replay_segments(segments@, i as int, live) == replay_segments(
                    segments@,
                    0,
                    empty_live(),
                ),
                forall|t: int| 0 <= t < i ==> seg_clean(#[trigger] segments@[t].data@),
                index_entries(ix) == positions_of(live),
            decreases n - i,
        {
            let seg = &segments[i];
            let ghost fidx = seg.file_idx as int;
            let ghost live0 = live;
            let dlen: usize = seg.data.len();
            let mut pos: usize = 0;
            while pos < dlen
                invariant
                    0 <= pos <= dlen,
                    0 <= i < n,
                    n == segments@.len(),
                    seg == &segments@[i as int],
                    dlen == seg.data@.len(),
                    dlen <= MAX_SEGMENT_SIZE,
                    fidx == seg.file_idx as int,
                    replay_data(seg.data@, fidx, pos as int, live) == replay_data(
                        seg.data@,
                        fidx,
                        0,
                        live0,
                    ),
                    replay_segments(segments@, i as int, live0) == replay_segments(
                        segments@,
                        0,
                        empty_live(),
                    ),
                    parse_reaches(seg.data@, 0, pos as int),
                    forall|t: int| 0 <= t < i ==> seg_clean(#[trigger] segments@[t].data@),
                    index_entries(ix) == positions_of(live),
                decreases dlen - pos,
            {
                match deserialize(&seg.data, pos) {
                    Ok(Some(p)) => {
                        let (cmd, end) = p;
                        let ghost cv = cmd@;
                        proof {
                            lemma_parse_cmd_props(seg.data@, pos as int);
                        }
                        let voff_opt = get_value_offset(&cmd);
                        let ghost live1 = apply_record(live, fidx, pos as int, cmd@).unwrap();
                        match cmd {
                            Command::Put { key, value: _ } => {
                                let off: u64 = (pos as u64) + voff_opt.unwrap();
                                let p2 = KvStorePosition {
                                    file_idx: seg.file_idx,
                                    file_offset: off,
                                };
                                index_insert(&mut ix, key, p2);
                                proof {
                                    assert(positions_of(live1) =~= positions_of(live).insert(
                                        key@,
                                        p2,
                                    ));
                                    assert(cv is Put);
                                    assert(spec_deserialize(seg.data@, pos as int) == Some(
                                        (cv, end as int),
                                    ));
                                    assert(parse_reaches(seg.data@, end as int, end as int));
                                    assert(parse_reaches(seg.data@, pos as int, end as int));
                                    lemma_parse_reaches_trans(seg.data@, 0, pos as int, end as int);
                                }
                            },
                            Command::Remove { key } => {
                                index_remove(&mut ix, &key);
                                proof {
                                    assert(positions_of(live1) =~= positions_of(live).remove(
                                        key@,
                                    ));
                                    assert(cv is Remove);
                                    assert(spec_deserialize(seg.data@, pos as int) == Some(
                                        (cv, end as int),
                                    ));
                                    assert(parse_reaches(seg.data@, end as int, end as int));
                                    assert(parse_reaches(seg.data@, pos as int, end as int));
                                    lemma_parse_reaches_trans(seg.data@, 0, pos as int, end as int);
                                }
                            },
                            _ => {
                                proof {
                                    assert(fails_at(seg.data@, pos as int));
                                    assert(corrupt_at(segments@, seg.file_idx, pos as int));
                                }
                                return Err(
                                    KvError::CorruptSegment {
                                        file_idx: seg.file_idx,
                                        offset: pos,
                                    },
                                );
                            },
                        }
                        proof {
                            live = live1;
                        }
                        pos = end;
                    },
                    Ok(None) => {
                        proof {
                            assert(false);
                        }
                    },
                    Err(_) => {
                        proof {
                            assert(fails_at(seg.data@, pos as int));
                            assert(corrupt_at(segments@, seg.file_idx, pos as int));
                        }
                        return Err(
                            KvError::CorruptSegment { file_idx: seg.file_idx, offset: pos },
                        );
                    },
                }
            }
            proof {
                assert(replay_data(seg.data@, fidx, 0, live0) == Some(live));
                assert(seg_clean(seg.data@));
                assert(replay_segments(segments@, i as int, live0) == replay_segments(
                    segments@,
                    i + 1,
                    live,
                ));
            }
            i = i + 1;
        }
        proof {
            assert(replay_segments(segments@, n as int, live) == Some(live));
        }
        Ok(ix)
    }

    /// Opens a store from the segment files found in a storage directory,
    /// handed over in ascending index order. The active segment becomes the
    /// one with the highest index, or the default when none exist.
    pub fn open(segments: Vec<Segment>) -> (r: Result<KvStore, KvError>)
        requires
            sorted_idxs(segments@),
            forall|t: int|
                0 <= t < segments@.len() ==> 1 <= #[trigger] segments@[t].file_idx
                    && segments@[t].data@.len() <= MAX_SEGMENT_SIZE,
        ensures
            match r {
                Ok(store) => {
                    &&& store.wf()
                    &&& store.seg_list() == segments@
                    &&& replay_segments(segments@, 0, empty_live()) is Some
                    &&& store.contents() == values_of(
                        replay_segments(segments@, 0, empty_live()).unwrap(),
                    )
                    &&& store.active_idx() == if segments@.len() > 0 {
                        segments@[segments@.len() - 1].file_idx as int
                    } else {
                        DEFAULT_FILE_IDX as int
                    }
                },
                Err(e) => match e {
                    KvError::CorruptSegment { file_idx, offset } => {
                        &&& corrupt_at(segments@, file_idx, offset as int)
                        &&& replay_segments(segments@, 0, empty_live()) is None
                    },
                    _ => false,
                },
            },
    {
        let active: usize = if segments.is_empty() {
            DEFAULT_FILE_IDX
        } else {
            segments[segments.len() - 1].file_idx
        };
        match Self::restore_index(&segments) {
            Ok(ix) => Ok(KvStore { index: ix, segments, active_file_idx: active }),
            Err(e) => Err(e),
        }
    }

    /// Looks the key up in the index and, on a hit, reads its value from the
    /// recorded segment position. A miss is not an error: it yields `None`.
    pub fn get(&self, key: String) -> (r: Result<Option<String>, KvError>)
        requires
            self.wf(),
        ensures
            match r {
                Ok(v) => match v {
                    Some(s) => self.contents().dom().contains(key@) && s@ == self.contents()[key@],
                    None => !self.contents().dom().contains(key@),
                },
                Err(e) => false,
            },
    {
        proof {
            Self::lemma_wf_entries(self.segments@, self.active_file_idx as int);
        }
        match index_get(&self.index, &key) {
            Some(position) => {
                proof {
                    assert(self.live().dom().contains(key@));
                    assert(entry_ok(self.live()[key@], self.segments@));
                }
                let j = self.find_segment(position.file_idx);
                let seg = &self.segments[j];
                match deserialize_str(&seg.data, position.file_offset as usize) {
                    Ok(p) => Ok(Some(p.0)),
                    Err(_) => Err(KvError::Io),
                }
            },
            None => Ok(None),
        }
    }

    /// Compacts the sealed segment `file_idx`: scans it, and either leaves
    /// it alone when every record is its key's record of record, or rewrites
    /// it keeping only the last `Put` of each still-live key and the
    /// tombstones of record, patching the index entries that still point
    /// into this segment. The surviving records keep their original file
    /// order, which replays identically to writing the live records first
    /// and the tombstones after them. The store's logical contents never
    /// change, and the rewritten segment is strictly smaller whenever any
    /// record was superseded.
    #[verifier::rlimit(100)]
    fn compact_segment(&mut self, file_idx: usize, excl: Ghost<Set<Seq<char>>>)
        requires
            Self::segs_wf(old(self).segments@, old(self).active_file_idx as int),
            index_entries(old(self).index) == positions_of(
                replay_segments(old(self).segments@, 0, empty_live()).unwrap().remove_keys(
                    excl@,
                ),
            ),
            find_seg(old(self).segments@, file_idx as int) >= 0,
            file_idx != old(self).active_file_idx,
        ensures
            Self::segs_wf(final(self).segments@, final(self).active_file_idx as int),
            final(self).active_file_idx == old(self).active_file_idx,
            final(self).segments@.len() > 0,
            final(self).segments@[final(self).segments@.len() - 1] == old(self).segments@[old(
                self,
            ).segments@.len() - 1],
            ({
                let live0 = replay_segments(old(self).segments@, 0, empty_live()).unwrap();
                let live1 = replay_segments(final(self).segments@, 0, empty_live()).unwrap();
                &&& values_of(live1) == values_of(live0)
                &&& index_entries(final(self).index) == positions_of(live1.remove_keys(excl@))
            }),
            ({
                let j0 = find_seg(old(self).segments@, file_idx as int);
                let data0 = old(self).segments@[j0].data@;
                let rf = replay_full(
                    data0,
                    file_idx as int,
                    0,
                    Map::<Seq<char>, LiveEntry>::empty(),
                    Map::<Seq<char>, int>::empty(),
                ).unwrap();
                let n_live = rf.0.dom().len() + rf.1.dom().len();
                &&& (records_from(data0, 0) == n_live ==> *final(self) == *old(self))
                &&& (records_from(data0, 0) != n_live ==> {
                    &&& final(self).segments@.len() == old(self).segments@.len()
                    &&& (forall|t: int|
                        0 <= t < old(self).segments@.len() && t != j0
                            ==> final(self).segments@[t] == old(self).segments@[t])
                    &&& final(self).segments@[j0].file_idx == file_idx
                    &&& final(self).segments@[j0].data@ == spec_survivors(
                        data0,
                        file_idx as int,
                        0,
                    )
                    &&& final(self).segments@[j0].data@.len() < data0.len()
                })
            }),
    {
        let ghost segs0 = self.segments@;
        let ghost live0 = replay_segments(segs0, 0, empty_live()).unwrap();
        let ghost s_int = file_idx as int;
        proof {
            Self::lemma_wf_entries(segs0, self.active_file_idx as int);
        }
        let j = self.find_segment(file_idx);
        proof {
            lemma_replay_segments_seg_some(segs0, 0, empty_live(), j as int);
            assert(segs0[segs0.len() - 1].file_idx == self.active_file_idx);
            assert(j < segs0.len() - 1 || j as int == segs0.len() - 1);
            assert(j as int != segs0.len() - 1);
        }
        let ghost rf = replay_full(
            segs0[j as int].data@,
            s_int,
            0,
            Map::<Seq<char>, LiveEntry>::empty(),
            Map::<Seq<char>, int>::empty(),
        ).unwrap();

        // First pass: collect the per-key records of record.
        let scan = compact_scan(&self.segments[j].data, file_idx);
        let (alive, tombs, count) = scan;
        let alive_len: usize = index_len(&alive);
        let tomb_len: usize = index_len(&tombs);
        proof {
            assert(positions_of(rf.0).dom() =~= rf.0.dom());
            assert(tomb_positions(rf.1, file_idx).dom() =~= rf.1.dom());
        }

        // Nothing superseded: every record is still its key's record of
        // record, so the segment is already compact and stays as it is.
        if count as u128 == alive_len as u128 + tomb_len as u128 {
            return ;
        }
        // Nothing live and no tombstone of record: the algorithm deletes
        // the file. A segment's last record always leaves a live key or a
        // tombstone behind, so this can only coincide with a record count
        // of zero, which the already-compact check above has returned for;
        // the deletion step is kept as the algorithm states it.
        if alive_len == 0 && tomb_len == 0 {
            proof {
                positions_of(rf.0).dom().lemma_len0_is_empty();
                tomb_positions(rf.1, file_idx).dom().lemma_len0_is_empty();
                assert(rf.0.dom() =~= Set::<Seq<char>>::empty());
                assert(rf.1.dom() =~= Set::<Seq<char>>::empty());
                assert(count as int == records_from(segs0[j as int].data@, 0));
                assert(count > 0);
                assert(segs0[j as int].data@.len() > 0);
                lemma_replay_full_nonempty(
                    segs0[j as int].data@,
                    s_int,
                    0,
                    Map::empty(),
                    Map::empty(),
                );
                assert(false);
            }
            self.segments.remove(j);
            return ;
        }

        // Rewrite the segment and patch the index positions it still owns.
        let built = compact_rebuild(&self.segments[j].data, file_idx, &alive, &tombs);
        let (new_data, plan, gh) = built;
        let ghost a2 = gh@.0;
        let ghost t2 = gh@.1;
        proof {
            lemma_replay_full_props(
                segs0[j as int].data@,
                s_int,
                0,
                Map::empty(),
                Map::empty(),
            );
        }
        let seg = &mut self.segments[j];
        seg.data = new_data;
        proof {
            let segs1 = self.segments@;
            assert(segs1.len() == segs0.len());
            assert(segs1[j as int].file_idx == file_idx);
            assert forall|mm: Map<Seq<char>, LiveEntry>|
                #[trigger] replay_data(segs0[j as int].data@, s_int, 0, mm) == Some(
                    mm.remove_keys(rf.1.dom()).union_prefer_right(rf.0),
                ) by {
                lemma_seg_effect(segs0[j as int].data@, s_int, mm);
            }
            assert forall|mm: Map<Seq<char>, LiveEntry>|
                #[trigger] replay_data(segs1[j as int].data@, s_int, 0, mm) == Some(
                    mm.remove_keys(rf.1.dom()).union_prefer_right(a2),
                ) by {
                lemma_seg_effect(segs1[j as int].data@, s_int, mm);
                assert(t2.dom() == rf.1.dom());
            }
            lemma_replay_replace_segment(
                segs0,
                segs1,
                0,
                empty_live(),
                j as int,
                rf.0,
                rf.1.dom(),
                a2,
            );
            lemma_replay_owned(segs0, 0, empty_live(), j as int, rf.0, rf.1.dom());
            let live1 = replay_segments(segs1, 0, empty_live()).unwrap();
            assert(live1 == patched(live0, s_int, a2));
            assert forall|k: Seq<char>| #[trigger] values_of(live1).dom().contains(k)
                == values_of(live0).dom().contains(k) && (values_of(live1).dom().contains(k)
                ==> values_of(live1)[k] == values_of(live0)[k]) by {
                if live0.dom().contains(k) && live0[k].file_idx == s_int {
                    assert(rf.0.dom().contains(k) && live0[k] == rf.0[k]);
                    assert(a2.dom().contains(k));
                    assert(live1[k] == a2[k]);
                    assert(a2[k].value == rf.0[k].value);
                }
            }
            assert(values_of(live1) =~= values_of(live0));
            // The untouched segments keep their indices sorted and bounded.
            assert forall|a: int, b: int|
                0 <= a < b < segs1.len() implies segs1[a].file_idx < segs1[b].file_idx by {
                assert(segs1[a].file_idx == segs0[a].file_idx);
                assert(segs1[b].file_idx == segs0[b].file_idx);
            }
            assert(segs1[segs1.len() - 1] == segs0[segs0.len() - 1]);
        }
        let ghost segs1 = self.segments@;
        let ghost live1 = replay_segments(segs1, 0, empty_live()).unwrap();

        // Patch: repoint each surviving key that the index still maps into
        // this segment at its rewritten position.
        let plen: usize = plan.len();
        let mut i: usize = 0;
        proof {
            assert(a2.restrict(plan_keys(plan@.take(0))) =~= Map::<Seq<char>, LiveEntry>::empty());
            assert(patched(live0, s_int, a2.restrict(plan_keys(plan@.take(0)))) =~= live0);
        }
        while i < plen
            invariant
                0 <= i <= plen,
                plen == plan@.len(),
                s_int == file_idx as int,
                self.segments@ == segs1,
                self.active_file_idx == old(self).active_file_idx,
                live0 == replay_segments(segs0, 0, empty_live()).unwrap(),
                entries_bounded(live0, old(self).active_file_idx as int),
                plan_ok(plan@, a2, file_idx),
                forall|k: Seq<char>| #[trigger] a2.dom().contains(k) ==> a2[k].file_idx == s_int,
                index_entries(self.index) == positions_of(
                    patched(live0, s_int, a2.restrict(plan_keys(plan@.take(i as int)))).remove_keys(
                        excl@,
                    ),
                ),
            decreases plen - i,
        {
            let entry = &plan[i];
            let ghost kk = entry.0@;
            let ghost pre = a2.restrict(plan_keys(plan@.take(i as int)));
            let ghost post = a2.restrict(plan_keys(plan@.take(i + 1)));
            replace_if_position_matches(&mut self.index, &entry.0, file_idx, entry.1);
            proof {
                assert forall|k: Seq<char>| post.dom().contains(k) == (pre.dom().contains(k) || (k
                    == kk && a2.dom().contains(k))) && (post.dom().contains(k) ==> post[k]
                    == a2[k]) by {
                    if plan_keys(plan@.take(i + 1)).contains(k) {
                        let t4 = choose|t4: int|
                            0 <= t4 < plan@.take(i + 1).len() && (#[trigger] plan@.take(
                                i + 1,
                            )[t4].0@) == k;
                        if t4 < i {
                            assert(plan@.take(i as int)[t4].0@ == k);
                        } else {
                            assert(plan@[i as int].0@ == k);
                        }
                    }
                    if pre.dom().contains(k) {
                        let t4 = choose|t4: int|
                            0 <= t4 < plan@.take(i as int).len() && (#[trigger] plan@.take(
                                i as int,
                            )[t4].0@) == k;
                        assert(plan@.take(i + 1)[t4].0@ == k);
                    }
                    if k == kk && a2.dom().contains(k) {
                        assert(plan@.take(i + 1)[i as int].0@ == k);
                    }
                }
                let before = positions_of(patched(live0, s_int, pre).remove_keys(excl@));
                let target = positions_of(patched(live0, s_int, post).remove_keys(excl@));
                if excl@.contains(kk) || !live0.dom().contains(kk) {
                    assert(!before.dom().contains(kk));
                    assert(index_entries(self.index) =~= target);
                } else if live0[kk].file_idx == s_int {
                    assert(a2.dom().contains(kk));
                    assert(before.dom().contains(kk));
                    assert(before[kk].file_idx == file_idx);
                    assert(index_entries(self.index) =~= target);
                } else {
                    assert(before.dom().contains(kk) ==> before[kk].file_idx
                        == live0[kk].file_idx as usize);
                    assert(live0[kk].file_idx != s_int);
                    assert(index_entries(self.index) =~= target);
                }
            }
            i = i + 1;
        }
        proof {
            assert(plan@.take(plen as int) =~= plan@);
            assert(a2.restrict(plan_keys(plan@)) =~= a2) by {
                assert(plan_keys(plan@) == a2.dom());
            }
            assert(index_entries(self.index) == positions_of(
                patched(live0, s_int, a2).remove_keys(excl@),
            ));
            assert(live1 == patched(live0, s_int, a2));
            lemma_find_seg_at(segs1, j as int);
        }
    }

    /// Compacts the sealed segment `file_idx` on demand: the logical
    /// contents never change, the segment never grows, and the outcome is
    /// tied to its records — a segment whose every record is still its
    /// key's record of record stays untouched, and any superseded record
    /// makes the rewritten segment strictly smaller. Rotation runs this on
    /// each segment it seals.
    pub fn compact_log_file(&mut self, file_idx: usize)
        requires
            old(self).wf(),
            find_seg(old(self).seg_list(), file_idx as int) >= 0,
            file_idx as int != old(self).active_idx(),
        ensures
            final(self).wf(),
            final(self).contents() == old(self).contents(),
            final(self).active_idx() == old(self).active_idx(),
            ({
                let j0 = find_seg(old(self).seg_list(), file_idx as int);
                let data0 = old(self).seg_list()[j0].data@;
                let rf = replay_full(
                    data0,
                    file_idx as int,
                    0,
                    Map::<Seq<char>, LiveEntry>::empty(),
                    Map::<Seq<char>, int>::empty(),
                ).unwrap();
                let n_live = rf.0.dom().len() + rf.1.dom().len();
                &&& (records_from(data0, 0) == n_live ==> *final(self) == *old(self))
                &&& (records_from(data0, 0) != n_live ==> {
                    &&& final(self).seg_list().len() == old(self).seg_list().len()
                    &&& (forall|t: int|
                        0 <= t < old(self).seg_list().len() && t != j0
                            ==> final(self).seg_list()[t] == old(self).seg_list()[t])
                    &&& final(self).seg_list()[j0].file_idx == file_idx
                    &&& final(self).seg_list()[j0].data@ == spec_survivors(
                        data0,
                        file_idx as int,
                        0,
                    )
                    &&& final(self).seg_list()[j0].data@.len() < data0.len()
                })
            }),
    {
        proof {
            assert(self.live().remove_keys(Set::<Seq<char>>::empty()) =~= self.live());
        }
        self.compact_segment(file_idx, Ghost(Set::empty()));
        proof {
            let live1 = replay_segments(self.segments@, 0, empty_live()).unwrap();
            assert(live1.remove_keys(Set::<Seq<char>>::empty()) =~= live1);
            assert(index_entries(self.index) == positions_of(live1));
        }
    }

    /// Appends one record to the active segment, rotating first when the
    /// record would push the segment past the cap. Returns the position of
    /// the value for a `Put`, and the live entries as they stood before this
    /// record was applied.
    #[verifier::rlimit(100)]
    fn write(&mut self, cmd: &Command, excl: Ghost<Set<Seq<char>>>) -> (r: (
        Result<Option<KvStorePosition>, KvError>,
        Ghost<Map<Seq<char>, LiveEntry>>,
    ))
        requires
            Self::segs_wf(old(self).segments@, old(self).active_file_idx as int),
            index_entries(old(self).index) == positions_of(
                replay_segments(old(self).segments@, 0, empty_live()).unwrap().remove_keys(
                    excl@,
                ),
            ),
            cmd@ is Put || cmd@ is Remove,
            cmd_fits(cmd@),
            spec_record_len(cmd@) <= MAX_SEGMENT_SIZE,
        ensures
            Self::segs_wf(final(self).segments@, final(self).active_file_idx as int),
            old(self).active_file_idx <= final(self).active_file_idx <= old(
                self,
            ).active_file_idx + 1,
            r.0 is Ok ==> writer_appended(
                old(self).segments@,
                final(self).segments@,
                old(self).active_file_idx as int,
                final(self).active_file_idx as int,
                spec_serialize(cmd@),
            ),
            ({
                let g = r.1@;
                let live_fin = replay_segments(final(self).segments@, 0, empty_live()).unwrap();
                match r.0 {
                    Ok(opt) => {
                        &&& values_of(g) == values_of(
                            replay_segments(old(self).segments@, 0, empty_live()).unwrap(),
                        )
                        &&& index_entries(final(self).index) == positions_of(g.remove_keys(excl@))
                        &&& match cmd@ {
                            CommandV::Put { key, value } => {
                                &&& opt matches Some(p)
                                &&& (opt matches Some(p) ==> {
                                    &&& live_fin == g.insert(
                                        key,
                                        LiveEntry {
                                            file_idx: p.file_idx as int,
                                            offset: p.file_offset as int,
                                            value,
                                        },
                                    )
                                    &&& p.file_idx as int == final(self).active_file_idx as int
                                    &&& p.file_offset as int
                                        == final(self).segments@.last().data@.len()
                                        - spec_serialize(cmd@).len()
                                        + spec_value_offset(cmd@).unwrap()
                                })
                            },
                            CommandV::Remove { key } => opt is None && live_fin == g.remove(key),
                            _ => false,
                        }
                    },
                    Err(e) => {
                        &&& e == KvError::Io
                        &&& old(self).active_file_idx == usize::MAX
                        &&& *final(self) == *old(self)
                    },
                }
            }),
    {
        let ghost old_live = replay_segments(self.segments@, 0, empty_live()).unwrap();
        let mut record: Vec<u8> = serialize(cmd);
        let rsize: usize = record.len();
        proof {
            lemma_serialize_len(cmd@);
        }
        if self.segments.is_empty() {
            self.segments.push(Segment { file_idx: self.active_file_idx, data: Vec::new() });
            proof {
                lemma_replay_segments_push_empty(
                    old(self).segments@,
                    self.segments@[self.segments@.len() - 1],
                    0,
                    empty_live(),
                );
                assert(old(self).segments@.push(self.segments@[self.segments@.len() - 1])
                    =~= self.segments@);
            }
        } else {
            let last: usize = self.segments.len() - 1;
            let cur_len: usize = self.segments[last].data.len();
            if cur_len as u64 + rsize as u64 > MAX_SEGMENT_SIZE {
                if self.active_file_idx == usize::MAX {
                    return (Err(KvError::Io), Ghost(old_live));
                }
                let ghost segs0 = self.segments@;
                let sealed: usize = self.active_file_idx;
                self.active_file_idx = self.active_file_idx + 1;
                self.segments.push(
                    Segment { file_idx: self.active_file_idx, data: Vec::new() },
                );
                proof {
                    lemma_replay_segments_push_empty(
                        segs0,
                        self.segments@[self.segments@.len() - 1],
                        0,
                        empty_live(),
                    );
                    assert(segs0.push(self.segments@[self.segments@.len() - 1])
                        =~= self.segments@);
                    assert forall|a: int, b: int|
                        0 <= a < b < self.segments@.len() implies self.segments@[a].file_idx
                        < self.segments@[b].file_idx by {
                        if b < self.segments@.len() - 1 {
                            assert(self.segments@[a] == segs0[a]);
                            assert(self.segments@[b] == segs0[b]);
                        } else if a < self.segments@.len() - 1 {
                            assert(self.segments@[a] == segs0[a]);
                            if a < segs0.len() - 1 {
                                assert(segs0[a].file_idx < segs0[segs0.len() - 1].file_idx);
                            }
                        }
                    }
                    lemma_find_seg_at(self.segments@, self.segments@.len() - 2);
                    assert(self.segments@[self.segments@.len() - 2] == segs0[segs0.len() - 1]);
                }
                let ghost segs_pushed = self.segments@;
                // The just-sealed segment is handed to the compactor; in this
                // sequential engine the rewrite happens before the write
                // proceeds.
                self.compact_segment(sealed, excl);
                proof {
                    let ghost pl = segs_pushed.len() as int;
                    assert(self.segments@.len() == segs_pushed.len());
                    assert(self.segments@[pl - 1] == segs_pushed[pl - 1]);
                }
            }
        }
        // At this point the last segment is the active one and has room.
        let j: usize = self.segments.len() - 1;
        let ghost segs_before = self.segments@;
        let ghost live_mid = replay_segments(segs_before, 0, empty_live()).unwrap();
        let offset: usize = self.segments[j].data.len();
        let seg = &mut self.segments[j];
        seg.data.append(&mut record);
        proof {
            lemma_replay_segments_extend_last(segs_before, self.segments@, 0, empty_live(), cmd@);
            let ser = spec_serialize(cmd@);
            let segs_in = old(self).segments@;
            let fin = self.segments@;
            if segs_in.len() == 0 {
                assert(fin.len() == 1);
                assert(fin[0].file_idx as int == old(self).active_file_idx as int);
                assert(fin[0].data@ =~= ser);
            } else if segs_in.last().data@.len() + ser.len() <= MAX_SEGMENT_SIZE {
                assert(segs_before == segs_in);
                assert(fin.last().data@ == segs_in.last().data@ + ser);
            } else {
                assert(fin.len() == segs_in.len() + 1);
                assert forall|t: int| 0 <= t < segs_in.len() - 1 implies fin[t]
                    == segs_in[t] by {
                    assert(fin[t] == segs_before[t]);
                }
                assert(fin[segs_in.len() - 1] == segs_before[segs_in.len() - 1]);
                assert(compacted_to(
                    segs_in.last().data@,
                    segs_in.last().file_idx,
                    fin[segs_in.len() - 1].data@,
                ));
                assert(fin.last().file_idx as int == old(self).active_file_idx + 1);
                assert(fin.last().data@ =~= ser);
            }
            assert(writer_appended(
                segs_in,
                fin,
                old(self).active_file_idx as int,
                self.active_file_idx as int,
                ser,
            ));
            assert(fin.last().data@.len() == offset + ser.len());
        }
        match get_value_offset(cmd) {
            Some(voff) => {
                let p = KvStorePosition {
                    file_idx: self.active_file_idx,
                    file_offset: offset as u64 + voff,
                };
                (Ok(Some(p)), Ghost(live_mid))
            },
            None => (Ok(None), Ghost(live_mid)),
        }
    }

    /// Sets `key` to `value`: appends a `Put` record and points the index at
    /// the freshly written value. Fails exactly when the serialized record
    /// would not fit in a segment.
    pub fn set(&mut self, key: String, value: String) -> (r: Result<(), KvError>)
        requires
            old(self).wf(),
        ensures
            final(self).wf(),
            ({
                let rec = spec_record_len(CommandV::Put { key: key@, value: value@ });
                match r {
                    Ok(u) => {
                        &&& rec <= MAX_SEGMENT_SIZE
                        &&& final(self).contents() == old(self).contents().insert(key@, value@)
                        &&& old(self).active_idx() <= final(self).active_idx() <= old(
                            self,
                        ).active_idx() + 1
                        &&& writer_appended(
                            old(self).seg_list(),
                            final(self).seg_list(),
                            old(self).active_idx(),
                            final(self).active_idx(),
                            spec_serialize(CommandV::Put { key: key@, value: value@ }),
                        )
                    },
                    Err(e) => {
                        &&& *final(self) == *old(self)
                        &&& (e == KvError::RecordTooLarge || e == KvError::Io)
                        &&& (e == KvError::RecordTooLarge ==> rec > MAX_SEGMENT_SIZE)
                        &&& (e == KvError::Io ==> rec <= MAX_SEGMENT_SIZE && old(
                            self,
                        ).active_idx() == usize::MAX as int)
                    },
                }
            }),
    {
        let ghost kk = key@;
        let ghost vv = value@;
        let kb: Vec<u8> = key.as_str().as_bytes_vec();
        let vb: Vec<u8> = value.as_str().as_bytes_vec();
        let total: u128 = 9 + (kb.len() as u128) + (vb.len() as u128);
        if total > MAX_SEGMENT_SIZE as u128 {
            return Err(KvError::RecordTooLarge);
        }
        let cmd = Command::Put { key: key.clone(), value };
        proof {
            assert(self.live().remove_keys(Set::<Seq<char>>::empty()) =~= self.live());
        }
        let (res, g) = self.write(&cmd, Ghost(Set::empty()));
        match res {
            Ok(opt) => {
                let p = opt.unwrap();
                let ghost live_fin = replay_segments(self.segments@, 0, empty_live()).unwrap();
                index_insert(&mut self.index, key, p);
                proof {
                    let e = LiveEntry {
                        file_idx: p.file_idx as int,
                        offset: p.file_offset as int,
                        value: vv,
                    };
                    assert(g@.remove_keys(Set::empty()) =~= g@);
                    assert(positions_of(live_fin) =~= positions_of(g@).insert(
                        kk,
                        KvStorePosition { file_idx: p.file_idx, file_offset: p.file_offset },
                    ));
                    assert(values_of(live_fin) =~= values_of(g@).insert(kk, vv));
                }
                Ok(())
            },
            Err(e) => Err(e),
        }
    }

    /// Removes `key` from the store. When the key is present, a tombstone
    /// record is appended and the index entry deleted; removing an absent
    /// key changes nothing and reports `false`.
    pub fn remove(&mut self, key: String) -> (r: Result<bool, KvError>)
        requires
            old(self).wf(),
        ensures
            final(self).wf(),
            match r {
                Ok(existed) => {
                    &&& existed == old(self).contents().dom().contains(key@)
                    &&& final(self).contents() == old(self).contents().remove(key@)
                    &&& old(self).active_idx() <= final(self).active_idx() <= old(
                        self,
                    ).active_idx() + 1
                    &&& (!existed ==> *final(self) == *old(self))
                    &&& (existed ==> writer_appended(
                        old(self).seg_list(),
                        final(self).seg_list(),
                        old(self).active_idx(),
                        final(self).active_idx(),
                        spec_serialize(CommandV::Remove { key: key@ }),
                    ))
                },
                Err(e) => {
                    &&& e == KvError::Io
                    &&& old(self).active_idx() == usize::MAX as int
                    &&& *final(self) == *old(self)
                },
            },
    {
        let ghost kk = key@;
        proof {
            Self::lemma_wf_entries(self.segments@, self.active_file_idx as int);
        }
        match index_get(&self.index, &key) {
            None => {
                proof {
                    assert(old(self).contents().remove(kk) =~= old(self).contents());
                }
                Ok(false)
            },
            Some(_) => {
                let cmd = Command::Remove { key: key.clone() };
                proof {
                    assert(self.live().remove_keys(Set::<Seq<char>>::empty()) =~= self.live());
                    assert(positions_of(self.live()).dom() =~= self.live().dom());
                    assert(self.live().dom().contains(kk));
                }
                let (res, g) = self.write(&cmd, Ghost(Set::empty()));
                match res {
                    Ok(_) => {
                        let ghost live_fin = replay_segments(
                            self.segments@,
                            0,
                            empty_live(),
                        ).unwrap();
                        index_remove(&mut self.index, &key);
                        proof {
                            assert(g@.remove_keys(Set::empty()) =~= g@);
                            assert(positions_of(live_fin) =~= positions_of(g@).remove(kk));
                            assert(values_of(live_fin) =~= values_of(g@).remove(kk));
                        }
                        Ok(true)
                    },
                    Err(e) => Err(e),
                }
            },
        }
    }

    /// Removes every record: the store returns to the state of a fresh one,
    /// with an empty index and the default active segment index.
    pub fn reset(&mut self) -> (r: Result<(), KvError>)
        ensures
            final(self).wf(),
            r is Ok,
            final(self).contents() == values_of(empty_live()),
            final(self).seg_list().len() == 0,
            final(self).active_idx() == DEFAULT_FILE_IDX as int,
    {
        self.segments.clear();
        self.active_file_idx = DEFAULT_FILE_IDX;
        index_clear(&mut self.index);
        proof {
            assert(self.segments@ =~= Seq::<Segment>::empty());
            assert(index_entries(self.index) =~= positions_of(self.live()));
            assert(self.contents() =~= values_of(empty_live()));
        }
        Ok(())
    }

    /// Hands the segments over, for a caller that persists them or opens a
    /// fresh store from them.
    pub fn into_segments(self) -> (r: Vec<Segment>)
        ensures
            r@ == self.seg_list(),
    {
        self.segments
    }

    /// Borrows the segments, for a caller that mirrors them to disk.
    pub fn segments_ref(&self) -> (r: &Vec<Segment>)
        ensures
            r@ == self.seg_list(),
    {
        &self.segments
    }

    /// The byte size of each segment, in ascending segment order.
    pub fn segment_sizes(&self) -> (r: Vec<u64>)
        ensures
            r@.len() == self.seg_list().len(),
            forall|t: int|
                0 <= t < r@.len() ==> r@[t] == #[trigger] self.seg_list()[t].data@.len() as u64,
    {
        let mut r: Vec<u64> = Vec::new();
        let n: usize = self.segments.len();
        let mut i: usize = 0;
        while i < n
            invariant
                0 <= i <= n,
                n == self.segments@.len(),
                r@.len() == i,
                forall|t: int|
                    0 <= t < i ==> r@[t] == #[trigger] self.segments@[t].data@.len() as u64,
            decreases n - i,
        {
            r.push(self.segments[i].data.len() as u64);
            i = i + 1;
        }
        r
    }

    /// The cap invariant stated on its own: in a well-formed store no
    /// segment exceeds the segment cap.
    pub proof fn law_segment_cap(self)
        requires
            self.wf(),
        ensures
            forall|t: int|
                0 <= t < self.seg_list().len() ==> #[trigger] self.seg_list()[t].data@.len()
                    <= MAX_SEGMENT_SIZE,
    {
    }

    /// Durability stated on its own: the on-disk log of a well-formed store
    /// is authoritative. Replaying the store's own segments — which is what
    /// `open` does after a restart — rebuilds exactly the store's contents,
    /// and the segments meet `open`'s requirements.
    pub proof fn law_durability(self)
        requires
            self.wf(),
        ensures
            sorted_idxs(self.seg_list()),
            forall|t: int|
                0 <= t < self.seg_list().len() ==> 1 <= (#[trigger] self.seg_list()[t]).file_idx
                    && self.seg_list()[t].data@.len() <= MAX_SEGMENT_SIZE,
            replay_segments(self.seg_list(), 0, empty_live()) is Some,
            values_of(replay_segments(self.seg_list(), 0, empty_live()).unwrap())
                == self.contents(),
    {
    }

    /// A store is in the reset state when it holds nothing: no contents, no
    /// segments, and the default active index.
    pub open spec fn is_reset_state(self) -> bool {
        &&& self.contents() == values_of(empty_live())
        &&& self.seg_list().len() == 0
        &&& self.active_idx() == DEFAULT_FILE_IDX as int
    }

    /// Resetting is idempotent: every store in the reset state — which
    /// `reset` ensures — has the same observable state, so a second `reset`
    /// is equivalent to one.
    pub proof fn law_reset_idempotent(self, other: KvStore)
        requires
            self.is_reset_state(),
            other.is_reset_state(),
        ensures
            self.contents() == other.contents(),
            self.seg_list() == other.seg_list(),
            self.active_idx() == other.active_idx(),
    {
        assert(self.seg_list() =~= other.seg_list());
    }
}

/// One logical operation against the store, as the round-trip and tombstone
/// laws quantify over histories of them.
pub enum SpecOp {
    Put { key: Seq<char>, value: Seq<char> },
    Drop { key: Seq<char> },
}

/// Whether an operation touches the given key.
pub open spec fn op_affects(op: SpecOp, key: Seq<char>) -> bool {
    match op {
        SpecOp::Put { key: k, value } => k == key,
        SpecOp::Drop { key: k } => k == key,
    }
}

/// The contents after running a history of operations: exactly the map
/// updates that `set` and `remove` promise in their contracts.
pub open spec fn apply_ops(m: Map<Seq<char>, Seq<char>>, ops: Seq<SpecOp>) -> Map<
    Seq<char>,
    Seq<char>,
>
    decreases ops.len(),
{
    if ops.len() == 0 {
        m
    } else {
        let m2 = match ops[0] {
            SpecOp::Put { key, value } => m.insert(key, value),
            SpecOp::Drop { key } => m.remove(key),
        };
        apply_ops(m2, ops.drop_first())
    }
}

/// Round trip: after any history whose last operation affecting `key` sets
/// it to `value`, the contents hold exactly `value` for `key` — which is
/// what `get` returns.
pub proof fn law_round_trip(
    m: Map<Seq<char>, Seq<char>>,
    ops: Seq<SpecOp>,
    i: int,
    key: Seq<char>,
    value: Seq<char>,
)
    requires
        0 <= i < ops.len(),
        ops[i] == (SpecOp::Put { key, value }),
        forall|j: int| i < j < ops.len() ==> !op_affects(#[trigger] ops[j], key),
    ensures
        apply_ops(m, ops).dom().contains(key),
        apply_ops(m, ops)[key] == value,
    decreases ops.len(),
{
    if i == 0 {
        lemma_apply_ops_unaffected(m.insert(key, value), ops.drop_first(), key);
    } else {
        assert forall|j: int| i - 1 < j < ops.drop_first().len() implies !op_affects(
            #[trigger] ops.drop_first()[j],
            key,
        ) by {
            assert(ops.drop_first()[j] == ops[j + 1]);
        }
        let m2 = match ops[0] {
            SpecOp::Put { key: k0, value: v0 } => m.insert(k0, v0),
            SpecOp::Drop { key: k0 } => m.remove(k0),
        };
        law_round_trip(m2, ops.drop_first(), i - 1, key, value);
    }
}

/// Tombstone: after any history whose last operation affecting `key`
/// removes it, the contents hold nothing for `key` — so `get` returns
/// nothing.
pub proof fn law_tombstone(m: Map<Seq<char>, Seq<char>>, ops: Seq<SpecOp>, i: int, key: Seq<char>)
    requires
        0 <= i < ops.len(),
        ops[i] == (SpecOp::Drop { key }),
        forall|j: int| i < j < ops.len() ==> !op_affects(#[trigger] ops[j], key),
    ensures
        !apply_ops(m, ops).dom().contains(key),
    decreases ops.len(),
{
    if i == 0 {
        lemma_apply_ops_unaffected(m.remove(key), ops.drop_first(), key);
    } else {
        assert forall|j: int| i - 1 < j < ops.drop_first().len() implies !op_affects(
            #[trigger] ops.drop_first()[j],
            key,
        ) by {
            assert(ops.drop_first()[j] == ops[j + 1]);
        }
        let m2 = match ops[0] {
            SpecOp::Put { key: k0, value: v0 } => m.insert(k0, v0),
            SpecOp::Drop { key: k0 } => m.remove(k0),
        };
        law_tombstone(m2, ops.drop_first(), i - 1, key);
    }
}

/// Operations that do not affect a key leave that key's state alone.
pub proof fn lemma_apply_ops_unaffected(
    m: Map<Seq<char>, Seq<char>>,
    ops: Seq<SpecOp>,
    key: Seq<char>,
)
    requires
        forall|j: int| 0 <= j < ops.len() ==> !op_affects(#[trigger] ops[j], key),
    ensures
        apply_ops(m, ops).dom().contains(key) == m.dom().contains(key),
        m.dom().contains(key) ==> apply_ops(m, ops)[key] == m[key],
    decreases ops.len(),
{
    if ops.len() > 0 {
        let m2 = match ops[0] {
            SpecOp::Put { key: k0, value: v0 } => m.insert(k0, v0),
            SpecOp::Drop { key: k0 } => m.remove(k0),
        };
        assert(!op_affects(ops[0], key));
        assert forall|j: int| 0 <= j < ops.drop_first().len() implies !op_affects(
            #[trigger] ops.drop_first()[j],
            key,
        ) by {
            assert(ops.drop_first()[j] == ops[j + 1]);
        }
        lemma_apply_ops_unaffected(m2, ops.drop_first(), key);
    }
}

/// Replay of one segment that also tracks tombstones: beside the live
/// entries, the byte position of the last `Remove` record of every key whose
/// final record within the segment is a `Remove`.
pub open spec fn replay_full(
    data: Seq<u8>,
    fidx: int,
    pos: int,
    a: Map<Seq<char>, LiveEntry>,
    t: Map<Seq<char>, int>,
) -> Option<(Map<Seq<char>, LiveEntry>, Map<Seq<char>, int>)>
    decreases data.len() - pos,
{
    if pos == data.len() {
        Some((a, t))
    } else if pos < 0 || pos > data.len() {
        None
    } else {
        match spec_deserialize(data, pos) {
            Some(p) => {
                if pos < p.1 <= data.len() {
                    match p.0 {
                        CommandV::Put { key, value } => replay_full(
                            data,
                            fidx,
                            p.1,
                            a.insert(
                                key,
                                LiveEntry {
                                    file_idx: fidx,
                                    offset: pos + 5 + str_byte_len(key),
                                    value,
                                },
                            ),
                            t.remove(key),
                        ),
                        CommandV::Remove { key } => replay_full(
                            data,
                            fidx,
                            p.1,
                            a.remove(key),
                            t.insert(key, pos),
                        ),
                        _ => None,
                    }
                } else {
                    None
                }
            },
            None => None,
        }
    }
}

/// The tombstone-tracking replay agrees with plain replay: starting plain
/// replay from any `m` overlaid with the tracked state ends in `m` overlaid
/// with the final state.
pub proof fn lemma_replay_full_decompose(
    data: Seq<u8>,
    fidx: int,
    pos: int,
    a0: Map<Seq<char>, LiveEntry>,
    t0: Map<Seq<char>, int>,
    m: Map<Seq<char>, LiveEntry>,
)
    requires
        0 <= pos <= data.len(),
        replay_full(data, fidx, pos, a0, t0) is Some,
    ensures
        ({
            let r = replay_full(data, fidx, pos, a0, t0).unwrap();
            replay_data(data, fidx, pos, m.remove_keys(t0.dom()).union_prefer_right(a0)) == Some(
                m.remove_keys(r.1.dom()).union_prefer_right(r.0),
            )
        }),
    decreases data.len() - pos,
{
    if pos == data.len() {
    } else {
        lemma_parse_cmd_props(data, pos);
        let p = spec_deserialize(data, pos).unwrap();
        match p.0 {
            CommandV::Put { key, value } => {
                let e = LiveEntry { file_idx: fidx, offset: pos + 5 + str_byte_len(key), value };
                assert((m.remove_keys(t0.dom()).union_prefer_right(a0)).insert(key, e)
                    =~= m.remove_keys(t0.remove(key).dom()).union_prefer_right(
                    a0.insert(key, e),
                ));
                lemma_replay_full_decompose(data, fidx, p.1, a0.insert(key, e), t0.remove(key), m);
            },
            CommandV::Remove { key } => {
                assert((m.remove_keys(t0.dom()).union_prefer_right(a0)).remove(key)
                    =~= m.remove_keys(t0.insert(key, pos).dom()).union_prefer_right(
                    a0.remove(key),
                ));
                lemma_replay_full_decompose(
                    data,
                    fidx,
                    p.1,
                    a0.remove(key),
                    t0.insert(key, pos),
                    m,
                );
            },
            _ => {},
        }
    }
}

/// A segment's whole effect on any accumulated state: drop its tombstoned
/// keys and overlay its live entries.
pub proof fn lemma_seg_effect(data: Seq<u8>, fidx: int, m: Map<Seq<char>, LiveEntry>)
    requires
        replay_full(data, fidx, 0, Map::empty(), Map::empty()) is Some,
    ensures
        ({
            let r = replay_full(
                data,
                fidx,
                0,
                Map::<Seq<char>, LiveEntry>::empty(),
                Map::<Seq<char>, int>::empty(),
            ).unwrap();
            replay_data(data, fidx, 0, m) == Some(
                m.remove_keys(r.1.dom()).union_prefer_right(r.0),
            )
        }),
{
    lemma_replay_full_decompose(
        data,
        fidx,
        0,
        Map::empty(),
        Map::empty(),
        m,
    );
    assert(m.remove_keys(Map::<Seq<char>, int>::empty().dom()).union_prefer_right(
        Map::<Seq<char>, LiveEntry>::empty(),
    ) =~= m);
}

/// Appending one record to a segment extends the tombstone-tracking replay
/// by exactly that record's effect.
#[verifier::rlimit(100)]
pub proof fn lemma_replay_full_snoc(
    data: Seq<u8>,
    fidx: int,
    pos: int,
    a0: Map<Seq<char>, LiveEntry>,
    t0: Map<Seq<char>, int>,
    c: CommandV,
)
    requires
        0 <= pos <= data.len(),
        replay_full(data, fidx, pos, a0, t0) is Some,
        cmd_fits(c),
        c is Put || c is Remove,
    ensures
        ({
            let r = replay_full(data, fidx, pos, a0, t0).unwrap();
            match c {
                CommandV::Put { key, value } => replay_full(
                    data + spec_serialize(c),
                    fidx,
                    pos,
                    a0,
                    t0,
                ) == Some(
                    (
                        r.0.insert(
                            key,
                            LiveEntry {
                                file_idx: fidx,
                                offset: data.len() + 5 + str_byte_len(key),
                                value,
                            },
                        ),
                        r.1.remove(key),
                    ),
                ),
                CommandV::Remove { key } => replay_full(
                    data + spec_serialize(c),
                    fidx,
                    pos,
                    a0,
                    t0,
                ) == Some((r.0.remove(key), r.1.insert(key, data.len() as int))),
                _ => true,
            }
        }),
    decreases data.len() - pos,
{
    if pos == data.len() {
        lemma_replay_full_last(data, fidx, a0, t0, c);
    } else {
        lemma_deserialize_extend(data, spec_serialize(c), pos);
        lemma_parse_cmd_props(data, pos);
        let p = spec_deserialize(data, pos).unwrap();
        match p.0 {
            CommandV::Put { key, value } => {
                let e = LiveEntry { file_idx: fidx, offset: pos + 5 + str_byte_len(key), value };
                lemma_replay_full_snoc(data, fidx, p.1, a0.insert(key, e), t0.remove(key), c);
            },
            CommandV::Remove { key } => {
                lemma_replay_full_snoc(data, fidx, p.1, a0.remove(key), t0.insert(key, pos), c);
            },
            _ => {},
        }
    }
}

/// The base case of `lemma_replay_full_snoc`: reading the appended record
/// itself.
#[verifier::rlimit(100)]
proof fn lemma_replay_full_last(
    data: Seq<u8>,
    fidx: int,
    a0: Map<Seq<char>, LiveEntry>,
    t0: Map<Seq<char>, int>,
    c: CommandV,
)
    requires
        cmd_fits(c),
        c is Put || c is Remove,
    ensures
        ({
            match c {
                CommandV::Put { key, value } => replay_full(
                    data + spec_serialize(c),
                    fidx,
                    data.len() as int,
                    a0,
                    t0,
                ) == Some(
                    (
                        a0.insert(
                            key,
                            LiveEntry {
                                file_idx: fidx,
                                offset: data.len() + 5 + str_byte_len(key),
                                value,
                            },
                        ),
                        t0.remove(key),
                    ),
                ),
                CommandV::Remove { key } => replay_full(
                    data + spec_serialize(c),
                    fidx,
                    data.len() as int,
                    a0,
                    t0,
                ) == Some((a0.remove(key), t0.insert(key, data.len() as int))),
                _ => true,
            }
        }),
{
    let data2 = data + spec_serialize(c);
    lemma_serialize_len(c);
    lemma_deserialize_at(data, c, Seq::<u8>::empty());
    assert(data + spec_serialize(c) + Seq::<u8>::empty() =~= data2);
    assert(spec_deserialize(data2, data.len() as int) == Some((c, data2.len() as int)));
    match c {
        CommandV::Put { key, value } => {
            let a1 = a0.insert(
                key,
                LiveEntry { file_idx: fidx, offset: data.len() + 5 + str_byte_len(key), value },
            );
            let t1 = t0.remove(key);
            assert(replay_full(data2, fidx, data2.len() as int, a1, t1) == Some((a1, t1)));
        },
        CommandV::Remove { key } => {
            let a1 = a0.remove(key);
            let t1 = t0.insert(key, data.len() as int);
            assert(replay_full(data2, fidx, data2.len() as int, a1, t1) == Some((a1, t1)));
        },
        _ => {},
    }
}

/// Facts about the final tracked state: live entries carry this segment's
/// index and a value that parses at their offset; tombstone positions hold a
/// `Remove` record of their key; the two domains never meet.
pub proof fn lemma_replay_full_props(
    data: Seq<u8>,
    fidx: int,
    pos: int,
    a0: Map<Seq<char>, LiveEntry>,
    t0: Map<Seq<char>, int>,
)
    requires
        0 <= pos <= data.len(),
        replay_full(data, fidx, pos, a0, t0) is Some,
        a0.dom().disjoint(t0.dom()),
        forall|k: Seq<char>| #[trigger] a0.dom().contains(k) ==> a0[k].file_idx == fidx
            && spec_deserialize_str(data, a0[k].offset) is Some && spec_deserialize_str(
            data,
            a0[k].offset,
        ).unwrap().0 == a0[k].value && 0 <= a0[k].offset,
        forall|k: Seq<char>| #[trigger] t0.dom().contains(k) ==> 0 <= t0[k] < pos
            && spec_deserialize(data, t0[k]) == Some(
            (CommandV::Remove { key: k }, t0[k] + 5 + str_byte_len(k)),
        ),
    ensures
        ({
            let r = replay_full(data, fidx, pos, a0, t0).unwrap();
            &&& r.0.dom().disjoint(r.1.dom())
            &&& forall|k: Seq<char>| #[trigger] r.0.dom().contains(k) ==> r.0[k].file_idx == fidx
                && spec_deserialize_str(data, r.0[k].offset) is Some && spec_deserialize_str(
                data,
                r.0[k].offset,
            ).unwrap().0 == r.0[k].value && 0 <= r.0[k].offset
            &&& forall|k: Seq<char>| #[trigger] r.1.dom().contains(k) ==> 0 <= r.1[k]
                < data.len() && spec_deserialize(data, r.1[k]) == Some(
                (CommandV::Remove { key: k }, r.1[k] + 5 + str_byte_len(k)),
            )
        }),
    decreases data.len() - pos,
{
    if pos == data.len() {
    } else {
        lemma_parse_cmd_props(data, pos);
        let p = spec_deserialize(data, pos).unwrap();
        match p.0 {
            CommandV::Put { key, value } => {
                let e = LiveEntry { file_idx: fidx, offset: pos + 5 + str_byte_len(key), value };
                lemma_replay_full_props(data, fidx, p.1, a0.insert(key, e), t0.remove(key));
            },
            CommandV::Remove { key } => {
                lemma_replay_full_props(data, fidx, p.1, a0.remove(key), t0.insert(key, pos));
            },
            _ => {},
        }
    }
}

/// Whether a segment's bytes replay cleanly does not depend on the state
/// replay starts from.
pub proof fn lemma_replay_full_some(
    data: Seq<u8>,
    fidx: int,
    pos: int,
    m: Map<Seq<char>, LiveEntry>,
    a0: Map<Seq<char>, LiveEntry>,
    t0: Map<Seq<char>, int>,
)
    requires
        0 <= pos <= data.len(),
        replay_data(data, fidx, pos, m) is Some,
    ensures
        replay_full(data, fidx, pos, a0, t0) is Some,
    decreases data.len() - pos,
{
    if pos == data.len() {
    } else {
        lemma_parse_cmd_props(data, pos);
        let p = spec_deserialize(data, pos).unwrap();
        let m2 = apply_record(m, fidx, pos, p.0).unwrap();
        match p.0 {
            CommandV::Put { key, value } => {
                let e = LiveEntry { file_idx: fidx, offset: pos + 5 + str_byte_len(key), value };
                lemma_replay_full_some(data, fidx, p.1, m2, a0.insert(key, e), t0.remove(key));
            },
            CommandV::Remove { key } => {
                lemma_replay_full_some(data, fidx, p.1, m2, a0.remove(key), t0.insert(key, pos));
            },
            _ => {},
        }
    }
}

/// Every segment of a cleanly replaying log itself replays cleanly.
pub proof fn lemma_replay_segments_seg_some(
    segs: Seq<Segment>,
    i: int,
    m: Map<Seq<char>, LiveEntry>,
    j: int,
)
    requires
        0 <= i <= j < segs.len(),
        replay_segments(segs, i, m) is Some,
    ensures
        replay_full(
            segs[j].data@,
            segs[j].file_idx as int,
            0,
            Map::empty(),
            Map::empty(),
        ) is Some,
    decreases segs.len() - i,
{
    let m2 = replay_data(segs[i].data@, segs[i].file_idx as int, 0, m).unwrap();
    if i == j {
        lemma_replay_full_some(
            segs[j].data@,
            segs[j].file_idx as int,
            0,
            m,
            Map::empty(),
            Map::empty(),
        );
    } else {
        lemma_replay_segments_seg_some(segs, i + 1, m2, j);
    }
}

/// Entries and tombstones set after `pos` carry offsets no smaller than
/// `pos`; the rest are carried through unchanged.
pub proof fn lemma_replay_full_lb(
    data: Seq<u8>,
    fidx: int,
    pos: int,
    a0: Map<Seq<char>, LiveEntry>,
    t0: Map<Seq<char>, int>,
)
    requires
        0 <= pos <= data.len(),
        replay_full(data, fidx, pos, a0, t0) is Some,
    ensures
        ({
            let r = replay_full(data, fidx, pos, a0, t0).unwrap();
            &&& forall|k: Seq<char>| #[trigger] r.0.dom().contains(k) ==> ((a0.dom().contains(k)
                && r.0[k] == a0[k]) || r.0[k].offset >= pos)
            &&& forall|k: Seq<char>| #[trigger] r.1.dom().contains(k) ==> ((t0.dom().contains(k)
                && r.1[k] == t0[k]) || r.1[k] >= pos)
        }),
    decreases data.len() - pos,
{
    if pos == data.len() {
    } else {
        lemma_parse_cmd_props(data, pos);
        let p = spec_deserialize(data, pos).unwrap();
        match p.0 {
            CommandV::Put { key, value } => {
                let e = LiveEntry { file_idx: fidx, offset: pos + 5 + str_byte_len(key), value };
                lemma_replay_full_lb(data, fidx, p.1, a0.insert(key, e), t0.remove(key));
            },
            CommandV::Remove { key } => {
                lemma_replay_full_lb(data, fidx, p.1, a0.remove(key), t0.insert(key, pos));
            },
            _ => {},
        }
    }
}

/// Replaying a segment with another index leaves every entry of a foreign
/// segment `s` exactly as the incoming state had it.
pub proof fn lemma_replay_data_preserves_foreign(
    data: Seq<u8>,
    fidx: int,
    pos: int,
    m: Map<Seq<char>, LiveEntry>,
    s: int,
)
    requires
        0 <= pos <= data.len(),
        replay_data(data, fidx, pos, m) is Some,
        fidx != s,
    ensures
        ({
            let r = replay_data(data, fidx, pos, m).unwrap();
            forall|k: Seq<char>| #[trigger] r.dom().contains(k) && r[k].file_idx == s
                ==> m.dom().contains(k) && r[k] == m[k]
        }),
    decreases data.len() - pos,
{
    if pos == data.len() {
    } else {
        lemma_parse_cmd_props(data, pos);
        let p = spec_deserialize(data, pos).unwrap();
        let m2 = apply_record(m, fidx, pos, p.0).unwrap();
        lemma_replay_data_preserves_foreign(data, fidx, p.1, m2, s);
        let r = replay_data(data, fidx, pos, m).unwrap();
        assert forall|k: Seq<char>| #[trigger] r.dom().contains(k) && r[k].file_idx == s implies
            m.dom().contains(k) && r[k] == m[k] by {
            match p.0 {
                CommandV::Put { key, value } => {
                    if k == key {
                        assert(m2[k].file_idx == fidx);
                    } else {
                        assert(m2.dom().contains(k) ==> m2[k] == m[k]);
                    }
                },
                _ => {},
            }
        }
    }
}

/// Every entry of the final replayed state that segment `j` owns is exactly
/// the entry that segment `j`'s own replay produced.
pub proof fn lemma_replay_owned(
    segs: Seq<Segment>,
    i: int,
    m: Map<Seq<char>, LiveEntry>,
    j: int,
    a: Map<Seq<char>, LiveEntry>,
    t: Set<Seq<char>>,
)
    requires
        0 <= i <= j < segs.len(),
        sorted_idxs(segs),
        forall|mm: Map<Seq<char>, LiveEntry>|
            #[trigger] replay_data(segs[j].data@, segs[j].file_idx as int, 0, mm) == Some(
                mm.remove_keys(t).union_prefer_right(a),
            ),
        forall|k: Seq<char>| #[trigger] a.dom().contains(k) ==> a[k].file_idx == segs[j].file_idx
            as int,
        forall|k: Seq<char>| #[trigger] m.dom().contains(k) ==> m[k].file_idx < segs[j].file_idx
            as int,
        replay_segments(segs, i, m) is Some,
    ensures
        ({
            let r = replay_segments(segs, i, m).unwrap();
            forall|k: Seq<char>| #[trigger] r.dom().contains(k) && r[k].file_idx == segs[j].file_idx
                as int ==> a.dom().contains(k) && r[k] == a[k]
        }),
    decreases segs.len() - i,
{
    let s = segs[j].file_idx as int;
    let r = replay_segments(segs, i, m).unwrap();
    if i == j {
        let m_mid = m.remove_keys(t).union_prefer_right(a);
        assert forall|k: Seq<char>| #[trigger] m_mid.dom().contains(k) && m_mid[k].file_idx == s
            implies a.dom().contains(k) && m_mid[k] == a[k] by {
            if !a.dom().contains(k) {
                assert(m_mid[k] == m[k]);
            }
        }
        lemma_replay_suffix_foreign(segs, j + 1, m_mid, s, a);
    } else {
        assert(segs[i].file_idx < segs[j].file_idx);
        lemma_replay_data_fidx_lt(segs[i].data@, segs[i].file_idx as int, 0, m, s);
        let m2 = replay_data(segs[i].data@, segs[i].file_idx as int, 0, m).unwrap();
        lemma_replay_owned(segs, i + 1, m2, j, a, t);
    }
}

/// Replaying segments that all have foreign indices keeps the entries of
/// segment `s` that agree with `a` agreeing with `a`.
proof fn lemma_replay_suffix_foreign(
    segs: Seq<Segment>,
    i: int,
    m: Map<Seq<char>, LiveEntry>,
    s: int,
    a: Map<Seq<char>, LiveEntry>,
)
    requires
        0 <= i <= segs.len(),
        replay_segments(segs, i, m) is Some,
        forall|t2: int| i <= t2 < segs.len() ==> #[trigger] segs[t2].file_idx != s,
        forall|k: Seq<char>| #[trigger] m.dom().contains(k) && m[k].file_idx == s
            ==> a.dom().contains(k) && m[k] == a[k],
    ensures
        ({
            let r = replay_segments(segs, i, m).unwrap();
            forall|k: Seq<char>| #[trigger] r.dom().contains(k) && r[k].file_idx == s
                ==> a.dom().contains(k) && r[k] == a[k]
        }),
    decreases segs.len() - i,
{
    if i == segs.len() {
    } else {
        lemma_replay_data_preserves_foreign(segs[i].data@, segs[i].file_idx as int, 0, m, s);
        let m2 = replay_data(segs[i].data@, segs[i].file_idx as int, 0, m).unwrap();
        lemma_replay_suffix_foreign(segs, i + 1, m2, s, a);
    }
}

/// A live map patched at the entries a compacted segment still owns: keys
/// whose entry points into segment `s` and appear in `p` take their entry
/// from `p`; every other key keeps its entry.
pub open spec fn patched(
    m: Map<Seq<char>, LiveEntry>,
    s: int,
    p: Map<Seq<char>, LiveEntry>,
) -> Map<Seq<char>, LiveEntry> {
    Map::new(
        |k: Seq<char>| m.dom().contains(k),
        |k: Seq<char>|
            if m[k].file_idx == s && p.dom().contains(k) {
                p[k]
            } else {
                m[k]
            },
    )
}

/// Replaying a segment with another index commutes with patching entries of
/// segment `s`.
pub proof fn lemma_replay_data_patched(
    data: Seq<u8>,
    fidx: int,
    pos: int,
    m: Map<Seq<char>, LiveEntry>,
    s: int,
    p: Map<Seq<char>, LiveEntry>,
)
    requires
        0 <= pos <= data.len(),
        replay_data(data, fidx, pos, m) is Some,
        fidx != s,
    ensures
        replay_data(data, fidx, pos, patched(m, s, p)) == Some(
            patched(replay_data(data, fidx, pos, m).unwrap(), s, p),
        ),
    decreases data.len() - pos,
{
    if pos == data.len() {
    } else {
        lemma_parse_cmd_props(data, pos);
        let q = spec_deserialize(data, pos).unwrap();
        match q.0 {
            CommandV::Put { key, value } => {
                let e = LiveEntry { file_idx: fidx, offset: pos + 5 + str_byte_len(key), value };
                assert(patched(m, s, p).insert(key, e) =~= patched(m.insert(key, e), s, p));
                lemma_replay_data_patched(data, fidx, q.1, m.insert(key, e), s, p);
            },
            CommandV::Remove { key } => {
                assert(patched(m, s, p).remove(key) =~= patched(m.remove(key), s, p));
                lemma_replay_data_patched(data, fidx, q.1, m.remove(key), s, p);
            },
            _ => {},
        }
    }
}

/// Replaying segments none of which is segment `s` commutes with patching
/// entries of segment `s`.
pub proof fn lemma_replay_segments_patched(
    segs: Seq<Segment>,
    i: int,
    m: Map<Seq<char>, LiveEntry>,
    s: int,
    p: Map<Seq<char>, LiveEntry>,
)
    requires
        0 <= i <= segs.len(),
        replay_segments(segs, i, m) is Some,
        forall|t: int| i <= t < segs.len() ==> #[trigger] segs[t].file_idx != s,
    ensures
        replay_segments(segs, i, patched(m, s, p)) == Some(
            patched(replay_segments(segs, i, m).unwrap(), s, p),
        ),
    decreases segs.len() - i,
{
    if i == segs.len() {
    } else {
        lemma_replay_data_patched(segs[i].data@, segs[i].file_idx as int, 0, m, s, p);
        let m2 = replay_data(segs[i].data@, segs[i].file_idx as int, 0, m).unwrap();
        lemma_replay_segments_patched(segs, i + 1, m2, s, p);
    }
}

/// Two segment lists equal from position `i` on replay identically.
pub proof fn lemma_replay_segments_congruent(
    segs: Seq<Segment>,
    segs2: Seq<Segment>,
    i: int,
    m: Map<Seq<char>, LiveEntry>,
)
    requires
        0 <= i <= segs.len(),
        segs2.len() == segs.len(),
        forall|t: int| i <= t < segs.len() ==> segs2[t] == segs[t],
    ensures
        replay_segments(segs2, i, m) == replay_segments(segs, i, m),
    decreases segs.len() - i,
{
    if i < segs.len() {
        assert(segs2[i] == segs[i]);
        match replay_data(segs[i].data@, segs[i].file_idx as int, 0, m) {
            Some(m2) => {
                lemma_replay_segments_congruent(segs, segs2, i + 1, m2);
            },
            None => {},
        }
    }
}

/// Replaying a segment whose index is below `s` keeps every entry's segment
/// index below `s`.
pub proof fn lemma_replay_data_fidx_lt(
    data: Seq<u8>,
    fidx: int,
    pos: int,
    m: Map<Seq<char>, LiveEntry>,
    s: int,
)
    requires
        0 <= pos <= data.len(),
        replay_data(data, fidx, pos, m) is Some,
        fidx < s,
        forall|k: Seq<char>| #[trigger] m.dom().contains(k) ==> m[k].file_idx < s,
    ensures
        forall|k: Seq<char>|
            #[trigger] replay_data(data, fidx, pos, m).unwrap().dom().contains(k)
                ==> replay_data(data, fidx, pos, m).unwrap()[k].file_idx < s,
    decreases data.len() - pos,
{
    if pos == data.len() {
    } else {
        lemma_parse_cmd_props(data, pos);
        let q = spec_deserialize(data, pos).unwrap();
        let m2 = apply_record(m, fidx, pos, q.0).unwrap();
        assert forall|k: Seq<char>| #[trigger] m2.dom().contains(k) implies m2[k].file_idx
            < s by {
            match q.0 {
                CommandV::Put { key, value } => {
                    if k != key {
                        assert(m.dom().contains(k));
                    }
                },
                _ => {
                    assert(m.dom().contains(k));
                },
            }
        }
        lemma_replay_data_fidx_lt(data, fidx, q.1, m2, s);
    }
}

/// Replay of a list equal to `segs` except that the element at `j` has been
/// dropped, matching `segs` shifted by one from `j` on.
pub proof fn lemma_replay_segments_shift(
    segs: Seq<Segment>,
    segs3: Seq<Segment>,
    i: int,
    m: Map<Seq<char>, LiveEntry>,
)
    requires
        0 <= i <= segs3.len(),
        segs3.len() == segs.len() - 1,
        forall|t: int| i <= t < segs3.len() ==> segs3[t] == segs[t + 1],
    ensures
        replay_segments(segs3, i, m) == replay_segments(segs, i + 1, m),
    decreases segs3.len() - i,
{
    if i < segs3.len() {
        assert(segs3[i] == segs[i + 1]);
        match replay_data(segs3[i].data@, segs3[i].file_idx as int, 0, m) {
            Some(m2) => {
                lemma_replay_segments_shift(segs, segs3, i + 1, m2);
            },
            None => {},
        }
    }
}

/// Removing a segment whose replay is the identity leaves the whole replay
/// unchanged.
pub proof fn lemma_replay_remove_segment(
    segs: Seq<Segment>,
    i: int,
    m: Map<Seq<char>, LiveEntry>,
    j: int,
)
    requires
        0 <= i <= j < segs.len(),
        forall|mm: Map<Seq<char>, LiveEntry>|
            #[trigger] replay_data(segs[j].data@, segs[j].file_idx as int, 0, mm) == Some(mm),
    ensures
        replay_segments(segs.remove(j), i, m) == replay_segments(segs, i, m),
    decreases segs.len() - i,
{
    let segs3 = segs.remove(j);
    if i == j {
        lemma_replay_segments_shift(segs, segs3, i, m);
    } else {
        assert(segs3[i] == segs[i]);
        match replay_data(segs[i].data@, segs[i].file_idx as int, 0, m) {
            Some(m2) => {
                lemma_replay_remove_segment(segs, i + 1, m2, j);
            },
            None => {},
        }
    }
}

/// Replacing segment `j` by one with the same tombstones and the same live
/// keys and values, their entries all owned by segment `j`, turns the whole
/// replay into the patched original replay.
pub proof fn lemma_replay_replace_segment(
    segs: Seq<Segment>,
    segs2: Seq<Segment>,
    i: int,
    m: Map<Seq<char>, LiveEntry>,
    j: int,
    a: Map<Seq<char>, LiveEntry>,
    t: Set<Seq<char>>,
    a2: Map<Seq<char>, LiveEntry>,
)
    requires
        0 <= i <= j < segs.len(),
        segs2.len() == segs.len(),
        forall|t2: int| 0 <= t2 < segs.len() && t2 != j ==> segs2[t2] == segs[t2],
        segs2[j].file_idx == segs[j].file_idx,
        sorted_idxs(segs),
        forall|mm: Map<Seq<char>, LiveEntry>|
            #[trigger] replay_data(segs[j].data@, segs[j].file_idx as int, 0, mm) == Some(
                mm.remove_keys(t).union_prefer_right(a),
            ),
        forall|mm: Map<Seq<char>, LiveEntry>|
            #[trigger] replay_data(segs2[j].data@, segs[j].file_idx as int, 0, mm) == Some(
                mm.remove_keys(t).union_prefer_right(a2),
            ),
        a2.dom() == a.dom(),
        forall|k: Seq<char>| #[trigger] a.dom().contains(k) ==> a[k].value == a2[k].value
            && a[k].file_idx == segs[j].file_idx as int && a2[k].file_idx == segs[j].file_idx
            as int,
        forall|k: Seq<char>| #[trigger] m.dom().contains(k) ==> m[k].file_idx < segs[j].file_idx
            as int,
        replay_segments(segs, i, m) is Some,
    ensures
        replay_segments(segs2, i, m) == Some(
            patched(replay_segments(segs, i, m).unwrap(), segs[j].file_idx as int, a2),
        ),
    decreases segs.len() - i,
{
    let s = segs[j].file_idx as int;
    if i == j {
        let m_mid = m.remove_keys(t).union_prefer_right(a);
        let m_mid2 = m.remove_keys(t).union_prefer_right(a2);
        assert forall|k: Seq<char>| m_mid2.dom().contains(k) == patched(
            m_mid,
            s,
            a2,
        ).dom().contains(k) && (m_mid2.dom().contains(k) ==> m_mid2[k] == patched(m_mid, s, a2)[k])
            by {
            if a.dom().contains(k) {
                assert(m_mid[k] == a[k]);
                assert(m_mid2[k] == a2[k]);
            } else if m.dom().contains(k) && !t.contains(k) {
                assert(m_mid[k] == m[k]);
                assert(m[k].file_idx < s);
            }
        }
        assert(m_mid2 =~= patched(m_mid, s, a2));
        assert forall|t2: int| j + 1 <= t2 < segs.len() implies #[trigger] segs[t2].file_idx
            != s by {
            assert(segs[j].file_idx < segs[t2].file_idx);
        }
        lemma_replay_segments_patched(segs, j + 1, m_mid, s, a2);
        assert forall|t2: int| j + 1 <= t2 < segs.len() implies segs2[t2] == segs[t2] by {}
        lemma_replay_segments_congruent(
            segs,
            segs2,
            j + 1,
            patched(m_mid, s, a2),
        );
    } else {
        assert(segs2[i] == segs[i]);
        assert(segs[i].file_idx < segs[j].file_idx);
        let m2 = replay_data(segs[i].data@, segs[i].file_idx as int, 0, m).unwrap();
        lemma_replay_data_fidx_lt(segs[i].data@, segs[i].file_idx as int, 0, m, s);
        lemma_replay_replace_segment(segs, segs2, i + 1, m2, j, a, t, a2);
    }
}

/// Helper fact for `lemma_replay_segments_push_empty`: past the end, replay
/// of the pushed list stops at the new empty segment.
proof fn lemma_replay_push_empty_base(segs: Seq<Segment>, s: Segment, m: Map<Seq<char>, LiveEntry>)
    requires
        s.data@.len() == 0,
    ensures
        replay_segments(segs.push(s), segs.len() as int, m) == Some(m),
{
    let segs2 = segs.push(s);
    let i = segs.len() as int;
    assert(segs2[i] == s);
    assert(replay_data(s.data@, s.file_idx as int, 0, m) == Some(m));
    assert(replay_segments(segs2, i + 1, m) == Some(m));
}

/// Appending a segment with empty bytes leaves the replay unchanged.
pub proof fn lemma_replay_segments_push_empty(
    segs: Seq<Segment>,
    s: Segment,
    i: int,
    m: Map<Seq<char>, LiveEntry>,
)
    requires
        0 <= i <= segs.len(),
        s.data@.len() == 0,
        replay_segments(segs, i, m) is Some,
    ensures
        replay_segments(segs.push(s), i, m) == replay_segments(segs, i, m),
    decreases segs.len() - i,
{
    let segs2 = segs.push(s);
    if i == segs.len() {
        lemma_replay_push_empty_base(segs, s, m);
    } else {
        assert(segs2[i] == segs[i]);
        let m2 = replay_data(segs[i].data@, segs[i].file_idx as int, 0, m).unwrap();
        lemma_replay_segments_push_empty(segs, s, i + 1, m2);
    }
}

} // verus!
