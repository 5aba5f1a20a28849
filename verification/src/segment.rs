//! Segments: append-only log files of `SetEntry`/`Remove` record frames, each
//! file named `log-<sequence number>.kvslog`.

use vstd::arithmetic::div_mod::lemma_fundamental_div_mod;
use vstd::prelude::*;

use crate::protocol::{spec_deserialize, spec_read_u32, CommandV};

verus! {

/// One segment: its sequence number and its record bytes.
pub struct Segment {
    pub seq: u64,
    pub data: Vec<u8>,
}

/// A directory entry handed to `KvStore::open`: a file name (as bytes) and
/// that file's contents.
pub struct SegmentFile {
    pub name: Vec<u8>,
    pub data: Vec<u8>,
}

/// Whether a command may stand in the persisted log.
pub open spec fn is_log_record(c: CommandV) -> bool {
    c is SetEntry || c is Remove
}

/// Parses a segment's bytes as a sequence of record frames. Each frame is cut
/// to its own length prefix; a leftover shorter than a frame header, a frame
/// that does not parse, or a non-record command makes the whole segment
/// malformed.
pub open spec fn spec_records(bytes: Seq<u8>) -> Option<Seq<CommandV>>
    decreases bytes.len(),
{
    if bytes.len() == 0 {
        Some(Seq::empty())
    } else if bytes.len() < 5 {
        None
    } else {
        let n = spec_read_u32(bytes, 0) as int;
        if n < 5 || n > bytes.len() {
            None
        } else {
            match spec_deserialize(bytes.subrange(0, n)) {
                Some(c) => if is_log_record(c) {
                    match spec_records(bytes.subrange(n, bytes.len() as int)) {
                        Some(rest) => Some(seq![c] + rest),
                        None => None,
                    }
                } else {
                    None
                },
                None => None,
            }
        }
    }
}

/// The records of a segment that parses; empty otherwise.
pub open spec fn seg_records(bytes: Seq<u8>) -> Seq<CommandV> {
    match spec_records(bytes) {
        Some(records) => records,
        None => Seq::empty(),
    }
}

/// One record applied to the index map: `SetEntry` inserts, `Remove` deletes,
/// anything else leaves the map unchanged.
pub open spec fn apply_record(m: Map<Seq<char>, Seq<char>>, c: CommandV) -> Map<
    Seq<char>,
    Seq<char>,
> {
    match c {
        CommandV::SetEntry(k, v) => m.insert(k, v),
        CommandV::Remove(k) => m.remove(k),
        _ => m,
    }
}

/// A record sequence applied in order, oldest first.
pub open spec fn replay_records(m: Map<Seq<char>, Seq<char>>, records: Seq<CommandV>) -> Map<
    Seq<char>,
    Seq<char>,
>
    decreases records.len(),
{
    if records.len() == 0 {
        m
    } else {
        apply_record(replay_records(m, records.drop_last()), records.last())
    }
}

/// Replaying a record after the rest equals applying it first and replaying on.
pub proof fn lemma_replay_cons(m: Map<Seq<char>, Seq<char>>, c: CommandV, records: Seq<CommandV>)
    ensures
        replay_records(m, seq![c] + records) == replay_records(apply_record(m, c), records),
    decreases records.len(),
{
    if records.len() == 0 {
        assert((seq![c] + records) =~= seq![c]);
        assert(seq![c].drop_last() =~= Seq::<CommandV>::empty());
        assert(seq![c].last() == c);
        assert(replay_records(m, seq![c].drop_last()) == m);
        assert(replay_records(m, seq![c]) == apply_record(m, c));
        assert(replay_records(apply_record(m, c), records) == apply_record(m, c));
    } else {
        assert((seq![c] + records).drop_last() =~= seq![c] + records.drop_last());
        assert((seq![c] + records).last() == records.last());
        lemma_replay_cons(m, c, records.drop_last());
        assert(replay_records(m, seq![c] + records) == apply_record(
            replay_records(m, seq![c] + records.drop_last()),
            records.last(),
        ));
    }
}

/// Appending one well-formed record frame to a segment that parses extends
/// its record sequence by exactly that record.
pub proof fn lemma_records_append(bytes: Seq<u8>, c: CommandV)
    requires
        spec_records(bytes) is Some,
        crate::protocol::fits(c),
        is_log_record(c),
    ensures
        spec_records(bytes + crate::protocol::spec_serialize(c)) == Some(seg_records(bytes).push(c)),
    decreases bytes.len(),
{
    vstd::bytes::lemma_auto_spec_u32_to_from_le_bytes();
    let f = crate::protocol::spec_serialize(c);
    let total = bytes + f;
    crate::protocol::lemma_serialize_deserialize(c);
    if bytes.len() == 0 {
        assert(total =~= f);
        assert(f.subrange(0, 4) =~= vstd::bytes::spec_u32_to_le_bytes(
            (5 + crate::protocol::spec_payload(c).len()) as u32,
        ));
        assert(spec_read_u32(f, 0) as int == f.len());
        assert(f.subrange(0, f.len() as int) =~= f);
        assert(f.subrange(f.len() as int, f.len() as int) =~= Seq::<u8>::empty());
        assert(spec_records(Seq::<u8>::empty()) == Some(Seq::<CommandV>::empty()));
        assert(seq![c] + Seq::<CommandV>::empty() =~= seg_records(bytes).push(c));
    } else {
        let n = spec_read_u32(bytes, 0) as int;
        assert(total.subrange(0, 4) =~= bytes.subrange(0, 4));
        assert(spec_read_u32(total, 0) as int == n);
        assert(total.subrange(0, n) =~= bytes.subrange(0, n));
        let tail = bytes.subrange(n, bytes.len() as int);
        assert(total.subrange(n, total.len() as int) =~= tail + f);
        lemma_records_append(tail, c);
        let c0 = spec_deserialize(bytes.subrange(0, n)).unwrap();
        assert(seq![c0] + seg_records(tail).push(c) =~= (seq![c0] + seg_records(tail)).push(c));
    }
}

/// The bytes `log-`.
pub open spec fn name_prefix() -> Seq<u8> {
    seq![108u8, 111u8, 103u8, 45u8]
}

/// The bytes `.kvslog`.
pub open spec fn name_suffix() -> Seq<u8> {
    seq![46u8, 107u8, 118u8, 115u8, 108u8, 111u8, 103u8]
}

/// The decimal digits of `n`, most significant first, as ASCII bytes.
pub open spec fn spec_digits(n: nat) -> Seq<u8>
    decreases n,
{
    if n < 10 {
        seq![(48 + n) as u8]
    } else {
        spec_digits(n / 10).push((48 + n % 10) as u8)
    }
}

/// All bytes are ASCII digits.
pub open spec fn is_digits(s: Seq<u8>) -> bool {
    forall|i: int| 0 <= i < s.len() ==> 48 <= #[trigger] s[i] <= 57
}

/// The base-10 value of a digit string.
pub open spec fn spec_digits_value(s: Seq<u8>) -> nat
    recommends
        is_digits(s),
    decreases s.len(),
{
    if s.len() == 0 {
        0
    } else {
        spec_digits_value(s.drop_last()) * 10 + (s.last() - 48) as nat
    }
}

/// The canonical file name of the segment with sequence number `seq`.
pub open spec fn spec_segment_name(seq: u64) -> Seq<u8> {
    name_prefix() + spec_digits(seq as nat) + name_suffix()
}

/// The sequence number embedded in a segment file name, if the name has the
/// segment shape. Leading zeros in the digits are tolerated.
pub open spec fn spec_parse_name(name: Seq<u8>) -> Option<u64> {
    if name.len() >= 12 && name.subrange(0, 4) == name_prefix() && name.subrange(
        name.len() - 7,
        name.len() as int,
    ) == name_suffix() {
        let ds = name.subrange(4, name.len() - 7);
        if is_digits(ds) && spec_digits_value(ds) <= u64::MAX {
            Some(spec_digits_value(ds) as u64)
        } else {
            None
        }
    } else {
        None
    }
}

/// The digits of `n` are ASCII digits and evaluate back to `n`.
pub proof fn lemma_digits(n: nat)
    ensures
        spec_digits(n).len() >= 1,
        is_digits(spec_digits(n)),
        spec_digits_value(spec_digits(n)) == n,
    decreases n,
{
    if n < 10 {
        assert(spec_digits(n).drop_last() =~= Seq::<u8>::empty());
        assert(spec_digits(n).last() == (48 + n) as u8);
        assert(((48 + n) as u8 - 48) as nat == n);
        assert(spec_digits_value(spec_digits(n).drop_last()) == 0);
        assert(spec_digits_value(spec_digits(n)) == 0 * 10 + (((48 + n) as u8) - 48) as nat);
    } else {
        lemma_digits(n / 10);
        lemma_fundamental_div_mod(n as int, 10);
        assert(spec_digits(n).drop_last() =~= spec_digits(n / 10));
        assert(spec_digits(n).last() == (48 + n % 10) as u8);
        assert(((48 + n % 10) as u8 - 48) as nat == n % 10);
        assert(spec_digits_value(spec_digits(n)) == spec_digits_value(spec_digits(n / 10)) * 10 + n
            % 10);
        assert(spec_digits_value(spec_digits(n)) == (n / 10) * 10 + n % 10);
        assert((n / 10) * 10 + n % 10 == n);
    }
}

/// The canonical name of a segment parses back to its sequence number.
pub proof fn lemma_name_roundtrip(seq: u64)
    ensures
        spec_parse_name(spec_segment_name(seq)) == Some(seq),
{
    lemma_digits(seq as nat);
    let name = spec_segment_name(seq);
    assert(name.subrange(0, 4) =~= name_prefix());
    assert(name.subrange(name.len() - 7, name.len() as int) =~= name_suffix());
    assert(name.subrange(4, name.len() - 7) =~= spec_digits(seq as nat));
}

/// Builds the file name `log-<seq>.kvslog`.
pub fn segment_file_name(seq: u64) -> (r: Vec<u8>)
    ensures
        r@ == spec_segment_name(seq),
{
    let mut digits_rev: Vec<u8> = Vec::new();
    let mut n: u64 = seq;
    digits_rev.push(48 + (n % 10) as u8);
    proof {
        assert(digits_rev@.reverse() =~= digits_rev@);
        if seq >= 10 {
            assert(spec_digits(seq as nat) =~= spec_digits((seq / 10) as nat) + digits_rev@.reverse());
        }
    }
    n = n / 10;
    while n > 0
        invariant
            if n == 0 {
                spec_digits(seq as nat) == digits_rev@.reverse()
            } else {
                spec_digits(seq as nat) == spec_digits(n as nat) + digits_rev@.reverse()
            },
        decreases n,
    {
        let ghost prev = digits_rev@;
        digits_rev.push(48 + (n % 10) as u8);
        proof {
            assert(digits_rev@.reverse() =~= seq![(48 + (n as nat) % 10) as u8] + prev.reverse());
            if n >= 10 {
                assert(spec_digits(n as nat) =~= spec_digits((n / 10) as nat).push(
                    (48 + (n as nat) % 10) as u8,
                ));
                assert(spec_digits(seq as nat) =~= spec_digits((n / 10) as nat)
                    + digits_rev@.reverse());
            } else {
                assert(spec_digits(n as nat) =~= seq![(48 + (n as nat) % 10) as u8]);
                assert(spec_digits(seq as nat) =~= digits_rev@.reverse());
            }
        }
        n = n / 10;
    }
    let mut r: Vec<u8> = Vec::new();
    r.push(108);
    r.push(111);
    r.push(103);
    r.push(45);
    proof {
        assert(r@ =~= name_prefix());
    }
    let count: usize = digits_rev.len();
    let mut i: usize = count;
    while i > 0
        invariant
            i <= count,
            count == digits_rev@.len(),
            spec_digits(seq as nat) == digits_rev@.reverse(),
            r@ == name_prefix() + spec_digits(seq as nat).take(count - i),
        decreases i,
    {
        i = i - 1;
        r.push(digits_rev[i]);
        proof {
            assert(spec_digits(seq as nat)[count - i - 1] == digits_rev@[i as int]);
            assert(r@ =~= name_prefix() + spec_digits(seq as nat).take(count - i));
        }
    }
    assert(spec_digits(seq as nat).take(count as int) =~= spec_digits(seq as nat));
    r.push(46);
    r.push(107);
    r.push(118);
    r.push(115);
    r.push(108);
    r.push(111);
    r.push(103);
    proof {
        assert(r@ =~= spec_segment_name(seq));
    }
    r
}

/// Parses the sequence number out of a segment file name; anything that does
/// not have the segment-name shape yields nothing.
pub fn extract_log_number(name: &Vec<u8>) -> (r: Option<u64>)
    ensures
        r == spec_parse_name(name@),
{
    let len: usize = name.len();
    if len < 12 {
        return None;
    }
    if !(name[0] == 108 && name[1] == 111 && name[2] == 103 && name[3] == 45) {
        proof {
            assert(name@.subrange(0, 4) != name_prefix());
        }
        return None;
    }
    proof {
        assert(name@.subrange(0, 4) =~= name_prefix());
    }
    let s: usize = len - 7;
    if !(name[s] == 46 && name[s + 1] == 107 && name[s + 2] == 118 && name[s + 3] == 115 && name[s
        + 4] == 108 && name[s + 5] == 111 && name[s + 6] == 103) {
        proof {
            assert(name@.subrange(len - 7, len as int) != name_suffix());
        }
        return None;
    }
    proof {
        assert(name@.subrange(len - 7, len as int) =~= name_suffix());
    }
    let ghost ds = name@.subrange(4, len - 7);
    let mut acc: u64 = 0;
    let mut i: usize = 4;
    while i < s
        invariant
            4 <= i <= s,
            s == len - 7,
            len == name@.len(),
            12 <= len,
            ds == name@.subrange(4, len - 7),
            is_digits(ds.take(i - 4)),
            acc == spec_digits_value(ds.take(i - 4)),
        decreases s - i,
    {
        let b: u8 = name[i];
        if b < 48 || b > 57 {
            proof {
                assert(ds[i - 4] == b);
                assert(!is_digits(ds));
            }
            return None;
        }
        let d: u64 = (b - 48) as u64;
        if acc > (u64::MAX - d) / 10 {
            proof {
                lemma_fundamental_div_mod((u64::MAX - d) as int, 10);
                assert(ds.take(i - 4 + 1).drop_last() =~= ds.take(i - 4));
                assert(ds.take(i - 4 + 1).last() == b);
                assert(spec_digits_value(ds.take(i - 4 + 1)) > u64::MAX);
                lemma_digits_value_mono(ds, i - 4 + 1);
            }
            return None;
        }
        proof {
            lemma_fundamental_div_mod((u64::MAX - d) as int, 10);
            assert(ds.take(i - 4 + 1).drop_last() =~= ds.take(i - 4));
            assert(ds.take(i - 4 + 1).last() == b);
        }
        acc = acc * 10 + d;
        i = i + 1;
    }
    proof {
        assert(ds.take(i - 4) =~= ds);
    }
    Some(acc)
}

/// A digit string is worth at least as much as any of its prefixes.
proof fn lemma_digits_value_mono(s: Seq<u8>, j: int)
    requires
        0 <= j <= s.len(),
    ensures
        spec_digits_value(s) >= spec_digits_value(s.take(j)),
    decreases s.len(),
{
    if j == s.len() {
        assert(s.take(j) =~= s);
    } else {
        assert(s.drop_last().take(j) =~= s.take(j));
        lemma_digits_value_mono(s.drop_last(), j);
    }
}

} // verus!
