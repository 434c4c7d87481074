use vstd::prelude::*;
use vstd::utf8::*;

use crate::bytes::{read_u32_le, read_u64_le, u32_le, u64_le};
use crate::enumerate::IndexError;
use crate::index::MftIndex;
use crate::store::{store_clear, store_entries, store_insert, EntryView, FileEntry};

verus! {

broadcast use {encode_utf8_valid_utf8, encode_utf8_decode_utf8};

/// First word of a snapshot ("MFTI" in little-endian order).
pub const SNAPSHOT_MAGIC: u32 = 0x4954_464D;

/// Format version of a snapshot; a reader refuses any other.
pub const SNAPSHOT_VERSION: u32 = 1;

/// Bytes before the first entry: magic, version, next USN, journal id, count.
pub const SNAPSHOT_HEADER_LEN: usize = 32;

/// Bytes of an entry before its name: FRN, parent FRN, flag, name length.
pub const ENTRY_HEADER_LEN: usize = 21;

/// The content of a snapshot: the entries and the journal anchor.
pub struct SnapshotView {
    pub entries: Seq<(u64, EntryView)>,
    pub next_usn: i64,
    pub journal_id: u64,
}

pub open spec fn le64(x: u64) -> Seq<u8> {
    seq![
        x as u8,
        (x >> 8u64) as u8,
        (x >> 16u64) as u8,
        (x >> 24u64) as u8,
        (x >> 32u64) as u8,
        (x >> 40u64) as u8,
        (x >> 48u64) as u8,
        (x >> 56u64) as u8,
    ]
}

pub open spec fn le32(x: u32) -> Seq<u8> {
    seq![x as u8, (x >> 8u32) as u8, (x >> 16u32) as u8, (x >> 24u32) as u8]
}

/// One entry: FRN, parent FRN, directory flag (0 or 1), the byte length of
/// the name and the name in UTF-8; integers little-endian.
pub open spec fn encode_entry(frn: u64, e: EntryView) -> Seq<u8> {
    le64(frn) + le64(e.parent_frn) + seq![if e.is_dir { 1u8 } else { 0u8 }] + le32(
        encode_utf8(e.name).len() as u32,
    ) + encode_utf8(e.name)
}

pub open spec fn encode_entries(es: Seq<(u64, EntryView)>) -> Seq<u8>
    decreases es.len(),
{
    if es.len() == 0 {
        Seq::empty()
    } else {
        encode_entry(es[0].0, es[0].1) + encode_entries(es.drop_first())
    }
}

/// A snapshot: magic, version, next USN, journal id, the number of entries,
/// then the entries.
pub open spec fn encode_snapshot(s: SnapshotView) -> Seq<u8> {
    le32(SNAPSHOT_MAGIC) + le32(SNAPSHOT_VERSION) + le64(s.next_usn as u64) + le64(s.journal_id)
        + le64(s.entries.len() as u64) + encode_entries(s.entries)
}

/// The entry at `off`, and where the next one starts.
pub open spec fn parse_entry(b: Seq<u8>, off: int) -> Option<((u64, EntryView), int)> {
    if off < 0 || off + ENTRY_HEADER_LEN > b.len() {
        None
    } else {
        let flag = b[off + 16];
        let len = u32_le(b, off + 17) as int;
        let start = off + ENTRY_HEADER_LEN;
        if flag > 1 || start + len > b.len() || !valid_utf8(b.subrange(start, start + len)) {
            None
        } else {
            Some(
                (
                    (
                        u64_le(b, off),
                        EntryView {
                            parent_frn: u64_le(b, off + 8),
                            name: decode_utf8(b.subrange(start, start + len)),
                            is_dir: flag == 1,
                        },
                    ),
                    start + len,
                ),
            )
        }
    }
}

/// `count` entries from `off` on, and where they end.
pub open spec fn parse_entries(b: Seq<u8>, off: int, count: nat) -> Option<
    (Seq<(u64, EntryView)>, int),
>
    decreases count,
{
    if count == 0 {
        Some((Seq::empty(), off))
    } else {
        match parse_entry(b, off) {
            None => None,
            Some((e, next)) => match parse_entries(b, next, (count - 1) as nat) {
                None => None,
                Some((rest, end)) => Some((seq![e] + rest, end)),
            },
        }
    }
}

/// The snapshot that `b` holds, if `b` is exactly one well-formed snapshot.
pub open spec fn parse_snapshot(b: Seq<u8>) -> Option<SnapshotView> {
    if b.len() < SNAPSHOT_HEADER_LEN || u32_le(b, 0) != SNAPSHOT_MAGIC || u32_le(b, 4)
        != SNAPSHOT_VERSION {
        None
    } else {
        match parse_entries(b, SNAPSHOT_HEADER_LEN as int, u64_le(b, 24) as nat) {
            Some((es, end)) => if end == b.len() {
                Some(
                    SnapshotView {
                        entries: es,
                        next_usn: u64_le(b, 8) as i64,
                        journal_id: u64_le(b, 16),
                    },
                )
            } else {
                None
            },
            None => None,
        }
    }
}

/// Every name of the entries fits the format's 32-bit length field.
pub open spec fn names_fit(es: Seq<(u64, EntryView)>) -> bool {
    forall|i: int| 0 <= i < es.len() ==> encode_utf8((#[trigger] es[i]).1.name).len() <= u32::MAX
}

/// The map that a list of entries gives, later ones winning.
pub open spec fn map_of_entries(es: Seq<(u64, EntryView)>) -> Map<u64, EntryView>
    decreases es.len(),
{
    if es.len() == 0 {
        Map::empty()
    } else {
        map_of_entries(es.drop_last()).insert(es.last().0, es.last().1)
    }
}

/// The list holds each entry of `m` exactly once.
pub open spec fn lists_store(es: Seq<(u64, EntryView)>, m: Map<u64, EntryView>) -> bool {
    &&& forall|i: int, j: int| 0 <= i < j < es.len() ==> es[i].0 != es[j].0
    &&& forall|i: int|
        0 <= i < es.len() ==> m.contains_key(#[trigger] es[i].0) && m[es[i].0] == es[i].1
    &&& forall|k: u64| m.contains_key(k) ==> exists|i: int| 0 <= i < es.len() && #[trigger] es[i].0 == k
}

pub open spec fn entries_view(v: Seq<(u64, FileEntry)>) -> Seq<(u64, EntryView)> {
    v.map_values(|p: (u64, FileEntry)| (p.0, p.1@))
}

proof fn lemma_u64_at(b: Seq<u8>, off: int, x: u64)
    requires
        0 <= off,
        off + 8 <= b.len(),
        b.subrange(off, off + 8) == le64(x),
    ensures
        u64_le(b, off) == x,
{
    let s = b.subrange(off, off + 8);
    let (b0, b1, b2, b3, b4, b5, b6, b7) = (s[0], s[1], s[2], s[3], s[4], s[5], s[6], s[7]);
    assert(b[off] == b0 && b[off + 1] == b1 && b[off + 2] == b2 && b[off + 3] == b3);
    assert(b[off + 4] == b4 && b[off + 5] == b5 && b[off + 6] == b6 && b[off + 7] == b7);
    assert((b0 as u64) | ((b1 as u64) << 8u64) | ((b2 as u64) << 16u64) | ((b3 as u64) << 24u64)
        | ((b4 as u64) << 32u64) | ((b5 as u64) << 40u64) | ((b6 as u64) << 48u64) | ((
    b7 as u64) << 56u64) == x) by (bit_vector)
        requires
            b0 == x as u8,
            b1 == (x >> 8u64) as u8,
            b2 == (x >> 16u64) as u8,
            b3 == (x >> 24u64) as u8,
            b4 == (x >> 32u64) as u8,
            b5 == (x >> 40u64) as u8,
            b6 == (x >> 48u64) as u8,
            b7 == (x >> 56u64) as u8,
    ;
}

proof fn lemma_u32_at(b: Seq<u8>, off: int, x: u32)
    requires
        0 <= off,
        off + 4 <= b.len(),
        b.subrange(off, off + 4) == le32(x),
    ensures
        u32_le(b, off) == x,
{
    let s = b.subrange(off, off + 4);
    let (b0, b1, b2, b3) = (s[0], s[1], s[2], s[3]);
    assert(b[off] == b0 && b[off + 1] == b1 && b[off + 2] == b2 && b[off + 3] == b3);
    assert((b0 as u32) | ((b1 as u32) << 8u32) | ((b2 as u32) << 16u32) | ((b3 as u32) << 24u32)
        == x) by (bit_vector)
        requires
            b0 == x as u8,
            b1 == (x >> 8u32) as u8,
            b2 == (x >> 16u32) as u8,
            b3 == (x >> 24u32) as u8,
    ;
}

proof fn lemma_parse_entry(b: Seq<u8>, off: int, frn: u64, e: EntryView)
    requires
        0 <= off,
        off + encode_entry(frn, e).len() <= b.len(),
        b.subrange(off, off + encode_entry(frn, e).len()) == encode_entry(frn, e),
        encode_utf8(e.name).len() <= u32::MAX,
    ensures
        parse_entry(b, off) == Some(((frn, e), off + encode_entry(frn, e).len())),
{
    let enc = encode_entry(frn, e);
    let name = encode_utf8(e.name);
    let len = name.len();
    assert(b.subrange(off, off + 8) =~= enc.subrange(0, 8));
    assert(enc.subrange(0, 8) =~= le64(frn));
    lemma_u64_at(b, off, frn);
    assert(b.subrange(off + 8, off + 16) =~= enc.subrange(8, 16));
    assert(enc.subrange(8, 16) =~= le64(e.parent_frn));
    lemma_u64_at(b, off + 8, e.parent_frn);
    assert(b[off + 16] == enc[16]);
    assert(b.subrange(off + 17, off + 21) =~= enc.subrange(17, 21));
    assert(enc.subrange(17, 21) =~= le32(len as u32));
    lemma_u32_at(b, off + 17, len as u32);
    let w = b.subrange(off, off + enc.len());
    assert(enc.subrange(21, 21 + len as int) =~= name);
    assert(b.subrange(off + 21, off + 21 + len) =~= w.subrange(21, 21 + len as int));
    assert(enc.len() == 21 + len);
}

proof fn lemma_parse_entries(b: Seq<u8>, off: int, es: Seq<(u64, EntryView)>)
    requires
        0 <= off,
        off + encode_entries(es).len() <= b.len(),
        b.subrange(off, off + encode_entries(es).len()) == encode_entries(es),
        names_fit(es),
    ensures
        parse_entries(b, off, es.len()) == Some((es, off + encode_entries(es).len())),
    decreases es.len(),
{
    if es.len() == 0 {
        assert(parse_entries(b, off, 0) == Some((Seq::<(u64, EntryView)>::empty(), off)));
        assert(es =~= Seq::<(u64, EntryView)>::empty());
    } else {
        let first = encode_entry(es[0].0, es[0].1);
        let rest = encode_entries(es.drop_first());
        let all = encode_entries(es);
        assert(all == first + rest);
        assert(b.subrange(off, off + first.len()) =~= all.subrange(0, first.len() as int));
        assert(all.subrange(0, first.len() as int) =~= first);
        assert(encode_utf8(es[0].1.name).len() <= u32::MAX);
        lemma_parse_entry(b, off, es[0].0, es[0].1);
        let next = off + first.len();
        assert(b.subrange(next, next + rest.len()) =~= all.subrange(
            first.len() as int,
            all.len() as int,
        ));
        assert(all.subrange(first.len() as int, all.len() as int) =~= rest);
        assert(names_fit(es.drop_first())) by {
            assert forall|i: int| 0 <= i < es.drop_first().len() implies encode_utf8(
                (#[trigger] es.drop_first()[i]).1.name,
            ).len() <= u32::MAX by {
                assert(es.drop_first()[i] == es[i + 1]);
            }
        }
        lemma_parse_entries(b, next, es.drop_first());
        assert(seq![(es[0].0, es[0].1)] + es.drop_first() =~= es);
    }
}

/// A snapshot reads back as exactly what was written: its entries in order,
/// its next USN and its journal id.
#[verifier::rlimit(50)]
pub proof fn lemma_snapshot_round_trip(s: SnapshotView)
    requires
        names_fit(s.entries),
        s.entries.len() <= u64::MAX,
    ensures
        parse_snapshot(encode_snapshot(s)) == Some(s),
{
    let b = encode_snapshot(s);
    let body = encode_entries(s.entries);
    assert(b.len() == 32 + body.len());
    assert(b.subrange(0, 4) =~= le32(SNAPSHOT_MAGIC));
    lemma_u32_at(b, 0, SNAPSHOT_MAGIC);
    assert(b.subrange(4, 8) =~= le32(SNAPSHOT_VERSION));
    lemma_u32_at(b, 4, SNAPSHOT_VERSION);
    assert(b.subrange(8, 16) =~= le64(s.next_usn as u64));
    lemma_u64_at(b, 8, s.next_usn as u64);
    assert(b.subrange(16, 24) =~= le64(s.journal_id));
    lemma_u64_at(b, 16, s.journal_id);
    assert(b.subrange(24, 32) =~= le64(s.entries.len() as u64));
    lemma_u64_at(b, 24, s.entries.len() as u64);
    assert(b.subrange(32, 32 + body.len() as int) =~= body);
    lemma_parse_entries(b, 32, s.entries);
    let u = s.next_usn;
    assert((u as u64) as i64 == u) by (bit_vector);
}

proof fn lemma_map_of_entries(es: Seq<(u64, EntryView)>)
    requires
        forall|i: int, j: int| 0 <= i < j < es.len() ==> es[i].0 != es[j].0,
    ensures
        map_of_entries(es).dom().finite(),
        forall|k: u64|
            map_of_entries(es).contains_key(k) <==> exists|i: int| 0 <= i < es.len() && #[trigger] es[i].0 == k,
        forall|i: int| 0 <= i < es.len() ==> map_of_entries(es)[#[trigger] es[i].0] == es[i].1,
    decreases es.len(),
{
    if es.len() > 0 {
        let init = es.drop_last();
        lemma_map_of_entries(init);
        let m = map_of_entries(es);
        assert forall|k: u64| m.contains_key(k) implies exists|i: int| 0 <= i < es.len() && #[trigger] es[i].0 == k by {
            if k != es.last().0 {
                let i = choose|i: int| 0 <= i < init.len() && #[trigger] init[i].0 == k;
                assert(es[i].0 == k);
            }
        }
        assert forall|i: int| 0 <= i < es.len() implies m[#[trigger] es[i].0] == es[i].1 by {
            if i < es.len() - 1 {
                assert(init[i] == es[i]);
            }
        }
        assert forall|k: u64| (exists|i: int| 0 <= i < es.len() && #[trigger] es[i].0 == k) implies m.contains_key(k) by {
            let i = choose|i: int| 0 <= i < es.len() && #[trigger] es[i].0 == k;
            if i < es.len() - 1 {
                assert(init[i].0 == k);
            }
        }
    }
}

/// Loading what was saved restores the store exactly: a list that holds each
/// entry of `m` once, written with any anchor, reads back as that list and
/// anchor, and the list rebuilds `m`.
pub proof fn lemma_load_after_save(
    m: Map<u64, EntryView>,
    es: Seq<(u64, EntryView)>,
    next_usn: i64,
    journal_id: u64,
)
    requires
        lists_store(es, m),
        names_fit(es),
        es.len() <= u64::MAX,
    ensures
        parse_snapshot(encode_snapshot(SnapshotView { entries: es, next_usn, journal_id })) == Some(
            SnapshotView { entries: es, next_usn, journal_id },
        ),
        map_of_entries(es) == m,
{
    lemma_snapshot_round_trip(SnapshotView { entries: es, next_usn, journal_id });
    lemma_map_of_entries(es);
    assert(map_of_entries(es) =~= m);
}

proof fn lemma_encode_entries_push(es: Seq<(u64, EntryView)>, x: (u64, EntryView))
    ensures
        encode_entries(es.push(x)) == encode_entries(es) + encode_entry(x.0, x.1),
    decreases es.len(),
{
    if es.len() == 0 {
        assert(es.push(x).drop_first() =~= Seq::<(u64, EntryView)>::empty());
        assert(es.push(x)[0] == x);
        assert(encode_entries(es.push(x).drop_first()) == Seq::<u8>::empty());
        assert(encode_entries(es) == Seq::<u8>::empty());
        assert(encode_entries(es.push(x)) =~= encode_entries(es) + encode_entry(x.0, x.1));
    } else {
        assert(es.push(x).drop_first() =~= es.drop_first().push(x));
        lemma_encode_entries_push(es.drop_first(), x);
        assert(encode_entries(es.push(x)) =~= encode_entries(es) + encode_entry(x.0, x.1));
    }
}

fn push_u64_le(out: &mut Vec<u8>, x: u64)
    ensures
        final(out)@ == old(out)@ + le64(x),
{
    out.push(x as u8);
    out.push((x >> 8u64) as u8);
    out.push((x >> 16u64) as u8);
    out.push((x >> 24u64) as u8);
    out.push((x >> 32u64) as u8);
    out.push((x >> 40u64) as u8);
    out.push((x >> 48u64) as u8);
    out.push((x >> 56u64) as u8);
    assert(out@ =~= old(out)@ + le64(x));
}

fn push_u32_le(out: &mut Vec<u8>, x: u32)
    ensures
        final(out)@ == old(out)@ + le32(x),
{
    out.push(x as u8);
    out.push((x >> 8u32) as u8);
    out.push((x >> 16u32) as u8);
    out.push((x >> 24u32) as u8);
    assert(out@ =~= old(out)@ + le32(x));
}

/// Relies on `String::from_utf8`: it accepts exactly the valid UTF-8 byte
/// sequences and keeps the characters they encode.
#[verifier::external_body]
fn utf8_to_string(bytes: Vec<u8>) -> (r: Option<String>)
    ensures
        r is Some <==> valid_utf8(bytes@),
        r is Some ==> r->Some_0@ == decode_utf8(bytes@),
{
    String::from_utf8(bytes).ok()
}

/// The bytes `b[start..start + len]`.
fn copy_range(b: &[u8], start: usize, len: usize) -> (r: Vec<u8>)
    requires
        start + len <= b@.len(),
    ensures
        r@ == b@.subrange(start as int, start + len),
{
    let blen = b.len();
    let mut out: Vec<u8> = Vec::with_capacity(len);
    let mut i: usize = 0;
    while i < len
        invariant
            start + len <= b@.len(),
            blen == b@.len(),
            i <= len,
            out@ == b@.subrange(start as int, start + i),
        decreases len - i,
    {
        out.push(b[start + i]);
        assert(out@ =~= b@.subrange(start as int, start + i + 1));
        i = i + 1;
    }
    out
}

/// Reads the entries of a snapshot: `count` of them from the end of the
/// header, which must end exactly at the end of `b`.
fn read_entries(b: &[u8], count: u64) -> (r: Option<Vec<(u64, FileEntry)>>)
    requires
        SNAPSHOT_HEADER_LEN <= b@.len(),
    ensures
        match parse_entries(b@, SNAPSHOT_HEADER_LEN as int, count as nat) {
            Some((es, end)) => if end == b@.len() {
                r is Some && entries_view(r->Some_0@) == es
            } else {
                r is None
            },
            None => r is None,
        },
{
    let n = b.len();
    let ghost whole = parse_entries(b@, SNAPSHOT_HEADER_LEN as int, count as nat);
    let mut out: Vec<(u64, FileEntry)> = Vec::new();
    let mut off: usize = SNAPSHOT_HEADER_LEN;
    let mut i: u64 = 0;
    while i < count
        invariant
            n == b@.len(),
            off <= n,
            i <= count,
            whole == parse_entries(b@, SNAPSHOT_HEADER_LEN as int, count as nat),
            whole == match parse_entries(b@, off as int, (count - i) as nat) {
                Some((rest, end)) => Some((entries_view(out@) + rest, end)),
                None => None::<(Seq<(u64, EntryView)>, int)>,
            },
        decreases count - i,
    {
        if n - off < ENTRY_HEADER_LEN {
            return None;
        }
        let flag = b[off + 16];
        let len = read_u32_le(b, off + 17) as usize;
        let start = off + ENTRY_HEADER_LEN;
        if flag > 1 || len > n - start {
            return None;
        }
        let bytes = copy_range(b, start, len);
        let name = match utf8_to_string(bytes) {
            Some(name) => name,
            None => {
                return None;
            },
        };
        let frn = read_u64_le(b, off);
        let parent_frn = read_u64_le(b, off + 8);
        let ghost prev = out@;
        out.push((frn, FileEntry { parent_frn, name, is_dir: flag == 1 }));
        proof {
            let e = entries_view(out@).last();
            assert(parse_entry(b@, off as int) == Some((e, start + len)));
            match parse_entries(b@, start + len, (count - i - 1) as nat) {
                Some((rest, end)) => {
                    assert(entries_view(out@) =~= entries_view(prev).push(e));
                    assert(entries_view(prev) + (seq![e] + rest) =~= entries_view(out@) + rest);
                },
                None => {},
            }
        }
        off = start + len;
        i = i + 1;
    }
    assert(entries_view(out@) + Seq::<(u64, EntryView)>::empty() =~= entries_view(out@));
    if off != n {
        return None;
    }
    Some(out)
}

impl MftIndex {
    /// Writes the store and the anchor `(next_usn, journal_id)` as a
    /// snapshot, listing each entry once in an unspecified order. Fails only
    /// where a name is longer than the format's 32-bit length field allows.
    pub fn save_snapshot(&self, next_usn: i64, journal_id: u64) -> (r: Result<Vec<u8>, IndexError>)
        ensures
            r is Ok <==> forall|k: u64|
                self.store().contains_key(k) ==> encode_utf8(#[trigger] self.store()[k].name).len()
                    <= u32::MAX,
            r is Ok ==> exists|es: Seq<(u64, EntryView)>|
                lists_store(es, self.store()) && names_fit(es) && r->Ok_0@ == encode_snapshot(
                    SnapshotView { entries: es, next_usn, journal_id },
                ),
            r matches Err(e) ==> e is PersistError,
    {
        let ghost m = self.store();
        let all = store_entries(&self.entries);
        let ghost es = entries_view(all@);
        let mut out: Vec<u8> = Vec::new();
        push_u32_le(&mut out, SNAPSHOT_MAGIC);
        push_u32_le(&mut out, SNAPSHOT_VERSION);
        push_u64_le(&mut out, next_usn as u64);
        push_u64_le(&mut out, journal_id);
        push_u64_le(&mut out, all.len() as u64);
        let ghost header = out@;
        let mut i: usize = 0;
        while i < all.len()
            invariant
                es == entries_view(all@),
                m == self.store(),
                forall|a: int|
                    0 <= a < all@.len() ==> m.contains_key(#[trigger] all@[a].0) && m[all@[a].0]
                        == all@[a].1@,
                i <= all@.len(),
                out@ == header + encode_entries(es.take(i as int)),
                names_fit(es.take(i as int)),
            decreases all@.len() - i,
        {
            let name = all[i].1.name.as_str().as_bytes();
            if name.len() as u64 > 0xFFFF_FFFFu64 {
                proof {
                    assert(es[i as int].1.name == all@[i as int].1.name@);
                    assert(m.contains_key(all@[i as int].0));
                    assert(m[all@[i as int].0].name == es[i as int].1.name);
                }
                return Err(IndexError::PersistError);
            }
            let ghost prev = out@;
            push_u64_le(&mut out, all[i].0);
            push_u64_le(&mut out, all[i].1.parent_frn);
            out.push(if all[i].1.is_dir { 1u8 } else { 0u8 });
            push_u32_le(&mut out, name.len() as u32);
            let mut j: usize = 0;
            let ghost mid = out@;
            while j < name.len()
                invariant
                    j <= name@.len(),
                    out@ == mid + name@.subrange(0, j as int),
                decreases name@.len() - j,
            {
                out.push(name[j]);
                assert(out@ =~= mid + name@.subrange(0, j + 1));
                j = j + 1;
            }
            proof {
                let x = es[i as int];
                assert(x.1 == all@[i as int].1@);
                assert(name@.subrange(0, j as int) =~= name@);
                assert(out@ =~= prev + encode_entry(x.0, x.1));
                assert(es.take(i + 1) =~= es.take(i as int).push(x));
                lemma_encode_entries_push(es.take(i as int), x);
                assert forall|k: int| 0 <= k < es.take(i + 1).len() implies encode_utf8(
                    (#[trigger] es.take(i + 1)[k]).1.name,
                ).len() <= u32::MAX by {
                    if k < i {
                        assert(es.take(i + 1)[k] == es.take(i as int)[k]);
                    }
                }
            }
            i = i + 1;
        }
        proof {
            assert(es.take(i as int) =~= es);
            assert(out@ =~= encode_snapshot(SnapshotView { entries: es, next_usn, journal_id }));
            assert(lists_store(es, m)) by {
                assert forall|k: u64| m.contains_key(k) implies exists|a: int| 0 <= a < es.len() && #[trigger] es[a].0 == k by {
                    let a = choose|a: int| 0 <= a < all@.len() && #[trigger] all@[a].0 == k;
                    assert(es[a].0 == k);
                }
                assert forall|a: int| 0 <= a < es.len() implies m.contains_key(#[trigger] es[a].0) && m[es[a].0] == es[a].1 by {
                    assert(es[a] == (all@[a].0, all@[a].1@));
                }
            }
            assert forall|k: u64| m.contains_key(k) implies encode_utf8(#[trigger] m[k].name).len() <= u32::MAX by {
                let a = choose|a: int| 0 <= a < es.len() && #[trigger] es[a].0 == k;
                assert(m[es[a].0] == es[a].1);
            }
        }
        Ok(out)
    }

    /// Replaces the store by the entries of a snapshot and rebuilds the
    /// search index, returning the snapshot's anchor. Bytes that are not
    /// exactly one well-formed snapshot are refused and change nothing.
    pub fn load_snapshot(&mut self, bytes: &[u8]) -> (r: Result<(i64, u64), IndexError>)
        ensures
            final(self).drive_letter == old(self).drive_letter,
            match parse_snapshot(bytes@) {
                Some(s) => {
                    &&& r == Ok::<(i64, u64), IndexError>((s.next_usn, s.journal_id))
                    &&& final(self).store() == map_of_entries(s.entries)
                    &&& final(self).wf()
                },
                None => {
                    &&& r matches Err(IndexError::PersistError)
                    &&& final(self).store() == old(self).store()
                    &&& final(self).search_index == old(self).search_index
                },
            },
    {
        let n = bytes.len();
        if n < SNAPSHOT_HEADER_LEN || read_u32_le(bytes, 0) != SNAPSHOT_MAGIC || read_u32_le(bytes, 4)
            != SNAPSHOT_VERSION {
            return Err(IndexError::PersistError);
        }
        let next_usn = read_u64_le(bytes, 8) as i64;
        let journal_id = read_u64_le(bytes, 16);
        let count = read_u64_le(bytes, 24);
        let all = match read_entries(bytes, count) {
            Some(all) => all,
            None => {
                return Err(IndexError::PersistError);
            },
        };
        let ghost es = entries_view(all@);
        store_clear(&mut self.entries);
        let ghost d0 = self.drive_letter;
        let mut i: usize = 0;
        while i < all.len()
            invariant
                es == entries_view(all@),
                i <= all@.len(),
                self.drive_letter == d0,
                self.store() == map_of_entries(es.take(i as int)),
            decreases all@.len() - i,
        {
            let e = FileEntry {
                parent_frn: all[i].1.parent_frn,
                name: all[i].1.name.clone(),
                is_dir: all[i].1.is_dir,
            };
            store_insert(&mut self.entries, all[i].0, e);
            proof {
                assert(es.take(i + 1).drop_last() =~= es.take(i as int));
                assert(es.take(i + 1).last() == es[i as int]);
            }
            i = i + 1;
        }
        proof {
            assert(es.take(i as int) =~= es);
            lemma_map_of_entries_finite(es);
        }
        self.rebuild_search_index();
        Ok((next_usn, journal_id))
    }
}

proof fn lemma_map_of_entries_finite(es: Seq<(u64, EntryView)>)
    ensures
        map_of_entries(es).dom().finite(),
    decreases es.len(),
{
    if es.len() > 0 {
        lemma_map_of_entries_finite(es.drop_last());
    }
}

} // verus!
