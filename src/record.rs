use vstd::prelude::*;

use crate::bytes::{read_u16_le, read_u32_le, read_u64_le, u16_le, u32_le, u64_le};

verus! {

/// Reason bit: the file or directory was created.
pub const USN_REASON_FILE_CREATE: u32 = 0x100;

/// Reason bit: the file or directory was deleted.
pub const USN_REASON_FILE_DELETE: u32 = 0x200;

/// Reason bit: the record carries the name before a rename.
pub const USN_REASON_RENAME_OLD_NAME: u32 = 0x1000;

/// Reason bit: the record carries the name after a rename.
pub const USN_REASON_RENAME_NEW_NAME: u32 = 0x2000;

/// File attribute bit that marks a directory.
pub const FILE_ATTRIBUTE_DIRECTORY: u32 = 0x10;

/// Size of the fixed part of a `USN_RECORD_V2`, up to its file name.
pub const RECORD_V2_HEADER_LEN: u32 = 60;

/// What `String::from_utf16_lossy` makes of a sequence of UTF-16 code units.
pub uninterp spec fn utf16_lossy(units: Seq<u16>) -> Seq<char>;

/// Relies on `String::from_utf16_lossy`: the decoded text depends on the code
/// units alone.
#[verifier::external_body]
fn decode_utf16_lossy(units: &Vec<u16>) -> (r: String)
    ensures
        r@ == utf16_lossy(units@),
{
    String::from_utf16_lossy(units)
}

/// One decoded journal record, as the index needs it.
pub struct UsnRecord {
    pub frn: u64,
    pub parent_frn: u64,
    pub reason: u32,
    pub attributes: u32,
    pub name: String,
}

/// The mathematical content of a [`UsnRecord`].
pub struct RecordView {
    pub frn: u64,
    pub parent_frn: u64,
    pub reason: u32,
    pub attributes: u32,
    pub name: Seq<char>,
}

impl View for UsnRecord {
    type V = RecordView;

    open spec fn view(&self) -> RecordView {
        RecordView {
            frn: self.frn,
            parent_frn: self.parent_frn,
            reason: self.reason,
            attributes: self.attributes,
            name: self.name@,
        }
    }
}

pub open spec fn is_dir_attr(attributes: u32) -> bool {
    attributes & FILE_ATTRIBUTE_DIRECTORY != 0
}

pub open spec fn is_removal(reason: u32) -> bool {
    reason & (USN_REASON_FILE_DELETE | USN_REASON_RENAME_OLD_NAME) != 0
}

pub open spec fn is_addition(reason: u32) -> bool {
    reason & (USN_REASON_FILE_CREATE | USN_REASON_RENAME_NEW_NAME) != 0
}

/// The record length stated by the common header at `off`.
pub open spec fn record_len_at(b: Seq<u8>, off: int) -> int {
    u32_le(b, off) as int
}

/// A record of length `len` at `off` lies inside `b`, holds a whole V2 header,
/// and its file name lies inside the record.
pub open spec fn record_fits(b: Seq<u8>, off: int, len: int) -> bool {
    &&& RECORD_V2_HEADER_LEN <= len
    &&& off + len <= b.len()
    &&& u16_le(b, off + 58) as int + u16_le(b, off + 56) as int <= len
}

/// The UTF-16 code units of the file name of the record at `off`.
pub open spec fn name_units(b: Seq<u8>, off: int) -> Seq<u16> {
    let start = off + u16_le(b, off + 58) as int;
    Seq::new((u16_le(b, off + 56) / 2) as nat, |i: int| u16_le(b, start + 2 * i))
}

/// The V2 record at `off`, decoded.
pub open spec fn record_at(b: Seq<u8>, off: int) -> RecordView {
    RecordView {
        frn: u64_le(b, off + 8),
        parent_frn: u64_le(b, off + 16),
        reason: u32_le(b, off + 40),
        attributes: u32_le(b, off + 52),
        name: utf16_lossy(name_units(b, off)),
    }
}

/// The records of `b` from `off` on. The walk stops where fewer than four bytes
/// remain, where a record states length zero, and where a record does not fit
/// (it overruns `b`, is shorter than a V2 header, or its name overruns it).
pub open spec fn records_from(b: Seq<u8>, off: int) -> Seq<RecordView>
    decreases b.len() - off,
{
    if off < 0 || off + 4 > b.len() {
        Seq::empty()
    } else {
        let len = record_len_at(b, off);
        if record_fits(b, off, len) {
            seq![record_at(b, off)] + records_from(b, off + len)
        } else {
            Seq::empty()
        }
    }
}

/// The records of a buffer that an enumeration or journal read filled with
/// `n` bytes: the first eight bytes hold a cursor, the records follow.
pub open spec fn buffer_records(b: Seq<u8>, n: int) -> Seq<RecordView> {
    records_from(b.subrange(0, n), 8)
}

/// Decodes the record at `off` of `b`, whose length `len` was read from its
/// header.
fn decode_at(b: &[u8], off: usize, len: usize) -> (r: UsnRecord)
    requires
        record_fits(b@, off as int, len as int),
    ensures
        r@ == record_at(b@, off as int),
{
    let blen = b.len();
    assert(off + len <= blen);
    let name_len = read_u16_le(b, off + 56);
    let name_off = read_u16_le(b, off + 58);
    let count = (name_len / 2) as usize;
    let start = off + name_off as usize;
    let mut units: Vec<u16> = Vec::with_capacity(count);
    let mut i: usize = 0;
    while i < count
        invariant
            record_fits(b@, off as int, len as int),
            off + len <= blen,
            blen == b@.len(),
            count == u16_le(b@, off + 56) / 2,
            start == off + u16_le(b@, off + 58),
            i <= count,
            units@.len() == i,
            forall|k: int| 0 <= k < i ==> units@[k] == u16_le(b@, start + 2 * k),
        decreases count - i,
    {
        units.push(read_u16_le(b, start + 2 * i));
        i = i + 1;
    }
    assert(units@ =~= name_units(b@, off as int));
    UsnRecord {
        frn: read_u64_le(b, off + 8),
        parent_frn: read_u64_le(b, off + 16),
        reason: read_u32_le(b, off + 40),
        attributes: read_u32_le(b, off + 52),
        name: decode_utf16_lossy(&units),
    }
}

/// Decodes the records that follow the eight-byte cursor of a buffer filled
/// with `n` bytes.
pub fn decode_records(b: &[u8], n: usize) -> (r: Vec<UsnRecord>)
    requires
        n <= b@.len(),
    ensures
        r@.len() == buffer_records(b@, n as int).len(),
        forall|i: int| 0 <= i < r@.len() ==> #[trigger] r@[i]@ == buffer_records(b@, n as int)[i],
{
    let ghost s = b@.subrange(0, n as int);
    if n < 8 {
        return Vec::new();
    }
    let mut out: Vec<UsnRecord> = Vec::new();
    let mut off: usize = 8;
    let ghost done: Seq<RecordView> = Seq::empty();
    loop
        invariant
            off <= n,
            n <= b@.len(),
            s == b@.subrange(0, n as int),
            8 <= off,
            records_from(s, 8) == done + records_from(s, off as int),
            out@.len() == done.len(),
            forall|i: int| 0 <= i < out@.len() ==> #[trigger] out@[i]@ == done[i],
        ensures
            records_from(s, off as int) =~= Seq::<RecordView>::empty(),
            records_from(s, 8) == done + records_from(s, off as int),
            out@.len() == done.len(),
            forall|i: int| 0 <= i < out@.len() ==> #[trigger] out@[i]@ == done[i],
        decreases n - off,
    {
        if n - off < 4 {
            break;
        }
        let len = read_u32_le(b, off) as usize;
        assert(u32_le(s, off as int) == u32_le(b@, off as int));
        if len < RECORD_V2_HEADER_LEN as usize || len > n - off {
            break;
        }
        let name_len = read_u16_le(b, off + 56);
        let name_off = read_u16_le(b, off + 58);
        assert(u16_le(s, off + 56) == u16_le(b@, off + 56));
        assert(u16_le(s, off + 58) == u16_le(b@, off + 58));
        if name_off as usize + name_len as usize > len {
            break;
        }
        let rec = decode_at(b, off, len);
        proof {
            assert(name_units(s, off as int) =~= name_units(b@, off as int));
            assert(record_at(s, off as int) == record_at(b@, off as int));
            done = done.push(rec@);
        }
        out.push(rec);
        off = off + len;
    }
    assert(done + Seq::<RecordView>::empty() =~= done);
    out
}

} // verus!
