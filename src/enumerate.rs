use vstd::prelude::*;

use crate::bytes::{read_u64_le, u64_le};
use crate::index::MftIndex;
use crate::journal::entry_of;
use crate::record::{
    buffer_records, decode_records, RecordView, FILE_ATTRIBUTE_DIRECTORY,
};
use crate::store::{empty_store, store_clear, store_insert, EntryView, FileEntry};

verus! {

/// The errors of the index.
#[derive(Debug)]
pub enum IndexError {
    /// The volume could not be opened: the process needs more privileges.
    PermissionDenied,
    /// A volume request failed with the OS error `code`.
    VolumeError { code: u32, context: String },
    /// The stored journal id is not the volume's current one: rebuild.
    JournalMismatch,
    /// The stored next USN precedes the oldest retained one: rebuild.
    JournalTruncated,
    /// The enumeration cursor did not advance.
    EnumStalled,
    /// A snapshot could not be written or read.
    PersistError,
}

/// What the enumerator does after one enumeration read.
#[derive(Debug)]
pub enum EnumStep {
    /// Records were taken in; the next read starts at this FRN.
    Next(u64),
    /// The read held no cursor: the enumeration is over.
    Done,
    /// The cursor did not advance: the enumeration cannot go on.
    Stalled,
}

/// The store after taking in the records with a non-empty name, in order.
pub open spec fn insert_records(m: Map<u64, EntryView>, rs: Seq<RecordView>) -> Map<u64, EntryView>
    decreases rs.len(),
{
    if rs.len() == 0 {
        m
    } else {
        let m1 = insert_records(m, rs.drop_last());
        if rs.last().name.len() > 0 {
            m1.insert(rs.last().frn, entry_of(rs.last()))
        } else {
            m1
        }
    }
}

/// Whether a stored anchor can resume tailing: its journal must be the
/// volume's current one, and its next USN must still be retained.
pub fn check_anchor(next_usn: i64, journal_id: u64, current_journal_id: u64, oldest_usn: i64) -> (r:
    Result<(), IndexError>)
    ensures
        r is Ok <==> journal_id == current_journal_id && next_usn >= oldest_usn,
        r matches Err(IndexError::JournalMismatch) <==> journal_id != current_journal_id,
        r matches Err(IndexError::JournalTruncated) <==> journal_id == current_journal_id
            && next_usn < oldest_usn,
{
    if journal_id != current_journal_id {
        Err(IndexError::JournalMismatch)
    } else if next_usn < oldest_usn {
        Err(IndexError::JournalTruncated)
    } else {
        Ok(())
    }
}

impl MftIndex {
    /// Empties the store and the search index, as a rebuild starts.
    pub fn clear(&mut self)
        ensures
            final(self).wf(),
            final(self).store() == empty_store(),
            final(self).index() == Seq::<(u64, Seq<char>)>::empty(),
            final(self).drive_letter == old(self).drive_letter,
    {
        store_clear(&mut self.entries);
        self.search_index = Vec::new();
        assert(self.index() =~= Seq::<(u64, Seq<char>)>::empty());
    }

    /// Ends an enumeration: rebuilds the search index from the store and
    /// returns the number of entries.
    pub fn finish_build(&mut self) -> (r: usize)
        requires
            old(self).store_ok(),
        ensures
            final(self).wf(),
            final(self).store() == old(self).store(),
            final(self).drive_letter == old(self).drive_letter,
            r == final(self).store().len(),
    {
        self.rebuild_search_index();
        self.entry_count()
    }

    /// Takes in one enumeration read of `n` bytes that started at
    /// `start_frn`. Fewer than eight bytes end the enumeration; a cursor equal
    /// to `start_frn` stalls it; otherwise the records with a non-empty name
    /// are stored and the cursor is returned. The search index is left alone
    /// until the enumeration ends.
    pub fn ingest_enum_buffer(&mut self, start_frn: u64, buf: &[u8], n: usize) -> (r: EnumStep)
        requires
            old(self).store_ok(),
            n <= buf@.len(),
        ensures
            final(self).store_ok(),
            final(self).drive_letter == old(self).drive_letter,
            final(self).search_index == old(self).search_index,
            n < 8 ==> r is Done && final(self).store() == old(self).store(),
            n >= 8 && u64_le(buf@, 0) == start_frn ==> r is Stalled && final(self).store() == old(
                self,
            ).store(),
            n >= 8 && u64_le(buf@, 0) != start_frn ==> r == EnumStep::Next(u64_le(buf@, 0))
                && final(self).store() == insert_records(
                old(self).store(),
                buffer_records(buf@, n as int),
            ),
    {
        if n < 8 {
            return EnumStep::Done;
        }
        let next = read_u64_le(buf, 0);
        if next == start_frn {
            return EnumStep::Stalled;
        }
        let ghost m0 = self.store();
        let ghost d0 = self.drive_letter;
        let ghost s0 = self.search_index;
        let records = decode_records(buf, n);
        let ghost rs = buffer_records(buf@, n as int);
        let mut i: usize = 0;
        while i < records.len()
            invariant
                self.drive_letter == d0,
                self.search_index == s0,
                m0.dom().finite(),
                i <= records@.len(),
                records@.len() == rs.len(),
                forall|k: int| 0 <= k < records@.len() ==> #[trigger] records@[k]@ == rs[k],
                self.store() == insert_records(m0, rs.take(i as int)),
            decreases records@.len() - i,
        {
            assert(rs.take(i + 1).drop_last() =~= rs.take(i as int));
            assert(rs.take(i + 1).last() == records@[i as int]@);
            let rec = &records[i];
            if !rec.name.as_str().is_empty() {
                let is_dir = rec.attributes & FILE_ATTRIBUTE_DIRECTORY != 0;
                store_insert(
                    &mut self.entries,
                    rec.frn,
                    FileEntry { parent_frn: rec.parent_frn, name: rec.name.clone(), is_dir },
                );
            }
            i = i + 1;
        }
        assert(rs.take(i as int) =~= rs);
        proof {
            lemma_insert_records_finite(m0, rs);
        }
        EnumStep::Next(next)
    }
}

proof fn lemma_insert_records_finite(m: Map<u64, EntryView>, rs: Seq<RecordView>)
    requires
        m.dom().finite(),
    ensures
        insert_records(m, rs).dom().finite(),
    decreases rs.len(),
{
    if rs.len() > 0 {
        lemma_insert_records_finite(m, rs.drop_last());
    }
}

} // verus!
