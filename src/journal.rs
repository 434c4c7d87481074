use vstd::prelude::*;

use crate::bytes::{read_u64_le, u64_le};
use crate::index::{frns_distinct, index_matches, pairs_view, MftIndex};
use crate::paths::child_path;
use crate::record::{
    buffer_records, decode_records, is_addition, is_dir_attr, is_removal, RecordView, UsnRecord,
    FILE_ATTRIBUTE_DIRECTORY, USN_REASON_FILE_CREATE, USN_REASON_FILE_DELETE,
    USN_REASON_RENAME_NEW_NAME, USN_REASON_RENAME_OLD_NAME,
};
use crate::store::{store_insert, store_remove, EntryView, FileEntry};

verus! {

/// One change that the tailer reports: `action` is `create` or `delete`.
#[derive(Clone, Debug)]
pub struct FileChange {
    pub action: String,
    pub path: String,
    pub is_dir: bool,
}

/// The mathematical content of a [`FileChange`].
pub struct ChangeView {
    pub action: Seq<char>,
    pub path: Seq<char>,
    pub is_dir: bool,
}

impl View for FileChange {
    type V = ChangeView;

    open spec fn view(&self) -> ChangeView {
        ChangeView { action: self.action@, path: self.path@, is_dir: self.is_dir }
    }
}

pub open spec fn changes_of(v: Seq<FileChange>) -> Seq<ChangeView> {
    v.map_values(|c: FileChange| c@)
}

pub open spec fn create_action() -> Seq<char> {
    seq!['c', 'r', 'e', 'a', 't', 'e']
}

pub open spec fn delete_action() -> Seq<char> {
    seq!['d', 'e', 'l', 'e', 't', 'e']
}

/// The entry that a creation record describes.
pub open spec fn entry_of(r: RecordView) -> EntryView {
    EntryView { parent_frn: r.parent_frn, name: r.name, is_dir: is_dir_attr(r.attributes) }
}

/// The store after one journal record, and the changes it reports. A record
/// with an empty name does nothing. A deletion or the old name of a rename
/// removes the FRN, reporting the path it had if it was stored; a creation or
/// the new name of a rename stores the record's entry and reports its path.
/// Other reasons do nothing.
pub open spec fn apply_record(m: Map<u64, EntryView>, drive: Seq<char>, r: RecordView) -> (
    Map<u64, EntryView>,
    Seq<ChangeView>,
) {
    if r.name.len() == 0 {
        (m, Seq::empty())
    } else if is_removal(r.reason) {
        let reported = if m.contains_key(r.frn) {
            match child_path(m, drive, m[r.frn].parent_frn, m[r.frn].name) {
                Some(p) => seq![ChangeView { action: delete_action(), path: p, is_dir: m[r.frn].is_dir }],
                None => Seq::empty(),
            }
        } else {
            Seq::empty()
        };
        (m.remove(r.frn), reported)
    } else if is_addition(r.reason) {
        let m2 = m.insert(r.frn, entry_of(r));
        let reported = match child_path(m2, drive, r.parent_frn, r.name) {
            Some(p) => seq![ChangeView { action: create_action(), path: p, is_dir: is_dir_attr(r.attributes) }],
            None => Seq::empty(),
        };
        (m2, reported)
    } else {
        (m, Seq::empty())
    }
}

/// The records applied in journal order: the final store and all changes.
pub open spec fn apply_records(m: Map<u64, EntryView>, drive: Seq<char>, rs: Seq<RecordView>) -> (
    Map<u64, EntryView>,
    Seq<ChangeView>,
)
    decreases rs.len(),
{
    if rs.len() == 0 {
        (m, Seq::empty())
    } else {
        let (m1, c1) = apply_records(m, drive, rs.drop_last());
        let (m2, c2) = apply_record(m1, drive, rs.last());
        (m2, c1 + c2)
    }
}

/// What the tailer does after one journal read.
#[derive(Debug)]
pub struct TailStep {
    /// Where the next read starts.
    pub next_usn: i64,
    /// The changes of this read, in journal order, for one notification.
    pub changes: Vec<FileChange>,
    /// The read brought nothing: wait before the next one.
    pub wait: bool,
}

/// The pairs of `idx` whose FRN is not `frn`, in order.
fn index_without(idx: &Vec<(u64, String)>, frn: u64) -> (r: Vec<(u64, String)>)
    requires
        frns_distinct(pairs_view(idx@)),
    ensures
        frns_distinct(pairs_view(r@)),
        forall|i: int|
            0 <= i < r@.len() ==> (#[trigger] pairs_view(r@)[i]).0 != frn && exists|j: int|
                0 <= j < idx@.len() && pairs_view(idx@)[j] == pairs_view(r@)[i],
        forall|j: int|
            0 <= j < idx@.len() && (#[trigger] pairs_view(idx@)[j]).0 != frn ==> exists|i: int|
                0 <= i < r@.len() && pairs_view(r@)[i] == pairs_view(idx@)[j],
{
    let ghost src = pairs_view(idx@);
    let mut out: Vec<(u64, String)> = Vec::new();
    let ghost mut pos: Seq<int> = Seq::empty();
    let mut j: usize = 0;
    while j < idx.len()
        invariant
            src == pairs_view(idx@),
            frns_distinct(src),
            j <= idx@.len(),
            pos.len() == out@.len(),
            forall|a: int, b: int| 0 <= a < b < pos.len() ==> pos[a] < pos[b],
            forall|a: int| 0 <= a < pos.len() ==> 0 <= #[trigger] pos[a] < j,
            forall|a: int|
                0 <= a < out@.len() ==> (#[trigger] pairs_view(out@)[a]) == src[pos[a]]
                    && src[pos[a]].0 != frn,
            forall|b: int|
                0 <= b < j && (#[trigger] src[b]).0 != frn ==> exists|a: int|
                    0 <= a < out@.len() && pairs_view(out@)[a] == src[b],
        decreases idx@.len() - j,
    {
        if idx[j].0 != frn {
            let ghost prev = out@;
            out.push((idx[j].0, idx[j].1.clone()));
            proof {
                assert(pairs_view(out@) =~= pairs_view(prev).push(src[j as int]));
                pos = pos.push(j as int);
                assert forall|b: int|
                    0 <= b < j + 1 && (#[trigger] src[b]).0 != frn implies exists|a: int|
                    0 <= a < out@.len() && pairs_view(out@)[a] == src[b] by {
                    if b < j {
                        let a = choose|a: int| 0 <= a < prev.len() && pairs_view(prev)[a] == src[b];
                        assert(pairs_view(out@)[a] == src[b]);
                    } else {
                        assert(pairs_view(out@)[prev.len() as int] == src[b]);
                    }
                }
            }
        }
        j = j + 1;
    }
    proof {
        let v = pairs_view(out@);
        assert forall|a: int, b: int| 0 <= a < b < v.len() implies v[a].0 != v[b].0 by {
            assert(v[a] == src[pos[a]]);
            assert(v[b] == src[pos[b]]);
        }
        assert forall|i: int| 0 <= i < out@.len() implies (#[trigger] pairs_view(out@)[i]).0 != frn
            && exists|j: int| 0 <= j < idx@.len() && pairs_view(idx@)[j] == pairs_view(out@)[i] by {
            assert(pairs_view(out@)[i] == src[pos[i]]);
        }
    }
    out
}

impl MftIndex {
    /// Drops the entry of `frn` from the store and the search index.
    fn forget(&mut self, frn: u64)
        requires
            old(self).wf(),
        ensures
            final(self).wf(),
            final(self).store() == old(self).store().remove(frn),
            final(self).drive_letter == old(self).drive_letter,
    {
        let ghost m = self.store();
        let ghost before = self.index();
        store_remove(&mut self.entries, frn);
        self.search_index = index_without(&self.search_index, frn);
        proof {
            let m2 = self.store();
            let v = self.index();
            assert forall|k: u64| m2.contains_key(k) implies exists|i: int|
                0 <= i < v.len() && #[trigger] v[i].0 == k by {
                let j = choose|j: int| 0 <= j < before.len() && #[trigger] before[j].0 == k;
                assert(before[j].0 != frn);
                let i = choose|i: int| 0 <= i < v.len() && v[i] == before[j];
                assert(v[i].0 == k);
            }
            assert forall|i: int| 0 <= i < v.len() implies m2.contains_key(#[trigger] v[i].0)
                && m2[v[i].0].name == v[i].1 by {
                assert(v[i].0 != frn);
                let j = choose|j: int| 0 <= j < before.len() && before[j] == v[i];
                assert(m.contains_key(before[j].0));
            }
        }
    }

    /// Stores `entry` under `frn` and gives it exactly one search-index pair.
    fn upsert(&mut self, frn: u64, entry: FileEntry)
        requires
            old(self).wf(),
        ensures
            final(self).wf(),
            final(self).store() == old(self).store().insert(frn, entry@),
            final(self).drive_letter == old(self).drive_letter,
    {
        let ghost e = entry@;
        let name = entry.name.clone();
        self.forget(frn);
        let ghost m = self.store();
        let ghost before = self.index();
        store_insert(&mut self.entries, frn, entry);
        self.search_index.push((frn, name));
        proof {
            let m2 = self.store();
            let v = self.index();
            assert(v =~= before.push((frn, e.name)));
            assert forall|k: u64| m2.contains_key(k) implies exists|i: int|
                0 <= i < v.len() && #[trigger] v[i].0 == k by {
                if k == frn {
                    assert(v[before.len() as int].0 == k);
                } else {
                    let i = choose|i: int| 0 <= i < before.len() && #[trigger] before[i].0 == k;
                    assert(v[i].0 == k);
                }
            }
            assert forall|i: int| 0 <= i < v.len() implies m2.contains_key(#[trigger] v[i].0)
                && m2[v[i].0].name == v[i].1 by {
                if i < before.len() {
                    assert(v[i] == before[i]);
                    assert(m.contains_key(before[i].0));
                }
            }
            assert forall|a: int, b: int| 0 <= a < b < v.len() implies v[a].0 != v[b].0 by {
                if b < before.len() {
                    assert(v[a] == before[a] && v[b] == before[b]);
                } else {
                    assert(v[a] == before[a]);
                    assert(!m.contains_key(frn));
                }
            }
        }
    }

    /// Applies one journal record, appending what it reports to `changes`.
    fn apply(&mut self, rec: &UsnRecord, changes: &mut Vec<FileChange>)
        requires
            old(self).wf(),
        ensures
            final(self).wf(),
            final(self).drive_letter == old(self).drive_letter,
            final(self).store() == apply_record(old(self).store(), old(self).drive_letter@, rec@).0,
            changes_of(final(changes)@) == changes_of(old(changes)@) + apply_record(
                old(self).store(),
                old(self).drive_letter@,
                rec@,
            ).1,
    {
        let ghost prev = changes@;
        if rec.name.as_str().is_empty() {
            assert(changes_of(changes@) =~= changes_of(prev) + Seq::<ChangeView>::empty());
            return;
        }
        if rec.reason & (USN_REASON_FILE_DELETE | USN_REASON_RENAME_OLD_NAME) != 0 {
            match self.entry(rec.frn) {
                Some(e) => {
                    match self.path_in(e.parent_frn, &e.name) {
                        Some(p) => {
                            changes.push(FileChange { action: "delete".to_owned(), path: p, is_dir: e.is_dir });
                            proof {
                                reveal_strlit("delete");
                                assert(changes@.last().action@ =~= delete_action());
                        assert(changes@.last().action@ =~= delete_action());
                assert(changes@.last().action@ =~= delete_action());
                                assert(changes_of(changes@) =~= changes_of(prev).push(changes@.last()@));
                            }
                        },
                        None => {
                            assert(changes_of(changes@) =~= changes_of(prev) + Seq::<ChangeView>::empty());
                        },
                    }
                },
                None => {
                    assert(changes_of(changes@) =~= changes_of(prev) + Seq::<ChangeView>::empty());
                },
            }
            self.forget(rec.frn);
        } else if rec.reason & (USN_REASON_FILE_CREATE | USN_REASON_RENAME_NEW_NAME) != 0 {
            let is_dir = rec.attributes & FILE_ATTRIBUTE_DIRECTORY != 0;
            self.upsert(rec.frn, FileEntry { parent_frn: rec.parent_frn, name: rec.name.clone(), is_dir });
            match self.path_in(rec.parent_frn, &rec.name) {
                Some(p) => {
                    changes.push(FileChange { action: "create".to_owned(), path: p, is_dir });
                    proof {
                        reveal_strlit("create");
                        assert(changes@.last().action@ =~= create_action());
                assert(changes@.last().action@ =~= create_action());
                        assert(changes_of(changes@) =~= changes_of(prev).push(changes@.last()@));
                    }
                },
                None => {
                    assert(changes_of(changes@) =~= changes_of(prev) + Seq::<ChangeView>::empty());
                },
            }
        } else {
            assert(changes_of(changes@) =~= changes_of(prev) + Seq::<ChangeView>::empty());
        }
    }

    /// Applies the records of a journal buffer filled with `n` bytes, in
    /// journal order, and returns the changes they report.
    pub fn apply_journal_records(&mut self, buf: &[u8], n: usize) -> (r: Vec<FileChange>)
        requires
            old(self).wf(),
            n <= buf@.len(),
        ensures
            final(self).wf(),
            final(self).drive_letter == old(self).drive_letter,
            (final(self).store(), changes_of(r@)) == apply_records(
                old(self).store(),
                old(self).drive_letter@,
                buffer_records(buf@, n as int),
            ),
    {
        let ghost m0 = self.store();
        let ghost d = self.drive_letter@;
        let ghost d0 = self.drive_letter;
        let records = decode_records(buf, n);
        let ghost rs = buffer_records(buf@, n as int);
        let mut changes: Vec<FileChange> = Vec::new();
        let mut i: usize = 0;
        while i < records.len()
            invariant
                self.wf(),
                self.drive_letter@ == d,
                self.drive_letter == d0,
                i <= records@.len(),
                records@.len() == rs.len(),
                forall|k: int| 0 <= k < records@.len() ==> #[trigger] records@[k]@ == rs[k],
                (self.store(), changes_of(changes@)) == apply_records(m0, d, rs.take(i as int)),
            decreases records@.len() - i,
        {
            assert(rs.take(i + 1).drop_last() =~= rs.take(i as int));
            assert(rs.take(i + 1).last() == records@[i as int]@);
            self.apply(&records[i], &mut changes);
            i = i + 1;
        }
        assert(rs.take(i as int) =~= rs);
        changes
    }

    /// The tailer's decision after one journal read that started at
    /// `start_usn`. A failed read, or one of at most eight bytes, changes
    /// nothing and asks to wait. Otherwise the anchor moves to the read's
    /// eight-byte prefix, whatever follows it, and its records are applied.
    pub fn journal_step(&mut self, start_usn: i64, read_ok: bool, buf: &[u8], n: usize) -> (r:
        TailStep)
        requires
            old(self).wf(),
            n <= buf@.len(),
        ensures
            final(self).wf(),
            final(self).drive_letter == old(self).drive_letter,
            read_ok && n > 8 ==> {
                &&& !r.wait
                &&& r.next_usn == u64_le(buf@, 0) as i64
                &&& (final(self).store(), changes_of(r.changes@)) == apply_records(
                    old(self).store(),
                    old(self).drive_letter@,
                    buffer_records(buf@, n as int),
                )
            },
            !(read_ok && n > 8) ==> {
                &&& r.wait
                &&& r.next_usn == start_usn
                &&& r.changes@.len() == 0
                &&& final(self).store() == old(self).store()
                &&& final(self).index() == old(self).index()
            },
    {
        if read_ok && n > 8 {
            let next_usn = read_u64_le(buf, 0) as i64;
            let changes = self.apply_journal_records(buf, n);
            TailStep { next_usn, changes, wait: false }
        } else {
            TailStep { next_usn: start_usn, changes: Vec::new(), wait: true }
        }
    }
}

/// A journal read that holds no record leaves the store as it was and reports
/// nothing.
pub proof fn lemma_quiet_journal_keeps_store(
    m: Map<u64, EntryView>,
    drive: Seq<char>,
    b: Seq<u8>,
    n: int,
)
    requires
        buffer_records(b, n).len() == 0,
    ensures
        apply_records(m, drive, buffer_records(b, n)) == (m, Seq::<ChangeView>::empty()),
{
}

/// After a creation, or the new name of a rename, the search index of a
/// consistent index holds exactly one pair with that FRN, and it carries the
/// new name.
pub proof fn lemma_created_entry_indexed_once(
    idx: Seq<(u64, Seq<char>)>,
    m: Map<u64, EntryView>,
    drive: Seq<char>,
    r: RecordView,
)
    requires
        r.name.len() > 0,
        !is_removal(r.reason),
        is_addition(r.reason),
        index_matches(idx, apply_record(m, drive, r).0),
    ensures
        exists|i: int| 0 <= i < idx.len() && #[trigger] idx[i].0 == r.frn && idx[i].1 == r.name,
        forall|i: int, j: int|
            0 <= i < idx.len() && 0 <= j < idx.len() && #[trigger] idx[i].0 == r.frn
                && #[trigger] idx[j].0 == r.frn ==> i == j,
{
    let m2 = apply_record(m, drive, r).0;
    assert(m2.contains_key(r.frn));
    let i = choose|i: int| 0 <= i < idx.len() && #[trigger] idx[i].0 == r.frn;
    assert(m2[idx[i].0].name == idx[i].1);
}

} // verus!
