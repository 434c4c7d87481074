use vstd::prelude::*;

use dashmap::DashMap;
use rayon::iter::IntoParallelRefIterator;
use rayon::iter::ParallelIterator;

verus! {

#[verifier::external_type_specification]
#[verifier::external_body]
#[verifier::reject_recursive_types(K)]
#[verifier::reject_recursive_types(V)]
#[verifier::reject_recursive_types(S)]
pub struct ExDashMap<K, V, S>(DashMap<K, V, S>);

/// What the index knows of one file: its parent directory, its own name and
/// whether it is a directory. Full paths are never stored.
#[derive(Clone, Debug)]
pub struct FileEntry {
    pub parent_frn: u64,
    pub name: String,
    pub is_dir: bool,
}

/// The mathematical content of a [`FileEntry`].
pub struct EntryView {
    pub parent_frn: u64,
    pub name: Seq<char>,
    pub is_dir: bool,
}

impl View for FileEntry {
    type V = EntryView;

    open spec fn view(&self) -> EntryView {
        EntryView { parent_frn: self.parent_frn, name: self.name@, is_dir: self.is_dir }
    }
}

pub open spec fn empty_store() -> Map<u64, EntryView> {
    Map::empty()
}

/// The entries that a concurrent map from FRN to entry holds.
pub uninterp spec fn store_contents(m: DashMap<u64, FileEntry>) -> Map<u64, EntryView>;

/// Relies on `DashMap::new`: a new map is empty.
#[verifier::external_body]
pub(crate) fn store_new() -> (m: DashMap<u64, FileEntry>)
    ensures
        store_contents(m) == empty_store(),
{
    DashMap::new()
}

/// Relies on `DashMap::clear`: every entry is removed.
#[verifier::external_body]
pub(crate) fn store_clear(m: &mut DashMap<u64, FileEntry>)
    ensures
        store_contents(*final(m)) == empty_store(),
{
    m.clear()
}

/// Relies on `DashMap::insert`: the key maps to the value afterwards, the other
/// entries stay.
#[verifier::external_body]
pub(crate) fn store_insert(m: &mut DashMap<u64, FileEntry>, k: u64, v: FileEntry)
    ensures
        store_contents(*final(m)) == store_contents(*old(m)).insert(k, v@),
{
    m.insert(k, v);
}

/// Relies on `DashMap::remove`: the key is absent afterwards, the other entries
/// stay.
#[verifier::external_body]
pub(crate) fn store_remove(m: &mut DashMap<u64, FileEntry>, k: u64)
    ensures
        store_contents(*final(m)) == store_contents(*old(m)).remove(k),
{
    m.remove(&k);
}

/// Relies on `DashMap::get`: the entry of the key, if there is one (a copy).
#[verifier::external_body]
pub(crate) fn store_get(m: &DashMap<u64, FileEntry>, k: u64) -> (r: Option<FileEntry>)
    ensures
        r is Some <==> store_contents(*m).contains_key(k),
        r is Some ==> r->Some_0@ == store_contents(*m)[k],
{
    m.get(&k).map(|e| e.value().clone())
}

/// Relies on `DashMap::len`: the number of entries.
#[verifier::external_body]
pub(crate) fn store_len(m: &DashMap<u64, FileEntry>) -> (r: usize)
    ensures
        r == store_contents(*m).len(),
{
    m.len()
}

/// Relies on the parallel iterator of `DashMap` (rayon): each entry is visited
/// exactly once, in an order that is not specified.
#[verifier::external_body]
pub(crate) fn store_entries(m: &DashMap<u64, FileEntry>) -> (r: Vec<(u64, FileEntry)>)
    ensures
        forall|i: int, j: int| 0 <= i < j < r@.len() ==> r@[i].0 != r@[j].0,
        forall|i: int|
            0 <= i < r@.len() ==> store_contents(*m).contains_key(#[trigger] r@[i].0)
                && store_contents(*m)[r@[i].0] == r@[i].1@,
        forall|k: u64|
            store_contents(*m).contains_key(k) ==> exists|i: int|
                0 <= i < r@.len() && #[trigger] r@[i].0 == k,
{
    m.par_iter().map(|e| (*e.key(), e.value().clone())).collect()
}

} // verus!
