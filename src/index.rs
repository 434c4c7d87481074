use vstd::prelude::*;

use dashmap::DashMap;

use crate::paths::{
    ancestry, child_path, compose, ends_walk, names_of, reconstruct, MAX_DEPTH, RECORD_INDEX_MASK,
    ROOT_RECORD_INDEX,
};
use crate::store::{
    store_contents, store_entries, store_get, store_len, store_new, EntryView, FileEntry,
};

verus! {

/// The index of one volume: the entry store keyed by FRN, the flat search
/// index of `(FRN, name)` pairs scanned by queries, and the drive the paths
/// are rooted at.
pub struct MftIndex {
    pub entries: DashMap<u64, FileEntry>,
    pub search_index: Vec<(u64, String)>,
    pub drive_letter: String,
}

pub open spec fn pairs_view(v: Seq<(u64, String)>) -> Seq<(u64, Seq<char>)> {
    v.map_values(|p: (u64, String)| (p.0, p.1@))
}

/// No FRN occurs twice in the search index.
pub open spec fn frns_distinct(idx: Seq<(u64, Seq<char>)>) -> bool {
    forall|i: int, j: int| 0 <= i < j < idx.len() ==> idx[i].0 != idx[j].0
}

/// The search index holds one pair for each stored entry, with its name, and
/// nothing else.
pub open spec fn index_matches(idx: Seq<(u64, Seq<char>)>, m: Map<u64, EntryView>) -> bool {
    &&& frns_distinct(idx)
    &&& forall|i: int|
        0 <= i < idx.len() ==> m.contains_key(#[trigger] idx[i].0) && m[idx[i].0].name
            == idx[i].1
    &&& forall|k: u64| m.contains_key(k) ==> exists|i: int| 0 <= i < idx.len() && #[trigger] idx[i].0 == k
}

impl MftIndex {
    /// The entry store's contents.
    pub open spec fn store(&self) -> Map<u64, EntryView> {
        store_contents(self.entries)
    }

    /// The search index, as `(FRN, name)` pairs.
    pub open spec fn index(&self) -> Seq<(u64, Seq<char>)> {
        pairs_view(self.search_index@)
    }

    /// The entry store holds finitely many entries.
    pub open spec fn store_ok(&self) -> bool {
        self.store().dom().finite()
    }

    /// A consistency point: the search index agrees with the entry store.
    pub open spec fn wf(&self) -> bool {
        &&& self.store_ok()
        &&& index_matches(self.index(), self.store())
    }

    /// An empty index for the volume `drive_letter` (such as `C:`).
    pub fn new(drive_letter: String) -> (r: Self)
        ensures
            r.wf(),
            r.store() == Map::<u64, EntryView>::empty(),
            r.index() == Seq::<(u64, Seq<char>)>::empty(),
            r.drive_letter@ == drive_letter@,
    {
        let r = MftIndex { entries: store_new(), search_index: Vec::new(), drive_letter };
        assert(r.index() =~= Seq::<(u64, Seq<char>)>::empty());
        r
    }

    /// The number of stored entries.
    pub fn entry_count(&self) -> (r: usize)
        ensures
            r == self.store().len(),
    {
        store_len(&self.entries)
    }

    /// The stored entry of `frn`, if any.
    pub fn entry(&self, frn: u64) -> (r: Option<FileEntry>)
        ensures
            r is Some <==> self.store().contains_key(frn),
            r is Some ==> r->Some_0@ == self.store()[frn],
    {
        store_get(&self.entries, frn)
    }

    /// The names met walking up from `frn`, nearest first; `None` where the
    /// chain breaks.
    fn ancestry_of(&self, frn: u64) -> (r: Option<Vec<String>>)
        ensures
            r is Some <==> ancestry(self.store(), frn, MAX_DEPTH as nat) is Some,
            r is Some ==> names_of(r->Some_0@) == ancestry(self.store(), frn, MAX_DEPTH as nat)->Some_0,
    {
        let ghost m = self.store();
        let mut parts: Vec<String> = Vec::new();
        let mut cur = frn;
        let mut depth: usize = 0;
        while depth < MAX_DEPTH
            invariant
                m == self.store(),
                depth <= MAX_DEPTH,
                ancestry(m, frn, MAX_DEPTH as nat) == match ancestry(
                    m,
                    cur,
                    (MAX_DEPTH - depth) as nat,
                ) {
                    Some(rest) => Some(names_of(parts@) + rest),
                    None => None::<Seq<Seq<char>>>,
                },
            decreases MAX_DEPTH - depth,
        {
            let ghost fuel = (MAX_DEPTH - depth) as nat;
            match store_get(&self.entries, cur) {
                Some(e) => {
                    let parent = e.parent_frn;
                    let ghost before = names_of(parts@);
                    parts.push(e.name);
                    assert(names_of(parts@) =~= before + seq![e.name@]);
                    if parent == cur || parent == 0 || parent & RECORD_INDEX_MASK == ROOT_RECORD_INDEX {
                        assert(ends_walk(cur, parent));
                        assert(names_of(parts@) + Seq::<Seq<char>>::empty() =~= names_of(parts@));
                        assert(before + seq![e.name@] =~= names_of(parts@));
                        return Some(parts);
                    }
                    proof {
                        match ancestry(m, parent, (fuel - 1) as nat) {
                            Some(rest) => {
                                assert(before + (seq![e.name@] + rest) =~= names_of(parts@) + rest);
                            },
                            None => {},
                        }
                    }
                    cur = parent;
                },
                None => {
                    if cur & RECORD_INDEX_MASK == ROOT_RECORD_INDEX {
                        assert(names_of(parts@) + Seq::<Seq<char>>::empty() =~= names_of(parts@));
                        return Some(parts);
                    }
                    return None;
                },
            }
            depth = depth + 1;
        }
        assert(names_of(parts@) + Seq::<Seq<char>>::empty() =~= names_of(parts@));
        Some(parts)
    }

    /// The full path of `frn`, rebuilt from parent links: at most fifty
    /// components, the nearest ones; `None` where the chain is broken.
    pub fn reconstruct_path(&self, frn: u64) -> (r: Option<String>)
        ensures
            r is Some <==> reconstruct(self.store(), self.drive_letter@, frn) is Some,
            r is Some ==> r->Some_0@ == reconstruct(self.store(), self.drive_letter@, frn)->Some_0,
    {
        match self.ancestry_of(frn) {
            Some(parts) => Some(compose(&self.drive_letter, &parts)),
            None => None,
        }
    }

    /// The full path of a file named `name` in the directory `parent`.
    pub fn path_in(&self, parent: u64, name: &String) -> (r: Option<String>)
        ensures
            r is Some <==> child_path(self.store(), self.drive_letter@, parent, name@) is Some,
            r is Some ==> r->Some_0@ == child_path(
                self.store(),
                self.drive_letter@,
                parent,
                name@,
            )->Some_0,
    {
        match self.ancestry_of(parent) {
            Some(up) => {
                let mut parts: Vec<String> = Vec::new();
                parts.push(name.clone());
                let mut i: usize = 0;
                while i < up.len()
                    invariant
                        i <= up@.len(),
                        names_of(parts@) == seq![name@] + names_of(up@).subrange(0, i as int),
                    decreases up@.len() - i,
                {
                    let ghost prev = parts@;
                    parts.push(up[i].clone());
                    assert(names_of(parts@) =~= names_of(prev).push(names_of(up@)[i as int]));
                    assert(names_of(parts@) =~= seq![name@] + names_of(up@).subrange(0, i + 1));
                    i = i + 1;
                }
                assert(names_of(up@).subrange(0, up@.len() as int) =~= names_of(up@));
                Some(compose(&self.drive_letter, &parts))
            },
            None => None,
        }
    }

    /// Replaces the search index by one pair per stored entry.
    pub fn rebuild_search_index(&mut self)
        requires
            old(self).store_ok(),
        ensures
            final(self).wf(),
            final(self).store() == old(self).store(),
            final(self).drive_letter == old(self).drive_letter,
    {
        let all = store_entries(&self.entries);
        let mut idx: Vec<(u64, String)> = Vec::with_capacity(all.len());
        let mut i: usize = 0;
        while i < all.len()
            invariant
                i <= all@.len(),
                idx@.len() == i,
                forall|j: int| 0 <= j < i ==> #[trigger] pairs_view(idx@)[j] == (all@[j].0, all@[j].1.name@),
            decreases all@.len() - i,
        {
            let ghost prev = idx@;
            idx.push((all[i].0, all[i].1.name.clone()));
            assert(pairs_view(idx@) =~= pairs_view(prev).push((all@[i as int].0, all@[i as int].1.name@)));
            i = i + 1;
        }
        let ghost m = self.store();
        proof {
            let v = pairs_view(idx@);
            assert forall|k: u64| m.contains_key(k) implies exists|j: int|
                0 <= j < v.len() && #[trigger] v[j].0 == k by {
                let j = choose|j: int| 0 <= j < all@.len() && #[trigger] all@[j].0 == k;
                assert(v[j].0 == k);
            }
            assert forall|a: int, b: int| 0 <= a < b < v.len() implies v[a].0 != v[b].0 by {
                assert(v[a].0 == all@[a].0);
                assert(v[b].0 == all@[b].0);
            }
            assert forall|j: int| 0 <= j < v.len() implies m.contains_key(#[trigger] v[j].0) && m[v[j].0].name == v[j].1 by {
                assert(v[j] == (all@[j].0, all@[j].1.name@));
            }
        }
        self.search_index = idx;
    }
}

} // verus!
