use vstd::prelude::*;

use crate::store::EntryView;

verus! {

/// Walks upward at most this many levels when reconstructing a path.
pub const MAX_DEPTH: usize = 50;

/// Mask of the record-index part (low 48 bits) of a file reference number.
pub const RECORD_INDEX_MASK: u64 = 0x0000_FFFF_FFFF_FFFF;

/// The record index of the NTFS root directory.
pub const ROOT_RECORD_INDEX: u64 = 5;

/// `frn` names record index 5, the volume root, in any incarnation.
pub open spec fn is_root_sentinel(frn: u64) -> bool {
    frn & RECORD_INDEX_MASK == ROOT_RECORD_INDEX
}

/// The walk stops above an entry whose parent is this value.
pub open spec fn ends_walk(frn: u64, parent: u64) -> bool {
    parent == frn || parent == 0 || is_root_sentinel(parent)
}

/// The names met when walking up from `frn` through parent links, nearest
/// first, at most `fuel` of them. `None` where the walk reaches an FRN that
/// is neither stored nor the root sentinel.
pub open spec fn ancestry(m: Map<u64, EntryView>, frn: u64, fuel: nat) -> Option<Seq<Seq<char>>>
    decreases fuel,
{
    if fuel == 0 {
        Some(Seq::empty())
    } else if m.contains_key(frn) {
        let e = m[frn];
        if ends_walk(frn, e.parent_frn) {
            Some(seq![e.name])
        } else {
            match ancestry(m, e.parent_frn, (fuel - 1) as nat) {
                Some(rest) => Some(seq![e.name] + rest),
                None => None,
            }
        }
    } else if is_root_sentinel(frn) {
        Some(Seq::empty())
    } else {
        None
    }
}

/// Components given nearest first, written root first and separated by `\`.
pub open spec fn join_components(parts: Seq<Seq<char>>) -> Seq<char>
    decreases parts.len(),
{
    if parts.len() == 0 {
        Seq::empty()
    } else if parts.len() == 1 {
        parts[0]
    } else {
        join_components(parts.drop_first()) + seq!['\\'] + parts[0]
    }
}

/// The drive prefix, ending in exactly one added `\` unless it ends in one.
pub open spec fn drive_root(drive: Seq<char>) -> Seq<char> {
    if drive.len() > 0 && drive.last() == '\\' {
        drive
    } else {
        drive.push('\\')
    }
}

/// The full path of the components `parts` (nearest first) on `drive`.
pub open spec fn compose_path(drive: Seq<char>, parts: Seq<Seq<char>>) -> Seq<char> {
    drive_root(drive) + join_components(parts)
}

/// The path of `frn`, or `None` where its chain is broken.
pub open spec fn reconstruct(m: Map<u64, EntryView>, drive: Seq<char>, frn: u64) -> Option<
    Seq<char>,
> {
    match ancestry(m, frn, MAX_DEPTH as nat) {
        Some(parts) => Some(compose_path(drive, parts)),
        None => None,
    }
}

/// The path of a file named `name` in the directory `parent`.
pub open spec fn child_path(
    m: Map<u64, EntryView>,
    drive: Seq<char>,
    parent: u64,
    name: Seq<char>,
) -> Option<Seq<char>> {
    match ancestry(m, parent, MAX_DEPTH as nat) {
        Some(parts) => Some(compose_path(drive, seq![name] + parts)),
        None => None,
    }
}

proof fn lemma_ancestry_bounded(m: Map<u64, EntryView>, frn: u64, fuel: nat)
    ensures
        ancestry(m, frn, fuel) matches Some(parts) ==> parts.len() <= fuel,
    decreases fuel,
{
    if fuel > 0 && m.contains_key(frn) && !ends_walk(frn, m[frn].parent_frn) {
        lemma_ancestry_bounded(m, m[frn].parent_frn, (fuel - 1) as nat);
    }
}

/// Reconstruction always ends: for every FRN it either yields a path that
/// starts at the drive root and has at most [`MAX_DEPTH`] components, or
/// reports a broken chain.
pub proof fn lemma_reconstruct_rooted(m: Map<u64, EntryView>, drive: Seq<char>, frn: u64)
    ensures
        match reconstruct(m, drive, frn) {
            Some(p) => {
                &&& ancestry(m, frn, MAX_DEPTH as nat) matches Some(parts)
                &&& parts.len() <= MAX_DEPTH
                &&& p == drive_root(drive) + join_components(parts)
                &&& p.subrange(0, drive_root(drive).len() as int) == drive_root(drive)
            },
            None => ancestry(m, frn, MAX_DEPTH as nat) is None,
        },
{
    lemma_ancestry_bounded(m, frn, MAX_DEPTH as nat);
    match ancestry(m, frn, MAX_DEPTH as nat) {
        Some(parts) => {
            let p = drive_root(drive) + join_components(parts);
            assert(p.subrange(0, drive_root(drive).len() as int) =~= drive_root(drive));
        },
        None => {},
    }
}

pub open spec fn names_of(v: Seq<String>) -> Seq<Seq<char>> {
    v.map_values(|s: String| s@)
}

/// Relies on `str::ends_with` with a `char` pattern: whether the last character
/// is `c`.
#[verifier::external_body]
fn ends_with_char(s: &str, c: char) -> (r: bool)
    ensures
        r == (s@.len() > 0 && s@.last() == c),
{
    s.ends_with(c)
}

/// Writes the full path of `parts` (nearest first) on `drive`.
pub fn compose(drive: &String, parts: &Vec<String>) -> (r: String)
    ensures
        r@ == compose_path(drive@, names_of(parts@)),
{
    let mut path = drive.clone();
    if !ends_with_char(drive.as_str(), '\\') {
        path.append("\\");
        proof {
            reveal_strlit("\\");
        }
    }
    let ghost names = names_of(parts@);
    let n = parts.len();
    let mut i: usize = n;
    while i > 0
        invariant
            n == parts@.len(),
            names == names_of(parts@),
            i <= n,
            path@ == drive_root(drive@) + join_components(names.subrange(i as int, n as int)),
        decreases i,
    {
        let ghost before = names.subrange(i as int, n as int);
        if i < n {
            path.append("\\");
            proof {
                reveal_strlit("\\");
            }
        }
        path.append(parts[i - 1].as_str());
        proof {
            let after = names.subrange(i - 1, n as int);
            assert(after.drop_first() =~= before);
            assert(after[0] == parts@[i - 1]@);
            if i == n {
                assert(before =~= Seq::<Seq<char>>::empty());
            }
        }
        i = i - 1;
    }
    assert(names.subrange(0, n as int) =~= names);
    path
}

} // verus!
