//! The decisions of the `reorder` command: which top-level folders are
//! arc folders to wrap into the series folder, and how many loose
//! episode files sit beside them. Listing and moving stay with the
//! application.

use vstd::prelude::*;

use crate::generate::is_arc_folder_spec;
use crate::matcher::{self, ParsedFile, is_arc_folder_name};
use crate::text::str_eq_chars;
use crate::download::{contains_string, string_views};

verus! {

/// Settings of one `reorder` run.
pub struct Options {
    pub dry_run: bool,
    /// Name of the series folder the arc folders move into.
    pub series_folder: String,
}

/// What a top-level directory entry is.
#[derive(Debug, Clone, Copy, PartialEq, Eq, Structural)]
pub enum EntryKind {
    Dir,
    File,
    Other,
}

/// An entry is moved: a directory, not the series folder itself, named
/// like an arc folder.
pub open spec fn moves(e: (Seq<char>, EntryKind), series_folder: Seq<char>) -> bool {
    e.1 == EntryKind::Dir && e.0 != series_folder && is_arc_folder_spec(e.0)
}

/// An entry is a loose episode file: a file named like a One Pace
/// release.
pub open spec fn loose(e: (Seq<char>, EntryKind)) -> bool {
    e.1 == EntryKind::File && matcher::parse_filename_spec(e.0) is Some
}

/// Indices of the entries to move, in listing order, and the number of
/// loose episode files.
pub open spec fn reorder_spec(es: Seq<(Seq<char>, EntryKind)>, series_folder: Seq<char>) -> (Seq<int>, nat)
    decreases es.len(),
{
    if es.len() == 0 {
        (seq![], 0)
    } else {
        let (m, l) = reorder_spec(es.drop_last(), series_folder);
        let e = es.last();
        if moves(e, series_folder) {
            (m.push(es.len() - 1), l)
        } else if loose(e) {
            (m, l + 1)
        } else {
            (m, l)
        }
    }
}

pub open spec fn entry_views(v: Seq<(String, EntryKind)>) -> Seq<(Seq<char>, EntryKind)> {
    v.map_values(|e: (String, EntryKind)| (e.0@, e.1))
}

/// Plans a reorder from the root's entries (names and kinds, in listing
/// order).
pub fn reorder_plan(entries: &Vec<(String, EntryKind)>, series_folder: &str) -> (r: (Vec<usize>, usize))
    ensures
        r.0@.map_values(|i: usize| i as int) == reorder_spec(entry_views(entries@), series_folder@).0,
        r.1 == reorder_spec(entry_views(entries@), series_folder@).1,
{
    let ghost ev = entry_views(entries@);
    let sf = crate::text::chars_of(series_folder);
    let mut to_move: Vec<usize> = Vec::new();
    let mut loose_files: usize = 0;
    let mut i: usize = 0;
    while i < entries.len()
        invariant
            i <= entries@.len(),
            ev == entry_views(entries@),
            sf@ == series_folder@,
            to_move@.map_values(|i: usize| i as int) == reorder_spec(ev.take(i as int), series_folder@).0,
            loose_files == reorder_spec(ev.take(i as int), series_folder@).1,
            loose_files <= i,
        decreases entries@.len() - i,
    {
        let (name, kind) = (&entries[i].0, entries[i].1);
        proof {
            assert(ev.take(i + 1).drop_last() == ev.take(i as int));
            assert(ev.take(i + 1).last() == (name@, kind));
        }
        let ghost before = to_move@.map_values(|i: usize| i as int);
        if kind == EntryKind::Dir && !str_eq_chars(name.as_str(), &sf) && is_arc_folder_name(name.as_str()) {
            to_move.push(i);
            assert(to_move@.map_values(|i: usize| i as int) =~= before.push(i as int));
        } else if kind == EntryKind::File && ParsedFile::from_filename(name.as_str()).is_some() {
            loose_files = loose_files + 1;
        }
        i = i + 1;
    }
    assert(ev.take(i as int) == ev);
    (to_move, loose_files)
}

pub open spec fn stays(sf: Seq<char>) -> spec_fn((Seq<char>, EntryKind)) -> bool {
    |e: (Seq<char>, EntryKind)| !moves(e, sf)
}

proof fn lemma_nothing_moves(es: Seq<(Seq<char>, EntryKind)>, sf: Seq<char>)
    requires
        forall|i: int| 0 <= i < es.len() ==> !moves(#[trigger] es[i], sf),
    ensures
        reorder_spec(es, sf).0.len() == 0,
    decreases es.len(),
{
    if es.len() > 0 {
        assert forall|i: int| 0 <= i < es.drop_last().len() implies !moves(#[trigger] es.drop_last()[i], sf) by {
            assert(es.drop_last()[i] == es[i]);
        }
        lemma_nothing_moves(es.drop_last(), sf);
        assert(!moves(es[es.len() - 1], sf));
    }
}

/// Reordering is idempotent: once the planned folders have moved into
/// the series folder, the root (what stayed, plus the series folder)
/// plans no further move.
pub proof fn law_reorder_idempotent(es: Seq<(Seq<char>, EntryKind)>, sf: Seq<char>)
    ensures
        reorder_spec(es.filter(stays(sf)).push((sf, EntryKind::Dir)), sf).0.len() == 0,
{
    broadcast use vstd::seq_lib::group_filter_ensures;

    let after = es.filter(stays(sf)).push((sf, EntryKind::Dir));
    assert forall|i: int| 0 <= i < after.len() implies !moves(#[trigger] after[i], sf) by {
        if i < es.filter(stays(sf)).len() {
            assert(after[i] == es.filter(stays(sf))[i]);
            assert(stays(sf)(es.filter(stays(sf))[i]));
        }
    }
    lemma_nothing_moves(after, sf);
}

// ---------- folders already in the series folder ----------

/// An entry the run renames into the series folder: one it plans to move
/// whose name the series folder does not hold yet (`target` lists the
/// names it holds).
pub open spec fn renames(e: (Seq<char>, EntryKind), sf: Seq<char>, target: Seq<Seq<char>>) -> bool {
    moves(e, sf) && !target.contains(e.0)
}

/// Indices of the entries renamed, and of those planned but left in place
/// because the series folder already holds their name, in listing order.
pub open spec fn rename_spec(es: Seq<(Seq<char>, EntryKind)>, sf: Seq<char>, target: Seq<Seq<char>>) -> (
    Seq<int>,
    Seq<int>,
)
    decreases es.len(),
{
    if es.len() == 0 {
        (seq![], seq![])
    } else {
        let (m, k) = rename_spec(es.drop_last(), sf, target);
        let e = es.last();
        if renames(e, sf, target) {
            (m.push(es.len() - 1), k)
        } else if moves(e, sf) {
            (m, k.push(es.len() - 1))
        } else {
            (m, k)
        }
    }
}

/// Splits the planned moves of the root's entries into the renames and
/// the ones skipped because `target` (the series folder's names) already
/// holds their name.
pub fn rename_plan(entries: &Vec<(String, EntryKind)>, series_folder: &str, target: &Vec<String>) -> (r: (
    Vec<usize>,
    Vec<usize>,
))
    ensures
        r.0@.map_values(|i: usize| i as int) == rename_spec(entry_views(entries@), series_folder@, string_views(target@)).0,
        r.1@.map_values(|i: usize| i as int) == rename_spec(entry_views(entries@), series_folder@, string_views(target@)).1,
{
    let ghost ev = entry_views(entries@);
    let ghost tv = string_views(target@);
    let sf = crate::text::chars_of(series_folder);
    let mut moved: Vec<usize> = Vec::new();
    let mut skipped: Vec<usize> = Vec::new();
    let mut i: usize = 0;
    while i < entries.len()
        invariant
            i <= entries@.len(),
            ev == entry_views(entries@),
            tv == string_views(target@),
            sf@ == series_folder@,
            moved@.map_values(|i: usize| i as int) == rename_spec(ev.take(i as int), series_folder@, tv).0,
            skipped@.map_values(|i: usize| i as int) == rename_spec(ev.take(i as int), series_folder@, tv).1,
        decreases entries@.len() - i,
    {
        let (name, kind) = (&entries[i].0, entries[i].1);
        proof {
            assert(ev.take(i + 1).drop_last() == ev.take(i as int));
            assert(ev.take(i + 1).last() == (name@, kind));
        }
        let ghost mb = moved@.map_values(|i: usize| i as int);
        let ghost sb = skipped@.map_values(|i: usize| i as int);
        if kind == EntryKind::Dir && !str_eq_chars(name.as_str(), &sf) && is_arc_folder_name(name.as_str()) {
            if contains_string(target, name.as_str()) {
                skipped.push(i);
                assert(skipped@.map_values(|i: usize| i as int) =~= sb.push(i as int));
            } else {
                moved.push(i);
                assert(moved@.map_values(|i: usize| i as int) =~= mb.push(i as int));
            }
        }
        i = i + 1;
    }
    assert(ev.take(i as int) == ev);
    (moved, skipped)
}

pub open spec fn not_renamed(sf: Seq<char>, target: Seq<Seq<char>>) -> spec_fn((Seq<char>, EntryKind)) -> bool {
    |e: (Seq<char>, EntryKind)| !renames(e, sf, target)
}

pub open spec fn renamed(sf: Seq<char>, target: Seq<Seq<char>>) -> spec_fn((Seq<char>, EntryKind)) -> bool {
    |e: (Seq<char>, EntryKind)| renames(e, sf, target)
}

proof fn lemma_no_renames(es: Seq<(Seq<char>, EntryKind)>, sf: Seq<char>, target: Seq<Seq<char>>)
    requires
        forall|i: int| 0 <= i < es.len() ==> !renames(#[trigger] es[i], sf, target),
    ensures
        rename_spec(es, sf, target).0.len() == 0,
    decreases es.len(),
{
    if es.len() > 0 {
        assert forall|i: int| 0 <= i < es.drop_last().len() implies !renames(#[trigger] es.drop_last()[i], sf, target) by {
            assert(es.drop_last()[i] == es[i]);
        }
        lemma_no_renames(es.drop_last(), sf, target);
        assert(!renames(es[es.len() - 1], sf, target));
    }
}

/// A second run renames nothing. After a run, the root holds what was not
/// renamed plus the series folder, and the series folder holds its old
/// names plus those renamed into it. Then every arc folder of the first
/// listing (other than the series folder) has its name in the series
/// folder, loose files and other entries are still at the root, and the
/// second run plans no rename: what it plans to move is what the first
/// run left in place because the name was taken.
pub proof fn law_reorder_second_run_renames_nothing(
    es: Seq<(Seq<char>, EntryKind)>,
    sf: Seq<char>,
    target: Seq<Seq<char>>,
)
    ensures
        ({
            let root2 = es.filter(not_renamed(sf, target)).push((sf, EntryKind::Dir));
            let target2 = target + es.filter(renamed(sf, target)).map_values(|e: (Seq<char>, EntryKind)| e.0);
            &&& forall|i: int| 0 <= i < es.len() && moves(#[trigger] es[i], sf) ==> target2.contains(es[i].0)
            &&& forall|i: int| 0 <= i < es.len() && es[i].1 != EntryKind::Dir ==> root2.contains(#[trigger] es[i])
            &&& rename_spec(root2, sf, target2).0.len() == 0
        }),
{
    broadcast use vstd::seq_lib::group_filter_ensures;

    let kept = es.filter(not_renamed(sf, target));
    let gone = es.filter(renamed(sf, target));
    let root2 = kept.push((sf, EntryKind::Dir));
    let names = gone.map_values(|e: (Seq<char>, EntryKind)| e.0);
    let target2 = target + names;
    assert forall|i: int| 0 <= i < es.len() && moves(#[trigger] es[i], sf) implies target2.contains(es[i].0) by {
        if target.contains(es[i].0) {
            let t = choose|t: int| 0 <= t < target.len() && target[t] == es[i].0;
            assert(target2[t] == es[i].0);
        } else {
            assert(renamed(sf, target)(es[i]));
            es.lemma_filter_contains(renamed(sf, target), i);
            let g = choose|g: int| 0 <= g < gone.len() && gone[g] == es[i];
            assert(names[g] == es[i].0);
            assert(target2[target.len() + g] == es[i].0);
        }
    }
    assert forall|i: int| 0 <= i < es.len() && es[i].1 != EntryKind::Dir implies root2.contains(#[trigger] es[i]) by {
        assert(not_renamed(sf, target)(es[i]));
        es.lemma_filter_contains(not_renamed(sf, target), i);
        let k = choose|k: int| 0 <= k < kept.len() && kept[k] == es[i];
        assert(root2[k] == es[i]);
    }
    assert forall|j: int| 0 <= j < root2.len() implies !renames(#[trigger] root2[j], sf, target2) by {
        if j < kept.len() {
            let e = kept[j];
            assert(root2[j] == e);
            assert(not_renamed(sf, target)(e));
            if moves(e, sf) {
                assert(target.contains(e.0));
                let t = choose|t: int| 0 <= t < target.len() && target[t] == e.0;
                assert(target2[t] == e.0);
            }
        }
    }
    lemma_no_renames(root2, sf, target2);
}

} // verus!
