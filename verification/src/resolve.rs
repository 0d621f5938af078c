//! Resolution of a directive's token: where it is looked up, and which of
//! the places that exist wins.

use vstd::prelude::*;
use dashmap::DashMap;
use rustc_hash::FxBuildHasher;
use crate::maps::{probe_entries, probes_get, probes_insert};
use crate::paths::{joined, parent_of, path_join, path_parent};

verus! {

/// The directory of a file: its parent, or the empty path where it has none.
pub open spec fn source_dir(file: Seq<char>) -> Seq<char> {
    match parent_of(file) {
        Some(dir) => dir,
        None => Seq::empty(),
    }
}

/// The places where `token` is looked up, in the order of precedence: under
/// `dir`, the directory of the file that holds the directive, then under each
/// of the search directories `dirs`.
pub open spec fn candidates(dir: Seq<char>, token: Seq<char>, dirs: Seq<Seq<char>>) -> Seq<
    Seq<char>,
> {
    seq![joined(dir, token)] + Seq::new(dirs.len(), |i: int| joined(dirs[i], token))
}

/// Those of `paths` of which `probes` does not say whether they exist.
pub open spec fn unknown(probes: Map<Seq<char>, bool>, paths: Seq<Seq<char>>) -> Seq<Seq<char>>
    decreases paths.len(),
{
    if paths.len() == 0 {
        Seq::empty()
    } else {
        let earlier = unknown(probes, paths.drop_last());
        if probes.contains_key(paths.last()) {
            earlier
        } else {
            earlier.push(paths.last())
        }
    }
}

/// The table `probes` after the answers `flags` to the questions `asked`
/// were recorded, one after the other. An answer for a path that the table
/// knows already is dropped. Answers that do not match the questions in
/// number are not recorded at all.
pub open spec fn recorded(
    probes: Map<Seq<char>, bool>,
    asked: Seq<Seq<char>>,
    flags: Seq<bool>,
) -> Map<Seq<char>, bool>
    decreases asked.len(),
{
    if asked.len() == 0 || asked.len() != flags.len() {
        probes
    } else {
        let earlier = recorded(probes, asked.drop_last(), flags.drop_last());
        if earlier.contains_key(asked.last()) {
            earlier
        } else {
            earlier.insert(asked.last(), flags.last())
        }
    }
}

/// The first place at or after `i` among `paths` that exists according to
/// `probes`.
pub open spec fn first_existing(probes: Map<Seq<char>, bool>, paths: Seq<Seq<char>>, i: int) -> Option<
    int,
>
    decreases paths.len() - i,
{
    if i < 0 || i >= paths.len() {
        None
    } else if probes.get(paths[i]) == Some(true) {
        Some(i)
    } else {
        first_existing(probes, paths, i + 1)
    }
}

/// The first match wins: the place that is chosen exists, and no place
/// before it does; where none is chosen, none exists.
pub proof fn lemma_first_existing_is_first(
    probes: Map<Seq<char>, bool>,
    paths: Seq<Seq<char>>,
    i: int,
)
    requires
        0 <= i,
    ensures
        match first_existing(probes, paths, i) {
            Some(k) => {
                &&& i <= k < paths.len()
                &&& probes.get(paths[k]) == Some(true)
                &&& forall|j: int| i <= j < k ==> probes.get(#[trigger] paths[j]) != Some(true)
            },
            None => forall|j: int|
                i <= j < paths.len() ==> probes.get(#[trigger] paths[j]) != Some(true),
        },
    decreases paths.len() - i,
{
    if i < paths.len() && probes.get(paths[i]) != Some(true) {
        lemma_first_existing_is_first(probes, paths, i + 1);
    }
}

/// The directory of the file that holds a directive.
pub fn source_dir_of(file: &str) -> (dir: String)
    ensures
        dir@ == source_dir(file@),
{
    match path_parent(file) {
        Some(dir) => dir,
        None => String::new(),
    }
}

/// The places where a token is looked up, in the order of precedence.
pub fn candidate_paths(dir: &str, token: &str, dirs: &Vec<String>) -> (paths: Vec<String>)
    ensures
        paths.deep_view() == candidates(dir@, token@, dirs.deep_view()),
{
    let mut paths: Vec<String> = Vec::new();
    paths.push(path_join(dir, token));
    let mut i: usize = 0;
    while i < dirs.len()
        invariant
            i <= dirs.len(),
            paths.len() == i + 1,
            paths[0]@ == joined(dir@, token@),
            forall|j: int| 0 <= j < i ==> (#[trigger] paths[j + 1])@ == joined(dirs[j]@, token@),
        decreases dirs.len() - i,
    {
        paths.push(path_join(dirs[i].as_str(), token));
        i += 1;
    }
    assert(paths.deep_view() =~= candidates(dir@, token@, dirs.deep_view())) by {
        let c = candidates(dir@, token@, dirs.deep_view());
        assert(c.len() == paths.len());
        assert forall|j: int| 0 <= j < paths.len() implies paths.deep_view()[j] == c[j] by {
            if j > 0 {
                assert(paths[(j - 1) + 1]@ == joined(dirs[j - 1]@, token@));
            }
        }
    }
    paths
}

/// Those of `paths` that the table of probes does not hold.
pub(crate) fn unknown_paths(probes: &DashMap<String, bool, FxBuildHasher>, paths: &Vec<String>) -> (r:
    Vec<String>)
    ensures
        r.deep_view() == unknown(probe_entries(*probes), paths.deep_view()),
{
    let mut r: Vec<String> = Vec::new();
    let ghost all = paths.deep_view();
    let mut i: usize = 0;
    assert(all.take(0) =~= Seq::<Seq<char>>::empty());
    while i < paths.len()
        invariant
            i <= paths.len(),
            all == paths.deep_view(),
            r.deep_view() == unknown(probe_entries(*probes), all.take(i as int)),
        decreases paths.len() - i,
    {
        proof {
            assert(all.take(i + 1).drop_last() =~= all.take(i as int));
            assert(all.take(i + 1).last() == paths[i as int]@);
        }
        if probes_get(probes, paths[i].as_str()).is_none() {
            let ghost before = r.deep_view();
            r.push(paths[i].clone());
            assert(r.deep_view() =~= before.push(paths[i as int]@));
        }
        i += 1;
    }
    assert(all.take(i as int) =~= all);
    r
}

/// Records the answers `flags` to the questions `asked`.
pub(crate) fn record_probes(
    probes: &mut DashMap<String, bool, FxBuildHasher>,
    asked: &Vec<String>,
    flags: &Vec<bool>,
)
    requires
        asked.len() == flags.len(),
    ensures
        probe_entries(*final(probes)) == recorded(
            probe_entries(*old(probes)),
            asked.deep_view(),
            flags@,
        ),
{
    let ghost start = probe_entries(*probes);
    let ghost questions = asked.deep_view();
    let mut i: usize = 0;
    assert(questions.take(0) =~= Seq::<Seq<char>>::empty());
    while i < asked.len()
        invariant
            i <= asked.len(),
            asked.len() == flags.len(),
            questions == asked.deep_view(),
            probe_entries(*probes) == recorded(start, questions.take(i as int), flags@.take(i as int)),
        decreases asked.len() - i,
    {
        proof {
            assert(questions.take(i + 1).drop_last() =~= questions.take(i as int));
            assert(flags@.take(i + 1).drop_last() =~= flags@.take(i as int));
            assert(questions.take(i + 1).last() == asked[i as int]@);
            assert(flags@.take(i + 1).last() == flags[i as int]);
        }
        if probes_get(probes, asked[i].as_str()).is_none() {
            probes_insert(probes, asked[i].clone(), flags[i]);
        }
        i += 1;
    }
    assert(questions.take(i as int) =~= questions);
    assert(flags@.take(i as int) =~= flags@);
}

/// The first of `paths` that exists according to the table of probes.
pub(crate) fn first_existing_path(
    probes: &DashMap<String, bool, FxBuildHasher>,
    paths: &Vec<String>,
) -> (r: Option<usize>)
    ensures
        match r {
            Some(k) => first_existing(probe_entries(*probes), paths.deep_view(), 0) == Some(
                k as int,
            ) && k < paths.len(),
            None => first_existing(probe_entries(*probes), paths.deep_view(), 0).is_none(),
        },
{
    let ghost all = paths.deep_view();
    let mut i: usize = 0;
    while i < paths.len()
        invariant
            i <= paths.len(),
            all == paths.deep_view(),
            first_existing(probe_entries(*probes), all, 0) == first_existing(
                probe_entries(*probes),
                all,
                i as int,
            ),
        decreases paths.len() - i,
    {
        assert(all[i as int] == paths[i as int]@);
        match probes_get(probes, paths[i].as_str()) {
            Some(true) => {
                return Some(i);
            },
            _ => {},
        }
        i += 1;
    }
    None
}

} // verus!
