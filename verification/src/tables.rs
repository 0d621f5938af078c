//! The translation units of a traversal, with what each search needs of them.

use vstd::prelude::*;
use dashmap::DashMap;
use rustc_hash::FxBuildHasher;
use crate::classify::{is_system_header, is_system_path, system_path};
use crate::command::{command_models, CommandModel, CompileCommand};
use crate::flags::{
    add_dir, extract_include_directories_for_command, lemma_push_contains, search_dirs, system_dirs,
};
use crate::maps::{index_entries, index_get, index_insert, index_new};
use crate::paths::lies_under;

verus! {

/// The entry that stands for the translation unit with the file `file`: the
/// last one of that file in the list.
pub open spec fn context_of(commands: Seq<CommandModel>, file: Seq<char>) -> Option<int>
    decreases commands.len(),
{
    if commands.len() == 0 {
        None
    } else if commands.last().file == file {
        Some(commands.len() - 1)
    } else {
        context_of(commands.drop_last(), file)
    }
}

/// The search directories of the translation unit with the file `context`;
/// none where the list has no such unit.
pub open spec fn dirs_for(commands: Seq<CommandModel>, context: Seq<char>) -> Seq<Seq<char>> {
    match context_of(commands, context) {
        Some(k) => search_dirs(commands[k]),
        None => Seq::empty(),
    }
}

/// Some translation unit declares `dir` as a system directory.
pub open spec fn declares_system_dir(commands: Seq<CommandModel>, dir: Seq<char>) -> bool {
    exists|i: int| 0 <= i < commands.len() && (#[trigger] system_dirs(commands[i])).contains(dir)
}

/// A header is pruned, that is recorded but not scanned, when its path
/// counts as a system path or lies under a directory that some translation
/// unit declares as a system directory.
pub open spec fn pruned(commands: Seq<CommandModel>, header: Seq<char>) -> bool {
    ||| system_path(header)
    ||| exists|dir: Seq<char>| #[trigger]
        declares_system_dir(commands, dir) && lies_under(header, dir)
}

pub proof fn lemma_context_of_bounds(commands: Seq<CommandModel>, file: Seq<char>)
    ensures
        context_of(commands, file) matches Some(k) ==> 0 <= k < commands.len() && commands[k].file
            == file,
    decreases commands.len(),
{
    if commands.len() > 0 && commands.last().file != file {
        lemma_context_of_bounds(commands.drop_last(), file);
    }
}

spec fn index_agrees(found: Option<usize>, expected: Option<int>) -> bool {
    match (found, expected) {
        (Some(a), Some(b)) => a == b,
        (None, None) => true,
        _ => false,
    }
}

struct Row {
    command: CompileCommand,
    dirs: Vec<String>,
}

/// The translation units of a traversal: each entry with its search
/// directories, an index from file to entry, and the system directories of
/// all of them. A file is found in the index by its path as it is spelled.
pub struct Tables {
    rows: Vec<Row>,
    index: DashMap<String, usize, FxBuildHasher>,
    system: Vec<String>,
}

spec fn row_commands(rows: Seq<Row>) -> Seq<CommandModel> {
    Seq::new(rows.len(), |i: int| rows[i].command@)
}

/// Appends copies of the directories `more` to `dirs`.
fn append_dirs(dirs: &mut Vec<String>, more: &Vec<String>)
    ensures
        final(dirs).deep_view() == old(dirs).deep_view() + more.deep_view(),
{
    let mut j: usize = 0;
    let ghost start = dirs.deep_view();
    assert(start + more.deep_view().take(0) =~= start);
    while j < more.len()
        invariant
            j <= more.len(),
            dirs.deep_view() == start + more.deep_view().take(j as int),
        decreases more.len() - j,
    {
        let ghost before = dirs.deep_view();
        dirs.push(more[j].clone());
        assert(dirs.deep_view() =~= before.push(more[j as int]@));
        assert(before.push(more[j as int]@) =~= start + more.deep_view().take(j + 1));
        j += 1;
    }
    assert(more.deep_view().take(more.len() as int) =~= more.deep_view());
}

/// Adds to `dirs` each directory of `more` that it lacks.
fn merge_dirs(dirs: &mut Vec<String>, more: &Vec<String>)
    ensures
        forall|d: Seq<char>|
            final(dirs).deep_view().contains(d) <==> old(dirs).deep_view().contains(d)
                || more.deep_view().contains(d),
{
    let mut j: usize = 0;
    let ghost start = dirs.deep_view();
    while j < more.len()
        invariant
            j <= more.len(),
            forall|d: Seq<char>|
                dirs.deep_view().contains(d) <==> start.contains(d) || more.deep_view().take(
                    j as int,
                ).contains(d),
        decreases more.len() - j,
    {
        let ghost before = dirs.deep_view();
        let ghost taken = more.deep_view().take(j as int);
        let ghost next = more.deep_view().take(j + 1);
        add_dir(dirs, more[j].clone());
        proof {
            let new = more[j as int]@;
            assert(next =~= taken.push(new));
            assert forall|d: Seq<char>|
                dirs.deep_view().contains(d) <==> start.contains(d) || next.contains(d) by {
                assert(before.contains(d) <==> start.contains(d) || taken.contains(d));
                lemma_push_contains(taken, new, d);
                lemma_push_contains(before, new, d);
            }
        }
        j += 1;
    }
    assert(more.deep_view().take(more.len() as int) =~= more.deep_view());
}

impl Tables {
    #[verifier::type_invariant]
    spec fn inv(self) -> bool {
        &&& forall|i: int|
            0 <= i < self.rows.len() ==> (#[trigger] self.rows[i]).dirs.deep_view() == search_dirs(
                self.rows[i].command@,
            )
        &&& forall|f: Seq<char>|
            index_agrees(
                index_entries(self.index).get(f),
                #[trigger] context_of(row_commands(self.rows@), f),
            )
        &&& forall|d: Seq<char>|
            self.system.deep_view().contains(d) <==> #[trigger] declares_system_dir(
                row_commands(self.rows@),
                d,
            )
    }

    /// The entries, in the order in which they were given. All else that
    /// the tables hold follows from them: the search directories of each
    /// entry, the place of the entry that stands for each file, and the
    /// system directories of all entries.
    pub closed spec fn commands(self) -> Seq<CommandModel> {
        row_commands(self.rows@)
    }

    /// The tables for a list of entries.
    pub fn new(commands: &Vec<CompileCommand>) -> (tables: Tables)
        ensures
            tables.commands() == command_models(commands@),
    {
        let mut rows: Vec<Row> = Vec::new();
        let mut index = index_new();
        let mut system: Vec<String> = Vec::new();
        let ghost all = command_models(commands@);
        let mut i: usize = 0;
        assert(row_commands(rows@) =~= all.take(0));
        while i < commands.len()
            invariant
                i <= commands.len(),
                all == command_models(commands@),
                row_commands(rows@) == all.take(i as int),
                rows.len() == i,
                forall|k: int|
                    0 <= k < rows.len() ==> (#[trigger] rows[k]).dirs.deep_view() == search_dirs(
                        rows[k].command@,
                    ),
                forall|f: Seq<char>|
                    index_agrees(
                        index_entries(index).get(f),
                        #[trigger] context_of(all.take(i as int), f),
                    ),
                forall|d: Seq<char>|
                    system.deep_view().contains(d) <==> #[trigger] declares_system_dir(
                        all.take(i as int),
                        d,
                    ),
            decreases commands.len() - i,
        {
            let command = commands[i].duplicate();
            let (mut dirs, more) = extract_include_directories_for_command(&command);
            append_dirs(&mut dirs, &more);
            let ghost before = system.deep_view();
            merge_dirs(&mut system, &more);
            let ghost old_index = index_entries(index);
            index_insert(&mut index, command.file.clone(), i);
            let ghost old_rows = rows@;
            rows.push(Row { command, dirs });
            proof {
                let head = all.take(i as int);
                let next = all.take(i + 1);
                assert(next.drop_last() =~= head);
                assert(next.last() == all[i as int]);
                assert(row_commands(rows@) =~= next);
                assert forall|f: Seq<char>|
                    index_agrees(index_entries(index).get(f), #[trigger] context_of(next, f)) by {
                    assert(index_agrees(old_index.get(f), context_of(head, f)));
                }
                assert forall|d: Seq<char>|
                    system.deep_view().contains(d) <==> #[trigger] declares_system_dir(
                        next,
                        d,
                    ) by {
                    if declares_system_dir(next, d) {
                        let k = choose|k: int|
                            0 <= k < next.len() && (#[trigger] system_dirs(next[k])).contains(d);
                        if k < i {
                            assert(system_dirs(head[k]).contains(d));
                        }
                    }
                    if declares_system_dir(head, d) {
                        let k = choose|k: int|
                            0 <= k < head.len() && (#[trigger] system_dirs(head[k])).contains(d);
                        assert(system_dirs(next[k]).contains(d));
                    }
                    if more.deep_view().contains(d) {
                        assert(system_dirs(next[i as int]).contains(d));
                    }
                }
            }
            i += 1;
        }
        assert(all.take(i as int) =~= all);
        Tables { rows, index, system }
    }

    /// The number of entries.
    pub fn len(&self) -> (n: usize)
        ensures
            n == self.commands().len(),
    {
        self.rows.len()
    }

    /// The place of the entry that stands for the translation unit with the
    /// file `file`.
    pub fn lookup(&self, file: &str) -> (r: Option<usize>)
        ensures
            match r {
                Some(k) => context_of(self.commands(), file@) == Some(k as int),
                None => context_of(self.commands(), file@).is_none(),
            },
    {
        proof {
            use_type_invariant(self);
        }
        index_get(&self.index, file)
    }

    /// The search directories of the entry at `k`.
    pub fn dirs(&self, k: usize) -> (dirs: &Vec<String>)
        requires
            k < self.commands().len(),
        ensures
            dirs.deep_view() == search_dirs(self.commands()[k as int]),
    {
        proof {
            use_type_invariant(self);
        }
        &self.rows[k].dirs
    }

    /// The entry at `k`.
    pub fn command(&self, k: usize) -> (command: &CompileCommand)
        requires
            k < self.commands().len(),
        ensures
            command@ == self.commands()[k as int],
    {
        &self.rows[k].command
    }

    /// Tests whether a header is pruned.
    pub fn prunes(&self, header: &str) -> (b: bool)
        ensures
            b == pruned(self.commands(), header@),
    {
        proof {
            use_type_invariant(self);
        }
        let by_path = is_system_path(header);
        let by_dir = is_system_header(header, &self.system);
        proof {
            let dirs = self.system.deep_view();
            if by_dir {
                let k = choose|k: int| 0 <= k < dirs.len() && lies_under(header@, #[trigger] dirs[k]);
                assert(dirs.contains(dirs[k]));
                assert(declares_system_dir(self.commands(), dirs[k]));
            }
            if exists|dir: Seq<char>| #[trigger]
                declares_system_dir(self.commands(), dir) && lies_under(header@, dir) {
                let dir = choose|dir: Seq<char>| #[trigger]
                    declares_system_dir(self.commands(), dir) && lies_under(header@, dir);
                assert(dirs.contains(dir));
                let k = choose|k: int| 0 <= k < dirs.len() && dirs[k] == dir;
                assert(lies_under(header@, dirs[k]));
            }
        }
        by_path || by_dir
    }
}

} // verus!
