//! Runs of a traversal: a file system that answers, several workers that
//! take turns, and the headers that the translation units reach.

use vstd::prelude::*;
use crate::command::CommandModel;
use crate::engine::{
    initial, scannable, seeds, source_files, steal_fits, step_model, EventModel, PhaseModel,
    StolenModel, TraversalModel, Unit, WorkerModel,
};
use crate::flags::search_dirs;
use crate::resolve::{candidates, first_existing, source_dir};
use crate::scan::includes_of;
use crate::tables::pruned;

verus! {

/// A file system at one moment: the paths that exist, the canonical form of
/// those that have one, and the text of the files that can be read.
pub struct Disk {
    pub present: Set<Seq<char>>,
    pub canonical: Map<Seq<char>, Seq<char>>,
    pub texts: Map<Seq<char>, Seq<char>>,
}

impl Disk {
    /// For every path whether it exists.
    pub open spec fn probes(self) -> Map<Seq<char>, bool> {
        Map::total(|p: Seq<char>| self.present.contains(p))
    }

    /// For each of the paths `asked` whether it exists.
    pub open spec fn flags(self, asked: Seq<Seq<char>>) -> Seq<bool> {
        Seq::new(asked.len(), |i: int| self.present.contains(asked[i]))
    }

    /// What `token` resolves to in a file of the directory `dir` when the
    /// search directories are `dirs`: the canonical form of the first
    /// candidate that exists.
    pub open spec fn resolve(self, dirs: Seq<Seq<char>>, dir: Seq<char>, token: Seq<char>) -> Option<
        Seq<char>,
    > {
        let places = candidates(dir, token, dirs);
        match first_existing(self.probes(), places, 0) {
            Some(k) => self.canonical.get(places[k]),
            None => None,
        }
    }

    /// The answer of this file system to the request that a worker in the
    /// phase `phase` has made.
    pub open spec fn answer(self, phase: PhaseModel) -> EventModel {
        match phase {
            PhaseModel::Reading { file, context } => EventModel::Contents(self.texts.get(file)),
            PhaseModel::Probing { job, token, dir, candidates, asked } => EventModel::Probed(
                self.flags(asked),
            ),
            PhaseModel::Canonicalizing { job, token, dir, candidate } => EventModel::Canonical(
                self.canonical.get(candidate),
            ),
            _ => EventModel::Nothing,
        }
    }
}

/// Some work unit among `units` is for the file `file`.
pub open spec fn holds_file(units: Seq<Unit>, file: Seq<char>) -> bool {
    exists|j: int| 0 <= j < units.len() && (#[trigger] units[j]).0 == file
}

/// What a traversal works on: a file system, a compilation database, and
/// search directories that stand for those of all its translation units.
pub struct World {
    pub disk: Disk,
    pub commands: Seq<CommandModel>,
    pub dirs: Seq<Seq<char>>,
}

impl World {
    /// All translation units have the same search directories.
    pub open spec fn uniform(self) -> bool {
        forall|i: int| 0 <= i < self.commands.len() ==> #[trigger] search_dirs(self.commands[i]) == self.dirs
    }

    /// The work units with which the traversal begins.
    pub open spec fn seed_units(self) -> Seq<Unit> {
        seeds(source_files(self.commands), self.disk.flags(source_files(self.commands)))
    }

    /// The traversal begins with `file`.
    pub open spec fn is_seed(self, file: Seq<char>) -> bool {
        holds_file(self.seed_units(), file)
    }

    /// Every translation unit resolves every token as the directories
    /// `dirs` do: on this file system the search directories of one unit
    /// lead to no other file than those of another.
    pub open spec fn agreed(self) -> bool {
        forall|k: int, dir: Seq<char>, token: Seq<char>|
            0 <= k < self.commands.len() ==> #[trigger] self.disk.resolve(
                search_dirs(self.commands[k]),
                dir,
                token,
            ) == self.disk.resolve(self.dirs, dir, token)
    }

    /// What `token` resolves to in a file of the directory `dir`.
    pub open spec fn resolve(self, dir: Seq<char>, token: Seq<char>) -> Option<Seq<char>> {
        self.disk.resolve(self.dirs, dir, token)
    }

    /// A directive of `file` resolves to `header`.
    pub open spec fn found(self, file: Seq<char>, header: Seq<char>) -> bool {
        &&& self.disk.texts.contains_key(file)
        &&& exists|n: int|
            0 <= n < includes_of(self.disk.texts[file]).len() && self.resolve(
                source_dir(file),
                #[trigger] includes_of(self.disk.texts[file])[n],
            ) == Some(header)
    }

    /// `file` is scanned once the headers `known` are found: it can be
    /// scanned, and it is a seed or a header among `known` that is not pruned.
    pub open spec fn expands(self, known: Set<Seq<char>>, file: Seq<char>) -> bool {
        &&& scannable(file)
        &&& self.is_seed(file) || (known.contains(file) && !pruned(self.commands, file))
    }

    /// The set `r` holds every header that a file holds which is scanned
    /// once the headers of `r` are found.
    pub open spec fn closed(self, r: Set<Seq<char>>) -> bool {
        forall|f: Seq<char>, h: Seq<char>| self.expands(r, f) && #[trigger] self.found(f, h) ==> r.contains(h)
    }

    /// The set `r` holds every header that the file `seed` holds if it is
    /// scanned, and every header that a file holds which is scanned once
    /// the headers of `r` are found from `seed`.
    pub open spec fn closed_from(self, seed: Seq<char>, r: Set<Seq<char>>) -> bool {
        forall|f: Seq<char>, h: Seq<char>|
            (f == seed || (r.contains(f) && !pruned(self.commands, f))) && scannable(f)
                && #[trigger] self.found(f, h) ==> r.contains(h)
    }

    /// The headers that are reached from the file `seed`: the least set
    /// that is closed from it.
    pub open spec fn reachable_from(self, seed: Seq<char>) -> Set<Seq<char>> {
        Set::new(
            |h: Seq<char>| forall|r: Set<Seq<char>>| #[trigger] self.closed_from(seed, r) ==> r.contains(h),
        )
    }

    /// The headers that the translation units reach: the least closed set.
    pub open spec fn reachable(self) -> Set<Seq<char>> {
        Set::new(|h: Seq<char>| forall|r: Set<Seq<char>>| #[trigger] self.closed(r) ==> r.contains(h))
    }
}

/// Several workers on one traversal.
pub struct System {
    pub traversal: TraversalModel,
    pub workers: Seq<WorkerModel>,
}

/// A turn of a run: which worker steps, what the caller answers to the
/// worker's request, and what an attempt on the shared queue comes to if the
/// step makes one.
pub struct Turn {
    pub worker: int,
    pub event: EventModel,
    pub stolen: StolenModel,
}

impl System {
    /// The traversal of `world` with `workers` idle workers, seeded and not
    /// yet begun.
    pub open spec fn start(world: World, workers: nat) -> System {
        System {
            traversal: TraversalModel { queue: world.seed_units(), ..initial(world.commands) },
            workers: Seq::new(
                workers,
                |i: int| WorkerModel { local: Seq::empty(), phase: PhaseModel::Idle },
            ),
        }
    }

    /// The turn can be taken: the worker is there, and the attempt on the
    /// queue can come to what the turn says.
    pub open spec fn admits(self, turn: Turn) -> bool {
        &&& 0 <= turn.worker < self.workers.len()
        &&& steal_fits(self.traversal.queue, turn.stolen)
    }

    /// The system after a turn.
    pub open spec fn after(self, turn: Turn) -> System {
        let o = step_model(self.traversal, self.workers[turn.worker], turn.event, turn.stolen);
        System { traversal: o.traversal, workers: self.workers.update(turn.worker, o.worker) }
    }

    /// The system after the turns `turns`, if each of them can be taken.
    pub open spec fn run(self, turns: Seq<Turn>) -> Option<System>
        decreases turns.len(),
    {
        if turns.len() == 0 {
            Some(self)
        } else if !self.admits(turns[0]) {
            None
        } else {
            self.after(turns[0]).run(turns.drop_first())
        }
    }

    /// In each of the turns the answer is that of the file system `disk`,
    /// and the identifiers of directories are not used up.
    pub open spec fn answered_by(self, disk: Disk, turns: Seq<Turn>) -> bool
        decreases turns.len(),
    {
        turns.len() == 0 || {
            &&& self.admits(turns[0])
            &&& turns[0].event == disk.answer(self.workers[turns[0].worker].phase)
            &&& self.traversal.interner.next < u32::MAX
            &&& self.after(turns[0]).answered_by(disk, turns.drop_first())
        }
    }

    /// Nothing is left to do: the queue is empty, and every worker is idle
    /// and has no work unit.
    pub open spec fn quiescent(self) -> bool {
        &&& self.traversal.queue.len() == 0
        &&& forall|i: int|
            0 <= i < self.workers.len() ==> (#[trigger] self.workers[i]).local.len() == 0
                && self.workers[i].phase is Idle
    }
}

} // verus!
