//! What holds of every run of a traversal: the set of headers that it finds
//! depends on the compilation database and on the file system, not on the
//! number of workers nor on the order in which they take their steps.

use vstd::prelude::*;
use crate::command::CommandModel;
use crate::engine::{
    claim, owed, scannable, seeds, source_file, source_files, steal_fits, step_canonicalizing,
    step_idle, step_model, step_probing, step_reading, step_scanning, ActionModel, EventModel,
    JobModel, Outcome, PhaseModel, StolenModel, TraversalModel, Unit, WorkerModel,
};
use crate::interner::{lemma_ids_distinct, lemma_lookup_keeps_dense};
use crate::paths::joined;
use crate::resolve::{
    candidates, first_existing, lemma_first_existing_is_first, recorded, source_dir, unknown,
};
use crate::scan::includes_of;
use crate::tables::{context_of, dirs_for, lemma_context_of_bounds, pruned};
use crate::world::{holds_file, Disk, System, Turn, World};

verus! {

/// Each path is unknown or known.
proof fn lemma_unknown_covers(probes: Map<Seq<char>, bool>, paths: Seq<Seq<char>>)
    ensures
        forall|j: int|
            0 <= j < paths.len() ==> probes.contains_key(#[trigger] paths[j]) || unknown(
                probes,
                paths,
            ).contains(paths[j]),
    decreases paths.len(),
{
    if paths.len() > 0 {
        let front = paths.drop_last();
        lemma_unknown_covers(probes, front);
        let u = unknown(probes, paths);
        let uf = unknown(probes, front);
        assert forall|j: int| 0 <= j < paths.len() implies probes.contains_key(#[trigger] paths[j])
            || u.contains(paths[j]) by {
            if !probes.contains_key(paths[j]) {
                if j < front.len() {
                    assert(front[j] == paths[j]);
                    assert(uf.contains(front[j]));
                    let k = choose|k: int| 0 <= k < uf.len() && uf[k] == paths[j];
                    assert(u[k] == paths[j]);
                } else {
                    assert(paths[j] == paths.last());
                    assert(u[u.len() - 1] == paths[j]);
                }
            }
        }
    }
}

/// A table of probes says of each path what the file system says.
pub open spec fn probes_agree(probes: Map<Seq<char>, bool>, disk: Disk) -> bool {
    forall|p: Seq<char>| #[trigger] probes.contains_key(p) ==> probes[p] == disk.present.contains(p)
}

/// Answers of the file system, once recorded, leave a table that agrees
/// with it, that has lost nothing, and that knows every path asked about.
proof fn lemma_recorded_agrees(probes: Map<Seq<char>, bool>, disk: Disk, asked: Seq<Seq<char>>)
    requires
        probes_agree(probes, disk),
    ensures
        probes_agree(recorded(probes, asked, disk.flags(asked)), disk),
        forall|p: Seq<char>| #[trigger]
            probes.contains_key(p) ==> recorded(probes, asked, disk.flags(asked)).contains_key(p),
        forall|j: int|
            0 <= j < asked.len() ==> recorded(probes, asked, disk.flags(asked)).contains_key(
                #[trigger] asked[j],
            ),
    decreases asked.len(),
{
    if asked.len() > 0 {
        let front = asked.drop_last();
        assert(disk.flags(asked).drop_last() =~= disk.flags(front));
        lemma_recorded_agrees(probes, disk, front);
        let r = recorded(probes, asked, disk.flags(asked));
        assert forall|j: int| 0 <= j < asked.len() implies r.contains_key(#[trigger] asked[j]) by {
            if j < front.len() {
                assert(front[j] == asked[j]);
            }
        }
    }
}

/// Two tables that say the same of each path choose the same path.
proof fn lemma_first_existing_agrees(
    a: Map<Seq<char>, bool>,
    b: Map<Seq<char>, bool>,
    paths: Seq<Seq<char>>,
    i: int,
)
    requires
        0 <= i,
        forall|j: int| 0 <= j < paths.len() ==> a.get(#[trigger] paths[j]) == b.get(paths[j]),
    ensures
        first_existing(a, paths, i) == first_existing(b, paths, i),
    decreases paths.len() - i,
{
    if i < paths.len() {
        lemma_first_existing_agrees(a, b, paths, i + 1);
    }
}

/// The file of an entry stands for a translation unit.
proof fn lemma_entry_is_known(commands: Seq<CommandModel>, k: int)
    requires
        0 <= k < commands.len(),
    ensures
        context_of(commands, commands[k].file).is_some(),
    decreases commands.len(),
{
    if commands.last().file != commands[k].file {
        assert(commands.drop_last()[k] == commands[k]);
        lemma_entry_is_known(commands.drop_last(), k);
    }
}

/// `file` is the file of an entry, and a source file.
pub open spec fn source_entry(commands: Seq<CommandModel>, file: Seq<char>) -> bool {
    exists|k: int| 0 <= k < commands.len() && (#[trigger] commands[k]).file == file && source_file(file)
}

/// Each source file is the file of an entry.
proof fn lemma_source_files_are_entries(commands: Seq<CommandModel>)
    ensures
        forall|j: int|
            0 <= j < source_files(commands).len() ==> source_entry(
                commands,
                #[trigger] source_files(commands)[j],
            ),
    decreases commands.len(),
{
    if commands.len() > 0 {
        let front = commands.drop_last();
        lemma_source_files_are_entries(front);
        let s = source_files(commands);
        let sf = source_files(front);
        assert forall|j: int| 0 <= j < s.len() implies source_entry(commands, #[trigger] s[j]) by {
            if j < sf.len() {
                assert(s[j] == sf[j]);
                assert(source_entry(front, sf[j]));
                let k = choose|k: int|
                    0 <= k < front.len() && (#[trigger] front[k]).file == sf[j] && source_file(sf[j]);
                assert(commands[k] == front[k]);
            } else {
                assert(commands[commands.len() - 1].file == s[j]);
            }
        }
    }
}

/// Each seed is one of `files`, and is its own context.
proof fn lemma_seeds_are_files(files: Seq<Seq<char>>, present: Seq<bool>)
    ensures
        forall|j: int|
            0 <= j < seeds(files, present).len() ==> (#[trigger] seeds(files, present)[j]).0 == seeds(
                files,
                present,
            )[j].1 && files.contains(seeds(files, present)[j].0),
    decreases files.len(),
{
    if files.len() > 0 {
        let front = files.drop_last();
        lemma_seeds_are_files(front, present);
        let s = seeds(files, present);
        let sf = seeds(front, present);
        assert forall|j: int| 0 <= j < s.len() implies (#[trigger] s[j]).0 == s[j].1 && files.contains(
            s[j].0,
        ) by {
            if j < sf.len() {
                assert(s[j] == sf[j]);
                assert(front.contains(sf[j].0));
                let k = choose|k: int| 0 <= k < front.len() && front[k] == sf[j].0;
                assert(files[k] == sf[j].0);
            } else {
                assert(files[files.len() - 1] == s[j].0);
            }
        }
    }
}

impl World {
    /// A seed is a source file of a known translation unit, and its own
    /// context.
    proof fn lemma_seed_units(self)
        ensures
            forall|j: int|
                0 <= j < self.seed_units().len() ==> {
                    let unit = #[trigger] self.seed_units()[j];
                    &&& unit.0 == unit.1
                    &&& context_of(self.commands, unit.1).is_some()
                    &&& scannable(unit.0)
                },
    {
        let files = source_files(self.commands);
        lemma_seeds_are_files(files, self.disk.flags(files));
        lemma_source_files_are_entries(self.commands);
        assert forall|j: int| 0 <= j < self.seed_units().len() implies {
            let unit = #[trigger] self.seed_units()[j];
            &&& unit.0 == unit.1
            &&& context_of(self.commands, unit.1).is_some()
            &&& scannable(unit.0)
        } by {
            let unit = self.seed_units()[j];
            assert(files.contains(unit.0));
            let m = choose|m: int| 0 <= m < files.len() && files[m] == unit.0;
            assert(source_entry(self.commands, files[m]));
            let k = choose|k: int|
                0 <= k < self.commands.len() && (#[trigger] self.commands[k]).file == files[m]
                    && source_file(files[m]);
            lemma_entry_is_known(self.commands, k);
        }
    }

    /// What a file holds that is scanned once the reachable headers are
    /// found, is reachable.
    pub proof fn lemma_reachable_is_closed(self, f: Seq<char>, h: Seq<char>)
        requires
            self.expands(self.reachable(), f),
            self.found(f, h),
        ensures
            self.reachable().contains(h),
    {
        assert forall|r: Set<Seq<char>>| #[trigger] self.closed(r) implies r.contains(h) by {
            assert(self.expands(r, f));
        }
    }

    /// The reachable headers lie in every closed set.
    pub proof fn lemma_reachable_is_least(self, r: Set<Seq<char>>)
        requires
            self.closed(r),
        ensures
            self.reachable().subset_of(r),
    {
    }
}

/// `file` is to be scanned as things stand: it is a seed, or a header that
/// is claimed and not pruned.
pub open spec fn expandable(w: World, t: TraversalModel, file: Seq<char>) -> bool {
    w.is_seed(file) || (t.claims.contains_key(file) && !pruned(w.commands, file))
}

/// `context` is the file of a translation unit.
pub open spec fn known(w: World, context: Seq<char>) -> bool {
    context_of(w.commands, context).is_some()
}

/// The context is a seed, and the file is that seed or a header that is
/// reached from it and not pruned.
pub open spec fn traced(w: World, file: Seq<char>, context: Seq<char>) -> bool {
    &&& w.is_seed(context)
    &&& file == context || (w.reachable_from(context).contains(file) && !pruned(w.commands, file))
}

/// Each work unit is for a file that is to be scanned, in a known context
/// from which the file is reached.
pub open spec fn units_ok(w: World, t: TraversalModel, units: Seq<Unit>) -> bool {
    forall|j: int|
        0 <= j < units.len() ==> expandable(w, t, (#[trigger] units[j]).0) && known(w, units[j].1)
            && traced(w, units[j].0, units[j].1)
}

/// What `token` resolves to in `file` is claimed, if it is a header.
pub open spec fn settled(w: World, t: TraversalModel, file: Seq<char>, token: Seq<char>) -> bool {
    match w.resolve(source_dir(file), token) {
        Some(header) => t.claims.contains_key(header),
        None => true,
    }
}

/// The job is for a file that is to be scanned, holds the directives of
/// that file, and its first `done` directives are settled.
pub open spec fn job_ok(w: World, t: TraversalModel, job: JobModel, done: int) -> bool {
    &&& expandable(w, t, job.file)
    &&& scannable(job.file)
    &&& known(w, job.context)
    &&& traced(w, job.file, job.context)
    &&& w.disk.texts.contains_key(job.file)
    &&& job.includes == includes_of(w.disk.texts[job.file])
    &&& 0 <= done <= job.next <= job.includes.len()
    &&& forall|n: int| 0 <= n < done ==> settled(w, t, job.file, #[trigger] job.includes[n])
}

/// The worker's phase fits the world and the traversal.
pub open spec fn phase_ok(w: World, t: TraversalModel, phase: PhaseModel) -> bool {
    match phase {
        PhaseModel::Idle => true,
        PhaseModel::Reading { file, context } => expandable(w, t, file) && scannable(file) && known(
            w,
            context,
        ) && traced(w, file, context),
        PhaseModel::Scanning { job } => job_ok(w, t, job, job.next),
        PhaseModel::Probing { job, token, dir, candidates: places, asked } => {
            &&& job_ok(w, t, job, job.next - 1)
            &&& job.next >= 1
            &&& token == job.includes[job.next - 1]
            &&& t.interner.ids.contains_key(source_dir(job.file))
            &&& dir == t.interner.ids[source_dir(job.file)]
            &&& places == candidates(
                source_dir(job.file),
                token,
                dirs_for(w.commands, job.context),
            )
            &&& forall|j: int|
                0 <= j < places.len() ==> t.probes.contains_key(#[trigger] places[j])
                    || asked.contains(places[j])
        },
        PhaseModel::Canonicalizing { job, token, dir, candidate } => {
            &&& job_ok(w, t, job, job.next - 1)
            &&& job.next >= 1
            &&& token == job.includes[job.next - 1]
            &&& t.interner.ids.contains_key(source_dir(job.file))
            &&& dir == t.interner.ids[source_dir(job.file)]
            &&& first_existing(
                w.disk.probes(),
                candidates(source_dir(job.file), token, dirs_for(w.commands, job.context)),
                0,
            ) matches Some(k)
            &&& candidate == candidates(
                source_dir(job.file),
                token,
                dirs_for(w.commands, job.context),
            )[k]
        },
    }
}

/// The worker fits the world and the traversal.
pub open spec fn worker_ok(w: World, t: TraversalModel, worker: WorkerModel) -> bool {
    units_ok(w, t, worker.local) && phase_ok(w, t, worker.phase)
}

/// Each resolution that is remembered is what the file system gives for
/// the token and the directory that has the identifier.
pub open spec fn resolutions_agree(w: World, t: TraversalModel) -> bool {
    forall|token: Seq<char>, id: u32| #[trigger]
        t.resolutions.contains_key((token, id)) ==> exists|dir: Seq<char>| #[trigger]
            t.interner.ids.contains_key(dir) && t.interner.ids[dir] == id && t.resolutions[(
                token,
                id,
            )] == w.resolve(dir, token)
}

/// The traversal fits the world: it is of the world's translation units,
/// what it remembers is true of the file system, every header it has claimed
/// is reachable and claimed for a known translation unit, which is a seed
/// from which the header is reached, and every work unit in its queue is in
/// order.
pub open spec fn shared_ok(w: World, t: TraversalModel) -> bool {
    &&& t.commands == w.commands
    &&& w.agreed()
    &&& probes_agree(t.probes, w.disk)
    &&& resolutions_agree(w, t)
    &&& t.interner.dense()
    &&& forall|h: Seq<char>| #[trigger]
        t.claims.contains_key(h) ==> w.reachable().contains(h) && known(w, t.claims[h])
            && w.is_seed(t.claims[h]) && w.reachable_from(t.claims[h]).contains(h)
    &&& units_ok(w, t, t.queue)
}

/// The file that a worker in the phase `phase` is busy with.
pub open spec fn phase_file(phase: PhaseModel) -> Option<Seq<char>> {
    match phase {
        PhaseModel::Idle => None,
        PhaseModel::Reading { file, context } => Some(file),
        PhaseModel::Scanning { job } => Some(job.file),
        PhaseModel::Probing { job, token, dir, candidates, asked } => Some(job.file),
        PhaseModel::Canonicalizing { job, token, dir, candidate } => Some(job.file),
    }
}

/// The worker holds `file`: as a work unit, or as the file it is busy with.
pub open spec fn worker_pending(worker: WorkerModel, file: Seq<char>) -> bool {
    holds_file(worker.local, file) || phase_file(worker.phase) == Some(file)
}

/// The queue or the worker holds `file`.
pub open spec fn busy(t: TraversalModel, worker: WorkerModel, file: Seq<char>) -> bool {
    holds_file(t.queue, file) || worker_pending(worker, file)
}

/// The queue or some worker holds `file`.
pub open spec fn pending(s: System, file: Seq<char>) -> bool {
    holds_file(s.traversal.queue, file) || exists|i: int|
        0 <= i < s.workers.len() && worker_pending(#[trigger] s.workers[i], file)
}

/// Every header that `file` holds is claimed.
pub open spec fn finished(w: World, t: TraversalModel, file: Seq<char>) -> bool {
    forall|h: Seq<char>| #[trigger] w.found(file, h) ==> t.claims.contains_key(h)
}

/// Every file that is to be scanned is held somewhere or is finished.
pub open spec fn complete(w: World, s: System) -> bool {
    forall|f: Seq<char>| #[trigger]
        expandable(w, s.traversal, f) && scannable(f) ==> pending(s, f) || finished(
            w,
            s.traversal,
            f,
        )
}

/// What holds of a system between any two turns.
pub open spec fn inv(w: World, s: System) -> bool {
    &&& shared_ok(w, s.traversal)
    &&& forall|i: int| 0 <= i < s.workers.len() ==> worker_ok(w, s.traversal, #[trigger] s.workers[i])
    &&& complete(w, s)
}

/// The traversal `t2` knows all that `t` knows.
pub open spec fn grows(t: TraversalModel, t2: TraversalModel) -> bool {
    &&& t2.commands == t.commands
    &&& forall|h: Seq<char>| #[trigger] t.claims.contains_key(h) ==> t2.claims.contains_key(h)
    &&& forall|p: Seq<char>| #[trigger] t.probes.contains_key(p) ==> t2.probes.contains_key(p)
    &&& forall|d: Seq<char>| #[trigger]
        t.interner.ids.contains_key(d) ==> t2.interner.ids.contains_key(d) && t2.interner.ids[d]
            == t.interner.ids[d]
}

/// What a step of one worker keeps: the traversal and the worker still fit
/// the world, nothing that was known is lost, a file that the queue or the
/// worker held is still held or done with, and a file that has become one to
/// scan is held by the worker.
pub open spec fn step_ok(w: World, t: TraversalModel, worker: WorkerModel, o: Outcome) -> bool {
    &&& shared_ok(w, o.traversal)
    &&& worker_ok(w, o.traversal, o.worker)
    &&& grows(t, o.traversal)
    &&& forall|f: Seq<char>| #[trigger]
        busy(t, worker, f) ==> busy(o.traversal, o.worker, f) || !scannable(f) || finished(
            w,
            o.traversal,
            f,
        )
    &&& forall|f: Seq<char>| #[trigger]
        expandable(w, o.traversal, f) && !expandable(w, t, f) ==> worker_pending(o.worker, f)
}

/// Work units that are in order stay so when the traversal learns more.
proof fn lemma_grows_keeps_units(w: World, t: TraversalModel, t2: TraversalModel, units: Seq<Unit>)
    requires
        grows(t, t2),
        units_ok(w, t, units),
    ensures
        units_ok(w, t2, units),
{
}

/// A job that is in order stays so when the traversal learns more.
proof fn lemma_grows_keeps_job(
    w: World,
    t: TraversalModel,
    t2: TraversalModel,
    job: JobModel,
    done: int,
)
    requires
        grows(t, t2),
        job_ok(w, t, job, done),
    ensures
        job_ok(w, t2, job, done),
{
    assert forall|n: int| 0 <= n < done implies settled(w, t2, job.file, #[trigger] job.includes[n]) by {
        assert(settled(w, t, job.file, job.includes[n]));
    }
}

/// A worker that fits stays so when the traversal learns more.
proof fn lemma_grows_keeps_worker(
    w: World,
    t: TraversalModel,
    t2: TraversalModel,
    worker: WorkerModel,
)
    requires
        grows(t, t2),
        worker_ok(w, t, worker),
    ensures
        worker_ok(w, t2, worker),
{
    lemma_grows_keeps_units(w, t, t2, worker.local);
    match worker.phase {
        PhaseModel::Idle => {},
        PhaseModel::Reading { file, context } => {},
        PhaseModel::Scanning { job } => {
            lemma_grows_keeps_job(w, t, t2, job, job.next);
        },
        PhaseModel::Probing { job, token, dir, candidates, asked } => {
            lemma_grows_keeps_job(w, t, t2, job, job.next - 1);
        },
        PhaseModel::Canonicalizing { job, token, dir, candidate } => {
            lemma_grows_keeps_job(w, t, t2, job, job.next - 1);
        },
    }
}

/// A file that is finished stays so when the traversal learns more.
proof fn lemma_grows_keeps_finished(w: World, t: TraversalModel, t2: TraversalModel, f: Seq<char>)
    requires
        grows(t, t2),
        finished(w, t, f),
    ensures
        finished(w, t2, f),
{
    assert forall|h: Seq<char>| #[trigger] w.found(f, h) implies t2.claims.contains_key(h) by {
        assert(t.claims.contains_key(h));
    }
}

/// A claim keeps the traversal in order where the header is reachable.
proof fn lemma_claim(
    w: World,
    t: TraversalModel,
    local: Seq<Unit>,
    result: Option<Seq<char>>,
    context: Seq<char>,
)
    requires
        shared_ok(w, t),
        units_ok(w, t, local),
        known(w, context),
        w.is_seed(context),
        result matches Some(h) ==> w.reachable().contains(h) && w.reachable_from(context).contains(
            h,
        ),
    ensures
        ({
            let (t2, local2) = claim(t, local, result, context);
            &&& shared_ok(w, t2)
            &&& units_ok(w, t2, local2)
            &&& grows(t, t2)
            &&& t2.interner == t.interner
            &&& t2.probes == t.probes
            &&& t2.resolutions == t.resolutions
            &&& t2.queue == t.queue
            &&& (result matches Some(h) ==> t2.claims.contains_key(h))
            &&& forall|f: Seq<char>| holds_file(local, f) ==> holds_file(local2, f)
            &&& forall|f: Seq<char>| #[trigger]
                expandable(w, t2, f) && !expandable(w, t, f) ==> holds_file(local2, f)
        }),
{
    let (t2, local2) = claim(t, local, result, context);
    match result {
        Some(h) => {
            if !t.claims.contains_key(h) {
                assert(grows(t, t2));
                lemma_grows_keeps_units(w, t, t2, t.queue);
                lemma_grows_keeps_units(w, t, t2, local);
                assert forall|f: Seq<char>| holds_file(local, f) implies holds_file(local2, f) by {
                    let j = choose|j: int| 0 <= j < local.len() && (#[trigger] local[j]).0 == f;
                    assert(local2[j].0 == f);
                }
                assert forall|f: Seq<char>| #[trigger]
                    expandable(w, t2, f) && !expandable(w, t, f) implies holds_file(local2, f) by {
                    assert(f == h);
                    assert(local2[local.len() as int].0 == f);
                }
                assert forall|token: Seq<char>, id: u32| #[trigger]
                    t2.resolutions.contains_key((token, id)) implies exists|dir: Seq<char>| #[trigger]
                    t2.interner.ids.contains_key(dir) && t2.interner.ids[dir] == id
                        && t2.resolutions[(token, id)] == w.resolve(dir, token) by {
                    assert(t.resolutions.contains_key((token, id)));
                }
            }
        },
        None => {},
    }
}

/// A step of an idle worker keeps what a step is to keep.
proof fn lemma_idle(w: World, t: TraversalModel, local: Seq<Unit>, stolen: StolenModel)
    requires
        shared_ok(w, t),
        units_ok(w, t, local),
        steal_fits(t.queue, stolen),
    ensures
        step_ok(w, t, WorkerModel { local, phase: PhaseModel::Idle }, step_idle(t, local, stolen)),
{
    let worker = WorkerModel { local, phase: PhaseModel::Idle };
    let o = step_idle(t, local, stolen);
    if local.len() > 0 {
        let (file, context) = local.last();
        let rest = local.drop_last();
        assert(o.traversal == t);
        assert(units_ok(w, t, rest)) by {
            assert forall|j: int| 0 <= j < rest.len() implies expandable(w, t, (#[trigger] rest[j]).0)
                && known(w, rest[j].1) && traced(w, rest[j].0, rest[j].1) by {
                assert(rest[j] == local[j]);
            }
        }
        assert(expandable(w, t, local[local.len() - 1].0) && known(w, local[local.len() - 1].1)
            && traced(w, local[local.len() - 1].0, local[local.len() - 1].1));
        assert forall|f: Seq<char>| #[trigger] busy(t, worker, f) implies busy(
            o.traversal,
            o.worker,
            f,
        ) || !scannable(f) || finished(w, o.traversal, f) by {
            if holds_file(local, f) {
                let j = choose|j: int| 0 <= j < local.len() && (#[trigger] local[j]).0 == f;
                if j < rest.len() {
                    assert(rest[j].0 == f);
                    assert(holds_file(rest, f));
                }
            }
        }
    } else {
        match stolen {
            StolenModel::Task(unit) => {
                let rest = t.queue.drop_first();
                assert(units_ok(w, o.traversal, rest)) by {
                    assert forall|j: int| 0 <= j < rest.len() implies expandable(
                        w,
                        o.traversal,
                        (#[trigger] rest[j]).0,
                    ) && known(w, rest[j].1) && traced(w, rest[j].0, rest[j].1) by {
                        assert(rest[j] == t.queue[j + 1]);
                    }
                }
                assert(expandable(w, t, t.queue[0].0) && known(w, t.queue[0].1) && traced(
                    w,
                    t.queue[0].0,
                    t.queue[0].1,
                ));
                assert(resolutions_agree(w, o.traversal)) by {
                    assert forall|token: Seq<char>, id: u32| #[trigger]
                        o.traversal.resolutions.contains_key((token, id)) implies exists|
                        dir: Seq<char>,
                    | #[trigger]
                        o.traversal.interner.ids.contains_key(dir) && o.traversal.interner.ids[dir]
                            == id && o.traversal.resolutions[(token, id)] == w.resolve(dir, token) by {
                        assert(t.resolutions.contains_key((token, id)));
                        let d = choose|d: Seq<char>| #[trigger]
                            t.interner.ids.contains_key(d) && t.interner.ids[d] == id
                                && t.resolutions[(token, id)] == w.resolve(d, token);
                        assert(o.traversal.interner.ids.contains_key(d));
                    }
                }
                assert(units_ok(w, o.traversal, o.worker.local));
                assert forall|f: Seq<char>| #[trigger] busy(t, worker, f) implies busy(
                    o.traversal,
                    o.worker,
                    f,
                ) || !scannable(f) || finished(w, o.traversal, f) by {
                    if holds_file(t.queue, f) {
                        let j = choose|j: int|
                            0 <= j < t.queue.len() && (#[trigger] t.queue[j]).0 == f;
                        if j == 0 {
                            assert(o.worker.local[local.len() as int].0 == f);
                            assert(holds_file(o.worker.local, f));
                        } else {
                            assert(rest[j - 1].0 == f);
                            assert(holds_file(rest, f));
                        }
                    }
                }
            },
            StolenModel::Retry => {},
            StolenModel::Empty => {},
        }
    }
}

/// A step of a worker that waits for the text of a file keeps what a step
/// is to keep, where the file system answers.
proof fn lemma_reading(
    w: World,
    t: TraversalModel,
    local: Seq<Unit>,
    file: Seq<char>,
    context: Seq<char>,
)
    requires
        shared_ok(w, t),
        units_ok(w, t, local),
        phase_ok(w, t, PhaseModel::Reading { file, context }),
    ensures
        step_ok(
            w,
            t,
            WorkerModel { local, phase: PhaseModel::Reading { file, context } },
            step_reading(t, local, file, context, EventModel::Contents(w.disk.texts.get(file))),
        ),
{
    let worker = WorkerModel { local, phase: PhaseModel::Reading { file, context } };
    let o = step_reading(t, local, file, context, EventModel::Contents(w.disk.texts.get(file)));
    assert(o.traversal == t);
    if !w.disk.texts.contains_key(file) {
        assert(finished(w, t, file));
    }
}

/// A token resolves in a known context as it does in the world.
proof fn lemma_context_resolves(w: World, context: Seq<char>, dir: Seq<char>, token: Seq<char>)
    requires
        w.agreed(),
        known(w, context),
    ensures
        w.disk.resolve(dirs_for(w.commands, context), dir, token) == w.resolve(dir, token),
{
    lemma_context_of_bounds(w.commands, context);
}

/// Translation units that all have the search directories `dirs` agree.
pub proof fn lemma_uniform_is_agreed(w: World)
    requires
        w.uniform(),
    ensures
        w.agreed(),
{
}

/// A look-up in the interner keeps the traversal in order.
proof fn lemma_interned(w: World, t: TraversalModel, dir: Seq<char>)
    requires
        shared_ok(w, t),
        t.interner.next < u32::MAX,
    ensures
        ({
            let t1 = TraversalModel { interner: t.interner.after(dir), ..t };
            &&& shared_ok(w, t1)
            &&& grows(t, t1)
            &&& t1.interner.ids.contains_key(dir)
            &&& t1.interner.ids[dir] == t.interner.id_of(dir)
        }),
{
    let t1 = TraversalModel { interner: t.interner.after(dir), ..t };
    lemma_lookup_keeps_dense(t.interner, dir);
    assert forall|token: Seq<char>, id: u32| #[trigger]
        t1.resolutions.contains_key((token, id)) implies exists|d: Seq<char>| #[trigger]
        t1.interner.ids.contains_key(d) && t1.interner.ids[d] == id && t1.resolutions[(token, id)]
            == w.resolve(d, token) by {
        assert(t.resolutions.contains_key((token, id)));
        let d = choose|d: Seq<char>| #[trigger]
            t.interner.ids.contains_key(d) && t.interner.ids[d] == id && t.resolutions[(token, id)]
                == w.resolve(d, token);
        assert(t1.interner.ids.contains_key(d) && t1.interner.ids[d] == id);
    }
    assert(units_ok(w, t1, t1.queue));
}

/// The directive at `n` of a job's file resolves to what the file holds.
proof fn lemma_found(w: World, t: TraversalModel, job: JobModel, done: int, n: int, h: Seq<char>)
    requires
        shared_ok(w, t),
        job_ok(w, t, job, done),
        0 <= n < job.includes.len(),
        w.resolve(source_dir(job.file), job.includes[n]) == Some(h),
    ensures
        w.reachable().contains(h),
        w.reachable_from(job.context).contains(h),
{
    let list = includes_of(w.disk.texts[job.file]);
    assert(w.resolve(source_dir(job.file), list[n]) == Some(h));
    assert(w.found(job.file, h));
    if !w.is_seed(job.file) {
        assert(t.claims.contains_key(job.file));
    }
    w.lemma_reachable_is_closed(job.file, h);
    assert forall|r: Set<Seq<char>>| #[trigger] w.closed_from(job.context, r) implies r.contains(
        h,
    ) by {
        if job.file != job.context {
            assert(r.contains(job.file));
        }
    }
}

/// A job whose directives are all settled has a finished file.
proof fn lemma_job_finished(w: World, t: TraversalModel, job: JobModel)
    requires
        job_ok(w, t, job, job.includes.len() as int),
    ensures
        finished(w, t, job.file),
{
    assert forall|h: Seq<char>| #[trigger] w.found(job.file, h) implies t.claims.contains_key(h) by {
        let list = includes_of(w.disk.texts[job.file]);
        let n = choose|n: int|
            0 <= n < list.len() && w.resolve(source_dir(job.file), #[trigger] list[n]) == Some(h);
        assert(settled(w, t, job.file, job.includes[n]));
    }
}

/// The job goes on to its next directive once that is settled.
proof fn lemma_job_advances(w: World, t: TraversalModel, job: JobModel)
    requires
        job_ok(w, t, job, job.next - 1),
        job.next >= 1,
        settled(w, t, job.file, job.includes[job.next - 1]),
    ensures
        job_ok(w, t, job, job.next),
{
    assert forall|n: int| 0 <= n < job.next implies settled(w, t, job.file, #[trigger] job.includes[n]) by {
        if n < job.next - 1 {
            assert(settled(w, t, job.file, job.includes[n]));
        }
    }
}

/// A resolution is put to use: the traversal and the worker stay in order.
proof fn lemma_settle(
    w: World,
    t: TraversalModel,
    local: Seq<Unit>,
    job: JobModel,
    result: Option<Seq<char>>,
)
    requires
        shared_ok(w, t),
        units_ok(w, t, local),
        job_ok(w, t, job, job.next - 1),
        job.next >= 1,
        result == w.resolve(source_dir(job.file), job.includes[job.next - 1]),
    ensures
        ({
            let (t2, local2) = claim(t, local, result, job.context);
            let o = Outcome {
                traversal: t2,
                worker: WorkerModel { local: local2, phase: PhaseModel::Scanning { job } },
                action: ActionModel::Continue,
            };
            &&& shared_ok(w, t2)
            &&& worker_ok(w, t2, o.worker)
            &&& grows(t, t2)
            &&& forall|f: Seq<char>|
                holds_file(local, f) || f == job.file ==> #[trigger] worker_pending(o.worker, f)
            &&& forall|f: Seq<char>| #[trigger]
                expandable(w, t2, f) && !expandable(w, t, f) ==> worker_pending(o.worker, f)
            &&& t2.queue == t.queue
        }),
{
    let (t2, local2) = claim(t, local, result, job.context);
    match result {
        Some(h) => {
            lemma_found(w, t, job, job.next - 1, job.next - 1, h);
        },
        None => {},
    }
    lemma_claim(w, t, local, result, job.context);
    lemma_grows_keeps_job(w, t, t2, job, job.next - 1);
    lemma_job_advances(w, t2, job);
}

/// A step of a worker that scans a file keeps what a step is to keep.
proof fn lemma_scanning(w: World, t: TraversalModel, local: Seq<Unit>, job: JobModel)
    requires
        shared_ok(w, t),
        units_ok(w, t, local),
        job_ok(w, t, job, job.next),
        t.interner.next < u32::MAX,
    ensures
        step_ok(
            w,
            t,
            WorkerModel { local, phase: PhaseModel::Scanning { job } },
            step_scanning(t, local, job),
        ),
{
    let worker = WorkerModel { local, phase: PhaseModel::Scanning { job } };
    let o = step_scanning(t, local, job);
    if job.next >= job.includes.len() {
        lemma_job_finished(w, t, job);
        assert(o.traversal == t);
    } else {
        let token = job.includes[job.next];
        let rest = JobModel { next: job.next + 1, ..job };
        let dir = source_dir(job.file);
        let id = t.interner.id_of(dir);
        let t1 = TraversalModel { interner: t.interner.after(dir), ..t };
        lemma_interned(w, t, dir);
        lemma_grows_keeps_units(w, t, t1, local);
        lemma_grows_keeps_job(w, t, t1, job, job.next);
        assert(job_ok(w, t1, rest, rest.next - 1));
        match t1.resolutions.get((token, id)) {
            Some(result) => {
                assert(t1.resolutions.contains_key((token, id)));
                let d = choose|d: Seq<char>| #[trigger]
                    t1.interner.ids.contains_key(d) && t1.interner.ids[d] == id && t1.resolutions[(
                        token,
                        id,
                    )] == w.resolve(d, token);
                lemma_ids_distinct(t1.interner, d, dir);
                assert(result == w.resolve(dir, token));
                lemma_settle(w, t1, local, rest, result);
                let (t2, local2) = claim(t1, local, result, job.context);
                assert(grows(t, t2));
                assert forall|f: Seq<char>| #[trigger]
                    expandable(w, o.traversal, f) && !expandable(w, t, f) implies worker_pending(
                    o.worker,
                    f,
                ) by {
                    assert(expandable(w, t2, f) && !expandable(w, t1, f));
                }
                assert forall|f: Seq<char>| #[trigger] busy(t, worker, f) implies busy(
                    o.traversal,
                    o.worker,
                    f,
                ) || !scannable(f) || finished(w, o.traversal, f) by {
                    if !holds_file(t.queue, f) {
                        assert(worker_pending(o.worker, f));
                    }
                }
            },
            None => {
                let places = candidates(dir, token, dirs_for(w.commands, job.context));
                lemma_unknown_covers(t.probes, places);
                assert(o.traversal == t1);
                assert(phase_ok(w, t1, o.worker.phase));
                assert forall|f: Seq<char>| #[trigger]
                    expandable(w, o.traversal, f) && !expandable(w, t, f) implies worker_pending(
                    o.worker,
                    f,
                ) by {}
            },
        }
    }
}

/// A step of a worker that waits to hear which paths exist keeps what a
/// step is to keep, where the file system answers.
proof fn lemma_probing(
    w: World,
    t: TraversalModel,
    local: Seq<Unit>,
    job: JobModel,
    token: Seq<char>,
    dir: u32,
    places: Seq<Seq<char>>,
    asked: Seq<Seq<char>>,
)
    requires
        shared_ok(w, t),
        units_ok(w, t, local),
        phase_ok(w, t, PhaseModel::Probing { job, token, dir, candidates: places, asked }),
    ensures
        step_ok(
            w,
            t,
            WorkerModel {
                local,
                phase: PhaseModel::Probing { job, token, dir, candidates: places, asked },
            },
            step_probing(
                t,
                local,
                job,
                token,
                dir,
                places,
                asked,
                EventModel::Probed(w.disk.flags(asked)),
            ),
        ),
{
    let worker = WorkerModel {
        local,
        phase: PhaseModel::Probing { job, token, dir, candidates: places, asked },
    };
    let flags = w.disk.flags(asked);
    let o = step_probing(t, local, job, token, dir, places, asked, EventModel::Probed(flags));
    let probes = recorded(t.probes, asked, flags);
    lemma_recorded_agrees(t.probes, w.disk, asked);
    assert forall|j: int| 0 <= j < places.len() implies probes.get(#[trigger] places[j])
        == w.disk.probes().get(places[j]) by {
        if !t.probes.contains_key(places[j]) {
            assert(asked.contains(places[j]));
            let k = choose|k: int| 0 <= k < asked.len() && asked[k] == places[j];
            assert(probes.contains_key(asked[k]));
        }
        assert(probes.contains_key(places[j]));
    }
    lemma_first_existing_agrees(probes, w.disk.probes(), places, 0);
    let t1 = TraversalModel { probes, ..t };
    assert(grows(t, t1));
    assert(resolutions_agree(w, t1)) by {
        assert forall|token: Seq<char>, id: u32| #[trigger]
            t1.resolutions.contains_key((token, id)) implies exists|d: Seq<char>| #[trigger]
            t1.interner.ids.contains_key(d) && t1.interner.ids[d] == id && t1.resolutions[(
                token,
                id,
            )] == w.resolve(d, token) by {
            assert(t.resolutions.contains_key((token, id)));
        }
    }
    lemma_grows_keeps_units(w, t, t1, t.queue);
    assert(shared_ok(w, t1));
    lemma_grows_keeps_units(w, t, t1, local);
    lemma_grows_keeps_job(w, t, t1, job, job.next - 1);
    match first_existing(probes, places, 0) {
        Some(k) => {
            assert(o.traversal == t1);
        },
        None => {
            let t2 = TraversalModel { resolutions: t.resolutions.insert((token, dir), None), ..t1 };
            assert(o.traversal == t2);
            lemma_context_resolves(w, job.context, source_dir(job.file), token);
            assert(w.resolve(source_dir(job.file), token).is_none());
            assert(grows(t, t2));
            assert(resolutions_agree(w, t2)) by {
                assert forall|tk: Seq<char>, id: u32| #[trigger]
                    t2.resolutions.contains_key((tk, id)) implies exists|d: Seq<char>| #[trigger]
                    t2.interner.ids.contains_key(d) && t2.interner.ids[d] == id && t2.resolutions[(
                        tk,
                        id,
                    )] == w.resolve(d, tk) by {
                    if (tk, id) == (token, dir) {
                        assert(t2.interner.ids.contains_key(source_dir(job.file)));
                    } else {
                        assert(t1.resolutions.contains_key((tk, id)));
                    }
                }
            }
            lemma_grows_keeps_units(w, t, t2, t.queue);
            lemma_grows_keeps_units(w, t, t2, local);
            lemma_grows_keeps_job(w, t, t2, job, job.next - 1);
            lemma_job_advances(w, t2, job);
        },
    }
}

/// A step of a worker that waits for a canonical path keeps what a step is
/// to keep, where the file system answers.
proof fn lemma_canonicalizing(
    w: World,
    t: TraversalModel,
    local: Seq<Unit>,
    job: JobModel,
    token: Seq<char>,
    dir: u32,
    candidate: Seq<char>,
)
    requires
        shared_ok(w, t),
        units_ok(w, t, local),
        phase_ok(w, t, PhaseModel::Canonicalizing { job, token, dir, candidate }),
    ensures
        step_ok(
            w,
            t,
            WorkerModel { local, phase: PhaseModel::Canonicalizing { job, token, dir, candidate } },
            step_canonicalizing(
                t,
                local,
                job,
                token,
                dir,
                candidate,
                EventModel::Canonical(w.disk.canonical.get(candidate)),
            ),
        ),
{
    let worker = WorkerModel {
        local,
        phase: PhaseModel::Canonicalizing { job, token, dir, candidate },
    };
    let result = w.disk.canonical.get(candidate);
    let o = step_canonicalizing(t, local, job, token, dir, candidate, EventModel::Canonical(result));
    let t1 = TraversalModel { resolutions: t.resolutions.insert((token, dir), result), ..t };
    lemma_context_resolves(w, job.context, source_dir(job.file), token);
    assert(result == w.resolve(source_dir(job.file), token));
    assert(grows(t, t1));
    assert(resolutions_agree(w, t1)) by {
        assert forall|tk: Seq<char>, id: u32| #[trigger]
            t1.resolutions.contains_key((tk, id)) implies exists|d: Seq<char>| #[trigger]
            t1.interner.ids.contains_key(d) && t1.interner.ids[d] == id && t1.resolutions[(tk, id)]
                == w.resolve(d, tk) by {
            if (tk, id) == (token, dir) {
                assert(t1.interner.ids.contains_key(source_dir(job.file)));
            } else {
                assert(t.resolutions.contains_key((tk, id)));
            }
        }
    }
    lemma_grows_keeps_units(w, t, t1, t.queue);
    assert(shared_ok(w, t1));
    lemma_grows_keeps_units(w, t, t1, local);
    lemma_grows_keeps_job(w, t, t1, job, job.next - 1);
    lemma_settle(w, t1, local, job, result);
    let (t2, local2) = claim(t1, local, result, job.context);
    assert(grows(t, t2));
    assert forall|f: Seq<char>| #[trigger]
        expandable(w, o.traversal, f) && !expandable(w, t, f) implies worker_pending(o.worker, f) by {
        assert(expandable(w, t2, f) && !expandable(w, t1, f));
    }
    assert forall|f: Seq<char>| #[trigger] busy(t, worker, f) implies busy(o.traversal, o.worker, f)
        || !scannable(f) || finished(w, o.traversal, f) by {
        if !holds_file(t.queue, f) {
            assert(worker_pending(o.worker, f));
        }
    }
}

/// A turn in which the file system answers keeps the system in order.
pub proof fn lemma_turn_keeps_inv(w: World, s: System, turn: Turn)
    requires
        inv(w, s),
        s.admits(turn),
        turn.event == w.disk.answer(s.workers[turn.worker].phase),
        s.traversal.interner.next < u32::MAX,
    ensures
        inv(w, s.after(turn)),
{
    let i = turn.worker;
    let worker = s.workers[i];
    let t = s.traversal;
    let o = step_model(t, worker, turn.event, turn.stolen);
    let s2 = s.after(turn);
    assert(worker_ok(w, t, worker));
    match worker.phase {
        PhaseModel::Idle => {
            lemma_idle(w, t, worker.local, turn.stolen);
        },
        PhaseModel::Reading { file, context } => {
            lemma_reading(w, t, worker.local, file, context);
        },
        PhaseModel::Scanning { job } => {
            lemma_scanning(w, t, worker.local, job);
        },
        PhaseModel::Probing { job, token, dir, candidates, asked } => {
            lemma_probing(w, t, worker.local, job, token, dir, candidates, asked);
        },
        PhaseModel::Canonicalizing { job, token, dir, candidate } => {
            lemma_canonicalizing(w, t, worker.local, job, token, dir, candidate);
        },
    }
    assert(step_ok(w, t, worker, o));
    assert(s2.workers[i] == o.worker);
    assert forall|j: int| 0 <= j < s2.workers.len() implies worker_ok(
        w,
        s2.traversal,
        #[trigger] s2.workers[j],
    ) by {
        if j != i {
            assert(s2.workers[j] == s.workers[j]);
            lemma_grows_keeps_worker(w, t, o.traversal, s.workers[j]);
        }
    }
    assert forall|f: Seq<char>| #[trigger]
        expandable(w, s2.traversal, f) && scannable(f) implies pending(s2, f) || finished(
        w,
        s2.traversal,
        f,
    ) by {
        if !expandable(w, t, f) {
            assert(worker_pending(s2.workers[i], f));
        } else if finished(w, t, f) {
            lemma_grows_keeps_finished(w, t, o.traversal, f);
        } else {
            assert(pending(s, f));
            let other = !holds_file(t.queue, f) && !worker_pending(worker, f);
            if other {
                let k = choose|k: int|
                    0 <= k < s.workers.len() && worker_pending(#[trigger] s.workers[k], f);
                assert(k != i);
                assert(s2.workers[k] == s.workers[k]);
                assert(worker_pending(s2.workers[k], f));
            } else {
                assert(busy(t, worker, f));
                if busy(o.traversal, o.worker, f) {
                    if !holds_file(o.traversal.queue, f) {
                        assert(worker_pending(s2.workers[i], f));
                    }
                }
            }
        }
    }
}

/// A system is in order before its first turn.
pub proof fn lemma_start_inv(w: World, workers: nat)
    requires
        w.agreed(),
    ensures
        inv(w, System::start(w, workers)),
{
    let s = System::start(w, workers);
    w.lemma_seed_units();
    assert(units_ok(w, s.traversal, s.traversal.queue)) by {
        assert forall|j: int| 0 <= j < s.traversal.queue.len() implies expandable(
            w,
            s.traversal,
            (#[trigger] s.traversal.queue[j]).0,
        ) && known(w, s.traversal.queue[j].1) && traced(
            w,
            s.traversal.queue[j].0,
            s.traversal.queue[j].1,
        ) by {
            assert(w.seed_units()[j] == s.traversal.queue[j]);
            assert(holds_file(w.seed_units(), s.traversal.queue[j].0));
        }
    }
}

/// Turns in which the file system answers keep the system in order.
pub proof fn lemma_run_keeps_inv(w: World, s: System, turns: Seq<Turn>)
    requires
        inv(w, s),
        s.answered_by(w.disk, turns),
    ensures
        s.run(turns) matches Some(end) && inv(w, end),
    decreases turns.len(),
{
    if turns.len() > 0 {
        lemma_turn_keeps_inv(w, s, turns[0]);
        lemma_run_keeps_inv(w, s.after(turns[0]), turns.drop_first());
    }
}

/// The set of headers that a traversal finds is the set of the reachable
/// headers, whatever the number of workers and the order of their steps:
/// where the translation units agree on what every token resolves to, the
/// file system answers every request, the identifiers of directories are
/// not used up, and nothing is left to do at the end. Each of these headers,
/// and no other file, is owed a synthetic entry.
pub proof fn lemma_headers_found_are_the_reachable(w: World, workers: nat, turns: Seq<Turn>)
    requires
        w.agreed(),
        System::start(w, workers).answered_by(w.disk, turns),
        System::start(w, workers).run(turns) matches Some(end) && end.quiescent(),
    ensures
        System::start(w, workers).run(turns) matches Some(end) && end.traversal.claims.dom()
            == w.reachable() && forall|h: Seq<char>|
            w.reachable().contains(h) <==> #[trigger] owed(end.traversal, h),
{
    let start = System::start(w, workers);
    lemma_start_inv(w, workers);
    lemma_run_keeps_inv(w, start, turns);
    let end = start.run(turns).unwrap();
    let found = end.traversal.claims.dom();
    assert(w.closed(found)) by {
        assert forall|f: Seq<char>, h: Seq<char>| w.expands(found, f) && #[trigger] w.found(
            f,
            h,
        ) implies found.contains(h) by {
            assert(expandable(w, end.traversal, f) && scannable(f));
            if pending(end, f) {
                if !holds_file(end.traversal.queue, f) {
                    let k = choose|k: int|
                        0 <= k < end.workers.len() && worker_pending(#[trigger] end.workers[k], f);
                    assert(end.workers[k].local.len() == 0);
                }
            }
            assert(finished(w, end.traversal, f));
        }
    }
    w.lemma_reachable_is_least(found);
    assert(found =~= w.reachable());
    assert forall|h: Seq<char>| w.reachable().contains(h) <==> #[trigger] owed(end.traversal, h) by {
        if w.reachable().contains(h) {
            assert(end.traversal.claims.contains_key(h));
        }
    }
}

/// Two runs on one file system and one compilation database find the same
/// set of headers, whatever the number of workers and the order of their
/// steps in each.
pub proof fn lemma_headers_do_not_depend_on_the_schedule(
    w: World,
    workers: nat,
    turns: Seq<Turn>,
    other_workers: nat,
    other_turns: Seq<Turn>,
)
    requires
        w.agreed(),
        System::start(w, workers).answered_by(w.disk, turns),
        System::start(w, workers).run(turns) matches Some(end) && end.quiescent(),
        System::start(w, other_workers).answered_by(w.disk, other_turns),
        System::start(w, other_workers).run(other_turns) matches Some(end) && end.quiescent(),
    ensures
        System::start(w, workers).run(turns).unwrap().traversal.claims.dom() == System::start(
            w,
            other_workers,
        ).run(other_turns).unwrap().traversal.claims.dom(),
{
    lemma_headers_found_are_the_reachable(w, workers, turns);
    lemma_headers_found_are_the_reachable(w, other_workers, other_turns);
}

/// What is reached from a seed is reachable.
pub proof fn lemma_reached_from_a_seed_is_reachable(w: World, seed: Seq<char>)
    requires
        w.is_seed(seed),
    ensures
        w.reachable_from(seed).subset_of(w.reachable()),
{
    assert forall|h: Seq<char>| w.reachable_from(seed).contains(h) implies w.reachable().contains(
        h,
    ) by {
        assert forall|r: Set<Seq<char>>| #[trigger] w.closed(r) implies r.contains(h) by {
            assert(w.closed_from(seed, r)) by {
                assert forall|f: Seq<char>, g: Seq<char>|
                    (f == seed || (r.contains(f) && !pruned(w.commands, f))) && scannable(f)
                        && #[trigger] w.found(f, g) implies r.contains(g) by {
                    assert(w.expands(r, f));
                }
            }
        }
    }
}

/// The context of a claim is a seed from which the header is reached: at
/// every moment of a run in which the file system answers, each header that
/// is claimed is claimed for the file of a translation unit with which the
/// traversal began, and is found by scanning that file or a header that is
/// reached from it and not pruned.
pub proof fn lemma_a_claim_is_traced_to_its_seed(
    w: World,
    workers: nat,
    turns: Seq<Turn>,
    header: Seq<char>,
)
    requires
        w.agreed(),
        System::start(w, workers).answered_by(w.disk, turns),
        System::start(w, workers).run(turns) matches Some(s) && s.traversal.claims.contains_key(
            header,
        ),
    ensures
        System::start(w, workers).run(turns) matches Some(s) && w.is_seed(
            s.traversal.claims[header],
        ) && known(w, s.traversal.claims[header]) && w.reachable_from(
            s.traversal.claims[header],
        ).contains(header),
{
    lemma_start_inv(w, workers);
    lemma_run_keeps_inv(w, System::start(w, workers), turns);
}

/// Each work unit is for a file that is to be scanned.
pub open spec fn files_ok(w: World, t: TraversalModel, units: Seq<Unit>) -> bool {
    forall|j: int| 0 <= j < units.len() ==> expandable(w, t, (#[trigger] units[j]).0)
}

/// The worker holds only files that are to be scanned.
pub open spec fn worker_tidy(w: World, t: TraversalModel, worker: WorkerModel) -> bool {
    &&& files_ok(w, t, worker.local)
    &&& phase_file(worker.phase) matches Some(f) ==> expandable(w, t, f)
}

/// The queue and the workers hold only files that are to be scanned: seeds,
/// and headers that are claimed and not pruned.
pub open spec fn tidy(w: World, s: System) -> bool {
    &&& s.traversal.commands == w.commands
    &&& files_ok(w, s.traversal, s.traversal.queue)
    &&& forall|i: int| 0 <= i < s.workers.len() ==> worker_tidy(w, s.traversal, #[trigger] s.workers[i])
}

/// A claim adds to the worker's files only a header that is to be scanned.
proof fn lemma_claim_keeps_tidy(
    w: World,
    t: TraversalModel,
    local: Seq<Unit>,
    result: Option<Seq<char>>,
    context: Seq<char>,
)
    requires
        t.commands == w.commands,
        files_ok(w, t, local),
    ensures
        ({
            let (t2, local2) = claim(t, local, result, context);
            &&& t2.commands == t.commands
            &&& t2.queue == t.queue
            &&& files_ok(w, t2, local2)
            &&& forall|h: Seq<char>| #[trigger] t.claims.contains_key(h) ==> t2.claims.contains_key(h)
        }),
{
    let (t2, local2) = claim(t, local, result, context);
    assert forall|j: int| 0 <= j < local2.len() implies expandable(w, t2, (#[trigger] local2[j]).0) by {
        if j < local.len() {
            assert(local2[j] == local[j]);
            assert(expandable(w, t, local[j].0));
        }
    }
}

/// A step, whatever the answer, keeps the queue and the worker tidy, and
/// gives up no claim.
proof fn lemma_step_keeps_tidy(
    w: World,
    t: TraversalModel,
    worker: WorkerModel,
    event: EventModel,
    stolen: StolenModel,
)
    requires
        t.commands == w.commands,
        files_ok(w, t, t.queue),
        worker_tidy(w, t, worker),
        steal_fits(t.queue, stolen),
    ensures
        ({
            let o = step_model(t, worker, event, stolen);
            &&& o.traversal.commands == t.commands
            &&& forall|h: Seq<char>| #[trigger]
                t.claims.contains_key(h) ==> o.traversal.claims.contains_key(h)
            &&& files_ok(w, o.traversal, o.traversal.queue)
            &&& worker_tidy(w, o.traversal, o.worker)
        }),
{
    let o = step_model(t, worker, event, stolen);
    let local = worker.local;
    match worker.phase {
        PhaseModel::Idle => {
            if local.len() > 0 {
                let rest = local.drop_last();
                assert(expandable(w, t, local[local.len() - 1].0));
                assert forall|j: int| 0 <= j < rest.len() implies expandable(
                    w,
                    t,
                    (#[trigger] rest[j]).0,
                ) by {
                    assert(rest[j] == local[j]);
                }
            } else {
                match stolen {
                    StolenModel::Task(unit) => {
                        let rest = t.queue.drop_first();
                        assert(expandable(w, t, t.queue[0].0));
                        assert forall|j: int| 0 <= j < rest.len() implies expandable(
                            w,
                            o.traversal,
                            (#[trigger] rest[j]).0,
                        ) by {
                            assert(rest[j] == t.queue[j + 1]);
                        }
                    },
                    _ => {},
                }
            }
        },
        PhaseModel::Reading { file, context } => {},
        PhaseModel::Scanning { job } => {
            if 0 <= job.next < job.includes.len() {
                let dir = source_dir(job.file);
                let t1 = TraversalModel { interner: t.interner.after(dir), ..t };
                match t1.resolutions.get((job.includes[job.next], t.interner.id_of(dir))) {
                    Some(result) => {
                        lemma_claim_keeps_tidy(w, t1, local, result, job.context);
                    },
                    None => {},
                }
            }
        },
        PhaseModel::Probing { job, token, dir, candidates, asked } => {},
        PhaseModel::Canonicalizing { job, token, dir, candidate } => {
            match event {
                EventModel::Canonical(result) => {
                    let t1 = TraversalModel {
                        resolutions: t.resolutions.insert((token, dir), result),
                        ..t
                    };
                    lemma_claim_keeps_tidy(w, t1, local, result, job.context);
                },
                _ => {},
            }
        },
    }
}

/// A run, whatever the answers in it, leaves the system tidy.
pub proof fn lemma_run_keeps_tidy(w: World, s: System, turns: Seq<Turn>)
    requires
        tidy(w, s),
        s.run(turns) is Some,
    ensures
        s.run(turns) matches Some(end) && tidy(w, end),
    decreases turns.len(),
{
    if turns.len() > 0 {
        let turn = turns[0];
        let s2 = s.after(turn);
        let o = step_model(s.traversal, s.workers[turn.worker], turn.event, turn.stolen);
        lemma_step_keeps_tidy(w, s.traversal, s.workers[turn.worker], turn.event, turn.stolen);
        assert forall|i: int| 0 <= i < s2.workers.len() implies worker_tidy(
            w,
            s2.traversal,
            #[trigger] s2.workers[i],
        ) by {
            if i != turn.worker {
                assert(s2.workers[i] == s.workers[i]);
                assert(worker_tidy(w, s.traversal, s.workers[i]));
            }
        }
        lemma_run_keeps_tidy(w, s2, turns.drop_first());
    }
}

/// A pruned header is recorded and not scanned: at no moment of any run,
/// whatever the answers in it, is a worker busy with a file that is pruned,
/// unless the file is a seed.
pub proof fn lemma_pruned_headers_are_not_scanned(
    w: World,
    workers: nat,
    turns: Seq<Turn>,
    i: int,
    file: Seq<char>,
)
    requires
        System::start(w, workers).run(turns) matches Some(s) && 0 <= i < s.workers.len()
            && phase_file(s.workers[i].phase) == Some(file),
        pruned(w.commands, file),
    ensures
        w.is_seed(file),
{
    let start = System::start(w, workers);
    assert(tidy(w, start)) by {
        assert forall|j: int| 0 <= j < start.traversal.queue.len() implies expandable(
            w,
            start.traversal,
            (#[trigger] start.traversal.queue[j]).0,
        ) by {
            assert(w.seed_units()[j] == start.traversal.queue[j]);
            assert(holds_file(w.seed_units(), start.traversal.queue[j].0));
        }
    }
    lemma_run_keeps_tidy(w, start, turns);
    let s = start.run(turns).unwrap();
    assert(worker_tidy(w, s.traversal, s.workers[i]));
}

/// A token that is found in the directory of the file that holds the
/// directive resolves there, whatever the search directories hold.
pub proof fn lemma_own_directory_wins(
    probes: Map<Seq<char>, bool>,
    dir: Seq<char>,
    token: Seq<char>,
    dirs: Seq<Seq<char>>,
)
    requires
        probes.get(joined(dir, token)) == Some(true),
    ensures
        first_existing(probes, candidates(dir, token, dirs), 0) == Some(0int),
{
    assert(candidates(dir, token, dirs)[0] == joined(dir, token));
}

/// A token that is found under the search directory at `i` does not
/// resolve under a later one.
pub proof fn lemma_earlier_directory_wins(
    probes: Map<Seq<char>, bool>,
    dir: Seq<char>,
    token: Seq<char>,
    dirs: Seq<Seq<char>>,
    i: int,
)
    requires
        0 <= i < dirs.len(),
        probes.get(joined(dirs[i], token)) == Some(true),
    ensures
        first_existing(probes, candidates(dir, token, dirs), 0) matches Some(k) && k <= i + 1,
{
    let places = candidates(dir, token, dirs);
    assert(places[i + 1] == joined(dirs[i], token));
    lemma_first_existing_is_first(probes, places, 0);
}

/// A token of which no candidate exists is dropped: the step claims
/// nothing, asks for nothing, and the scan goes on.
pub proof fn lemma_unresolved_is_dropped(
    t: TraversalModel,
    local: Seq<Unit>,
    job: JobModel,
    token: Seq<char>,
    dir: u32,
    places: Seq<Seq<char>>,
    asked: Seq<Seq<char>>,
    flags: Seq<bool>,
)
    requires
        flags.len() == asked.len(),
        forall|j: int|
            0 <= j < places.len() ==> recorded(t.probes, asked, flags).get(#[trigger] places[j])
                != Some(true),
    ensures
        ({
            let o = step_probing(t, local, job, token, dir, places, asked, EventModel::Probed(flags));
            &&& o.traversal.claims == t.claims
            &&& o.traversal.queue == t.queue
            &&& o.worker == (WorkerModel { local, phase: PhaseModel::Scanning { job } })
            &&& o.action == ActionModel::Continue
        }),
{
    lemma_first_existing_is_first(recorded(t.probes, asked, flags), places, 0);
}

} // verus!
