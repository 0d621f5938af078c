//! The traversal: a state machine that walks from every translation unit to
//! the headers it reaches.
//!
//! A traversal is shared; each worker has a state of its own. A worker is
//! taken through the traversal one step at a time. Each step takes the
//! answer to what the step before asked for, changes the two states, and
//! says what it needs next: the text of a file, whether some paths exist,
//! the canonical form of a path, nothing at all, or that the worker is done.
//! The caller does what is asked and calls again.
//!
//! Scanning the text of a file needs nothing of the traversal. Where the
//! traversal sits behind a lock, a caller takes that step with `step_alone`
//! and leaves the lock to the others.

use vstd::prelude::*;
use crossbeam_deque::Injector;
use dashmap::DashMap;
use rustc_hash::FxBuildHasher;
use crate::command::{
    command_models, copy_strings, copy_text, synthetic_entry, CommandModel, CompileCommand,
};
use crate::interner::{get_dir_id, DirInterner, InternerModel};
use crate::maps::{
    claim_entries, claims_contains, claims_insert, claims_list, claims_new, probe_entries,
    probes_new, resolution_entries, resolutions_get, resolutions_insert, resolutions_new,
};
use crate::paths::{extension_of, path_extension};
use crate::queue::{queue_new, queue_push, queue_steal, queued, Stolen};
use crate::resolve::{
    candidate_paths, candidates, first_existing, first_existing_path, record_probes, recorded,
    source_dir, source_dir_of, unknown, unknown_paths,
};
use crate::scan::{extract_includes, includes_of};
use crate::tables::{context_of, dirs_for, lemma_context_of_bounds, pruned, Tables};
use crate::text::{chars_of, same_chars};

verus! {

/// An extension that marks a file as a translation unit.
pub open spec fn source_extension(e: Seq<char>) -> bool {
    e == "c"@ || e == "cpp"@ || e == "cc"@ || e == "cxx"@
}

/// An extension that marks a file as a header.
pub open spec fn header_extension(e: Seq<char>) -> bool {
    e == "h"@ || e == "hpp"@ || e == "hh"@ || e == "hxx"@
}

/// A file is a source file when it has the extension of a translation unit.
pub open spec fn source_file(file: Seq<char>) -> bool {
    match extension_of(file) {
        Some(e) => source_extension(e),
        None => false,
    }
}

/// A file is scanned unless it has an extension that is not empty and marks
/// it neither as a translation unit nor as a header.
pub open spec fn scannable(file: Seq<char>) -> bool {
    match extension_of(file) {
        Some(e) => e.len() == 0 || source_extension(e) || header_extension(e),
        None => true,
    }
}

/// Tests whether a file is a source file.
pub fn is_source_file(file: &str) -> (b: bool)
    ensures
        b == source_file(file@),
{
    match path_extension(file) {
        Some(e) => {
            let e = chars_of(e.as_str());
            same_chars(&e, "c") || same_chars(&e, "cpp") || same_chars(&e, "cc") || same_chars(
                &e,
                "cxx",
            )
        },
        None => false,
    }
}

/// Tests whether a file is scanned.
pub fn is_scannable(file: &str) -> (b: bool)
    ensures
        b == scannable(file@),
{
    match path_extension(file) {
        Some(e) => {
            let e = chars_of(e.as_str());
            e.len() == 0 || same_chars(&e, "c") || same_chars(&e, "cpp") || same_chars(&e, "cc")
                || same_chars(&e, "cxx") || same_chars(&e, "h") || same_chars(&e, "hpp")
                || same_chars(&e, "hh") || same_chars(&e, "hxx")
        },
        None => true,
    }
}

/// A work unit: a file to scan, and the file of the translation unit whose
/// invocation applies to the scan.
pub type Unit = (Seq<char>, Seq<char>);

/// What a traversal holds.
pub struct TraversalModel {
    /// The entries of the compilation database.
    pub commands: Seq<CommandModel>,
    /// The directory interner.
    pub interner: InternerModel,
    /// For each path that was probed, whether it exists.
    pub probes: Map<Seq<char>, bool>,
    /// For a token and the identifier of the directory of the file that
    /// held it, what the token resolved to.
    pub resolutions: Map<(Seq<char>, u32), Option<Seq<char>>>,
    /// For each header found, the file of the translation unit that claimed
    /// it first.
    pub claims: Map<Seq<char>, Seq<char>>,
    /// The shared queue, the oldest work unit first.
    pub queue: Seq<Unit>,
}

/// A file under scan: its directives, and how many of them are dealt with.
pub struct JobModel {
    pub file: Seq<char>,
    pub context: Seq<char>,
    pub includes: Seq<Seq<char>>,
    pub next: int,
}

/// What a worker is doing.
pub enum PhaseModel {
    /// Between two work units.
    Idle,
    /// Waiting for the text of `file`.
    Reading { file: Seq<char>, context: Seq<char> },
    /// About to deal with the next directive of the job.
    Scanning { job: JobModel },
    /// Waiting to hear which of the paths `asked` exist, to resolve `token`.
    Probing {
        job: JobModel,
        token: Seq<char>,
        dir: u32,
        candidates: Seq<Seq<char>>,
        asked: Seq<Seq<char>>,
    },
    /// Waiting for the canonical form of `candidate`, the place where
    /// `token` was found.
    Canonicalizing { job: JobModel, token: Seq<char>, dir: u32, candidate: Seq<char> },
}

/// What a worker holds: its own work units, the newest last, and its phase.
pub struct WorkerModel {
    pub local: Seq<Unit>,
    pub phase: PhaseModel,
}

/// An answer from the caller.
pub enum EventModel {
    Nothing,
    Contents(Option<Seq<char>>),
    Probed(Seq<bool>),
    Canonical(Option<Seq<char>>),
}

/// A request to the caller.
pub enum ActionModel {
    Continue,
    Read(Seq<char>),
    Probe(Seq<Seq<char>>),
    Canonicalize(Seq<char>),
    Done,
}

/// What an attempt to take a work unit from the shared queue came to.
pub enum StolenModel {
    Task(Unit),
    Retry,
    Empty,
}

/// The states after a step, and the request that the step makes.
pub struct Outcome {
    pub traversal: TraversalModel,
    pub worker: WorkerModel,
    pub action: ActionModel,
}

/// A traversal that has not begun.
pub open spec fn initial(commands: Seq<CommandModel>) -> TraversalModel {
    TraversalModel {
        commands,
        interner: InternerModel { ids: Map::empty(), next: 0 },
        probes: Map::empty(),
        resolutions: Map::empty(),
        claims: Map::empty(),
        queue: Seq::empty(),
    }
}

/// The files of the source files among the entries, in the order of the
/// entries.
pub open spec fn source_files(commands: Seq<CommandModel>) -> Seq<Seq<char>>
    decreases commands.len(),
{
    if commands.len() == 0 {
        Seq::empty()
    } else {
        let earlier = source_files(commands.drop_last());
        if source_file(commands.last().file) {
            earlier.push(commands.last().file)
        } else {
            earlier
        }
    }
}

/// One work unit for each of `files` that is present, in their order; its
/// context is the file itself. A file without an answer counts as absent.
pub open spec fn seeds(files: Seq<Seq<char>>, present: Seq<bool>) -> Seq<Unit>
    decreases files.len(),
{
    if files.len() == 0 {
        Seq::empty()
    } else {
        let earlier = seeds(files.drop_last(), present);
        let k = files.len() - 1;
        if k < present.len() && present[k] {
            earlier.push((files.last(), files.last()))
        } else {
            earlier
        }
    }
}

/// The outcome of a resolution is put to use: a header that nobody has
/// claimed is claimed for `context`, and becomes a work unit of the worker
/// unless it is pruned. A header that is claimed already changes nothing, and
/// neither does a token that resolved to nothing.
pub open spec fn claim(
    t: TraversalModel,
    local: Seq<Unit>,
    result: Option<Seq<char>>,
    context: Seq<char>,
) -> (TraversalModel, Seq<Unit>) {
    match result {
        Some(header) => if t.claims.contains_key(header) {
            (t, local)
        } else {
            (
                TraversalModel { claims: t.claims.insert(header, context), ..t },
                if pruned(t.commands, header) {
                    local
                } else {
                    local.push((header, context))
                },
            )
        },
        None => (t, local),
    }
}

/// An attempt to take from `queue` can come to `stolen`.
pub open spec fn steal_fits(queue: Seq<Unit>, stolen: StolenModel) -> bool {
    match stolen {
        StolenModel::Task(unit) => queue.len() > 0 && queue[0] == unit,
        StolenModel::Retry => true,
        StolenModel::Empty => queue.len() == 0,
    }
}

/// A step of an idle worker. It takes its own newest work unit, and asks for
/// the text of the file if the file is scannable and the context is a known
/// translation unit; else the work unit is dropped. With no work unit of its
/// own it tries the shared queue: a work unit from there becomes its own; an
/// empty queue ends the worker.
pub open spec fn step_idle(t: TraversalModel, local: Seq<Unit>, stolen: StolenModel) -> Outcome {
    if local.len() > 0 {
        let (file, context) = local.last();
        if scannable(file) && context_of(t.commands, context).is_some() {
            Outcome {
                traversal: t,
                worker: WorkerModel {
                    local: local.drop_last(),
                    phase: PhaseModel::Reading { file, context },
                },
                action: ActionModel::Read(file),
            }
        } else {
            Outcome {
                traversal: t,
                worker: WorkerModel { local: local.drop_last(), phase: PhaseModel::Idle },
                action: ActionModel::Continue,
            }
        }
    } else {
        match stolen {
            StolenModel::Task(unit) => Outcome {
                traversal: TraversalModel { queue: t.queue.drop_first(), ..t },
                worker: WorkerModel { local: local.push(unit), phase: PhaseModel::Idle },
                action: ActionModel::Continue,
            },
            StolenModel::Retry => Outcome {
                traversal: t,
                worker: WorkerModel { local, phase: PhaseModel::Idle },
                action: ActionModel::Continue,
            },
            StolenModel::Empty => Outcome {
                traversal: t,
                worker: WorkerModel { local, phase: PhaseModel::Idle },
                action: ActionModel::Done,
            },
        }
    }
}

/// A step of a worker that waits for the text of a file. A file that could
/// not be read is dropped. Any other answer repeats the request.
pub open spec fn step_reading(
    t: TraversalModel,
    local: Seq<Unit>,
    file: Seq<char>,
    context: Seq<char>,
    event: EventModel,
) -> Outcome {
    match event {
        EventModel::Contents(Some(text)) => Outcome {
            traversal: t,
            worker: WorkerModel {
                local,
                phase: PhaseModel::Scanning {
                    job: JobModel { file, context, includes: includes_of(text), next: 0 },
                },
            },
            action: ActionModel::Continue,
        },
        EventModel::Contents(None) => Outcome {
            traversal: t,
            worker: WorkerModel { local, phase: PhaseModel::Idle },
            action: ActionModel::Continue,
        },
        _ => Outcome {
            traversal: t,
            worker: WorkerModel { local, phase: PhaseModel::Reading { file, context } },
            action: ActionModel::Read(file),
        },
    }
}

/// A step of a worker that scans a file. With no directive left the worker
/// is idle again. Else the next token is looked up under its text and the
/// identifier of the file's directory. A resolution that is known is put to
/// use. An unknown one begins with the question which of the candidates,
/// as far as that is unknown, exist.
pub open spec fn step_scanning(t: TraversalModel, local: Seq<Unit>, job: JobModel) -> Outcome {
    if job.next < 0 || job.next >= job.includes.len() {
        Outcome {
            traversal: t,
            worker: WorkerModel { local, phase: PhaseModel::Idle },
            action: ActionModel::Continue,
        }
    } else {
        let token = job.includes[job.next];
        let rest = JobModel { next: job.next + 1, ..job };
        let dir = source_dir(job.file);
        let id = t.interner.id_of(dir);
        let t1 = TraversalModel { interner: t.interner.after(dir), ..t };
        match t1.resolutions.get((token, id)) {
            Some(result) => {
                let (t2, local2) = claim(t1, local, result, job.context);
                Outcome {
                    traversal: t2,
                    worker: WorkerModel { local: local2, phase: PhaseModel::Scanning { job: rest } },
                    action: ActionModel::Continue,
                }
            },
            None => {
                let places = candidates(dir, token, dirs_for(t.commands, job.context));
                let asked = unknown(t.probes, places);
                Outcome {
                    traversal: t1,
                    worker: WorkerModel {
                        local,
                        phase: PhaseModel::Probing {
                            job: rest,
                            token,
                            dir: id,
                            candidates: places,
                            asked,
                        },
                    },
                    action: ActionModel::Probe(asked),
                }
            },
        }
    }
}

/// A step of a worker that waits to hear which paths exist. The answers are
/// recorded. Then the first candidate that exists wins, and its canonical
/// form is asked for; where no candidate exists, the token resolves to
/// nothing, and that is remembered. An answer of another kind or of another
/// length repeats the request.
pub open spec fn step_probing(
    t: TraversalModel,
    local: Seq<Unit>,
    job: JobModel,
    token: Seq<char>,
    dir: u32,
    places: Seq<Seq<char>>,
    asked: Seq<Seq<char>>,
    event: EventModel,
) -> Outcome {
    let again = Outcome {
        traversal: t,
        worker: WorkerModel {
            local,
            phase: PhaseModel::Probing { job, token, dir, candidates: places, asked },
        },
        action: ActionModel::Probe(asked),
    };
    match event {
        EventModel::Probed(flags) => if flags.len() == asked.len() {
            let probes = recorded(t.probes, asked, flags);
            match first_existing(probes, places, 0) {
                Some(k) => Outcome {
                    traversal: TraversalModel { probes, ..t },
                    worker: WorkerModel {
                        local,
                        phase: PhaseModel::Canonicalizing { job, token, dir, candidate: places[k] },
                    },
                    action: ActionModel::Canonicalize(places[k]),
                },
                None => Outcome {
                    traversal: TraversalModel {
                        probes,
                        resolutions: t.resolutions.insert((token, dir), None),
                        ..t
                    },
                    worker: WorkerModel { local, phase: PhaseModel::Scanning { job } },
                    action: ActionModel::Continue,
                },
            }
        } else {
            again
        },
        _ => again,
    }
}

/// A step of a worker that waits for a canonical path. The answer is what
/// the token resolves to, nothing included; it is remembered and put to use.
/// An answer of another kind repeats the request.
pub open spec fn step_canonicalizing(
    t: TraversalModel,
    local: Seq<Unit>,
    job: JobModel,
    token: Seq<char>,
    dir: u32,
    candidate: Seq<char>,
    event: EventModel,
) -> Outcome {
    match event {
        EventModel::Canonical(result) => {
            let t1 = TraversalModel { resolutions: t.resolutions.insert((token, dir), result), ..t };
            let (t2, local2) = claim(t1, local, result, job.context);
            Outcome {
                traversal: t2,
                worker: WorkerModel { local: local2, phase: PhaseModel::Scanning { job } },
                action: ActionModel::Continue,
            }
        },
        _ => Outcome {
            traversal: t,
            worker: WorkerModel {
                local,
                phase: PhaseModel::Canonicalizing { job, token, dir, candidate },
            },
            action: ActionModel::Canonicalize(candidate),
        },
    }
}

/// One step of a worker, by its phase. `stolen` is what an attempt on the
/// shared queue comes to; only an idle worker with no work unit of its own
/// makes one.
pub open spec fn step_model(
    t: TraversalModel,
    w: WorkerModel,
    event: EventModel,
    stolen: StolenModel,
) -> Outcome {
    match w.phase {
        PhaseModel::Idle => step_idle(t, w.local, stolen),
        PhaseModel::Reading { file, context } => step_reading(t, w.local, file, context, event),
        PhaseModel::Scanning { job } => step_scanning(t, w.local, job),
        PhaseModel::Probing { job, token, dir, candidates, asked } => step_probing(
            t,
            w.local,
            job,
            token,
            dir,
            candidates,
            asked,
            event,
        ),
        PhaseModel::Canonicalizing { job, token, dir, candidate } => step_canonicalizing(
            t,
            w.local,
            job,
            token,
            dir,
            candidate,
            event,
        ),
    }
}

/// A header is owed an entry when it was claimed, and claimed for the file
/// of a known translation unit.
pub open spec fn owed(t: TraversalModel, header: Seq<char>) -> bool {
    t.claims.contains_key(header) && context_of(t.commands, t.claims[header]).is_some()
}

/// `entry` is the synthetic entry of a header that is owed one: it carries
/// the directory and the invocation of the translation unit that claimed the
/// header, the header as its file, and no output.
pub open spec fn produced(t: TraversalModel, entry: CommandModel) -> bool {
    &&& owed(t, entry.file)
    &&& context_of(t.commands, t.claims[entry.file]) matches Some(k)
    &&& entry == synthetic_entry(t.commands[k], entry.file)
}

/// Some entry among `entries` is for the file `header`.
pub open spec fn has_entry(entries: Seq<CompileCommand>, header: Seq<char>) -> bool {
    exists|i: int| 0 <= i < entries.len() && (#[trigger] entries[i])@.file == header
}

spec fn among(list: Seq<(String, String)>, p: int, header: Seq<char>) -> bool {
    exists|a: int| 0 <= a < p && (#[trigger] list[a]).0@ == header
}

/// An answer from the caller to the request of the step before.
pub enum Event {
    /// There was nothing to answer.
    Nothing,
    /// The text of the file, or `None` where it could not be read.
    Contents(Option<String>),
    /// For each path that was asked about, whether it exists.
    Probed(Vec<bool>),
    /// The canonical form of the path, or `None` where there is none.
    Canonical(Option<String>),
}

/// A request to the caller.
pub enum Action {
    /// Nothing is needed: step again.
    Continue,
    /// Read this file.
    Read(String),
    /// Find out which of these paths exist.
    Probe(Vec<String>),
    /// Find the canonical form of this path.
    Canonicalize(String),
    /// The worker has no work left and the shared queue is empty.
    Done,
}

impl View for Event {
    type V = EventModel;

    open spec fn view(&self) -> EventModel {
        match self {
            Event::Nothing => EventModel::Nothing,
            Event::Contents(text) => EventModel::Contents(text.deep_view()),
            Event::Probed(flags) => EventModel::Probed(flags@),
            Event::Canonical(path) => EventModel::Canonical(path.deep_view()),
        }
    }
}

impl View for Action {
    type V = ActionModel;

    open spec fn view(&self) -> ActionModel {
        match self {
            Action::Continue => ActionModel::Continue,
            Action::Read(file) => ActionModel::Read(file@),
            Action::Probe(paths) => ActionModel::Probe(paths.deep_view()),
            Action::Canonicalize(path) => ActionModel::Canonicalize(path@),
            Action::Done => ActionModel::Done,
        }
    }
}

struct Job {
    file: String,
    context: String,
    includes: Vec<String>,
    next: usize,
}

enum Phase {
    Idle,
    Reading { file: String, context: String },
    Scanning { job: Job },
    Probing { job: Job, token: String, dir: u32, candidates: Vec<String>, asked: Vec<String> },
    Canonicalizing { job: Job, token: String, dir: u32, candidate: String },
}

/// The state of one worker.
pub struct Worker {
    local: Vec<(String, String)>,
    phase: Phase,
}

impl View for Job {
    type V = JobModel;

    closed spec fn view(&self) -> JobModel {
        JobModel {
            file: self.file@,
            context: self.context@,
            includes: self.includes.deep_view(),
            next: self.next as int,
        }
    }
}

impl View for Phase {
    type V = PhaseModel;

    closed spec fn view(&self) -> PhaseModel {
        match self {
            Phase::Idle => PhaseModel::Idle,
            Phase::Reading { file, context } => PhaseModel::Reading {
                file: file@,
                context: context@,
            },
            Phase::Scanning { job } => PhaseModel::Scanning { job: job@ },
            Phase::Probing { job, token, dir, candidates, asked } => PhaseModel::Probing {
                job: job@,
                token: token@,
                dir: *dir,
                candidates: candidates.deep_view(),
                asked: asked.deep_view(),
            },
            Phase::Canonicalizing { job, token, dir, candidate } => PhaseModel::Canonicalizing {
                job: job@,
                token: token@,
                dir: *dir,
                candidate: candidate@,
            },
        }
    }
}

impl View for Worker {
    type V = WorkerModel;

    closed spec fn view(&self) -> WorkerModel {
        WorkerModel { local: self.local.deep_view(), phase: self.phase@ }
    }
}

impl Worker {
    /// An idle worker with no work unit.
    pub fn new() -> (w: Worker)
        ensures
            w@ == (WorkerModel { local: Seq::empty(), phase: PhaseModel::Idle }),
    {
        let local: Vec<(String, String)> = Vec::new();
        assert(local.deep_view() =~= Seq::<Unit>::empty());
        Worker { local, phase: Phase::Idle }
    }
}

/// The state that the workers of a traversal share.
pub struct Traversal {
    tables: Tables,
    interner: DirInterner,
    probes: DashMap<String, bool, FxBuildHasher>,
    resolutions: DashMap<(String, u32), Option<String>, FxBuildHasher>,
    claims: DashMap<String, String, FxBuildHasher>,
    queue: Injector<(String, String)>,
}

impl View for Traversal {
    type V = TraversalModel;

    closed spec fn view(&self) -> TraversalModel {
        TraversalModel {
            commands: self.tables.commands(),
            interner: self.interner@,
            probes: probe_entries(self.probes),
            resolutions: resolution_entries(self.resolutions),
            claims: claim_entries(self.claims),
            queue: queued(self.queue),
        }
    }
}

impl Traversal {
    /// A traversal of the translation units `commands` that has not begun:
    /// nothing is known, nothing is claimed, and the queue is empty.
    pub fn new(commands: &Vec<CompileCommand>) -> (t: Traversal)
        ensures
            t@ == initial(command_models(commands@)),
    {
        Traversal {
            tables: Tables::new(commands),
            interner: DirInterner::new(),
            probes: probes_new(),
            resolutions: resolutions_new(),
            claims: claims_new(),
            queue: queue_new(),
        }
    }

    /// The files with which the traversal may begin: those of the entries
    /// that are source files. The caller finds out which of them exist.
    pub fn seed_requests(&self) -> (files: Vec<String>)
        ensures
            files.deep_view() == source_files(self@.commands),
    {
        let mut files: Vec<String> = Vec::new();
        let ghost all = self@.commands;
        let n = self.tables.len();
        let mut i: usize = 0;
        assert(all.take(0) =~= Seq::<CommandModel>::empty());
        while i < n
            invariant
                i <= n,
                n == all.len(),
                all == self@.commands,
                files.deep_view() == source_files(all.take(i as int)),
            decreases n - i,
        {
            proof {
                assert(all.take(i + 1).drop_last() =~= all.take(i as int));
                assert(all.take(i + 1).last() == all[i as int]);
            }
            let command = self.tables.command(i);
            if is_source_file(command.file.as_str()) {
                let ghost before = files.deep_view();
                files.push(command.file.clone());
                assert(files.deep_view() =~= before.push(command.file@));
            }
            i += 1;
        }
        assert(all.take(i as int) =~= all);
        files
    }

    /// Puts one work unit on the shared queue for each source file that is
    /// present. `present` answers `seed_requests`, file by file.
    pub fn seed(&mut self, present: &Vec<bool>)
        ensures
            final(self)@ == (TraversalModel {
                queue: old(self)@.queue + seeds(source_files(old(self)@.commands), present@),
                ..old(self)@
            }),
    {
        let files = self.seed_requests();
        let ghost all = files.deep_view();
        let ghost start = self@;
        let mut k: usize = 0;
        assert(all.take(0) =~= Seq::<Seq<char>>::empty());
        assert(start.queue + seeds(all.take(0), present@) =~= start.queue);
        while k < files.len()
            invariant
                k <= files.len(),
                all == files.deep_view(),
                self@ == (TraversalModel {
                    queue: start.queue + seeds(all.take(k as int), present@),
                    ..start
                }),
            decreases files.len() - k,
        {
            proof {
                assert(all.take(k + 1).drop_last() =~= all.take(k as int));
                assert(all.take(k + 1).last() == files[k as int]@);
            }
            if k < present.len() && present[k] {
                let ghost before = seeds(all.take(k as int), present@);
                queue_push(&mut self.queue, files[k].clone(), files[k].clone());
                assert((start.queue + before).push((files[k as int]@, files[k as int]@))
                    =~= start.queue + before.push((files[k as int]@, files[k as int]@)));
            }
            k += 1;
        }
        assert(all.take(k as int) =~= all);
    }

    /// The synthetic entries: one for each header that was claimed for a
    /// known translation unit, and none for any other. No header has two
    /// entries. The order is not stated.
    pub fn header_commands(&self) -> (entries: Vec<CompileCommand>)
        ensures
            forall|i: int, j: int|
                0 <= i < j < entries.len() ==> (#[trigger] entries[i])@.file != (
                #[trigger] entries[j])@.file,
            forall|i: int|
                0 <= i < entries.len() ==> produced(self@, (#[trigger] entries[i])@),
            forall|header: Seq<char>| #[trigger]
                owed(self@, header) ==> has_entry(entries@, header),
    {
        let list = claims_list(&self.claims);
        let mut entries: Vec<CompileCommand> = Vec::new();
        let ghost model = self@;
        let mut p: usize = 0;
        while p < list.len()
            invariant
                p <= list.len(),
                model == self@,
                model.claims == claim_entries(self.claims),
                forall|a: int|
                    0 <= a < list.len() ==> model.claims.contains_pair(
                        (#[trigger] list[a]).0@,
                        list[a].1@,
                    ),
                forall|a: int, b: int| 0 <= a < b < list.len() ==> list[a].0@ != list[b].0@,
                forall|i: int, j: int|
                    0 <= i < j < entries.len() ==> (#[trigger] entries[i])@.file != (
                    #[trigger] entries[j])@.file,
                forall|i: int|
                    0 <= i < entries.len() ==> produced(model, (#[trigger] entries[i])@),
                forall|i: int|
                    0 <= i < entries.len() ==> among(list@, p as int, (#[trigger] entries[i])@.file),
                forall|a: int|
                    0 <= a < p && owed(model, (#[trigger] list[a]).0@) ==> has_entry(
                        entries@,
                        list[a].0@,
                    ),
            decreases list.len() - p,
        {
            let header = &list[p].0;
            let context = &list[p].1;
            assert(model.claims.contains_pair(list[p as int].0@, list[p as int].1@));
            match self.tables.lookup(context.as_str()) {
                Some(k) => {
                    proof {
                        lemma_context_of_bounds(model.commands, context@);
                    }
                    let entry = self.tables.command(k).for_header(header.clone());
                    let ghost before = entries@;
                    entries.push(entry);
                    proof {
                        assert(produced(model, entry@));
                        assert forall|i: int, j: int| 0 <= i < j < entries.len() implies (
                        #[trigger] entries[i])@.file != (#[trigger] entries[j])@.file by {
                            assert(entries[i] == before[i]);
                            if j == before.len() {
                                assert(among(list@, p as int, before[i]@.file));
                                let a = choose|a: int|
                                    0 <= a < p && (#[trigger] list@[a]).0@ == before[i]@.file;
                                assert(list[a].0@ != list[p as int].0@);
                            } else {
                                assert(entries[j] == before[j]);
                            }
                        }
                        assert forall|i: int| 0 <= i < entries.len() implies among(
                            list@,
                            p + 1,
                            (#[trigger] entries[i])@.file,
                        ) by {
                            if i == before.len() {
                                assert(list@[p as int].0@ == entries[i]@.file);
                            } else {
                                assert(entries[i] == before[i]);
                                assert(among(list@, p as int, before[i]@.file));
                                let a = choose|a: int|
                                    0 <= a < p && (#[trigger] list@[a]).0@ == before[i]@.file;
                                assert(list@[a].0@ == entries[i]@.file);
                            }
                        }
                        assert forall|a: int|
                            0 <= a < p + 1 && owed(model, (#[trigger] list[a]).0@) implies has_entry(
                            entries@,
                            list[a].0@,
                        ) by {
                            if a == p {
                                assert(entries@[before.len() as int]@.file == list[a].0@);
                            } else {
                                assert(has_entry(before, list[a].0@));
                                let i = choose|i: int|
                                    0 <= i < before.len() && (#[trigger] before[i])@.file
                                        == list[a].0@;
                                assert(entries@[i] == before[i]);
                            }
                        }
                        assert forall|i: int| 0 <= i < entries.len() implies produced(
                            model,
                            (#[trigger] entries[i])@,
                        ) by {
                            if i < before.len() {
                                assert(entries[i] == before[i]);
                            }
                        }
                    }
                },
                None => {
                    assert(!owed(model, list[p as int].0@));
                    assert forall|i: int| 0 <= i < entries.len() implies among(
                        list@,
                        p + 1,
                        (#[trigger] entries[i])@.file,
                    ) by {
                        assert(among(list@, p as int, entries[i]@.file));
                        let a = choose|a: int|
                            0 <= a < p && (#[trigger] list@[a]).0@ == entries[i]@.file;
                        assert(list@[a].0@ == entries[i]@.file);
                    }
                },
            }
            p += 1;
        }
        proof {
            assert forall|header: Seq<char>| #[trigger] owed(model, header) implies has_entry(
                entries@,
                header,
            ) by {
                let a = choose|a: int| 0 <= a < list.len() && (#[trigger] list[a]).0@ == header;
                assert(owed(model, list[a].0@));
            }
        }
        entries
    }
}

fn claim_header(
    t: &mut Traversal,
    local: &mut Vec<(String, String)>,
    result: Option<String>,
    context: &String,
)
    ensures
        (final(t)@, final(local).deep_view()) == claim(
            old(t)@,
            old(local).deep_view(),
            result.deep_view(),
            context@,
        ),
{
    match result {
        Some(header) => {
            if !claims_contains(&t.claims, header.as_str()) {
                claims_insert(&mut t.claims, header.clone(), context.clone());
                if !t.tables.prunes(header.as_str()) {
                    let ghost before = local.deep_view();
                    local.push((header, context.clone()));
                    assert(local.deep_view() =~= before.push((header@, context@)));
                }
            }
        },
        None => {},
    }
}

fn advance_idle(t: &mut Traversal, local: Vec<(String, String)>) -> (r: (Worker, Action))
    ensures
        exists|stolen: StolenModel| #[trigger]
            steal_fits(old(t)@.queue, stolen) && (Outcome {
                traversal: final(t)@,
                worker: r.0@,
                action: r.1@,
            }) == step_idle(old(t)@, local.deep_view(), stolen),
{
    let mut local = local;
    let ghost before = local.deep_view();
    match local.pop() {
        Some((file, context)) => {
            assert(local.deep_view() =~= before.drop_last());
            assert(before.last() == (file@, context@));
            assert(steal_fits(t@.queue, StolenModel::Retry));
            if is_scannable(file.as_str()) && t.tables.lookup(context.as_str()).is_some() {
                let request = file.clone();
                (Worker { local, phase: Phase::Reading { file, context } }, Action::Read(request))
            } else {
                (Worker { local, phase: Phase::Idle }, Action::Continue)
            }
        },
        None => {
            assert(local.deep_view() =~= before);
            match queue_steal(&mut t.queue) {
                Stolen::Task(file, context) => {
                    assert(steal_fits(old(t)@.queue, StolenModel::Task((file@, context@))));
                    local.push((file, context));
                    assert(local.deep_view() =~= before.push((file@, context@)));
                    (Worker { local, phase: Phase::Idle }, Action::Continue)
                },
                Stolen::Retry => {
                    assert(steal_fits(old(t)@.queue, StolenModel::Retry));
                    (Worker { local, phase: Phase::Idle }, Action::Continue)
                },
                Stolen::Empty => {
                    assert(steal_fits(old(t)@.queue, StolenModel::Empty));
                    (Worker { local, phase: Phase::Idle }, Action::Done)
                },
            }
        },
    }
}

fn advance_reading(local: Vec<(String, String)>, file: String, context: String, event: Event) -> (r:
    (Worker, Action))
    ensures
        forall|t: TraversalModel|
            (Outcome { traversal: t, worker: r.0@, action: r.1@ }) == #[trigger] step_reading(
                t,
                local.deep_view(),
                file@,
                context@,
                event@,
            ),
{
    match event {
        Event::Contents(Some(text)) => {
            let includes = extract_includes(text.as_str());
            (
                Worker { local, phase: Phase::Scanning { job: Job { file, context, includes, next: 0 } } },
                Action::Continue,
            )
        },
        Event::Contents(None) => (Worker { local, phase: Phase::Idle }, Action::Continue),
        _ => {
            let request = file.clone();
            (Worker { local, phase: Phase::Reading { file, context } }, Action::Read(request))
        },
    }
}

fn advance_scanning(t: &mut Traversal, local: Vec<(String, String)>, job: Job) -> (r: (
    Worker,
    Action,
))
    ensures
        (Outcome { traversal: final(t)@, worker: r.0@, action: r.1@ }) == step_scanning(
            old(t)@,
            local.deep_view(),
            job@,
        ),
{
    let mut local = local;
    let mut job = job;
    if job.next >= job.includes.len() {
        return (Worker { local, phase: Phase::Idle }, Action::Continue);
    }
    let token = job.includes[job.next].clone();
    assert(token@ == job@.includes[job@.next]);
    job.next += 1;
    let dir = source_dir_of(job.file.as_str());
    let id = get_dir_id(&mut t.interner, dir.as_str());
    match resolutions_get(&t.resolutions, token.as_str(), id) {
        Some(result) => {
            claim_header(t, &mut local, result, &job.context);
            (Worker { local, phase: Phase::Scanning { job } }, Action::Continue)
        },
        None => {
            let candidates = match t.tables.lookup(job.context.as_str()) {
                Some(k) => {
                    proof {
                        lemma_context_of_bounds(t@.commands, job.context@);
                    }
                    candidate_paths(dir.as_str(), token.as_str(), t.tables.dirs(k))
                },
                None => {
                    let none: Vec<String> = Vec::new();
                    assert(none.deep_view() =~= Seq::<Seq<char>>::empty());
                    candidate_paths(dir.as_str(), token.as_str(), &none)
                },
            };
            let asked = unknown_paths(&t.probes, &candidates);
            let request = copy_strings(&asked);
            (
                Worker { local, phase: Phase::Probing { job, token, dir: id, candidates, asked } },
                Action::Probe(request),
            )
        },
    }
}

fn advance_probing(
    t: &mut Traversal,
    local: Vec<(String, String)>,
    job: Job,
    token: String,
    dir: u32,
    candidates: Vec<String>,
    asked: Vec<String>,
    event: Event,
) -> (r: (Worker, Action))
    ensures
        (Outcome { traversal: final(t)@, worker: r.0@, action: r.1@ }) == step_probing(
            old(t)@,
            local.deep_view(),
            job@,
            token@,
            dir,
            candidates.deep_view(),
            asked.deep_view(),
            event@,
        ),
{
    match event {
        Event::Probed(flags) => {
            if flags.len() == asked.len() {
                assert(flags@.len() == asked.deep_view().len());
                record_probes(&mut t.probes, &asked, &flags);
                match first_existing_path(&t.probes, &candidates) {
                    Some(k) => {
                        let candidate = candidates[k].clone();
                        let request = candidate.clone();
                        assert(candidate@ == candidates.deep_view()[k as int]);
                        (
                            Worker {
                                local,
                                phase: Phase::Canonicalizing { job, token, dir, candidate },
                            },
                            Action::Canonicalize(request),
                        )
                    },
                    None => {
                        resolutions_insert(&mut t.resolutions, token, dir, None);
                        (Worker { local, phase: Phase::Scanning { job } }, Action::Continue)
                    },
                }
            } else {
                assert(flags@.len() != asked.deep_view().len());
                let request = copy_strings(&asked);
                (
                    Worker { local, phase: Phase::Probing { job, token, dir, candidates, asked } },
                    Action::Probe(request),
                )
            }
        },
        _ => {
            let request = copy_strings(&asked);
            (
                Worker { local, phase: Phase::Probing { job, token, dir, candidates, asked } },
                Action::Probe(request),
            )
        },
    }
}

fn advance_canonicalizing(
    t: &mut Traversal,
    local: Vec<(String, String)>,
    job: Job,
    token: String,
    dir: u32,
    candidate: String,
    event: Event,
) -> (r: (Worker, Action))
    ensures
        (Outcome { traversal: final(t)@, worker: r.0@, action: r.1@ }) == step_canonicalizing(
            old(t)@,
            local.deep_view(),
            job@,
            token@,
            dir,
            candidate@,
            event@,
        ),
{
    let mut local = local;
    match event {
        Event::Canonical(result) => {
            resolutions_insert(&mut t.resolutions, token, dir, copy_text(&result));
            claim_header(t, &mut local, result, &job.context);
            (Worker { local, phase: Phase::Scanning { job } }, Action::Continue)
        },
        _ => {
            let request = candidate.clone();
            (
                Worker { local, phase: Phase::Canonicalizing { job, token, dir, candidate } },
                Action::Canonicalize(request),
            )
        },
    }
}

/// Takes a worker one step without the traversal, where the step needs
/// none: a worker that waits for the text of a file takes the answer and
/// scans the text. The result is then what `step` would give on any
/// traversal, which it would leave as it is. Any other worker is handed
/// back as it came, with the answer, for `step`.
pub fn step_alone(w: Worker, event: Event) -> (r: Result<(Worker, Action), (Worker, Event)>)
    ensures
        match r {
            Ok((worker, action)) => w@.phase is Reading && forall|
                t: TraversalModel,
                stolen: StolenModel,
            |
                (Outcome { traversal: t, worker: worker@, action: action@ }) == #[trigger] step_model(
                    t,
                    w@,
                    event@,
                    stolen,
                ),
            Err((worker, answer)) => !(w@.phase is Reading) && worker@ == w@ && answer@ == event@,
        },
{
    let Worker { local, phase } = w;
    match phase {
        Phase::Reading { file, context } => {
            let r = advance_reading(local, file, context, event);
            assert forall|t: TraversalModel, stolen: StolenModel|
                (Outcome { traversal: t, worker: r.0@, action: r.1@ }) == #[trigger] step_model(
                    t,
                    w@,
                    event@,
                    stolen,
                ) by {
                assert((Outcome { traversal: t, worker: r.0@, action: r.1@ }) == step_reading(
                    t,
                    local.deep_view(),
                    file@,
                    context@,
                    event@,
                ));
            }
            Ok(r)
        },
        other => Err((Worker { local, phase: other }, event)),
    }
}

/// Takes a worker one step through the traversal: `event` answers the
/// request of the worker's step before, and the result is the worker's new
/// state with its next request.
pub fn step(t: &mut Traversal, w: Worker, event: Event) -> (r: (Worker, Action))
    ensures
        exists|stolen: StolenModel| #[trigger]
            steal_fits(old(t)@.queue, stolen) && (Outcome {
                traversal: final(t)@,
                worker: r.0@,
                action: r.1@,
            }) == step_model(old(t)@, w@, event@, stolen),
{
    let Worker { local, phase } = w;
    match phase {
        Phase::Idle => advance_idle(t, local),
        Phase::Reading { file, context } => {
            assert(steal_fits(t@.queue, StolenModel::Retry));
            let r = advance_reading(local, file, context, event);
            assert((Outcome { traversal: t@, worker: r.0@, action: r.1@ }) == step_reading(
                t@,
                local.deep_view(),
                file@,
                context@,
                event@,
            ));
            r
        },
        Phase::Scanning { job } => {
            assert(steal_fits(t@.queue, StolenModel::Retry));
            advance_scanning(t, local, job)
        },
        Phase::Probing { job, token, dir, candidates, asked } => {
            assert(steal_fits(t@.queue, StolenModel::Retry));
            advance_probing(t, local, job, token, dir, candidates, asked, event)
        },
        Phase::Canonicalizing { job, token, dir, candidate } => {
            assert(steal_fits(t@.queue, StolenModel::Retry));
            advance_canonicalizing(t, local, job, token, dir, candidate, event)
        },
    }
}

} // verus!
