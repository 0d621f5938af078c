use std::cell::RefCell;
use std::collections::{BTreeSet, HashMap, HashSet};

use compdb::command::CompileCommand;
use compdb::engine::{
    is_scannable, is_source_file, step, step_alone, Action, Event, Traversal, Worker,
};

/// A file system held in memory.
struct Disk {
    files: HashMap<String, String>,
    links: HashMap<String, String>,
    unreadable: HashSet<String>,
    reads: RefCell<Vec<String>>,
    probes: RefCell<Vec<String>>,
}

impl Disk {
    fn new(files: &[(&str, &str)]) -> Disk {
        Disk {
            files: files.iter().map(|(p, c)| (p.to_string(), c.to_string())).collect(),
            links: HashMap::new(),
            unreadable: HashSet::new(),
            reads: RefCell::new(Vec::new()),
            probes: RefCell::new(Vec::new()),
        }
    }

    fn is_present(&self, path: &str) -> bool {
        self.probes.borrow_mut().push(path.to_string());
        self.files.contains_key(path) || self.links.contains_key(path)
    }

    fn canonical(&self, path: &str) -> Option<String> {
        if let Some(target) = self.links.get(path) {
            Some(target.clone())
        } else if self.files.contains_key(path) {
            Some(path.to_string())
        } else {
            None
        }
    }

    fn read(&self, path: &str) -> Option<String> {
        self.reads.borrow_mut().push(path.to_string());
        if self.unreadable.contains(path) {
            None
        } else {
            self.files.get(path).cloned()
        }
    }

    fn answer(&self, action: &Action) -> Event {
        match action {
            Action::Read(path) => Event::Contents(self.read(path)),
            Action::Probe(paths) => Event::Probed(paths.iter().map(|p| self.is_present(p)).collect()),
            Action::Canonicalize(path) => Event::Canonical(self.canonical(path)),
            Action::Continue | Action::Done => Event::Nothing,
        }
    }
}

fn entry(file: &str, arguments: &[&str]) -> CompileCommand {
    CompileCommand {
        directory: "/proj".to_string(),
        file: file.to_string(),
        command: None,
        arguments: Some(arguments.iter().map(|a| a.to_string()).collect()),
        output: Some("out.o".to_string()),
    }
}

/// Runs a traversal with `workers` workers, stepped in turn.
fn discover(commands: &Vec<CompileCommand>, disk: &Disk, workers: usize) -> Vec<CompileCommand> {
    let mut traversal = Traversal::new(commands);
    let files = traversal.seed_requests();
    let present: Vec<bool> = files.iter().map(|f| disk.is_present(f)).collect();
    traversal.seed(&present);
    let mut states: Vec<Option<(Worker, Event)>> = Vec::new();
    for _ in 0..workers {
        states.push(Some((Worker::new(), Event::Nothing)));
    }
    let mut steps = 0usize;
    loop {
        let mut active = false;
        for slot in states.iter_mut() {
            if let Some((worker, event)) = slot.take() {
                active = true;
                steps += 1;
                assert!(steps < 1_000_000, "the traversal does not end");
                let (worker, action) = match step_alone(worker, event) {
                    Ok(taken) => taken,
                    Err((worker, event)) => step(&mut traversal, worker, event),
                };
                match action {
                    Action::Done => {},
                    other => {
                        let event = disk.answer(&other);
                        *slot = Some((worker, event));
                    },
                }
            }
        }
        if !active {
            break;
        }
    }
    traversal.header_commands()
}

fn files_of(entries: &Vec<CompileCommand>) -> Vec<String> {
    let mut files: Vec<String> = entries.iter().map(|e| e.file.clone()).collect();
    files.sort();
    files
}

#[test]
fn end_to_end_scenario() {
    let disk = Disk::new(&[
        ("/proj/a.cpp", "#include \"local.h\"\n"),
        ("/proj/local.h", "#include <shared.h>\n"),
        ("/proj/inc/shared.h", "// nothing\n"),
    ]);
    let mut commands = vec![CompileCommand {
        directory: "/proj".to_string(),
        file: "/proj/a.cpp".to_string(),
        command: None,
        arguments: Some(vec!["-I".to_string(), "/proj/inc".to_string()]),
        output: None,
    }];
    let headers = discover(&commands, &disk, 1);
    assert_eq!(files_of(&headers), vec!["/proj/inc/shared.h", "/proj/local.h"]);
    for header in &headers {
        assert_eq!(header.directory, "/proj");
        assert_eq!(header.arguments, Some(vec!["-I".to_string(), "/proj/inc".to_string()]));
        assert_eq!(header.command, None);
        assert_eq!(header.output, None);
    }
    commands.extend(headers);
    assert_eq!(commands.len(), 3);
    assert_eq!(commands[0].file, "/proj/a.cpp");
}

#[test]
fn the_directory_of_the_file_comes_first() {
    let disk = Disk::new(&[
        ("/proj/src/a.cpp", "#include \"foo.h\"\n"),
        ("/proj/src/foo.h", ""),
        ("/proj/dir2/foo.h", ""),
    ]);
    let commands = vec![entry("/proj/src/a.cpp", &["-I", "/proj/dir2"])];
    assert_eq!(files_of(&discover(&commands, &disk, 1)), vec!["/proj/src/foo.h"]);
}

#[test]
fn earlier_search_directories_shadow_later_ones() {
    let disk = Disk::new(&[("/proj/a.cpp", "#include <x.h>\n"), ("/a/x.h", ""), ("/b/x.h", "")]);
    let commands = vec![entry("/proj/a.cpp", &["-I/a", "-I/b"])];
    assert_eq!(files_of(&discover(&commands, &disk, 1)), vec!["/a/x.h"]);
    let commands = vec![entry("/proj/a.cpp", &["-I/b", "-I/a"])];
    assert_eq!(files_of(&discover(&commands, &disk, 1)), vec!["/b/x.h"]);
}

#[test]
fn project_directories_come_before_system_directories() {
    let disk = Disk::new(&[("/proj/a.cpp", "#include <x.h>\n"), ("/s/x.h", ""), ("/p/x.h", "")]);
    let commands = vec![entry("/proj/a.cpp", &["-isystem", "/s", "-I/p"])];
    assert_eq!(files_of(&discover(&commands, &disk, 1)), vec!["/p/x.h"]);
}

#[test]
fn the_first_match_wins_where_the_first_directory_lacks_the_file() {
    let disk = Disk::new(&[("/proj/a.cpp", "#include <x.h>\n"), ("/c/x.h", ""), ("/d/x.h", "")]);
    let commands = vec![entry("/proj/a.cpp", &["-I/a", "-I/b", "-I/c", "-I/d"])];
    assert_eq!(files_of(&discover(&commands, &disk, 1)), vec!["/c/x.h"]);
}

#[test]
fn a_header_under_a_system_directory_is_recorded_and_not_scanned() {
    let disk = Disk::new(&[
        ("/proj/a.cpp", "#include <sys.h>\n"),
        ("/sdk/sys.h", "#include \"hidden.h\"\n"),
        ("/sdk/hidden.h", ""),
    ]);
    let commands = vec![entry("/proj/a.cpp", &["-isystem", "/sdk"])];
    let headers = discover(&commands, &disk, 1);
    assert_eq!(files_of(&headers), vec!["/sdk/sys.h"]);
    assert!(!disk.reads.borrow().contains(&"/sdk/sys.h".to_string()));
}

#[test]
fn a_header_with_a_system_path_is_recorded_and_not_scanned() {
    let disk = Disk::new(&[
        ("/proj/a.cpp", "#include \"/usr/include/stdio.h\"\n"),
        ("/usr/include/stdio.h", "#include \"bits.h\"\n"),
        ("/usr/include/bits.h", ""),
    ]);
    let commands = vec![entry("/proj/a.cpp", &[])];
    let headers = discover(&commands, &disk, 1);
    assert_eq!(files_of(&headers), vec!["/usr/include/stdio.h"]);
    assert!(!disk.reads.borrow().contains(&"/usr/include/stdio.h".to_string()));
}

#[test]
fn system_directories_of_all_translation_units_prune() {
    let disk = Disk::new(&[
        ("/proj/a.cpp", "#include \"/vendor/v.h\"\n"),
        ("/proj/b.cpp", ""),
        ("/vendor/v.h", "#include \"w.h\"\n"),
        ("/vendor/w.h", ""),
    ]);
    let commands = vec![entry("/proj/a.cpp", &[]), entry("/proj/b.cpp", &["-isystem", "/vendor"])];
    assert_eq!(files_of(&discover(&commands, &disk, 1)), vec!["/vendor/v.h"]);
}

#[test]
fn an_unresolvable_directive_is_dropped() {
    let disk = Disk::new(&[("/proj/a.cpp", "#include <missing.h>\n#include \"there.h\"\n"), (
        "/proj/there.h",
        "",
    )]);
    let commands = vec![entry("/proj/a.cpp", &["-I/nowhere"])];
    assert_eq!(files_of(&discover(&commands, &disk, 1)), vec!["/proj/there.h"]);
}

#[test]
fn a_header_is_listed_once() {
    let disk = Disk::new(&[
        ("/proj/a.cpp", "#include \"common.h\"\n#include \"common.h\"\n#include \"b.h\"\n"),
        ("/proj/b.cpp", "#include \"common.h\"\n#include \"b.h\"\n"),
        ("/proj/b.h", "#include \"common.h\"\n"),
        ("/proj/common.h", "#include \"b.h\"\n"),
    ]);
    let commands = vec![entry("/proj/a.cpp", &[]), entry("/proj/b.cpp", &[])];
    for workers in [1, 2, 3] {
        let headers = discover(&commands, &disk, workers);
        assert_eq!(files_of(&headers), vec!["/proj/b.h", "/proj/common.h"]);
    }
}

#[test]
fn the_first_claim_fixes_the_context() {
    let disk = Disk::new(&[
        ("/proj/a.cpp", "#include \"common.h\"\n"),
        ("/proj/b.cpp", "#include \"common.h\"\n"),
        ("/proj/common.h", ""),
    ]);
    let commands = vec![entry("/proj/a.cpp", &["-DA"]), entry("/proj/b.cpp", &["-DB"])];
    let headers = discover(&commands, &disk, 1);
    assert_eq!(headers.len(), 1);
    assert_eq!(headers[0].arguments, Some(vec!["-DA".to_string()]));
    assert_eq!(headers[0].output, None);
}

#[test]
fn the_set_of_headers_does_not_depend_on_the_number_of_workers() {
    let disk = Disk::new(&[
        ("/proj/a.cpp", "#include \"a.h\"\n#include <lib.h>\n#include <sys.h>\n"),
        ("/proj/b.cpp", "#include \"b.h\"\n#include <lib.h>\n"),
        ("/proj/c.cc", "#include \"sub/c.h\"\n#include <none.h>\n"),
        ("/proj/d.c", "#include \"a.h\"\n#include \"sub/deep.h\"\n"),
        ("/proj/a.h", "#include \"b.h\"\n#include \"sub/c.h\"\n"),
        ("/proj/b.h", "#include \"a.h\"\n"),
        ("/proj/sub/c.h", "#include \"deep.h\"\n#include <lib.h>\n"),
        ("/proj/sub/deep.h", "#include <more.h>\n"),
        ("/proj/inc/lib.h", "#include <more.h>\n"),
        ("/proj/inc/more.h", ""),
        ("/sdk/sys.h", "#include <unreached.h>\n"),
        ("/sdk/unreached.h", ""),
    ]);
    let flags = ["-I/proj/inc", "-isystem", "/sdk"];
    let commands = vec![
        entry("/proj/a.cpp", &flags),
        entry("/proj/b.cpp", &flags),
        entry("/proj/c.cc", &flags),
        entry("/proj/d.c", &flags),
    ];
    let expected = vec![
        "/proj/a.h",
        "/proj/b.h",
        "/proj/inc/lib.h",
        "/proj/inc/more.h",
        "/proj/sub/c.h",
        "/proj/sub/deep.h",
        "/sdk/sys.h",
    ];
    for workers in [1, 2, 4, 7] {
        let headers = discover(&commands, &disk, workers);
        assert_eq!(files_of(&headers), expected, "with {} workers", workers);
        let distinct: BTreeSet<String> = headers.iter().map(|e| e.file.clone()).collect();
        assert_eq!(distinct.len(), headers.len());
    }
}

#[test]
fn a_cycle_of_headers_ends() {
    let disk = Disk::new(&[
        ("/proj/a.cpp", "#include \"x.h\"\n"),
        ("/proj/x.h", "#include \"y.h\"\n"),
        ("/proj/y.h", "#include \"x.h\"\n#include \"a.cpp\"\n"),
    ]);
    let commands = vec![entry("/proj/a.cpp", &[])];
    assert_eq!(files_of(&discover(&commands, &disk, 1)), vec!["/proj/a.cpp", "/proj/x.h", "/proj/y.h"]);
}

#[test]
fn a_file_that_cannot_be_read_is_skipped() {
    let mut disk = Disk::new(&[
        ("/proj/a.cpp", "#include \"locked.h\"\n#include \"open.h\"\n"),
        ("/proj/locked.h", "#include \"behind.h\"\n"),
        ("/proj/behind.h", ""),
        ("/proj/open.h", ""),
    ]);
    disk.unreadable.insert("/proj/locked.h".to_string());
    let commands = vec![entry("/proj/a.cpp", &[])];
    assert_eq!(files_of(&discover(&commands, &disk, 1)), vec!["/proj/locked.h", "/proj/open.h"]);
}

#[test]
fn a_header_is_recorded_under_its_canonical_path() {
    let mut disk = Disk::new(&[
        ("/proj/a.cpp", "#include \"link.h\"\n#include \"real.h\"\n"),
        ("/proj/real.h", ""),
    ]);
    disk.links.insert("/proj/link.h".to_string(), "/proj/real.h".to_string());
    let commands = vec![entry("/proj/a.cpp", &[])];
    assert_eq!(files_of(&discover(&commands, &disk, 1)), vec!["/proj/real.h"]);
}

#[test]
fn a_place_that_cannot_be_canonicalized_resolves_to_nothing() {
    struct Broken(Disk);
    let disk = Broken(Disk::new(&[("/proj/a.cpp", "#include <x.h>\n"), ("/a/x.h", ""), ("/b/x.h", "")]));
    let commands = vec![entry("/proj/a.cpp", &["-I/a", "-I/b"])];
    let mut traversal = Traversal::new(&commands);
    traversal.seed(&vec![true]);
    let mut worker = Worker::new();
    let mut event = Event::Nothing;
    let mut asked = Vec::new();
    loop {
        let (next, action) = step(&mut traversal, worker, event);
        worker = next;
        event = match &action {
            Action::Done => break,
            Action::Canonicalize(path) => {
                asked.push(path.clone());
                Event::Canonical(None)
            },
            other => disk.0.answer(other),
        };
    }
    assert_eq!(asked, vec!["/a/x.h"]);
    assert_eq!(traversal.header_commands().len(), 0);
}

#[test]
fn only_source_files_that_exist_are_seeds() {
    let disk = Disk::new(&[
        ("/proj/a.cpp", "#include \"a.h\"\n"),
        ("/proj/a.h", ""),
        ("/proj/lone.h", "#include \"b.h\"\n"),
        ("/proj/b.h", ""),
        ("/proj/gone.h", ""),
        ("/proj/notes.txt", "#include \"b.h\"\n"),
        ("/proj/noext", "#include \"b.h\"\n"),
    ]);
    let commands = vec![
        entry("/proj/lone.h", &[]),
        entry("/proj/a.cpp", &[]),
        entry("/proj/gone.c", &[]),
        entry("/proj/notes.txt", &[]),
        entry("/proj/noext", &[]),
        entry("/proj/x.cc", &[]),
        entry("/proj/y.cxx", &[]),
        entry("/proj/z.C", &[]),
    ];
    let traversal = Traversal::new(&commands);
    assert_eq!(
        traversal.seed_requests(),
        vec!["/proj/a.cpp", "/proj/gone.c", "/proj/x.cc", "/proj/y.cxx"]
    );
    assert_eq!(files_of(&discover(&commands, &disk, 1)), vec!["/proj/a.h"]);
}

#[test]
fn answers_that_are_missing_count_as_absent() {
    let disk = Disk::new(&[("/proj/a.c", "#include \"a.h\"\n"), ("/proj/b.c", "#include \"b.h\"\n"), (
        "/proj/a.h",
        "",
    ), ("/proj/b.h", "")]);
    let commands = vec![entry("/proj/a.c", &[]), entry("/proj/b.c", &[])];
    let mut traversal = Traversal::new(&commands);
    traversal.seed(&vec![true]);
    let mut worker = Worker::new();
    let mut event = Event::Nothing;
    loop {
        let (next, action) = step(&mut traversal, worker, event);
        worker = next;
        if let Action::Done = action {
            break;
        }
        event = disk.answer(&action);
    }
    assert_eq!(files_of(&traversal.header_commands()), vec!["/proj/a.h"]);
}

#[test]
fn a_file_of_another_kind_is_recorded_and_not_scanned() {
    let disk = Disk::new(&[
        ("/proj/a.cpp", "#include \"data.txt\"\n#include \"plain\"\n#include \"dot.\"\n"),
        ("/proj/data.txt", "#include \"from_txt.h\"\n"),
        ("/proj/plain", "#include \"from_plain.h\"\n"),
        ("/proj/dot.", "#include \"from_dot.h\"\n"),
        ("/proj/from_txt.h", ""),
        ("/proj/from_plain.h", ""),
        ("/proj/from_dot.h", ""),
    ]);
    let commands = vec![entry("/proj/a.cpp", &[])];
    let headers = discover(&commands, &disk, 1);
    assert_eq!(
        files_of(&headers),
        vec!["/proj/data.txt", "/proj/dot.", "/proj/from_dot.h", "/proj/from_plain.h", "/proj/plain"]
    );
    assert!(!disk.reads.borrow().contains(&"/proj/data.txt".to_string()));
}

#[test]
fn kinds_of_files() {
    for file in ["a.c", "a.cpp", "a.cc", "a.cxx"] {
        assert!(is_source_file(file), "{}", file);
        assert!(is_scannable(file), "{}", file);
    }
    for file in ["a.h", "a.hpp", "a.hh", "a.hxx", "vector", "dot."] {
        assert!(!is_source_file(file), "{}", file);
        assert!(is_scannable(file), "{}", file);
    }
    for file in ["a.txt", "a.C", "a.H", "a.cpp.in", "a.inl"] {
        assert!(!is_source_file(file), "{}", file);
        assert!(!is_scannable(file), "{}", file);
    }
    assert!(is_source_file("/x.y/a.c"));
    assert!(is_scannable(".hidden"));
}

#[test]
fn a_resolution_is_remembered_by_token_and_directory() {
    let disk = Disk::new(&[
        ("/proj/a.cpp", "#include <x.h>\n"),
        ("/proj/b.cpp", "#include <x.h>\n"),
        ("/one/x.h", ""),
        ("/two/x.h", ""),
    ]);
    let commands = vec![entry("/proj/a.cpp", &["-I/one"]), entry("/proj/b.cpp", &["-I/two"])];
    assert_eq!(files_of(&discover(&commands, &disk, 1)), vec!["/one/x.h"]);
}

#[test]
fn a_path_is_probed_once() {
    let disk = Disk::new(&[
        ("/proj/a.cpp", "#include <x.h>\n#include <y.h>\n"),
        ("/proj/sub/b.cpp", "#include <x.h>\n"),
        ("/inc/x.h", ""),
        ("/inc/y.h", ""),
    ]);
    let commands = vec![entry("/proj/a.cpp", &["-I/inc", "-I/inc"]), entry("/proj/sub/b.cpp", &["-I/inc"])];
    let headers = discover(&commands, &disk, 1);
    assert_eq!(files_of(&headers), vec!["/inc/x.h", "/inc/y.h"]);
    let probes = disk.probes.borrow();
    let count = probes.iter().filter(|p| p.as_str() == "/inc/x.h").count();
    assert_eq!(count, 1);
}

#[test]
fn the_last_entry_of_a_file_stands_for_it() {
    let disk = Disk::new(&[("/proj/a.cpp", "#include <x.h>\n"), ("/one/x.h", ""), ("/two/x.h", "")]);
    let commands = vec![entry("/proj/a.cpp", &["-I/one"]), entry("/proj/a.cpp", &["-I/two"])];
    let headers = discover(&commands, &disk, 1);
    assert_eq!(files_of(&headers), vec!["/two/x.h"]);
    assert_eq!(headers[0].arguments, Some(vec!["-I/two".to_string()]));
}

#[test]
fn an_empty_traversal_is_done_at_once() {
    let mut traversal = Traversal::new(&Vec::new());
    assert_eq!(traversal.seed_requests(), Vec::<String>::new());
    traversal.seed(&Vec::new());
    let (_, action) = step(&mut traversal, Worker::new(), Event::Nothing);
    assert!(matches!(action, Action::Done));
    assert_eq!(traversal.header_commands().len(), 0);
}

#[test]
fn a_request_is_repeated_until_it_is_answered() {
    let commands = vec![entry("/proj/a.cpp", &["-I/inc"])];
    let mut traversal = Traversal::new(&commands);
    traversal.seed(&vec![true]);
    let (worker, action) = step(&mut traversal, Worker::new(), Event::Nothing);
    assert!(matches!(action, Action::Continue));
    let (worker, action) = step(&mut traversal, worker, Event::Nothing);
    assert!(matches!(&action, Action::Read(p) if p == "/proj/a.cpp"));
    let (worker, action) = step(&mut traversal, worker, Event::Nothing);
    assert!(matches!(&action, Action::Read(p) if p == "/proj/a.cpp"));
    let (worker, action) = step(&mut traversal, worker, Event::Probed(vec![true]));
    assert!(matches!(&action, Action::Read(p) if p == "/proj/a.cpp"));
    let text = "#include <x.h>\n".to_string();
    let (worker, action) = step(&mut traversal, worker, Event::Contents(Some(text)));
    assert!(matches!(action, Action::Continue));
    let (worker, action) = step(&mut traversal, worker, Event::Nothing);
    let expected = vec!["/proj/x.h".to_string(), "/inc/x.h".to_string()];
    assert!(matches!(&action, Action::Probe(p) if *p == expected));
    let (worker, action) = step(&mut traversal, worker, Event::Probed(vec![true]));
    assert!(matches!(&action, Action::Probe(p) if *p == expected));
    let (worker, action) = step(&mut traversal, worker, Event::Canonical(None));
    assert!(matches!(&action, Action::Probe(p) if *p == expected));
    let (worker, action) = step(&mut traversal, worker, Event::Probed(vec![false, true]));
    assert!(matches!(&action, Action::Canonicalize(p) if p == "/inc/x.h"));
    let (worker, action) = step(&mut traversal, worker, Event::Nothing);
    assert!(matches!(&action, Action::Canonicalize(p) if p == "/inc/x.h"));
    let found = Some("/real/inc/x.h".to_string());
    let (worker, action) = step(&mut traversal, worker, Event::Canonical(found));
    assert!(matches!(action, Action::Continue));
    let (worker, action) = step(&mut traversal, worker, Event::Nothing);
    assert!(matches!(action, Action::Continue));
    let (_, action) = step(&mut traversal, worker, Event::Nothing);
    assert!(matches!(&action, Action::Read(p) if p == "/real/inc/x.h"));
    assert_eq!(files_of(&traversal.header_commands()), vec!["/real/inc/x.h"]);
}

#[test]
fn a_command_line_gives_the_search_directories() {
    let disk = Disk::new(&[("/proj/a.c", "#include <x.h>\n"), ("/proj/inc/x.h", "")]);
    let commands = vec![CompileCommand {
        directory: "/proj".to_string(),
        file: "/proj/a.c".to_string(),
        command: Some("cc -I/proj/inc -c a.c -o a.o".to_string()),
        arguments: None,
        output: Some("a.o".to_string()),
    }];
    let headers = discover(&commands, &disk, 2);
    assert_eq!(headers.len(), 1);
    assert_eq!(headers[0].file, "/proj/inc/x.h");
    assert_eq!(headers[0].directory, "/proj");
    assert_eq!(headers[0].command, Some("cc -I/proj/inc -c a.c -o a.o".to_string()));
    assert_eq!(headers[0].arguments, None);
    assert_eq!(headers[0].output, None);
}

#[test]
fn workers_that_step_in_another_order_find_the_same_headers() {
    let disk = Disk::new(&[
        ("/proj/a.cpp", "#include \"a.h\"\n#include <lib.h>\n"),
        ("/proj/b.cpp", "#include \"b.h\"\n#include <lib.h>\n"),
        ("/proj/a.h", "#include \"b.h\"\n"),
        ("/proj/b.h", "#include \"c.h\"\n"),
        ("/proj/c.h", ""),
        ("/proj/inc/lib.h", "#include \"c.h\"\n"),
        ("/proj/inc/c.h", ""),
    ]);
    let commands = vec![entry("/proj/a.cpp", &["-I/proj/inc"]), entry("/proj/b.cpp", &["-I/proj/inc"])];
    let expected = files_of(&discover(&commands, &disk, 1));
    assert_eq!(
        expected,
        vec!["/proj/a.h", "/proj/b.h", "/proj/c.h", "/proj/inc/c.h", "/proj/inc/lib.h"]
    );
    for burst in [1usize, 2, 3, 5, 8] {
        let mut traversal = Traversal::new(&commands);
        let present: Vec<bool> = traversal.seed_requests().iter().map(|f| disk.is_present(f)).collect();
        traversal.seed(&present);
        let mut states: Vec<Option<(Worker, Event)>> = Vec::new();
        for _ in 0..3 {
            states.push(Some((Worker::new(), Event::Nothing)));
        }
        let mut turn = 0usize;
        while states.iter().any(|s| s.is_some()) {
            let index = (turn / burst) % states.len();
            let index = states.len() - 1 - index;
            turn += 1;
            assert!(turn < 1_000_000);
            if let Some((worker, event)) = states[index].take() {
                let (worker, action) = step(&mut traversal, worker, event);
                if !matches!(action, Action::Done) {
                    let event = disk.answer(&action);
                    states[index] = Some((worker, event));
                }
            }
        }
        assert_eq!(files_of(&traversal.header_commands()), expected, "with bursts of {}", burst);
    }
}

#[test]
fn a_worker_scans_without_the_traversal() {
    let commands = vec![entry("/proj/a.cpp", &[])];
    let mut traversal = Traversal::new(&commands);
    traversal.seed(&vec![true]);
    let worker = match step_alone(Worker::new(), Event::Nothing) {
        Err((worker, Event::Nothing)) => worker,
        _ => panic!("an idle worker needs the traversal"),
    };
    let (worker, _) = step(&mut traversal, worker, Event::Nothing);
    let (worker, action) = step(&mut traversal, worker, Event::Nothing);
    assert!(matches!(&action, Action::Read(p) if p == "/proj/a.cpp"));
    let (worker, action) = match step_alone(worker, Event::Nothing) {
        Ok(taken) => taken,
        Err(_) => panic!("a worker that waits for a text needs no traversal"),
    };
    assert!(matches!(&action, Action::Read(p) if p == "/proj/a.cpp"));
    let text = "  #include \"x.h\"\nint y; #include \"y.h\"\n".to_string();
    let (worker, action) = match step_alone(worker, Event::Contents(Some(text))) {
        Ok(taken) => taken,
        Err(_) => panic!("a worker that waits for a text needs no traversal"),
    };
    assert!(matches!(action, Action::Continue));
    let worker = match step_alone(worker, Event::Probed(vec![true])) {
        Err((worker, Event::Probed(flags))) => {
            assert_eq!(flags, vec![true]);
            worker
        },
        _ => panic!("a worker that scans needs the traversal"),
    };
    let (worker, action) = step(&mut traversal, worker, Event::Nothing);
    let expected = vec!["/proj/x.h".to_string()];
    assert!(matches!(&action, Action::Probe(p) if *p == expected));
    let (worker, action) = step(&mut traversal, worker, Event::Probed(vec![false]));
    assert!(matches!(action, Action::Continue));
    let (worker, action) = step(&mut traversal, worker, Event::Nothing);
    assert!(matches!(action, Action::Continue));
    let (_, action) = step(&mut traversal, worker, Event::Nothing);
    assert!(matches!(action, Action::Done));
}

#[test]
fn the_context_of_a_claim_is_the_seed_that_reached_it() {
    let disk = Disk::new(&[
        ("/proj/a.cpp", "#include \"a.h\"\n"),
        ("/proj/b.cpp", "#include \"b.h\"\n"),
        ("/proj/a.h", "#include \"deep_a.h\"\n"),
        ("/proj/b.h", "#include \"deep_b.h\"\n"),
        ("/proj/deep_a.h", ""),
        ("/proj/deep_b.h", ""),
    ]);
    let commands = vec![entry("/proj/a.cpp", &["-DA"]), entry("/proj/b.cpp", &["-DB"])];
    for workers in [1, 2, 5] {
        let headers = discover(&commands, &disk, workers);
        assert_eq!(headers.len(), 4);
        for header in &headers {
            let flag = if header.file.ends_with("a.h") { "-DA" } else { "-DB" };
            assert_eq!(header.arguments, Some(vec![flag.to_string()]), "for {}", header.file);
        }
    }
}
