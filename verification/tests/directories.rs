use compdb::classify::{is_system_header, is_system_path};
use compdb::command::{copy_strings, copy_text, CompileCommand};
use compdb::flags::{add_dir, declared_dirs, extract_include_directories_for_command, holds_dir};
use compdb::interner::{get_dir_id, DirInterner};
use compdb::resolve::{candidate_paths, source_dir_of};
use compdb::tables::Tables;

fn strings(items: &[&str]) -> Vec<String> {
    items.iter().map(|s| s.to_string()).collect()
}

fn with_arguments(arguments: &[&str]) -> CompileCommand {
    CompileCommand {
        directory: "/proj".to_string(),
        file: "/proj/a.cpp".to_string(),
        command: None,
        arguments: Some(strings(arguments)),
        output: None,
    }
}

fn with_command(command: &str) -> CompileCommand {
    CompileCommand {
        directory: "/proj".to_string(),
        file: "/proj/a.cpp".to_string(),
        command: Some(command.to_string()),
        arguments: None,
        output: None,
    }
}

#[test]
fn system_paths_by_prefix() {
    assert!(is_system_path("/usr/include"));
    assert!(is_system_path("/usr/"));
    assert!(is_system_path("/opt/sdk/include"));
    assert!(!is_system_path("/usr"));
    assert!(!is_system_path("/opt"));
    assert!(!is_system_path("usr/include"));
    assert!(!is_system_path("/home/usr/x"));
    assert!(!is_system_path("/proj/opt/x"));
}

#[test]
fn system_paths_by_substring() {
    assert!(is_system_path("/home/u/toolchain/include"));
    assert!(is_system_path("/x/sysroot"));
    assert!(is_system_path("/x/arm-gcc/y"));
    assert!(is_system_path("clang"));
    assert!(is_system_path("/a/libclang/b"));
    assert!(!is_system_path("/home/u/project/include"));
    assert!(!is_system_path(""));
    assert!(!is_system_path("/proj/gc/c"));
}

#[test]
fn system_paths_distinguish_case() {
    assert!(!is_system_path("/home/u/GCC/include"));
    assert!(!is_system_path("/home/u/Clang"));
    assert!(!is_system_path("/USR/include"));
    assert!(!is_system_path("/x/SysRoot"));
}

#[test]
fn system_headers_lie_under_a_system_directory() {
    let dirs = strings(&["/sdk/include", "/vendor"]);
    assert!(is_system_header("/sdk/include/a.h", &dirs));
    assert!(is_system_header("/vendor/x/y.h", &dirs));
    assert!(is_system_header("/vendor", &dirs));
    assert!(!is_system_header("/proj/a.h", &dirs));
    assert!(!is_system_header("/sdk/a.h", &dirs));
    assert!(!is_system_header("/sdk/include/a.h", &Vec::new()));
}

#[test]
fn system_headers_match_whole_components() {
    let dirs = strings(&["/sdk/inc"]);
    assert!(!is_system_header("/sdk/include/a.h", &dirs));
    assert!(is_system_header("/sdk/inc/a.h", &dirs));
}

#[test]
fn separate_and_joined_flags() {
    let (project, system) = extract_include_directories_for_command(&with_arguments(&[
        "g++", "-I", "/proj/inc", "-I/proj/inc2", "-c", "a.cpp",
    ]));
    assert_eq!(project, vec!["/proj/inc", "/proj/inc2"]);
    assert_eq!(system, Vec::<String>::new());
}

#[test]
fn classifier_sorts_what_the_short_flag_declares() {
    let (project, system) = extract_include_directories_for_command(&with_arguments(&[
        "-I/usr/include", "-I", "/opt/x", "-Iinc", "-I", "/home/u/sysroot/inc",
    ]));
    assert_eq!(project, vec!["inc"]);
    assert_eq!(system, vec!["/usr/include", "/opt/x", "/home/u/sysroot/inc"]);
}

#[test]
fn long_flag_always_declares_a_system_directory() {
    let (project, system) = extract_include_directories_for_command(&with_arguments(&[
        "-isystem", "/proj/third_party", "-I", "/proj/inc",
    ]));
    assert_eq!(project, vec!["/proj/inc"]);
    assert_eq!(system, vec!["/proj/third_party"]);
}

#[test]
fn joined_long_flag_declares_nothing() {
    let (project, system) =
        extract_include_directories_for_command(&with_arguments(&["-isystem/x", "-isystem"]));
    assert_eq!(project, Vec::<String>::new());
    assert_eq!(system, Vec::<String>::new());
}

#[test]
fn directories_keep_the_order_of_the_command_line() {
    let (project, system) = extract_include_directories_for_command(&with_arguments(&[
        "-Iz", "-Ia", "-isystem", "s2", "-Im", "-isystem", "s1",
    ]));
    assert_eq!(project, vec!["z", "a", "m"]);
    assert_eq!(system, vec!["s2", "s1"]);
}

#[test]
fn a_directory_is_listed_once() {
    let (project, system) = extract_include_directories_for_command(&with_arguments(&[
        "-Ia", "-Ib", "-I", "a", "-isystem", "s", "-isystem", "s", "-Ib",
    ]));
    assert_eq!(project, vec!["a", "b"]);
    assert_eq!(system, vec!["s"]);
}

#[test]
fn a_directory_may_be_of_both_classes() {
    let (project, system) =
        extract_include_directories_for_command(&with_arguments(&["-Ishared", "-isystem", "shared"]));
    assert_eq!(project, vec!["shared"]);
    assert_eq!(system, vec!["shared"]);
}

#[test]
fn a_short_flag_at_the_end_declares_nothing() {
    let (project, system) = extract_include_directories_for_command(&with_arguments(&["-Ia", "-I"]));
    assert_eq!(project, vec!["a"]);
    assert_eq!(system, Vec::<String>::new());
}

#[test]
fn the_argument_of_a_flag_is_not_read_as_a_flag() {
    let (project, system) =
        extract_include_directories_for_command(&with_arguments(&["-I", "-Ix", "-isystem", "-Iy"]));
    assert_eq!(project, vec!["-Ix"]);
    assert_eq!(system, vec!["-Iy"]);
}

#[test]
fn command_line_is_split_on_white_space() {
    let (project, system) = extract_include_directories_for_command(&with_command(
        "clang++  -I /proj/inc\t-Ilib -isystem /sdk -c a.cpp",
    ));
    assert_eq!(project, vec!["/proj/inc", "lib"]);
    assert_eq!(system, vec!["/sdk"]);
}

#[test]
fn command_line_quoting_is_not_honoured() {
    let (project, _) =
        extract_include_directories_for_command(&with_command("cc -I \"my dir\" -c a.c"));
    assert_eq!(project, vec!["\"my"]);
}

#[test]
fn arguments_win_over_the_command_line() {
    let mut cmd = with_arguments(&["-Ifrom_arguments"]);
    cmd.command = Some("cc -Ifrom_command".to_string());
    let (project, _) = extract_include_directories_for_command(&cmd);
    assert_eq!(project, vec!["from_arguments"]);
}

#[test]
fn no_invocation_declares_nothing() {
    let mut cmd = with_arguments(&[]);
    cmd.arguments = None;
    let (project, system) = extract_include_directories_for_command(&cmd);
    assert_eq!(project, Vec::<String>::new());
    assert_eq!(system, Vec::<String>::new());
}

#[test]
fn declared_dirs_reads_a_list_of_arguments() {
    let (project, system) = declared_dirs(&strings(&["-Ia", "-isystem", "b"]));
    assert_eq!(project, vec!["a"]);
    assert_eq!(system, vec!["b"]);
}

#[test]
fn add_dir_keeps_the_first_occurrence() {
    let mut dirs = strings(&["a", "b"]);
    add_dir(&mut dirs, "a".to_string());
    assert_eq!(dirs, vec!["a", "b"]);
    add_dir(&mut dirs, "c".to_string());
    assert_eq!(dirs, vec!["a", "b", "c"]);
    assert!(holds_dir(&dirs, &"c".to_string()));
    assert!(!holds_dir(&dirs, &"d".to_string()));
}

#[test]
fn identifiers_count_from_zero() {
    let mut interner = DirInterner::new();
    assert_eq!(get_dir_id(&mut interner, "/proj"), 0);
    assert_eq!(get_dir_id(&mut interner, "/proj/inc"), 1);
    assert_eq!(get_dir_id(&mut interner, ""), 2);
}

#[test]
fn a_directory_keeps_its_identifier() {
    let mut interner = DirInterner::new();
    let first = get_dir_id(&mut interner, "/proj");
    let other = get_dir_id(&mut interner, "/other");
    assert_eq!(get_dir_id(&mut interner, "/proj"), first);
    assert_eq!(get_dir_id(&mut interner, "/other"), other);
    assert_ne!(first, other);
    assert_eq!(get_dir_id(&mut interner, "/third"), 2);
}

#[test]
fn candidates_begin_with_the_directory_of_the_file() {
    let paths = candidate_paths("/proj/src", "x.h", &strings(&["/proj/inc", "/sdk"]));
    assert_eq!(paths, vec!["/proj/src/x.h", "/proj/inc/x.h", "/sdk/x.h"]);
    assert_eq!(candidate_paths("", "x.h", &Vec::new()), vec!["x.h"]);
}

#[test]
fn an_absolute_token_replaces_the_directory() {
    let paths = candidate_paths("/proj/src", "/abs/x.h", &strings(&["/proj/inc"]));
    assert_eq!(paths, vec!["/abs/x.h", "/abs/x.h"]);
}

#[test]
fn source_dir_is_the_parent() {
    assert_eq!(source_dir_of("/proj/src/a.cpp"), "/proj/src");
    assert_eq!(source_dir_of("a.cpp"), "");
    assert_eq!(source_dir_of("/"), "");
    assert_eq!(source_dir_of(""), "");
}

#[test]
fn copies_are_equal_to_what_they_copy() {
    let list = strings(&["a", "", "c"]);
    assert_eq!(copy_strings(&list), list);
    assert_eq!(copy_text(&Some("x".to_string())), Some("x".to_string()));
    assert_eq!(copy_text(&None), None);
    let cmd = with_arguments(&["-Ia"]);
    let copy = cmd.duplicate();
    assert_eq!(copy.directory, cmd.directory);
    assert_eq!(copy.file, cmd.file);
    assert_eq!(copy.command, cmd.command);
    assert_eq!(copy.arguments, cmd.arguments);
    assert_eq!(copy.output, cmd.output);
}

#[test]
fn a_synthetic_entry_has_no_output() {
    let mut cmd = with_command("cc -c a.c -o a.o");
    cmd.output = Some("a.o".to_string());
    let entry = cmd.for_header("/proj/a.h".to_string());
    assert_eq!(entry.directory, "/proj");
    assert_eq!(entry.file, "/proj/a.h");
    assert_eq!(entry.command, Some("cc -c a.c -o a.o".to_string()));
    assert_eq!(entry.arguments, None);
    assert_eq!(entry.output, None);
}

#[test]
fn tables_list_project_directories_before_system_directories() {
    let mut first = with_arguments(&["-isystem", "/sdk", "-I/proj/inc", "-I", "/usr/include"]);
    first.file = "/proj/a.cpp".to_string();
    let tables = Tables::new(&vec![first]);
    assert_eq!(tables.len(), 1);
    assert_eq!(tables.lookup("/proj/a.cpp"), Some(0));
    assert_eq!(tables.lookup("/proj/b.cpp"), None);
    assert_eq!(*tables.dirs(0), vec!["/proj/inc", "/sdk", "/usr/include"]);
    assert_eq!(tables.command(0).file, "/proj/a.cpp");
}

#[test]
fn tables_let_the_last_entry_of_a_file_stand_for_it() {
    let mut first = with_arguments(&["-Ione"]);
    first.file = "/proj/a.cpp".to_string();
    let mut second = with_arguments(&["-Itwo"]);
    second.file = "/proj/b.cpp".to_string();
    let mut third = with_arguments(&["-Ithree"]);
    third.file = "/proj/a.cpp".to_string();
    let tables = Tables::new(&vec![first, second, third]);
    assert_eq!(tables.len(), 3);
    assert_eq!(tables.lookup("/proj/a.cpp"), Some(2));
    assert_eq!(tables.lookup("/proj/b.cpp"), Some(1));
    assert_eq!(*tables.dirs(2), vec!["three"]);
    assert_eq!(*tables.dirs(0), vec!["one"]);
}

#[test]
fn tables_prune_by_path_and_by_system_directory() {
    let mut first = with_arguments(&["-isystem", "/vendor/a"]);
    first.file = "/proj/a.cpp".to_string();
    let mut second = with_arguments(&["-I/opt/x", "-isystem", "/vendor/b", "-I/proj/inc"]);
    second.file = "/proj/b.cpp".to_string();
    let tables = Tables::new(&vec![first, second]);
    assert!(tables.prunes("/vendor/a/x.h"));
    assert!(tables.prunes("/vendor/b/y/z.h"));
    assert!(tables.prunes("/opt/x/k.h"));
    assert!(tables.prunes("/usr/include/stdio.h"));
    assert!(tables.prunes("/home/u/clang/x.h"));
    assert!(!tables.prunes("/vendor/c/x.h"));
    assert!(!tables.prunes("/proj/inc/x.h"));
    assert!(!tables.prunes("/proj/a.h"));
    assert!(!Tables::new(&Vec::new()).prunes("/vendor/a/x.h"));
}
