//! Search directories: what an invocation declares with `-I` and `-isystem`.

use vstd::prelude::*;
use crate::classify::{is_system_path, system_path};
use crate::command::{CommandModel, CompileCommand};
use crate::text::{chars_of, has_prefix, is_space, is_space_char, matches_at};

verus! {

/// The first position at or after `i` that holds white space, or the end of `s`.
pub open spec fn word_end(s: Seq<char>, i: int) -> int
    decreases s.len() - i,
{
    if 0 <= i < s.len() && !is_space(s[i]) {
        word_end(s, i + 1)
    } else {
        i
    }
}

pub proof fn lemma_word_end_bounds(s: Seq<char>, i: int)
    requires
        0 <= i <= s.len(),
    ensures
        i <= word_end(s, i) <= s.len(),
        i < s.len() && !is_space(s[i]) ==> i < word_end(s, i),
    decreases s.len() - i,
{
    if i < s.len() && !is_space(s[i]) {
        lemma_word_end_bounds(s, i + 1);
    }
}

/// The words of `s` from position `i` on: the longest runs of characters
/// that are no white space, in the order of the text.
pub open spec fn words_from(s: Seq<char>, i: int) -> Seq<Seq<char>>
    decreases s.len() - i,
    via words_from_decreases
{
    if i < 0 || i >= s.len() {
        Seq::empty()
    } else if is_space(s[i]) {
        words_from(s, i + 1)
    } else {
        seq![s.subrange(i, word_end(s, i))] + words_from(s, word_end(s, i))
    }
}

#[via_fn]
proof fn words_from_decreases(s: Seq<char>, i: int) {
    if 0 <= i < s.len() {
        lemma_word_end_bounds(s, i);
    }
}

/// The words of a command line. Quoting is not honoured.
pub open spec fn words_of(s: Seq<char>) -> Seq<Seq<char>> {
    words_from(s, 0)
}

/// The arguments of an invocation: the argument list where the entry has
/// one, else the words of its command line, else nothing.
pub open spec fn invocation_words(cmd: CommandModel) -> Seq<Seq<char>> {
    match cmd.arguments {
        Some(arguments) => arguments,
        None => match cmd.command {
            Some(line) => words_of(line),
            None => Seq::empty(),
        },
    }
}

/// The directories that the arguments declare from position `i` on, in the
/// order of the command line, each with its class (`true` for a system
/// directory). `-I` followed by an argument and `-I<dir>` declare a directory
/// that the classifier sorts; `-isystem` followed by an argument declares a
/// system directory whatever its path. An `-I` that ends the line declares
/// nothing.
pub open spec fn declared_from(args: Seq<Seq<char>>, i: int) -> Seq<(Seq<char>, bool)>
    decreases args.len() - i,
{
    if i < 0 || i >= args.len() {
        Seq::empty()
    } else if args[i] == "-I"@ && i + 1 < args.len() {
        seq![(args[i + 1], system_path(args[i + 1]))] + declared_from(args, i + 2)
    } else if has_prefix(args[i], "-I"@) {
        let dir = args[i].subrange("-I"@.len() as int, args[i].len() as int);
        if dir.len() > 0 {
            seq![(dir, system_path(dir))] + declared_from(args, i + 1)
        } else {
            declared_from(args, i + 1)
        }
    } else if args[i] == "-isystem"@ && i + 1 < args.len() {
        seq![(args[i + 1], true)] + declared_from(args, i + 2)
    } else {
        declared_from(args, i + 1)
    }
}

/// The directories of one class among `declared`, each once, in the order
/// of its first declaration. A directory is its path as it is spelled.
pub open spec fn dirs_of_class(declared: Seq<(Seq<char>, bool)>, system: bool) -> Seq<Seq<char>>
    decreases declared.len(),
{
    if declared.len() == 0 {
        Seq::empty()
    } else {
        let earlier = dirs_of_class(declared.drop_last(), system);
        let (dir, class) = declared.last();
        if class == system && !earlier.contains(dir) {
            earlier.push(dir)
        } else {
            earlier
        }
    }
}

/// The project directories of an invocation.
pub open spec fn project_dirs(cmd: CommandModel) -> Seq<Seq<char>> {
    dirs_of_class(declared_from(invocation_words(cmd), 0), false)
}

/// The system directories of an invocation.
pub open spec fn system_dirs(cmd: CommandModel) -> Seq<Seq<char>> {
    dirs_of_class(declared_from(invocation_words(cmd), 0), true)
}

/// The directories in which a translation unit's directives are looked up,
/// behind the directory of the file that holds the directive: the project
/// directories, then the system directories.
pub open spec fn search_dirs(cmd: CommandModel) -> Seq<Seq<char>> {
    project_dirs(cmd) + system_dirs(cmd)
}

/// No directory occurs twice in the directories of one class.
pub proof fn lemma_dirs_of_class_distinct(declared: Seq<(Seq<char>, bool)>, system: bool)
    ensures
        dirs_of_class(declared, system).no_duplicates(),
        forall|d: Seq<char>| #[trigger]
            dirs_of_class(declared, system).contains(d) <==> declared.contains((d, system)),
    decreases declared.len(),
{
    let dirs = dirs_of_class(declared, system);
    if declared.len() > 0 {
        let front = declared.drop_last();
        let earlier = dirs_of_class(front, system);
        lemma_dirs_of_class_distinct(front, system);
        let (dir, class) = declared.last();
        assert forall|d: Seq<char>| #[trigger] dirs.contains(d) <==> declared.contains(
            (d, system),
        ) by {
            if dirs.contains(d) {
                let j = choose|j: int| 0 <= j < dirs.len() && dirs[j] == d;
                if j < earlier.len() {
                    assert(earlier[j] == d);
                    assert(earlier.contains(d));
                    let k = choose|k: int| 0 <= k < front.len() && front[k] == (d, system);
                    assert(declared[k] == (d, system));
                } else {
                    assert(declared[declared.len() - 1] == (d, system));
                }
            }
            if declared.contains((d, system)) {
                let k = choose|k: int| 0 <= k < declared.len() && declared[k] == (d, system);
                if k < front.len() {
                    assert(front[k] == (d, system));
                    assert(front.contains((d, system)));
                    assert(earlier.contains(d));
                    let j = choose|j: int| 0 <= j < earlier.len() && earlier[j] == d;
                    assert(dirs[j] == d);
                } else if earlier.contains(d) {
                    let j = choose|j: int| 0 <= j < earlier.len() && earlier[j] == d;
                    assert(dirs[j] == d);
                } else {
                    assert(dirs[dirs.len() - 1] == d);
                }
            }
        }
    }
}

/// A sequence with one more item at its end holds what it held, and the item.
pub proof fn lemma_push_contains<A>(s: Seq<A>, x: A, d: A)
    ensures
        s.push(x).contains(d) <==> s.contains(d) || d == x,
{
    if s.contains(d) {
        let k = choose|k: int| 0 <= k < s.len() && s[k] == d;
        assert(s.push(x)[k] == d);
    }
    if d == x {
        assert(s.push(x)[s.len() as int] == d);
    }
    if s.push(x).contains(d) {
        let k = choose|k: int| 0 <= k < s.push(x).len() && s.push(x)[k] == d;
        if k < s.len() {
            assert(s[k] == d);
        }
    }
}

/// Splits a command line into its words.
pub fn split_words(line: &str) -> (words: Vec<String>)
    ensures
        words.deep_view() == words_of(line@),
{
    let s = chars_of(line);
    let mut words: Vec<String> = Vec::new();
    let mut i: usize = 0;
    while i < s.len()
        invariant
            i <= s.len(),
            s@ == line@,
            words.deep_view() + words_from(s@, i as int) == words_from(s@, 0),
        decreases s.len() - i,
    {
        if is_space_char(s[i]) {
            i += 1;
        } else {
            let mut e: usize = i;
            while e < s.len() && !is_space_char(s[e])
                invariant
                    i <= e <= s.len(),
                    word_end(s@, i as int) == word_end(s@, e as int),
                decreases s.len() - e,
            {
                e += 1;
            }
            proof {
                lemma_word_end_bounds(s@, i as int);
            }
            let word = line.substring_char(i, e).to_owned();
            let ghost before = words.deep_view();
            words.push(word);
            proof {
                let w = s@.subrange(i as int, e as int);
                assert(words.deep_view() =~= before.push(w));
                assert(before.push(w) + words_from(s@, e as int) =~= before + (seq![w]
                    + words_from(s@, e as int)));
            }
            i = e;
        }
    }
    assert(words_from(s@, i as int) =~= Seq::<Seq<char>>::empty());
    assert(words.deep_view() + Seq::<Seq<char>>::empty() =~= words.deep_view());
    words
}

/// Tests whether `dir` is among `dirs`.
pub fn holds_dir(dirs: &Vec<String>, dir: &String) -> (b: bool)
    ensures
        b == dirs.deep_view().contains(dir@),
{
    let mut i: usize = 0;
    while i < dirs.len()
        invariant
            i <= dirs.len(),
            forall|j: int| 0 <= j < i ==> dirs.deep_view()[j] != dir@,
        decreases dirs.len() - i,
    {
        if dirs[i] == *dir {
            assert(dirs.deep_view()[i as int] == dir@);
            return true;
        }
        i += 1;
    }
    false
}

/// Appends `dir` to `dirs` unless it is there already.
pub fn add_dir(dirs: &mut Vec<String>, dir: String)
    ensures
        final(dirs).deep_view() == if old(dirs).deep_view().contains(dir@) {
            old(dirs).deep_view()
        } else {
            old(dirs).deep_view().push(dir@)
        },
{
    if !holds_dir(dirs, &dir) {
        let ghost before = dirs.deep_view();
        dirs.push(dir);
        assert(dirs.deep_view() =~= before.push(dir@));
    }
}

/// The project directories and the system directories that a list of
/// arguments declares.
pub fn declared_dirs(args: &Vec<String>) -> (dirs: (Vec<String>, Vec<String>))
    ensures
        dirs.0.deep_view() == dirs_of_class(declared_from(args.deep_view(), 0), false),
        dirs.1.deep_view() == dirs_of_class(declared_from(args.deep_view(), 0), true),
{
    let short = "-I".to_owned();
    let short_chars = chars_of("-I");
    let long = "-isystem".to_owned();
    let mut project: Vec<String> = Vec::new();
    let mut system: Vec<String> = Vec::new();
    let ghost words = args.deep_view();
    let ghost mut seen: Seq<(Seq<char>, bool)> = Seq::empty();
    let mut i: usize = 0;
    assert(seen + declared_from(words, 0) =~= declared_from(words, 0));
    while i < args.len()
        invariant
            i <= args.len(),
            words == args.deep_view(),
            short@ == "-I"@,
            short_chars@ == "-I"@,
            long@ == "-isystem"@,
            seen + declared_from(words, i as int) == declared_from(words, 0),
            project.deep_view() == dirs_of_class(seen, false),
            system.deep_view() == dirs_of_class(seen, true),
        decreases args.len() - i,
    {
        let ghost rest = declared_from(words, i as int);
        assert(words[i as int] == args[i as int]@);
        if args[i] == short && i + 1 < args.len() {
            assert(words[i + 1] == args[i + 1]@);
            let dir = args[i + 1].clone();
            let class = is_system_path(dir.as_str());
            proof {
                let flag = (dir@, class);
                assert(seen.push(flag) + declared_from(words, i + 2) =~= seen + rest);
                assert(seen.push(flag).drop_last() =~= seen);
                seen = seen.push(flag);
            }
            if class {
                add_dir(&mut system, dir);
            } else {
                add_dir(&mut project, dir);
            }
            i += 2;
        } else {
            let arg = chars_of(args[i].as_str());
            if matches_at(&arg, 0, &short_chars) {
                if arg.len() > short_chars.len() {
                    let dir = args[i].as_str().substring_char(short_chars.len(), arg.len()).to_owned();
                    let class = is_system_path(dir.as_str());
                    proof {
                        let flag = (dir@, class);
                        assert(seen.push(flag) + declared_from(words, i + 1) =~= seen + rest);
                        assert(seen.push(flag).drop_last() =~= seen);
                        seen = seen.push(flag);
                    }
                    if class {
                        add_dir(&mut system, dir);
                    } else {
                        add_dir(&mut project, dir);
                    }
                }
                i += 1;
            } else if args[i] == long && i + 1 < args.len() {
                assert(words[i + 1] == args[i + 1]@);
                let dir = args[i + 1].clone();
                proof {
                    let flag = (dir@, true);
                    assert(seen.push(flag) + declared_from(words, i + 2) =~= seen + rest);
                    assert(seen.push(flag).drop_last() =~= seen);
                    seen = seen.push(flag);
                }
                add_dir(&mut system, dir);
                i += 2;
            } else {
                i += 1;
            }
        }
    }
    assert(declared_from(words, i as int) =~= Seq::<(Seq<char>, bool)>::empty());
    assert(seen + Seq::<(Seq<char>, bool)>::empty() =~= seen);
    (project, system)
}

/// The project directories and the system directories of an entry, each
/// directory once and in the order of its first declaration.
pub fn extract_include_directories_for_command(cmd: &CompileCommand) -> (dirs: (
    Vec<String>,
    Vec<String>,
))
    ensures
        dirs.0.deep_view() == project_dirs(cmd@),
        dirs.1.deep_view() == system_dirs(cmd@),
{
    match &cmd.arguments {
        Some(arguments) => declared_dirs(arguments),
        None => match &cmd.command {
            Some(line) => {
                let words = split_words(line.as_str());
                declared_dirs(&words)
            },
            None => {
                let words: Vec<String> = Vec::new();
                assert(words.deep_view() =~= Seq::<Seq<char>>::empty());
                declared_dirs(&words)
            },
        },
    }
}

} // verus!
