use compdb::flags::split_words;
use compdb::scan::extract_includes;
use compdb::text::{chars_of, contains_chars, is_space_char, matches_at, same_chars};
use regex::Regex;

/// The grammar of a directive as a pattern: the directive begins its line
/// but for white space, stays on it, and closes its token as it opened it.
fn grammar() -> Regex {
    Regex::new(r#"(?m)^[^\S\n]*#[^\S\n]*include[^\S\n]+(?:<([^>"\n]+)>|"([^>"\n]+)")"#).unwrap()
}

fn by_pattern(pattern: &Regex, content: &str) -> Vec<String> {
    pattern
        .captures_iter(content)
        .map(|c| match c.get(1) {
            Some(token) => token.as_str().to_string(),
            None => c[2].to_string(),
        })
        .collect()
}

#[test]
fn extracts_angle_and_quote_tokens_in_order() {
    let text = "#include <stdio.h>\n#include \"local.h\"\nint main() {}\n#include <foo/bar.h>\n";
    assert_eq!(extract_includes(text), vec!["stdio.h", "local.h", "foo/bar.h"]);
}

#[test]
fn extracts_nothing_from_text_without_directives() {
    assert_eq!(extract_includes(""), Vec::<String>::new());
    assert_eq!(extract_includes("int x = 1;\n// include <a.h>\n"), Vec::<String>::new());
}

#[test]
fn accepts_white_space_around_the_parts() {
    assert_eq!(extract_includes("  \t#  include   <a.h>"), vec!["a.h"]);
    assert_eq!(extract_includes("#include\t\"b.h\""), vec!["b.h"]);
    assert_eq!(extract_includes("\r\n\t #\u{b}include \u{c}<c.h>\r\n"), vec!["c.h"]);
}

#[test]
fn a_directive_stays_on_its_line() {
    assert_eq!(extract_includes("#\ninclude\n<c.h>"), Vec::<String>::new());
    assert_eq!(extract_includes("#\ninclude <c.h>"), Vec::<String>::new());
    assert_eq!(extract_includes("#include\n<c.h>"), Vec::<String>::new());
    assert_eq!(extract_includes("#include <a\nb.h>"), Vec::<String>::new());
    assert_eq!(extract_includes("#include <a.h\n>"), Vec::<String>::new());
    assert_eq!(extract_includes("#include \"a.h\n#include <b.h>\n"), vec!["b.h"]);
}

#[test]
fn needs_white_space_before_the_token() {
    assert_eq!(extract_includes("#include<a.h>"), Vec::<String>::new());
    assert_eq!(extract_includes("#include\"a.h\""), Vec::<String>::new());
}

#[test]
fn rejects_empty_and_unclosed_tokens() {
    assert_eq!(extract_includes("#include <>"), Vec::<String>::new());
    assert_eq!(extract_includes("#include <abc"), Vec::<String>::new());
    assert_eq!(extract_includes("#include \"\""), Vec::<String>::new());
}

#[test]
fn does_not_evaluate_conditionals() {
    let text = "#if 0\n#include <disabled.h>\n#endif\n#include <enabled.h>\n";
    assert_eq!(extract_includes(text), vec!["disabled.h", "enabled.h"]);
}

#[test]
fn a_token_is_closed_as_it_was_opened() {
    assert_eq!(extract_includes("#include <a.h\" rest"), Vec::<String>::new());
    assert_eq!(extract_includes("#include \"b.h> rest"), Vec::<String>::new());
    assert_eq!(extract_includes("#include <a\"b>"), Vec::<String>::new());
    assert_eq!(extract_includes("#include \"a>b\""), Vec::<String>::new());
    assert_eq!(extract_includes("#include <a.h> rest"), vec!["a.h"]);
    assert_eq!(extract_includes("#include \"b.h\" rest"), vec!["b.h"]);
}

#[test]
fn a_line_holds_one_directive_at_most() {
    assert_eq!(extract_includes("#include <a.h>#include <b.h>"), vec!["a.h"]);
    assert_eq!(extract_includes("#include <a.h> #include <b.h>\n#include <c.h>"), vec!["a.h", "c.h"]);
    assert_eq!(extract_includes("#include <a #include <b> c>"), vec!["a #include <b"]);
    assert_eq!(extract_includes("##include <x.h>"), Vec::<String>::new());
    assert_eq!(extract_includes("#include #include <y.h>"), Vec::<String>::new());
}

#[test]
fn a_directive_begins_its_line() {
    assert_eq!(extract_includes("x = 1; #include <x.h>\n"), Vec::<String>::new());
    assert_eq!(extract_includes("int x; #include <mid.h>"), Vec::<String>::new());
    assert_eq!(extract_includes("/* c */ #include <after.h>\n"), Vec::<String>::new());
    assert_eq!(extract_includes("x\n  #include <next.h>\n"), vec!["next.h"]);
    assert_eq!(extract_includes("x = 1; \\\n#include <cont.h>\n"), vec!["cont.h"]);
    assert_eq!(extract_includes("\n\n\t#include <blank.h>"), vec!["blank.h"]);
}

#[test]
fn ignores_other_directives() {
    let text = "#define A 1\n#includes <a.h>\n#pragma once\n#include_next <b.h>\n#import <c.h>\n";
    assert_eq!(extract_includes(text), Vec::<String>::new());
}

#[test]
fn keeps_tokens_with_characters_beyond_ascii() {
    assert_eq!(extract_includes("#include \"été/ß.h\""), vec!["été/ß.h"]);
    assert_eq!(extract_includes("#\u{a0}include\u{2003}<u.h>"), vec!["u.h"]);
}

#[test]
fn agrees_with_the_grammar_as_a_pattern_on_a_corpus() {
    let corpus = [
        "",
        "#",
        "#include",
        "#include ",
        "#include <",
        "#include <a",
        "#include <a>",
        "#include \"a\"",
        "#include <a>\n#include <b>\n",
        "  #  include  <x/y.h>  // c\n",
        "#include<a.h>",
        "#include <>",
        "#include \"\"",
        "#include <a.h\"",
        "#include \"a.h>",
        "#include <a\nb.h>",
        "#\ninclude\n\n<c.h>",
        "x#include <a.h>y#include \"b.h\"z",
        "#include <a #include <b> c>",
        "##include <x.h>",
        "#include #include <y.h>",
        "#include  < spaced >",
        "#if 0\n#include <off.h>\n#endif",
        "#INCLUDE <upper.h>",
        "#include_next <n.h>",
        "#includes <s.h>",
        "# include\t<tab.h>",
        "#include \u{a0}<nb.h>",
        "#\u{2003}include\u{3000}\"wide.h\"",
        "#include \"été.h\"",
        "/* #include <in_comment.h> */",
        "#include <a.h> #include <b.h\n#include \"c.h\"",
        "\"#include <q.h>\"",
        "x = 1; #include <x.h>\n",
        "a\n#include <b.h>",
        "a\n #include <b.h>\nc #include <d.h>\n\t#include \"e.h\"",
        "#include <a.h> #include <b.h>\n#include <c.h>",
        "#include <a\"b>",
        "#include \"a>b\"",
        "\r#include <cr.h>",
        "\u{2028}#include <ls.h>",
        "\u{85}#include <nel.h>",
        "x\u{2028}#include <ls2.h>",
        "#include <<a>>",
        "#include \"a\"b\"c\"",
        "#include <a>#",
        "#include\r\n<crlf.h>",
        "#include \u{b}<vt.h>",
        "#include \u{1680}<ogham.h>",
        "#include \u{200b}<zw.h>",
        "#include \u{feff}<bom.h>",
        "#include \u{85}<nel.h>",
        "#include \u{2028}<ls.h>",
        "#include \u{180e}<mvs.h>",
    ];
    let pattern = grammar();
    for text in corpus {
        assert_eq!(extract_includes(text), by_pattern(&pattern, text), "on {:?}", text);
    }
}

#[test]
fn white_space_is_the_unicode_property() {
    let mut c = 0u32;
    while c <= 0x3100 {
        if let Some(ch) = char::from_u32(c) {
            assert_eq!(is_space_char(ch), ch.is_whitespace(), "on U+{:04X}", c);
        }
        c += 1;
    }
    assert!(!is_space_char('\u{feff}'));
    assert!(!is_space_char('\u{10ffff}'));
}

#[test]
fn chars_of_lists_the_characters() {
    assert_eq!(chars_of("aé\u{1F600}z"), vec!['a', 'é', '\u{1F600}', 'z']);
    assert_eq!(chars_of(""), Vec::<char>::new());
}

#[test]
fn matches_at_tests_one_position() {
    let s = chars_of("hello world");
    assert!(matches_at(&s, 0, &chars_of("hello")));
    assert!(matches_at(&s, 6, &chars_of("world")));
    assert!(!matches_at(&s, 7, &chars_of("world")));
    assert!(!matches_at(&s, 1, &chars_of("hello")));
    assert!(matches_at(&s, 11, &chars_of("")));
    assert!(!matches_at(&s, 12, &chars_of("")));
    assert!(!matches_at(&s, usize::MAX, &chars_of("h")));
}

#[test]
fn contains_chars_finds_substrings() {
    let s = chars_of("/home/u/gcc-13/x.h");
    assert!(contains_chars(&s, &chars_of("gcc")));
    assert!(contains_chars(&s, &chars_of("x.h")));
    assert!(contains_chars(&s, &chars_of("")));
    assert!(!contains_chars(&s, &chars_of("clang")));
    assert!(!contains_chars(&chars_of("gc"), &chars_of("gcc")));
}

#[test]
fn same_chars_compares_whole_texts() {
    assert!(same_chars(&chars_of("cpp"), "cpp"));
    assert!(!same_chars(&chars_of("cpp"), "cp"));
    assert!(!same_chars(&chars_of("cp"), "cpp"));
    assert!(!same_chars(&chars_of("cxx"), "cpp"));
    assert!(same_chars(&chars_of(""), ""));
}

#[test]
fn split_words_splits_on_white_space() {
    assert_eq!(split_words("gcc -I a  -Ib\t-c\nx.c "), vec!["gcc", "-I", "a", "-Ib", "-c", "x.c"]);
    assert_eq!(split_words("   "), Vec::<String>::new());
    assert_eq!(split_words(""), Vec::<String>::new());
    assert_eq!(split_words("one"), vec!["one"]);
    assert_eq!(split_words("\"a b\""), vec!["\"a", "b\""]);
}

#[test]
fn split_words_agrees_with_the_standard_library() {
    let lines = ["a\u{a0}b", " x\u{3000}y ", "é è\tê", "cc -DX=\"1 2\" f.c", "\u{2028}q\u{2029}"];
    for line in lines {
        let expected: Vec<String> = line.split_whitespace().map(|w| w.to_string()).collect();
        assert_eq!(split_words(line), expected, "on {:?}", line);
    }
}

#[test]
fn agrees_with_the_grammar_as_a_pattern_on_generated_texts() {
    let pattern = grammar();
    let pieces = [
        "#", "include", " ", "\n", "\t", "<", ">", "\"", "a.h", "x", "#include", "#include <",
        "#include \"", "  ", "inc", "lude", "\u{a0}", "é", "\r\n", "# include ", "/",
    ];
    let mut state: u64 = 0x2545_f491_4f6c_dd1d;
    let mut next = |bound: u64| -> usize {
        state ^= state << 13;
        state ^= state >> 7;
        state ^= state << 17;
        (state % bound) as usize
    };
    for _ in 0..4000 {
        let count = 1 + next(14);
        let mut text = String::new();
        for _ in 0..count {
            text.push_str(pieces[next(pieces.len() as u64)]);
        }
        assert_eq!(extract_includes(&text), by_pattern(&pattern, &text), "on {:?}", text);
    }
}
