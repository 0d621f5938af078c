//! The directive scanner: finds inclusion directives in the text of a file.
//!
//! The scan goes line by line. A directive stands on one line, which it
//! begins but for white space. The scan is textual: it knows nothing of
//! macros, of conditional compilation, of comments or of line continuations,
//! so a directive in a disabled block is reported like any other.

use vstd::prelude::*;
use crate::text::{chars_of, is_space, is_space_char, matches_at, occurs_at};

verus! {

/// The word that follows `#` in a directive.
pub open spec fn keyword() -> Seq<char> {
    "include"@
}

/// Whether `c` ends a line: a line feed does. A carriage return before it
/// is white space of the line.
pub open spec fn is_line_end(c: char) -> bool {
    c == '\n'
}

/// White space that does not end a line.
pub open spec fn is_blank(c: char) -> bool {
    is_space(c) && !is_line_end(c)
}

/// The beginning of the line that position `i` lies on: the position behind
/// the last line end before `i`, or the beginning of the text.
pub open spec fn line_start(s: Seq<char>, i: int) -> int
    decreases i,
{
    if i <= 0 {
        0
    } else if is_line_end(s[i - 1]) {
        i
    } else {
        line_start(s, i - 1)
    }
}

/// Every character between the beginning of its line and position `i` is
/// white space.
pub open spec fn begins_line(s: Seq<char>, i: int) -> bool {
    forall|j: int| line_start(s, i) <= j < i ==> is_space(#[trigger] s[j])
}

/// The first position at or after `i` that holds no white space of the line.
pub open spec fn skip_blanks(s: Seq<char>, i: int) -> int
    decreases s.len() - i,
{
    if 0 <= i < s.len() && is_blank(s[i]) {
        skip_blanks(s, i + 1)
    } else {
        i
    }
}

/// Whether `c` opens a token: `<` or `"`.
pub open spec fn opens_token(c: char) -> bool {
    c == '<' || c == '"'
}

/// The character that closes a token which `open` has opened: `>` for `<`,
/// and `"` for `"`.
pub open spec fn closer(open: char) -> char {
    if open == '<' {
        '>'
    } else {
        '"'
    }
}

/// Whether `c` ends the characters of a token: `>`, `"`, or a line end.
pub open spec fn ends_token(c: char) -> bool {
    c == '>' || c == '"' || is_line_end(c)
}

/// The first position at or after `i` that holds `>`, `"` or a line end, or
/// the end of `s`.
pub open spec fn token_end(s: Seq<char>, i: int) -> int
    decreases s.len() - i,
{
    if 0 <= i < s.len() && !ends_token(s[i]) {
        token_end(s, i + 1)
    } else {
        i
    }
}

/// The directive that begins with the `#` at position `i`, as the range of
/// its token. The `#` begins its line but for white space. Behind it stand,
/// all on that line: any white space, the keyword, at least one white space,
/// `<` or `"`, a token of at least one character none of which is `>` or
/// `"`, and the character that closes what was opened.
pub open spec fn directive_at(s: Seq<char>, i: int) -> Option<(int, int)> {
    if !(0 <= i < s.len() && s[i] == '#' && begins_line(s, i)) {
        None
    } else {
        let k = skip_blanks(s, i + 1);
        if !occurs_at(s, k, keyword()) {
            None
        } else {
            let a = k + keyword().len();
            let b = skip_blanks(s, a);
            if b == a || b >= s.len() || !opens_token(s[b]) {
                None
            } else {
                let e = token_end(s, b + 1);
                if e == b + 1 || e >= s.len() || s[e] != closer(s[b]) {
                    None
                } else {
                    Some((b + 1, e))
                }
            }
        }
    }
}

pub proof fn lemma_line_start_bounds(s: Seq<char>, i: int)
    requires
        0 <= i,
    ensures
        0 <= line_start(s, i) <= i,
    decreases i,
{
    if i > 0 && !is_line_end(s[i - 1]) {
        lemma_line_start_bounds(s, i - 1);
    }
}

/// The position behind a character begins its line where the character
/// ends a line, or is white space behind a position that begins its line.
pub proof fn lemma_begins_line_next(s: Seq<char>, i: int)
    requires
        0 <= i < s.len(),
    ensures
        begins_line(s, 0),
        begins_line(s, i + 1) == (is_line_end(s[i]) || (is_space(s[i]) && begins_line(s, i))),
{
    if !is_line_end(s[i]) {
        lemma_line_start_bounds(s, i);
        assert(line_start(s, i + 1) == line_start(s, i));
        if begins_line(s, i + 1) {
            assert(is_space(s[i]));
        }
    }
}

pub proof fn lemma_skip_blanks_bounds(s: Seq<char>, i: int)
    requires
        0 <= i <= s.len(),
    ensures
        i <= skip_blanks(s, i) <= s.len(),
        forall|j: int| i <= j < skip_blanks(s, i) ==> is_blank(#[trigger] s[j]),
    decreases s.len() - i,
{
    if i < s.len() && is_blank(s[i]) {
        lemma_skip_blanks_bounds(s, i + 1);
    }
}

pub proof fn lemma_token_end_bounds(s: Seq<char>, i: int)
    requires
        0 <= i <= s.len(),
    ensures
        i <= token_end(s, i) <= s.len(),
        forall|j: int| i <= j < token_end(s, i) ==> !ends_token(#[trigger] s[j]),
        token_end(s, i) < s.len() ==> ends_token(s[token_end(s, i)]),
    decreases s.len() - i,
{
    if i < s.len() && !ends_token(s[i]) {
        lemma_token_end_bounds(s, i + 1);
    }
}

/// A directive's token lies behind its `#`, is not empty, holds no line
/// end, and is closed before the end of the text.
pub proof fn lemma_directive_bounds(s: Seq<char>, i: int)
    ensures
        directive_at(s, i) matches Some((t, e)) ==> {
            &&& 0 <= i < t < e < s.len()
            &&& begins_line(s, i)
            &&& s[e] == closer(s[t - 1])
            &&& forall|j: int| t <= j < e ==> !ends_token(#[trigger] s[j])
        },
{
    if 0 <= i < s.len() && s[i] == '#' {
        lemma_skip_blanks_bounds(s, i + 1);
        let k = skip_blanks(s, i + 1);
        if occurs_at(s, k, keyword()) {
            let a = k + keyword().len();
            lemma_skip_blanks_bounds(s, a);
            let b = skip_blanks(s, a);
            if b < s.len() {
                lemma_token_end_bounds(s, b + 1);
            }
        }
    }
}

/// A directive stands on one line: no character from its `#` to the one
/// that closes its token ends a line.
pub proof fn lemma_directive_stays_on_its_line(s: Seq<char>, i: int)
    ensures
        directive_at(s, i) matches Some((t, e)) ==> forall|j: int|
            i <= j <= e ==> !is_line_end(#[trigger] s[j]),
{
    if directive_at(s, i) is Some {
        reveal_strlit("include");
        lemma_skip_blanks_bounds(s, i + 1);
        let k = skip_blanks(s, i + 1);
        let a = k + keyword().len();
        lemma_skip_blanks_bounds(s, a);
        let b = skip_blanks(s, a);
        lemma_token_end_bounds(s, b + 1);
        let e = token_end(s, b + 1);
        assert forall|j: int| i <= j <= e implies !is_line_end(#[trigger] s[j]) by {
            if k <= j < a {
                assert(s.subrange(k, a)[j - k] == s[j]);
                assert(keyword()[j - k] != '\n');
            }
        }
    }
}

/// The tokens of the directives of `s` from position `i` on, in the order of
/// the text. Behind a directive the scan goes on after the character that
/// closes the token.
pub open spec fn includes_from(s: Seq<char>, i: int) -> Seq<Seq<char>>
    decreases s.len() - i,
    via includes_from_decreases
{
    if i < 0 || i >= s.len() {
        Seq::empty()
    } else {
        match directive_at(s, i) {
            Some((t, e)) => seq![s.subrange(t, e)] + includes_from(s, e + 1),
            None => includes_from(s, i + 1),
        }
    }
}

#[via_fn]
proof fn includes_from_decreases(s: Seq<char>, i: int) {
    lemma_directive_bounds(s, i);
}

/// The tokens of all directives of `s`, in the order of the text.
pub open spec fn includes_of(s: Seq<char>) -> Seq<Seq<char>> {
    includes_from(s, 0)
}

fn skip_blanks_from(s: &Vec<char>, start: usize) -> (r: usize)
    requires
        start <= s.len(),
    ensures
        r == skip_blanks(s@, start as int),
        start <= r <= s.len(),
{
    let mut j: usize = start;
    while j < s.len() && s[j] != '\n' && is_space_char(s[j])
        invariant
            start <= j <= s.len(),
            skip_blanks(s@, start as int) == skip_blanks(s@, j as int),
        decreases s.len() - j,
    {
        j += 1;
    }
    j
}

fn token_end_from(s: &Vec<char>, start: usize) -> (r: usize)
    requires
        start <= s.len(),
    ensures
        r == token_end(s@, start as int),
        start <= r <= s.len(),
{
    let mut j: usize = start;
    while j < s.len() && !(s[j] == '>' || s[j] == '"' || s[j] == '\n')
        invariant
            start <= j <= s.len(),
            token_end(s@, start as int) == token_end(s@, j as int),
        decreases s.len() - j,
    {
        j += 1;
    }
    j
}

/// The range of the token of the directive that begins at position `i`,
/// where `fresh` says whether `i` begins its line but for white space.
fn directive_range(s: &Vec<char>, i: usize, fresh: bool, word: &Vec<char>) -> (r: Option<
    (usize, usize),
>)
    requires
        i < s.len(),
        fresh == begins_line(s@, i as int),
        word@ == keyword(),
    ensures
        match r {
            Some((t, e)) => directive_at(s@, i as int) == Some((t as int, e as int)),
            None => directive_at(s@, i as int).is_none(),
        },
{
    if !fresh || s[i] != '#' {
        return None;
    }
    let k = skip_blanks_from(s, i + 1);
    if !matches_at(s, k, word) {
        return None;
    }
    let a = k + word.len();
    let b = skip_blanks_from(s, a);
    if b == a || b >= s.len() || !(s[b] == '<' || s[b] == '"') {
        return None;
    }
    let close = if s[b] == '<' {
        '>'
    } else {
        '"'
    };
    let e = token_end_from(s, b + 1);
    if e == b + 1 || e >= s.len() || s[e] != close {
        return None;
    }
    Some((b + 1, e))
}

/// Extracts the tokens of the inclusion directives of `content`, without
/// their delimiters and in the order of the text.
pub fn extract_includes(content: &str) -> (tokens: Vec<String>)
    ensures
        tokens.deep_view() == includes_of(content@),
{
    let s = chars_of(content);
    let word = chars_of("include");
    let mut tokens: Vec<String> = Vec::new();
    let mut i: usize = 0;
    let mut fresh: bool = true;
    proof {
        if s.len() > 0 {
            lemma_begins_line_next(s@, 0);
        }
    }
    while i < s.len()
        invariant
            i <= s.len(),
            s@ == content@,
            word@ == keyword(),
            i < s.len() ==> fresh == begins_line(s@, i as int),
            tokens.deep_view() + includes_from(s@, i as int) == includes_from(s@, 0),
        decreases s.len() - i,
    {
        match directive_range(&s, i, fresh, &word) {
            Some((t, e)) => {
                proof {
                    lemma_directive_bounds(s@, i as int);
                    lemma_begins_line_next(s@, e as int);
                }
                let token = content.substring_char(t, e).to_owned();
                let ghost before = tokens.deep_view();
                tokens.push(token);
                proof {
                    assert(tokens.deep_view() =~= before.push(s@.subrange(t as int, e as int)));
                    assert(before.push(s@.subrange(t as int, e as int)) + includes_from(
                        s@,
                        e + 1,
                    ) =~= before + (seq![s@.subrange(t as int, e as int)] + includes_from(
                        s@,
                        e + 1,
                    )));
                }
                i = e + 1;
                fresh = false;
            },
            None => {
                proof {
                    lemma_begins_line_next(s@, i as int);
                }
                fresh = s[i] == '\n' || (fresh && is_space_char(s[i]));
                i += 1;
            },
        }
    }
    assert(includes_from(s@, i as int) =~= Seq::<Seq<char>>::empty());
    assert(tokens.deep_view() + Seq::<Seq<char>>::empty() =~= tokens.deep_view());
    tokens
}

} // verus!
