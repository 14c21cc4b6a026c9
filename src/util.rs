use vstd::prelude::*;
use vstd::string::*;

use crate::text::joined;

verus! {

/// The characters of Unicode's `White_Space` property.
pub open spec fn is_white_space(c: char) -> bool {
    let u = c as u32;
    (9 <= u <= 13) || u == 0x20 || u == 0x85 || u == 0xA0 || u == 0x1680 || (0x2000 <= u <= 0x200A) || u == 0x2028
        || u == 0x2029 || u == 0x202F || u == 0x205F || u == 0x3000
}

fn white_space(c: char) -> (r: bool)
    ensures
        r == is_white_space(c),
{
    let u = c as u32;
    (9 <= u && u <= 13) || u == 0x20 || u == 0x85 || u == 0xA0 || u == 0x1680 || (0x2000 <= u && u <= 0x200A) || u
        == 0x2028 || u == 0x2029 || u == 0x202F || u == 0x205F || u == 0x3000
}

/// `s` without its leading white space.
pub open spec fn skip_spaces(s: Seq<char>) -> Seq<char>
    decreases s.len(),
{
    if s.len() > 0 && is_white_space(s[0]) {
        skip_spaces(s.drop_first())
    } else {
        s
    }
}

/// The longest prefix of `s` without white space.
pub open spec fn word_prefix(s: Seq<char>) -> Seq<char>
    decreases s.len(),
{
    if s.len() > 0 && !is_white_space(s[0]) {
        seq![s[0]] + word_prefix(s.drop_first())
    } else {
        seq![]
    }
}

/// The first white-space separated word of `s`, empty when it has none.
pub open spec fn first_word(s: Seq<char>) -> Seq<char> {
    word_prefix(skip_spaces(s))
}

#[verifier::rlimit(40)]
fn first_word_of(s: &str) -> (r: &str)
    ensures
        r@ == first_word(s@),
{
    let n = s.unicode_len();
    let mut i: usize = 0;
    assert(s@.subrange(0, n as int) =~= s@);
    while i < n && white_space(s.get_char(i))
        invariant
            i <= n,
            n == s@.len(),
            skip_spaces(s@) == skip_spaces(s@.subrange(i as int, n as int)),
        decreases n - i,
    {
        assert(s@.subrange(i as int, n as int).drop_first() =~= s@.subrange(i + 1, n as int));
        i = i + 1;
    }
    let start = i;
    assert(skip_spaces(s@.subrange(start as int, n as int)) == s@.subrange(start as int, n as int));
    let mut j: usize = start;
    assert(s@.subrange(start as int, start as int) =~= Seq::<char>::empty());
    while j < n && !white_space(s.get_char(j))
        invariant
            start <= j <= n,
            n == s@.len(),
            first_word(s@) == s@.subrange(start as int, j as int) + word_prefix(s@.subrange(j as int, n as int)),
        decreases n - j,
    {
        assert(s@.subrange(j as int, n as int).drop_first() =~= s@.subrange(j + 1, n as int));
        assert(s@.subrange(start as int, j + 1) =~= s@.subrange(start as int, j as int) + seq![s@[j as int]]);
        j = j + 1;
    }
    assert(first_word(s@) =~= s@.subrange(start as int, j as int));
    s.substring_char(start, j)
}

/// The include flags for a list of include search paths: `-I` followed by
/// the first word of each path.
pub fn get_system_include_flags(search_paths: &Vec<String>) -> (r: Vec<String>)
    ensures
        r@.len() == search_paths@.len(),
        forall|i: int| 0 <= i < r@.len() ==> #[trigger] r@[i]@ == "-I"@ + first_word(search_paths@[i]@),
{
    let mut r: Vec<String> = Vec::new();
    let mut i: usize = 0;
    while i < search_paths.len()
        invariant
            i <= search_paths.len(),
            r@.len() == i,
            forall|k: int| 0 <= k < i ==> #[trigger] r@[k]@ == "-I"@ + first_word(search_paths@[k]@),
        decreases search_paths.len() - i,
    {
        r.push(joined("-I", first_word_of(search_paths[i].as_str())));
        i = i + 1;
    }
    r
}

/// `s` without its trailing white space.
pub open spec fn trim_end(s: Seq<char>) -> Seq<char>
    decreases s.len(),
{
    if s.len() > 0 && is_white_space(s.last()) {
        trim_end(s.drop_last())
    } else {
        s
    }
}

/// `s` without its leading and trailing white space.
pub open spec fn trim(s: Seq<char>) -> Seq<char> {
    trim_end(skip_spaces(s))
}

/// The index of the first newline at or after `i`, or the length of `s`.
pub open spec fn line_end(s: Seq<char>, i: int) -> int
    decreases s.len() - i,
{
    if i >= s.len() || s[i] == '\n' {
        i
    } else {
        line_end(s, i + 1)
    }
}

/// A line without the carriage return of a `\r\n` ending.
pub open spec fn strip_cr(line: Seq<char>) -> Seq<char> {
    if line.len() > 0 && line.last() == '\r' {
        line.drop_last()
    } else {
        line
    }
}

/// The lines of `s` from index `i` on; the last line ending is optional.
pub open spec fn lines_from(s: Seq<char>, i: int) -> Seq<Seq<char>>
    decreases s.len() + 1 - i
    via lines_from_decreases
{
    if i < 0 || i >= s.len() {
        seq![]
    } else {
        seq![strip_cr(s.subrange(i, line_end(s, i)))] + lines_from(s, line_end(s, i) + 1)
    }
}

proof fn lemma_line_end_bounds(s: Seq<char>, i: int)
    requires
        0 <= i,
    ensures
        i <= line_end(s, i),
        i <= s.len() ==> line_end(s, i) <= s.len(),
    decreases s.len() - i,
{
    if i < s.len() && s[i] != '\n' {
        lemma_line_end_bounds(s, i + 1);
    }
}

#[via_fn]
proof fn lines_from_decreases(s: Seq<char>, i: int) {
    if 0 <= i < s.len() {
        lemma_line_end_bounds(s, i);
    }
}

/// The line that opens the include search list of the compiler's probe.
pub open spec fn search_start_line() -> Seq<char> {
    "#include <...> search starts here:"@
}

/// The line that closes the include search list.
pub open spec fn search_end_line() -> Seq<char> {
    "End of search list."@
}

/// The trimmed lines after the opening line and before the closing line;
/// `inside` says whether the opening line was already seen.
pub open spec fn search_list(lines: Seq<Seq<char>>, inside: bool) -> Seq<Seq<char>>
    decreases lines.len(),
{
    if lines.len() == 0 {
        seq![]
    } else if lines[0] == search_start_line() {
        search_list(lines.drop_first(), true)
    } else if lines[0] == search_end_line() {
        seq![]
    } else if inside {
        seq![trim(lines[0])] + search_list(lines.drop_first(), true)
    } else {
        search_list(lines.drop_first(), false)
    }
}

#[verifier::rlimit(40)]
fn trimmed(s: &str) -> (r: &str)
    ensures
        r@ == trim(s@),
{
    let n = s.unicode_len();
    let mut i: usize = 0;
    assert(s@.subrange(0, n as int) =~= s@);
    while i < n && white_space(s.get_char(i))
        invariant
            i <= n,
            n == s@.len(),
            skip_spaces(s@) == skip_spaces(s@.subrange(i as int, n as int)),
        decreases n - i,
    {
        assert(s@.subrange(i as int, n as int).drop_first() =~= s@.subrange(i + 1, n as int));
        i = i + 1;
    }
    let start = i;
    let ghost rest = s@.subrange(start as int, n as int);
    assert(skip_spaces(rest) == rest);
    let mut j: usize = n;
    assert(s@.subrange(start as int, n as int) =~= rest);
    while j > start && white_space(s.get_char(j - 1))
        invariant
            start <= j <= n,
            n == s@.len(),
            rest == s@.subrange(start as int, n as int),
            trim_end(rest) == trim_end(s@.subrange(start as int, j as int)),
        decreases j,
    {
        assert(s@.subrange(start as int, j as int).drop_last() =~= s@.subrange(start as int, j - 1));
        j = j - 1;
    }
    s.substring_char(start, j)
}

fn strip_carriage_return(line: &str) -> (r: &str)
    ensures
        r@ == strip_cr(line@),
{
    let n = line.unicode_len();
    if n > 0 && line.get_char(n - 1) == '\r' {
        assert(line@.subrange(0, n - 1) =~= line@.drop_last());
        line.substring_char(0, n - 1)
    } else {
        assert(line@.subrange(0, n as int) =~= line@);
        line.substring_char(0, n)
    }
}

/// The lines of a text; a `\r\n` ending counts as one line ending.
pub fn text_lines(text: &str) -> (r: Vec<String>)
    ensures
        r@.map_values(|l: String| l@) == lines_from(text@, 0),
{
    let n = text.unicode_len();
    let mut out: Vec<String> = Vec::new();
    let mut i: usize = 0;
    assert(out@.map_values(|l: String| l@) + lines_from(text@, 0) =~= lines_from(text@, 0));
    while i < n
        invariant
            i <= n,
            n == text@.len(),
            out@.map_values(|l: String| l@) + lines_from(text@, i as int) == lines_from(text@, 0),
        decreases n - i,
    {
        let mut j: usize = i;
        while j < n && text.get_char(j) != '\n'
            invariant
                i <= j <= n,
                n == text@.len(),
                line_end(text@, i as int) == line_end(text@, j as int),
            decreases n - j,
        {
            j = j + 1;
        }
        assert(line_end(text@, j as int) == j);
        let line = strip_carriage_return(text.substring_char(i, j));
        let ghost before = out@.map_values(|l: String| l@);
        out.push(line.to_owned());
        assert(out@.map_values(|l: String| l@) =~= before.push(line@));
        assert(lines_from(text@, i as int) == seq![line@] + lines_from(text@, j + 1));
        assert(before.push(line@) + lines_from(text@, j + 1) =~= before + (seq![line@] + lines_from(text@, j + 1)));
        if j < n {
            i = j + 1;
        } else {
            assert(lines_from(text@, j + 1) == Seq::<Seq<char>>::empty());
            assert(lines_from(text@, n as int) == Seq::<Seq<char>>::empty());
            i = n;
        }
    }
    assert(lines_from(text@, i as int) == Seq::<Seq<char>>::empty());
    assert(out@.map_values(|l: String| l@) + Seq::<Seq<char>>::empty() =~= out@.map_values(|l: String| l@));
    out
}

/// The include search paths that the compiler's `-v` probe lists: the
/// trimmed lines between `#include <...> search starts here:` and
/// `End of search list.`.
pub fn include_paths_from_probe(output: &str) -> (r: Vec<String>)
    ensures
        r@.map_values(|l: String| l@) == search_list(lines_from(output@, 0), false),
{
    let lines = text_lines(output);
    let ghost lv = lines@.map_values(|l: String| l@);
    let mut out: Vec<String> = Vec::new();
    let mut inside = false;
    let mut i: usize = 0;
    assert(lv.subrange(0, lv.len() as int) =~= lv);
    while i < lines.len()
        invariant
            i <= lines.len(),
            lv == lines@.map_values(|l: String| l@),
            lv == lines_from(output@, 0),
            out@.map_values(|l: String| l@) + search_list(lv.subrange(i as int, lv.len() as int), inside) == search_list(lv, false),
        decreases lines.len() - i,
    {
        let ghost rest = lv.subrange(i as int, lv.len() as int);
        assert(rest.drop_first() =~= lv.subrange(i + 1, lv.len() as int));
        assert(rest[0] == lines@[i as int]@);
        let line = lines[i].as_str();
        if str_is(line, "#include <...> search starts here:") {
            inside = true;
        } else if str_is(line, "End of search list.") {
            assert(search_list(rest, inside) == Seq::<Seq<char>>::empty());
            assert(out@.map_values(|l: String| l@) + Seq::<Seq<char>>::empty() =~= out@.map_values(|l: String| l@));
            return out;
        } else if inside {
            let ghost before = out@.map_values(|l: String| l@);
            let t = trimmed(line);
            out.push(t.to_owned());
            assert(out@.map_values(|l: String| l@) =~= before.push(t@));
            assert(before.push(t@) + search_list(rest.drop_first(), true) =~= before + (seq![t@] + search_list(rest.drop_first(), true)));
        }
        i = i + 1;
    }
    assert(lv.subrange(i as int, lv.len() as int) =~= Seq::<Seq<char>>::empty());
    assert(out@.map_values(|l: String| l@) + Seq::<Seq<char>>::empty() =~= out@.map_values(|l: String| l@));
    out
}

fn str_is(a: &str, b: &str) -> (r: bool)
    ensures
        r == (a@ == b@),
{
    crate::text::str_equals(a, b)
}

} // verus!
