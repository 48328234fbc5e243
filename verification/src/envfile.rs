//! `/etc/environment`-style files (read at about the level of `pam_env.so`),
//! the `PATH` variable inside them, and generated `profile.d` shell scripts.

use vstd::prelude::*;
use crate::sorting::{copy_string_pairs, copy_strings, chars_le, pair_le, sort_string_pairs, sort_strings, lemma_chars_le_total_ordering, lemma_pair_le_total_ordering};
use vstd::relations::sorted_by;
use crate::text::{extend_str, 
    bytes_to_chars_lossy, chars_contain, chars_eq, chars_to_string, extend_chars, has_prefix,
    has_suffix, join_chars, join_spec, lemma_join_split, lemma_split_nonempty, occurs_at,
    replace_chars, replace_spec, seq_to_string, split_chars, split_spec, str_to_chars, sub_chars,
    utf8_lossy,
};

verus! {

// ---------------------------------------------------------------------------
// The grammar of one line, over characters.
//
//   statement := leading key '=' value following ['\n']
//   leading   := space* ["export"] space*          (space = ' ' | '\t')
//   key       := (ascii-alphanumeric | '_')+
//   value     := [ word (space+ word)* ]           (a space run only counts when a word follows)
//   word      := unit+
//   unit      := any char but '\n' '#' ' ' '\t' '\\'  |  '\\' any-char
//   following := any char but '\n', as many as possible
// ---------------------------------------------------------------------------

/// A space or a tab.
pub open spec fn is_space(c: char) -> bool {
    c == ' ' || c == '\t'
}

/// A character of a variable name: an ASCII letter or digit, or `_`.
pub open spec fn is_key_char(c: char) -> bool {
    ('a' <= c && c <= 'z') || ('A' <= c && c <= 'Z') || ('0' <= c && c <= '9') || c == '_'
}

/// A character that may stand in a value without an escape.
pub open spec fn is_plain_value_char(c: char) -> bool {
    c != '\n' && c != '#' && c != ' ' && c != '\t' && c != '\\'
}

/// End of the run of spaces that starts at `i`.
pub open spec fn space_end(s: Seq<char>, i: int) -> int
    decreases s.len() - i,
{
    if 0 <= i < s.len() && is_space(s[i]) {
        space_end(s, i + 1)
    } else {
        i
    }
}

/// End of the run of name characters that starts at `i`.
pub open spec fn key_end(s: Seq<char>, i: int) -> int
    decreases s.len() - i,
{
    if 0 <= i < s.len() && is_key_char(s[i]) {
        key_end(s, i + 1)
    } else {
        i
    }
}

/// End of the run of characters other than `'\n'` that starts at `i`.
pub open spec fn line_end(s: Seq<char>, i: int) -> int
    decreases s.len() - i,
{
    if 0 <= i < s.len() && s[i] != '\n' {
        line_end(s, i + 1)
    } else {
        i
    }
}

/// Length of the value unit at `i`: 1 for a plain char, 2 for an escape, 0 for none.
pub open spec fn unit_len(s: Seq<char>, i: int) -> int {
    if 0 <= i < s.len() && is_plain_value_char(s[i]) {
        1
    } else if 0 <= i && i + 1 < s.len() && s[i] == '\\' {
        2
    } else {
        0
    }
}

/// `space_end` ends the run of spaces that starts at `i`.
pub proof fn lemma_space_end(s: Seq<char>, i: int)
    requires
        0 <= i <= s.len(),
    ensures
        i <= space_end(s, i) <= s.len(),
        forall|k: int| i <= k < space_end(s, i) ==> is_space(#[trigger] s[k]),
        space_end(s, i) < s.len() ==> !is_space(s[space_end(s, i)]),
    decreases s.len() - i,
{
    if i < s.len() && is_space(s[i]) {
        lemma_space_end(s, i + 1);
    }
}

/// `key_end` ends the run of name characters that starts at `i`.
pub proof fn lemma_key_end(s: Seq<char>, i: int)
    requires
        0 <= i <= s.len(),
    ensures
        i <= key_end(s, i) <= s.len(),
        forall|k: int| i <= k < key_end(s, i) ==> is_key_char(#[trigger] s[k]),
        key_end(s, i) < s.len() ==> !is_key_char(s[key_end(s, i)]),
    decreases s.len() - i,
{
    if i < s.len() && is_key_char(s[i]) {
        lemma_key_end(s, i + 1);
    }
}

/// `line_end` is the first line break at or after `i`, or the end.
pub proof fn lemma_line_end(s: Seq<char>, i: int)
    requires
        0 <= i <= s.len(),
    ensures
        i <= line_end(s, i) <= s.len(),
        forall|k: int| i <= k < line_end(s, i) ==> #[trigger] s[k] != '\n',
        line_end(s, i) < s.len() ==> s[line_end(s, i)] == '\n',
    decreases s.len() - i,
{
    if i < s.len() && s[i] != '\n' {
        lemma_line_end(s, i + 1);
    }
}

/// Scans a value from position `i`, which ends a unit already taken.
pub open spec fn value_scan(s: Seq<char>, i: int) -> int
    decreases s.len() - i,
{
    if i < 0 || i >= s.len() {
        i
    } else if unit_len(s, i) > 0 {
        value_scan(s, i + unit_len(s, i))
    } else {
        let sp = space_end(s, i);
        if sp > i && unit_len(s, sp) > 0 {
            value_scan(s, sp + unit_len(s, sp))
        } else {
            i
        }
    }
}

/// End of the value that starts at `i`.
pub open spec fn value_end(s: Seq<char>, i: int) -> int {
    if unit_len(s, i) > 0 {
        value_scan(s, i)
    } else {
        i
    }
}

/// `value_scan` stays within the text.
pub proof fn lemma_value_scan(s: Seq<char>, i: int)
    requires
        0 <= i <= s.len(),
    ensures
        i <= value_scan(s, i) <= s.len(),
    decreases s.len() - i,
{
    if i < s.len() {
        if unit_len(s, i) > 0 {
            lemma_value_scan(s, i + unit_len(s, i));
        } else {
            lemma_space_end(s, i);
            let sp = space_end(s, i);
            if sp > i && unit_len(s, sp) > 0 {
                lemma_value_scan(s, sp + unit_len(s, sp));
            }
        }
    }
}

/// Whether the word `export` occurs in `s` at `i`.
pub open spec fn export_at(s: Seq<char>, i: int) -> bool {
    occurs_at(s, seq!['e', 'x', 'p', 'o', 'r', 't'], i)
}

/// End of the leading characters (spaces, an optional `export`, spaces).
pub open spec fn leading_end(s: Seq<char>) -> int {
    let a = space_end(s, 0);
    let b = if export_at(s, a) {
        a + 6
    } else {
        a
    };
    space_end(s, b)
}

/// The positions that delimit a statement at the start of `s`:
/// (end of leading characters, end of key, end of value, end of following characters).
pub open spec fn statement_span(s: Seq<char>) -> Option<(int, int, int, int)> {
    let l = leading_end(s);
    let k = key_end(s, l);
    if k > l && k < s.len() && s[k] == '=' {
        let v = value_end(s, k + 1);
        let f = line_end(s, v);
        Some((l, k, v, f))
    } else {
        None
    }
}

/// Number of characters a line that ends at `f` consumes: its line break too, if any.
pub open spec fn consumed_through(s: Seq<char>, f: int) -> int {
    if f < s.len() {
        f + 1
    } else {
        f
    }
}

/// The parts of a statement lie in order within the text, the key before `=`.
pub proof fn lemma_statement_span(s: Seq<char>)
    ensures
        statement_span(s) matches Some((l, k, v, f)) ==> {
            &&& 0 <= l < k
            &&& k < s.len()
            &&& k + 1 <= v <= f <= s.len()
            &&& s[k] == '='
            &&& (f < s.len() ==> s[f] == '\n')
        },
{
    lemma_space_end(s, 0);
    let a = space_end(s, 0);
    let b = if export_at(s, a) {
        a + 6
    } else {
        a
    };
    lemma_space_end(s, b);
    let l = leading_end(s);
    lemma_key_end(s, l);
    let k = key_end(s, l);
    if k > l && k < s.len() && s[k] == '=' {
        lemma_value_scan(s, k + 1);
        let v = value_end(s, k + 1);
        lemma_line_end(s, v);
    }
}

// ---------------------------------------------------------------------------
// Executable scanners, each equal to its spec function.
// ---------------------------------------------------------------------------

fn scan_spaces(s: &Vec<char>, i: usize) -> (r: usize)
    requires
        i <= s.len(),
    ensures
        r == space_end(s@, i as int),
{
    let mut j = i;
    while j < s.len() && (s[j] == ' ' || s[j] == '\t')
        invariant
            i <= j <= s.len(),
            space_end(s@, i as int) == space_end(s@, j as int),
        decreases s.len() - j,
    {
        j = j + 1;
    }
    j
}

fn scan_key(s: &Vec<char>, i: usize) -> (r: usize)
    requires
        i <= s.len(),
    ensures
        r == key_end(s@, i as int),
{
    let mut j = i;
    while j < s.len() && (('a' <= s[j] && s[j] <= 'z') || ('A' <= s[j] && s[j] <= 'Z') || (
    '0' <= s[j] && s[j] <= '9') || s[j] == '_')
        invariant
            i <= j <= s.len(),
            key_end(s@, i as int) == key_end(s@, j as int),
        decreases s.len() - j,
    {
        j = j + 1;
    }
    j
}

fn scan_line(s: &Vec<char>, i: usize) -> (r: usize)
    requires
        i <= s.len(),
    ensures
        r == line_end(s@, i as int),
{
    let mut j = i;
    while j < s.len() && s[j] != '\n'
        invariant
            i <= j <= s.len(),
            line_end(s@, i as int) == line_end(s@, j as int),
        decreases s.len() - j,
    {
        j = j + 1;
    }
    j
}

fn unit_len_exec(s: &Vec<char>, i: usize) -> (r: usize)
    requires
        i <= s.len(),
    ensures
        r == unit_len(s@, i as int),
{
    if i < s.len() && s[i] != '\n' && s[i] != '#' && s[i] != ' ' && s[i] != '\t' && s[i] != '\\' {
        1
    } else if i < s.len() && i + 1 < s.len() && s[i] == '\\' {
        2
    } else {
        0
    }
}

fn scan_value(s: &Vec<char>, i: usize) -> (r: usize)
    requires
        i <= s.len(),
    ensures
        r == value_end(s@, i as int),
{
    if unit_len_exec(s, i) == 0 {
        return i;
    }
    let mut j = i;
    loop
        invariant
            i <= j <= s.len(),
            value_end(s@, i as int) == value_scan(s@, j as int),
        decreases s.len() - j,
    {
        if j >= s.len() {
            return j;
        }
        let u = unit_len_exec(s, j);
        if u > 0 {
            j = j + u;
        } else {
            let sp = scan_spaces(s, j);
            proof {
                lemma_space_end(s@, j as int);
            }
            let u2 = unit_len_exec(s, sp);
            if sp > j && u2 > 0 {
                j = sp + u2;
            } else {
                return j;
            }
        }
    }
}

fn export_at_exec(s: &Vec<char>, i: usize) -> (r: bool)
    requires
        i <= s.len(),
    ensures
        r == export_at(s@, i as int),
        r ==> i + 6 <= s.len(),
{
    if i > s.len() || s.len() - i < 6 {
        return false;
    }
    let r = s[i] == 'e' && s[i + 1] == 'x' && s[i + 2] == 'p' && s[i + 3] == 'o' && s[i + 4]
        == 'r' && s[i + 5] == 't';
    let ghost w = seq!['e', 'x', 'p', 'o', 'r', 't'];
    if r {
        assert(s@.subrange(i as int, i + 6) =~= w);
    } else {
        assert(s@.subrange(i as int, i + 6) != w) by {
            if s@.subrange(i as int, i + 6) == w {
                assert(s@.subrange(i as int, i + 6)[0] == w[0]);
                assert(s@.subrange(i as int, i + 6)[1] == w[1]);
                assert(s@.subrange(i as int, i + 6)[2] == w[2]);
                assert(s@.subrange(i as int, i + 6)[3] == w[3]);
                assert(s@.subrange(i as int, i + 6)[4] == w[4]);
                assert(s@.subrange(i as int, i + 6)[5] == w[5]);
            }
        }
    }
    r
}

/// Computes `statement_span` of the characters in `s`.
pub fn statement_span_exec(s: &Vec<char>) -> (r: Option<(usize, usize, usize, usize)>)
    ensures
        r matches Some((l, k, v, f)) ==> statement_span(s@) == Some(
            (l as int, k as int, v as int, f as int),
        ),
        r is None ==> statement_span(s@) is None,
{
    proof {
        lemma_space_end(s@, 0);
    }
    let a = scan_spaces(s, 0);
    let b = if export_at_exec(s, a) {
        a + 6
    } else {
        a
    };
    proof {
        lemma_space_end(s@, b as int);
    }
    let l = scan_spaces(s, b);
    proof {
        lemma_key_end(s@, l as int);
    }
    let k = scan_key(s, l);
    if k > l && k < s.len() && s[k] == '=' {
        let v = scan_value(s, k + 1);
        proof {
            lemma_value_scan(s@, k + 1);
        }
        let f = scan_line(s, v);
        Some((l, k, v, f))
    } else {
        None
    }
}


// ---------------------------------------------------------------------------
// Lines and their models.
// ---------------------------------------------------------------------------

/// The abstract content of an environment statement.
pub struct EnvStatementView {
    pub key: Seq<char>,
    pub value: Seq<char>,
    pub leading_characters: Seq<char>,
    pub following_characters: Seq<char>,
}

/// The abstract content of one line of an environment file.
pub enum EnvFileLineView {
    Env(EnvStatementView),
    Other(Seq<char>),
}

/// A line of the form `[export] KEY=VALUE [comment]`, kept with the text around it
/// so that it is written back as it was read.
#[derive(Debug, Clone)]
pub struct EnvStatement {
    pub key: String,
    pub value: String,
    pub leading_characters: String,
    pub following_characters: String,
}

impl View for EnvStatement {
    type V = EnvStatementView;

    open spec fn view(&self) -> EnvStatementView {
        EnvStatementView {
            key: self.key@,
            value: self.value@,
            leading_characters: self.leading_characters@,
            following_characters: self.following_characters@,
        }
    }
}

/// One line of an environment file: a statement, or any other text (kept verbatim,
/// with its line break).
#[derive(Debug, Clone)]
pub enum EnvFileLine {
    Env(EnvStatement),
    Other(String),
}

impl View for EnvFileLine {
    type V = EnvFileLineView;

    open spec fn view(&self) -> EnvFileLineView {
        match self {
            EnvFileLine::Env(st) => EnvFileLineView::Env(st@),
            EnvFileLine::Other(t) => EnvFileLineView::Other(t@),
        }
    }
}

/// All the lines of an environment file, in order.
#[derive(Debug, Clone)]
pub struct EnvFileLines(pub Vec<EnvFileLine>);

impl View for EnvFileLines {
    type V = Seq<EnvFileLineView>;

    open spec fn view(&self) -> Seq<EnvFileLineView> {
        self.0@.map_values(|l: EnvFileLine| l@)
    }
}

/// Why a line could not be parsed.
#[derive(Debug, Clone, Copy, PartialEq, Eq)]
pub enum EnvParseError {
    /// The text does not start with a statement.
    NotAStatement,
    /// There is no text at all.
    EmptyInput,
}

/// The statement delimited by a span.
pub open spec fn statement_of_span(s: Seq<char>, l: int, k: int, v: int, f: int) -> EnvStatementView {
    EnvStatementView {
        leading_characters: s.subrange(0, l),
        key: s.subrange(l, k),
        value: s.subrange(k + 1, v),
        following_characters: s.subrange(v, f),
    }
}

/// The statement at the start of `s`, with the number of characters it consumes.
pub open spec fn parse_statement_spec(s: Seq<char>) -> Option<(int, EnvStatementView)> {
    match statement_span(s) {
        Some((l, k, v, f)) => Some((consumed_through(s, f), statement_of_span(s, l, k, v, f))),
        None => None,
    }
}

/// Where the body of the first line of `s` ends (before its line break).
pub open spec fn line_body_end(s: Seq<char>) -> int {
    match statement_span(s) {
        Some((l, k, v, f)) => f,
        None => line_end(s, 0),
    }
}

/// The line at the start of `s`, with the number of characters it consumes.
pub open spec fn parse_line_spec(s: Seq<char>) -> Option<(int, EnvFileLineView)> {
    match parse_statement_spec(s) {
        Some((n, m)) => Some((n, EnvFileLineView::Env(m))),
        None => if s.len() == 0 {
            None
        } else {
            let r = line_end(s, 0);
            Some((consumed_through(s, r), EnvFileLineView::Other(s.subrange(0, r).push('\n'))))
        },
    }
}

/// A line is read from every non-empty text, and what it consumes ends at its line break.
pub proof fn lemma_parse_line(s: Seq<char>)
    ensures
        s.len() > 0 <==> parse_line_spec(s) is Some,
        parse_line_spec(s) matches Some((n, m)) ==> {
            &&& 0 <= line_body_end(s) <= s.len()
            &&& n == consumed_through(s, line_body_end(s))
            &&& 0 < n <= s.len()
            &&& (line_body_end(s) < s.len() ==> s[line_body_end(s)] == '\n')
        },
{
    lemma_statement_span(s);
    lemma_line_end(s, 0);
}

/// All the lines of `s`, in order; every character belongs to some line.
pub open spec fn parse_lines_spec(s: Seq<char>) -> Seq<EnvFileLineView>
    decreases s.len(),
{
    match parse_line_spec(s) {
        Some((n, m)) => {
            proof {
                lemma_parse_line(s);
            }
            if 0 < n <= s.len() {
                seq![m].add(parse_lines_spec(s.skip(n)))
            } else {
                seq![m]
            }
        },
        None => Seq::empty(),
    }
}

/// Whether every line of `s`, the last one too, ends with a line break of its own.
pub open spec fn lines_terminated(s: Seq<char>) -> bool
    decreases s.len(),
{
    match parse_line_spec(s) {
        Some((n, m)) => {
            proof {
                lemma_parse_line(s);
            }
            if 0 < n <= s.len() {
                line_body_end(s) < s.len() && lines_terminated(s.skip(n))
            } else {
                false
            }
        },
        None => true,
    }
}

/// The text a statement is written back as.
pub open spec fn statement_text(m: EnvStatementView) -> Seq<char> {
    m.leading_characters + m.key + seq!['='] + m.value + m.following_characters + seq!['\n']
}

/// The text a line is written back as.
pub open spec fn line_text(l: EnvFileLineView) -> Seq<char> {
    match l {
        EnvFileLineView::Env(m) => statement_text(m),
        EnvFileLineView::Other(t) => t,
    }
}

/// The text a sequence of lines is written back as.
pub open spec fn lines_text(ls: Seq<EnvFileLineView>) -> Seq<char>
    decreases ls.len(),
{
    if ls.len() == 0 {
        Seq::empty()
    } else {
        line_text(ls[0]) + lines_text(ls.drop_first())
    }
}

/// The text of lines with one more line is the text of the others followed by its text.
pub proof fn lemma_lines_text_push(ls: Seq<EnvFileLineView>, l: EnvFileLineView)
    ensures
        lines_text(ls.push(l)) == lines_text(ls) + line_text(l),
    decreases ls.len(),
{
    if ls.len() == 0 {
        assert(ls.push(l).drop_first() =~= Seq::<EnvFileLineView>::empty());
        assert(lines_text(Seq::<EnvFileLineView>::empty()) == Seq::<char>::empty());
        assert(lines_text(ls.push(l)) == line_text(ls.push(l)[0]) + lines_text(ls.push(l).drop_first()));
        assert(lines_text(ls.push(l)) =~= line_text(l));
        assert(lines_text(ls) =~= Seq::<char>::empty());
    } else {
        assert(ls.push(l).drop_first() =~= ls.drop_first().push(l));
        lemma_lines_text_push(ls.drop_first(), l);
        assert(lines_text(ls.push(l)) =~= line_text(ls[0]) + (lines_text(ls.drop_first()) + line_text(l)));
    }
}

/// Reading a line and writing it back gives its body followed by one line break.
pub proof fn lemma_line_round_trip(s: Seq<char>)
    requires
        s.len() > 0,
    ensures
        parse_line_spec(s) matches Some((n, m)) && line_text(m) == s.subrange(0, line_body_end(s)).push('\n'),
{
    lemma_parse_line(s);
    lemma_statement_span(s);
    match statement_span(s) {
        Some((l, k, v, f)) => {
            let m = statement_of_span(s, l, k, v, f);
            assert(s.subrange(0, f) =~= s.subrange(0, l) + s.subrange(l, k) + seq!['='] + s.subrange(k + 1, v) + s.subrange(v, f));
            assert(statement_text(m) =~= s.subrange(0, f).push('\n'));
        },
        None => {},
    }
}

/// Reading a whole file and writing it back gives the same text, with a line break
/// added at the end when the last line lacks one.
pub proof fn lemma_lines_round_trip(s: Seq<char>)
    ensures
        lines_text(parse_lines_spec(s)) == if lines_terminated(s) {
            s
        } else {
            s.push('\n')
        },
    decreases s.len(),
{
    lemma_parse_line(s);
    if s.len() > 0 {
        lemma_line_round_trip(s);
        let (n, m) = parse_line_spec(s).unwrap();
        let b = line_body_end(s);
        let rest = s.skip(n);
        lemma_lines_round_trip(rest);
        let ls = parse_lines_spec(s);
        assert(ls == seq![m].add(parse_lines_spec(rest)));
        assert(ls.drop_first() =~= parse_lines_spec(rest));
        assert(lines_text(ls) == line_text(m) + lines_text(parse_lines_spec(rest)));
        if b < s.len() {
            assert(n == b + 1);
            assert(s.subrange(0, b).push('\n') =~= s.subrange(0, n));
            if lines_terminated(rest) {
                assert(s =~= s.subrange(0, n) + rest);
            } else {
                assert(s.push('\n') =~= s.subrange(0, n) + rest.push('\n'));
            }
        } else {
            assert(n == s.len());
            assert(rest.len() == 0);
            assert(parse_lines_spec(rest) =~= Seq::<EnvFileLineView>::empty());
            assert(s.subrange(0, b) =~= s);
            assert(lines_text(parse_lines_spec(rest)) =~= Seq::<char>::empty());
            assert(lines_text(ls) =~= s.push('\n'));
        }
    } else {
        assert(lines_text(parse_lines_spec(s)) =~= s);
    }
}

/// A text that ends with a line break that no backslash escapes: the body
/// of a line never reaches its end.
pub open spec fn ends_with_plain_newline(s: Seq<char>) -> bool {
    s.len() > 0 && s.last() == '\n' && !(s.len() >= 2 && s[s.len() - 2] == '\\')
}

/// A value scanned in such a text stops before its final line break.
proof fn lemma_value_scan_before_end(s: Seq<char>, i: int)
    requires
        ends_with_plain_newline(s),
        0 <= i < s.len(),
    ensures
        value_scan(s, i) < s.len(),
    decreases s.len() - i,
{
    let n = s.len() as int;
    if unit_len(s, i) > 0 {
        if unit_len(s, i) == 1 {
            assert(i != n - 1);
        } else {
            assert(s[i] == '\\');
            assert(i + 1 < n);
            assert(i != n - 2);
        }
        if i + unit_len(s, i) < n {
            lemma_value_scan_before_end(s, i + unit_len(s, i));
        } else {
            assert(false);
        }
    } else {
        lemma_space_end(s, i);
        let sp = space_end(s, i);
        if sp > i && unit_len(s, sp) > 0 {
            assert(sp < n);
            if unit_len(s, sp) == 1 {
                assert(sp != n - 1);
            } else {
                assert(sp != n - 2);
            }
            lemma_value_scan_before_end(s, sp + unit_len(s, sp));
        }
    }
}

/// In such a text the first line ends with a line break of its own.
proof fn lemma_first_line_terminated(s: Seq<char>)
    requires
        ends_with_plain_newline(s),
    ensures
        line_body_end(s) < s.len(),
{
    let n = s.len() as int;
    lemma_line_end(s, 0);
    lemma_statement_span(s);
    match statement_span(s) {
        Some((l, k, v, f)) => {
            assert(k + 1 < n);
            if unit_len(s, k + 1) > 0 {
                lemma_value_scan_before_end(s, k + 1);
            }
            assert(v < n);
            lemma_line_end(s, v);
            if line_end(s, v) >= n {
                assert(s[n - 1] != '\n');
            }
        },
        None => {
            if line_end(s, 0) >= n {
                assert(s[n - 1] != '\n');
            }
        },
    }
}

/// Every line of a text that ends with an unescaped line break (or is
/// empty) ends with a line break of its own.
proof fn lemma_terminated_text(s: Seq<char>)
    requires
        s.len() == 0 || ends_with_plain_newline(s),
    ensures
        lines_terminated(s),
    decreases s.len(),
{
    lemma_parse_line(s);
    if s.len() > 0 {
        lemma_first_line_terminated(s);
        let (n, m) = parse_line_spec(s).unwrap();
        let rest = s.skip(n);
        if rest.len() > 0 {
            assert(rest.last() == s.last());
            if rest.len() >= 2 {
                assert(rest[rest.len() - 2] == s[s.len() - 2]);
            }
        }
        lemma_terminated_text(rest);
    }
}

/// A non-empty text whose last character is not a line break has a last
/// line without one.
proof fn lemma_unterminated_text(s: Seq<char>)
    requires
        s.len() > 0,
        s.last() != '\n',
    ensures
        !lines_terminated(s),
    decreases s.len(),
{
    lemma_parse_line(s);
    let (n, m) = parse_line_spec(s).unwrap();
    let b = line_body_end(s);
    if b < s.len() {
        assert(s[b] == '\n');
        assert(b != s.len() - 1);
        let rest = s.skip(n);
        assert(rest.len() > 0);
        assert(rest.last() == s.last());
        lemma_unterminated_text(rest);
    }
}

/// Reading an environment file and writing it back gives its text,
/// comments, blank lines and statements alike, when it is empty or ends with
/// a line break, and the text with a line break added otherwise; a text whose
/// last line break is escaped by a backslash is left out.
pub proof fn lemma_env_text_round_trip(s: Seq<char>)
    requires
        !(s.len() >= 2 && s.last() == '\n' && s[s.len() - 2] == '\\'),
    ensures
        lines_text(parse_lines_spec(s)) == if s.len() == 0 || s.last() == '\n' {
            s
        } else {
            s.push('\n')
        },
{
    lemma_lines_round_trip(s);
    if s.len() == 0 || s.last() == '\n' {
        lemma_terminated_text(s);
    } else {
        lemma_unterminated_text(s);
    }
}

impl EnvStatement {
    /// Parses the characters of `s` from `from` on as a statement.
    fn parse_chars(s: &Vec<char>) -> (r: Result<(usize, EnvStatement), EnvParseError>)
        ensures
            match parse_statement_spec(s@) {
                Some((n, m)) => r matches Ok((n2, st)) && n2 == n && st@ == m,
                None => r is Err,
            },
    {
        proof {
            lemma_statement_span(s@);
        }
        match statement_span_exec(s) {
            Some((l, k, v, f)) => {
                let st = EnvStatement {
                    leading_characters: chars_to_string(s, 0, l),
                    key: chars_to_string(s, l, k),
                    value: chars_to_string(s, k + 1, v),
                    following_characters: chars_to_string(s, v, f),
                };
                let n = if f < s.len() {
                    f + 1
                } else {
                    f
                };
                Ok((n, st))
            },
            None => Err(EnvParseError::NotAStatement),
        }
    }

    /// Parses a statement at the start of `line` (decoded as UTF-8, invalid
    /// sequences replaced). Returns the number of characters consumed, which
    /// takes in the line break that ends the statement, if there is one.
    pub fn parse(line: &[u8]) -> (r: Result<(usize, EnvStatement), EnvParseError>)
        ensures
            match parse_statement_spec(utf8_lossy(line@)) {
                Some((n, m)) => r matches Ok((n2, st)) && n2 == n && st@ == m,
                None => r is Err,
            },
    {
        let s = bytes_to_chars_lossy(line);
        EnvStatement::parse_chars(&s)
    }

    /// Writes the statement back as one line.
    pub fn serialize(&self) -> (r: String)
        ensures
            r@ == statement_text(self@),
    {
        let mut v: Vec<char> = Vec::new();
        let a = str_to_chars(self.leading_characters.as_str());
        extend_chars(&mut v, &a);
        let b = str_to_chars(self.key.as_str());
        extend_chars(&mut v, &b);
        v.push('=');
        let c = str_to_chars(self.value.as_str());
        extend_chars(&mut v, &c);
        let d = str_to_chars(self.following_characters.as_str());
        extend_chars(&mut v, &d);
        v.push('\n');
        assert(v@ =~= statement_text(self@));
        seq_to_string(&v)
    }
}

impl EnvFileLine {
    fn parse_chars(s: &Vec<char>) -> (r: Result<(usize, EnvFileLine), EnvParseError>)
        ensures
            match parse_line_spec(s@) {
                Some((n, m)) => r matches Ok((n2, l)) && n2 == n && l@ == m,
                None => r is Err,
            },
    {
        match EnvStatement::parse_chars(s) {
            Ok((n, st)) => Ok((n, EnvFileLine::Env(st))),
            Err(_) => {
                if s.len() == 0 {
                    return Err(EnvParseError::EmptyInput);
                }
                proof {
                    lemma_line_end(s@, 0);
                }
                let r = scan_line(s, 0);
                let mut body = sub_chars(s, 0, r);
                body.push('\n');
                let n = if r < s.len() {
                    r + 1
                } else {
                    r
                };
                Ok((n, EnvFileLine::Other(seq_to_string(&body))))
            },
        }
    }

    /// Parses one line at the start of `line`: a statement if there is one,
    /// otherwise the text up to the next line break.
    pub fn parse(line: &[u8]) -> (r: Result<(usize, EnvFileLine), EnvParseError>)
        ensures
            match parse_line_spec(utf8_lossy(line@)) {
                Some((n, m)) => r matches Ok((n2, l)) && n2 == n && l@ == m,
                None => r is Err,
            },
    {
        let s = bytes_to_chars_lossy(line);
        EnvFileLine::parse_chars(&s)
    }

    /// Writes the line back.
    pub fn serialize(&self) -> (r: String)
        ensures
            r@ == line_text(self@),
    {
        match self {
            EnvFileLine::Env(st) => st.serialize(),
            EnvFileLine::Other(t) => t.clone(),
        }
    }
}


impl EnvFileLines {
    /// Parses a whole file into lines. All of the input is consumed: any text
    /// that is not a statement makes an `Other` line.
    pub fn parse(input: &[u8]) -> (r: Result<(usize, EnvFileLines), EnvParseError>)
        ensures
            r matches Ok((n, lines)) && n == utf8_lossy(input@).len() && lines@ == parse_lines_spec(
                utf8_lossy(input@),
            ),
    {
        let s = bytes_to_chars_lossy(input);
        let mut lines: Vec<EnvFileLine> = Vec::new();
        let mut pos: usize = 0;
        assert(s@.skip(0) =~= s@);
        while pos < s.len()
            invariant
                pos <= s.len(),
                lines@.map_values(|l: EnvFileLine| l@) + parse_lines_spec(s@.skip(pos as int))
                    == parse_lines_spec(s@),
            decreases s.len() - pos,
        {
            let rest = sub_chars(&s, pos, s.len());
            assert(rest@ =~= s@.skip(pos as int));
            proof {
                lemma_parse_line(rest@);
            }
            match EnvFileLine::parse_chars(&rest) {
                Ok((n, line)) => {
                    let ghost m = line@;
                    let ghost old_lines = lines@.map_values(|l: EnvFileLine| l@);
                    assert(parse_lines_spec(rest@) == seq![m].add(parse_lines_spec(rest@.skip(n as int))));
                    assert(rest@.skip(n as int) =~= s@.skip(pos + n));
                    lines.push(line);
                    assert(lines@.map_values(|l: EnvFileLine| l@) =~= old_lines.push(m));
                    assert(old_lines.push(m) + parse_lines_spec(s@.skip(pos + n)) =~= old_lines + (seq![m].add(parse_lines_spec(s@.skip(pos + n)))));
                    pos = pos + n;
                },
                Err(_) => {
                    assert(false);
                },
            }
        }
        assert(s@.skip(pos as int) =~= Seq::<char>::empty());
        assert(parse_lines_spec(s@.skip(pos as int)) =~= Seq::<EnvFileLineView>::empty());
        assert(lines@.map_values(|l: EnvFileLine| l@) =~= parse_lines_spec(s@));
        Ok((s.len(), EnvFileLines(lines)))
    }

    /// Writes all the lines back, in order.
    pub fn serialize(&self) -> (r: String)
        ensures
            r@ == lines_text(self@),
    {
        let mut v: Vec<char> = Vec::new();
        let mut i: usize = 0;
        assert(self@.take(0) =~= Seq::<EnvFileLineView>::empty());
        while i < self.0.len()
            invariant
                i <= self.0.len(),
                v@ == lines_text(self@.take(i as int)),
            decreases self.0.len() - i,
        {
            let t = self.0[i].serialize();
            let tc = str_to_chars(t.as_str());
            extend_chars(&mut v, &tc);
            proof {
                assert(self@.take(i + 1) =~= self@.take(i as int).push(self@[i as int]));
                lemma_lines_text_push(self@.take(i as int), self@[i as int]);
            }
            i = i + 1;
        }
        assert(self@.take(self.0.len() as int) =~= self@);
        seq_to_string(&v)
    }
}


// ---------------------------------------------------------------------------
// Shell quoting.
// ---------------------------------------------------------------------------

/// `s` in single quotes for a POSIX shell: each `'` becomes `'"'"'`.
pub open spec fn single_quoted(s: Seq<char>) -> Seq<char> {
    seq!['\''] + replace_spec(s, seq!['\''], seq!['\'', '"', '\'', '"', '\'']) + seq!['\'']
}

/// Quotes `s` for a POSIX shell with single quotes.
pub fn single_quote_str_for_shell(s: &str) -> (r: String)
    ensures
        r@ == single_quoted(s@),
{
    let sc = str_to_chars(s);
    let mut pat: Vec<char> = Vec::new();
    pat.push('\'');
    let mut rep: Vec<char> = Vec::new();
    rep.push('\'');
    rep.push('"');
    rep.push('\'');
    rep.push('"');
    rep.push('\'');
    assert(pat@ =~= seq!['\'']);
    assert(rep@ =~= seq!['\'', '"', '\'', '"', '\'']);
    let body = replace_chars(&sc, &pat, &rep);
    let mut out: Vec<char> = Vec::new();
    out.push('\'');
    extend_chars(&mut out, &body);
    out.push('\'');
    assert(out@ =~= single_quoted(s@));
    seq_to_string(&out)
}

// ---------------------------------------------------------------------------
// The PATH variable.
// ---------------------------------------------------------------------------

/// The abstract content of a `PATH` value: the paths read from it, the paths
/// added since (oldest first), and the quote around the whole value, if any.
pub struct PathVariableView {
    pub parsed: Seq<Seq<char>>,
    pub added: Seq<Seq<char>>,
    pub quote: Option<char>,
}

/// A `PATH` value split at `:`, to which paths can be prepended. A quote that
/// opens the first path and closes the last one is taken to surround the whole
/// value. Only paths added here are checked for duplicates.
#[derive(Debug, Clone)]
pub struct PathVariable {
    parsed_paths: Vec<String>,
    added_paths: Vec<String>,
    surrounding_quote: Option<char>,
}

impl View for PathVariable {
    type V = PathVariableView;

    closed spec fn view(&self) -> PathVariableView {
        PathVariableView {
            parsed: self.parsed_paths@.map_values(|p: String| p@),
            added: self.added_paths@.map_values(|p: String| p@),
            quote: self.surrounding_quote,
        }
    }
}

/// `q` opens the first piece without closing it, and closes the last piece
/// without opening it.
pub open spec fn quote_surrounds(paths: Seq<Seq<char>>, q: char) -> bool {
    &&& paths.len() > 0
    &&& has_prefix(paths[0], seq![q]) && !has_suffix(paths[0], seq![q])
    &&& !has_prefix(paths.last(), seq![q]) && has_suffix(paths.last(), seq![q])
}

/// The quote taken to surround the whole value, trying `"` first.
pub open spec fn detect_quote(paths: Seq<Seq<char>>) -> Option<char> {
    if quote_surrounds(paths, '"') {
        Some('"')
    } else if quote_surrounds(paths, '\'') {
        Some('\'')
    } else {
        None
    }
}

/// The pieces with the surrounding quote taken off the first and last one.
pub open spec fn strip_quote(paths: Seq<Seq<char>>) -> Seq<Seq<char>> {
    let n = paths.len();
    let first_done = paths.update(0, paths[0].drop_first());
    first_done.update(n - 1, first_done[n - 1].drop_last())
}

/// What `PathVariable::parse` reads from a value.
pub open spec fn parse_path_spec(val: Seq<char>) -> PathVariableView {
    let paths = split_spec(val, ':');
    let q = detect_quote(paths);
    PathVariableView {
        parsed: if q is Some {
            strip_quote(paths)
        } else {
            paths
        },
        added: Seq::empty(),
        quote: q,
    }
}

/// The paths in the order they are written: the latest added first, then
/// those read from the value.
pub open spec fn path_iter_spec(pv: PathVariableView) -> Seq<Seq<char>> {
    pv.added.reverse() + pv.parsed
}

/// The value a `PathVariable` is written back as.
pub open spec fn path_serialize_spec(pv: PathVariableView) -> Seq<char> {
    let j = join_spec(path_iter_spec(pv), ':');
    match pv.quote {
        Some(q) => seq![q] + j + seq![q],
        None => j,
    }
}

/// The variable after `put_path(p)`.
pub open spec fn path_put_spec(pv: PathVariableView, p: Seq<char>) -> PathVariableView {
    if pv.added.contains(p) {
        pv
    } else {
        PathVariableView { added: pv.added.push(p), ..pv }
    }
}

/// Joining two or more pieces puts the separator before the last one.
pub proof fn lemma_join_last(ps: Seq<Seq<char>>, c: char)
    requires
        ps.len() >= 2,
    ensures
        join_spec(ps, c) == join_spec(ps.drop_last(), c) + seq![c] + ps.last(),
    decreases ps.len(),
{
    if ps.len() > 2 {
        lemma_join_last(ps.drop_first(), c);
        assert(ps.drop_first().drop_last() =~= ps.drop_last().drop_first());
        assert(ps.drop_first().last() == ps.last());
        assert(join_spec(ps.drop_last(), c) == ps.drop_last()[0] + seq![c] + join_spec(ps.drop_last().drop_first(), c));
        assert(join_spec(ps, c) == ps[0] + seq![c] + join_spec(ps.drop_first(), c));
        assert(join_spec(ps, c) =~= join_spec(ps.drop_last(), c) + seq![c] + ps.last());
    } else {
        assert(ps.drop_first().len() == 1);
        assert(ps.drop_last().len() == 1);
        assert(join_spec(ps.drop_first(), c) == ps.drop_first()[0]);
        assert(join_spec(ps.drop_last(), c) == ps.drop_last()[0]);
        assert(join_spec(ps, c) == ps[0] + seq![c] + join_spec(ps.drop_first(), c));
    }
}

/// Reading a value and writing it back, with nothing added, gives the value.
pub proof fn lemma_path_round_trip(val: Seq<char>)
    ensures
        path_serialize_spec(parse_path_spec(val)) == val,
{
    let paths = split_spec(val, ':');
    lemma_join_split(val, ':');
    lemma_split_nonempty(val, ':');
    let pv = parse_path_spec(val);
    assert(pv.added.reverse() =~= Seq::<Seq<char>>::empty());
    assert(path_iter_spec(pv) =~= pv.parsed);
    match detect_quote(paths) {
        Some(q) => {
            let n = paths.len();
            assert(n >= 2) by {
                if n == 1 {
                    assert(paths.last() == paths[0]);
                }
            }
            let first_done = paths.update(0, paths[0].drop_first());
            let st = strip_quote(paths);
            assert(paths[0] =~= seq![q] + paths[0].drop_first()) by {
                assert(paths[0].subrange(0, 1) == seq![q]);
            }
            assert(paths[n - 1] =~= paths[n - 1].drop_last() + seq![q]) by {
                assert(paths[n - 1].subrange(paths[n - 1].len() - 1, paths[n - 1].len() as int) == seq![q]);
            }
            if n == 2 {
                assert(join_spec(st, ':') =~= st[0] + seq![':'] + st[1]) by {
                    assert(st.drop_first().len() == 1);
                    assert(join_spec(st.drop_first(), ':') == st.drop_first()[0]);
                    assert(join_spec(st, ':') == st[0] + seq![':'] + join_spec(st.drop_first(), ':'));
                }
                assert(join_spec(paths, ':') =~= paths[0] + seq![':'] + paths[1]) by {
                    assert(paths.drop_first().len() == 1);
                    assert(join_spec(paths.drop_first(), ':') == paths.drop_first()[0]);
                    assert(join_spec(paths, ':') == paths[0] + seq![':'] + join_spec(paths.drop_first(), ':'));
                }
            } else {
                lemma_join_last(st, ':');
                lemma_join_last(paths, ':');
                assert(st.drop_last().drop_first() =~= paths.drop_last().drop_first());
                assert(join_spec(st.drop_last(), ':') == st[0] + seq![':'] + join_spec(st.drop_last().drop_first(), ':'));
                assert(join_spec(paths.drop_last(), ':') == paths[0] + seq![':'] + join_spec(paths.drop_last().drop_first(), ':'));
            }
            assert(seq![q] + join_spec(st, ':') + seq![q] =~= join_spec(paths, ':'));
        },
        None => {},
    }
}

impl PathVariable {
    /// Splits a `PATH` value at `:`.
    pub fn parse(val: &str) -> (r: PathVariable)
        ensures
            r@ == parse_path_spec(val@),
    {
        let vc = str_to_chars(val);
        let pieces = split_chars(&vc, ':');
        proof {
            lemma_split_nonempty(vc@, ':');
        }
        let ghost paths = split_spec(vc@, ':');
        assert(pieces@.map_values(|p: Vec<char>| p@) == paths);
        let n = pieces.len();
        let first = &pieces[0];
        let last = &pieces[n - 1];
        assert(first@ == paths[0]);
        assert(last@ == paths.last());
        let mut dq: Vec<char> = Vec::new();
        dq.push('"');
        let mut sq: Vec<char> = Vec::new();
        sq.push('\'');
        assert(dq@ =~= seq!['"']);
        assert(sq@ =~= seq!['\'']);
        let quote = if crate::text::starts_with_chars(first, &dq) && !crate::text::ends_with_chars(first, &dq)
            && !crate::text::starts_with_chars(last, &dq) && crate::text::ends_with_chars(last, &dq) {
            Some('"')
        } else if crate::text::starts_with_chars(first, &sq) && !crate::text::ends_with_chars(first, &sq)
            && !crate::text::starts_with_chars(last, &sq) && crate::text::ends_with_chars(last, &sq) {
            Some('\'')
        } else {
            None
        };
        assert(quote == detect_quote(paths));
        let mut parsed: Vec<String> = Vec::new();
        let mut i: usize = 0;
        while i < n
            invariant
                n == pieces.len(),
                n >= 1,
                i <= n,
                paths == pieces@.map_values(|p: Vec<char>| p@),
                quote == detect_quote(paths),
                quote is Some ==> n >= 2,
                parsed@.map_values(|p: String| p@) == (if quote is Some {
                    strip_quote(paths)
                } else {
                    paths
                }).take(i as int),
            decreases n - i,
        {
            let piece = &pieces[i];
            let len = piece.len();
            let from: usize = if quote.is_some() && i == 0 && len > 0 {
                1
            } else {
                0
            };
            let to: usize = if quote.is_some() && i == n - 1 && len > 0 {
                len - 1
            } else {
                len
            };
            proof {
                if quote is Some {
                    assert(n >= 2) by {
                        if n == 1 {
                            assert(paths.last() == paths[0]);
                        }
                    }
                    assert(paths[0].len() >= 1);
                    assert(paths[n - 1].len() >= 1);
                }
            }
            let s = chars_to_string(piece, from, if to < from { from } else { to });
            let ghost target = if quote is Some {
                strip_quote(paths)
            } else {
                paths
            };
            proof {
                if quote is Some {
                    if i == 0 {
                        assert(s@ =~= paths[0].drop_first());
                    } else if i == n - 1 {
                        assert(s@ =~= paths[n - 1].drop_last());
                    } else {
                        assert(s@ =~= paths[i as int]);
                    }
                } else {
                    assert(s@ =~= paths[i as int]);
                }
                assert(s@ == target[i as int]);
            }
            let ghost old_parsed = parsed@.map_values(|p: String| p@);
            parsed.push(s);
            assert(parsed@.map_values(|p: String| p@) =~= old_parsed.push(s@));
            assert(target.take(i + 1) =~= target.take(i as int).push(target[i as int]));
            i = i + 1;
        }
        let r = PathVariable { parsed_paths: parsed, added_paths: Vec::new(), surrounding_quote: quote };
        assert(r@.parsed =~= parse_path_spec(val@).parsed);
        assert(r@.added =~= Seq::<Seq<char>>::empty());
        r
    }

    /// The paths in the order they are written out.
    pub fn iter(&self) -> (r: Vec<String>)
        ensures
            r@.map_values(|p: String| p@) == path_iter_spec(self@),
    {
        let mut r: Vec<String> = Vec::new();
        let mut i: usize = self.added_paths.len();
        let ghost added = self@.added;
        while i > 0
            invariant
                i <= self.added_paths.len(),
                added == self@.added,
                r@.map_values(|p: String| p@) == added.reverse().take((added.len() - i) as int),
            decreases i,
        {
            let ghost old_r = r@.map_values(|p: String| p@);
            r.push(self.added_paths[i - 1].clone());
            assert(r@.map_values(|p: String| p@) =~= old_r.push(added[i - 1]));
            assert(added.reverse().take((added.len() - i + 1) as int) =~= added.reverse().take((added.len() - i) as int).push(added.reverse()[(added.len() - i) as int]));
            i = i - 1;
        }
        let mut j: usize = 0;
        while j < self.parsed_paths.len()
            invariant
                j <= self.parsed_paths.len(),
                added == self@.added,
                r@.map_values(|p: String| p@) == added.reverse() + self@.parsed.take(j as int),
            decreases self.parsed_paths.len() - j,
        {
            let ghost old_r = r@.map_values(|p: String| p@);
            r.push(self.parsed_paths[j].clone());
            assert(r@.map_values(|p: String| p@) =~= old_r.push(self@.parsed[j as int]));
            assert(self@.parsed.take(j + 1) =~= self@.parsed.take(j as int).push(self@.parsed[j as int]));
            j = j + 1;
        }
        assert(self@.parsed.take(j as int) =~= self@.parsed);
        r
    }

    /// Writes the variable back as one value.
    pub fn serialize(&self) -> (r: String)
        ensures
            r@ == path_serialize_spec(self@),
    {
        let paths = self.iter();
        let mut pieces: Vec<Vec<char>> = Vec::new();
        let mut i: usize = 0;
        while i < paths.len()
            invariant
                i <= paths.len(),
                pieces@.map_values(|p: Vec<char>| p@) == paths@.map_values(|p: String| p@).take(i as int),
            decreases paths.len() - i,
        {
            let ghost old_p = pieces@.map_values(|p: Vec<char>| p@);
            pieces.push(str_to_chars(paths[i].as_str()));
            assert(pieces@.map_values(|p: Vec<char>| p@) =~= old_p.push(paths@[i as int]@));
            assert(paths@.map_values(|p: String| p@).take(i + 1) =~= paths@.map_values(|p: String| p@).take(i as int).push(paths@[i as int]@));
            i = i + 1;
        }
        assert(paths@.map_values(|p: String| p@).take(i as int) =~= paths@.map_values(|p: String| p@));
        let joined = join_chars(&pieces, ':');
        match self.surrounding_quote {
            Some(q) => {
                let mut out: Vec<char> = Vec::new();
                out.push(q);
                extend_chars(&mut out, &joined);
                out.push(q);
                assert(out@ =~= path_serialize_spec(self@));
                seq_to_string(&out)
            },
            None => seq_to_string(&joined),
        }
    }

    /// Prepends `path_val`, unless it was already added.
    pub fn put_path(&mut self, path_val: &str)
        ensures
            final(self)@ == path_put_spec(old(self)@, path_val@),
    {
        let pv = str_to_chars(path_val);
        let mut i: usize = 0;
        while i < self.added_paths.len()
            invariant
                i <= self.added_paths.len(),
                pv@ == path_val@,
                forall|k: int| 0 <= k < i ==> #[trigger] self@.added[k] != path_val@,
            decreases self.added_paths.len() - i,
        {
            let a = str_to_chars(self.added_paths[i].as_str());
            if chars_eq(&a, &pv) {
                assert(self@.added[i as int] == path_val@);
                return;
            }
            i = i + 1;
        }
        assert(!self@.added.contains(path_val@));
        let ghost old_added = self@.added;
        self.added_paths.push(path_val.to_owned());
        assert(self@.added =~= old_added.push(path_val@));
    }
}


// ---------------------------------------------------------------------------
// Environment files.
// ---------------------------------------------------------------------------

/// Index of the last statement of `ls` that sets `key`, or -1.
pub open spec fn last_env_index(ls: Seq<EnvFileLineView>, key: Seq<char>) -> int
    decreases ls.len(),
{
    if ls.len() == 0 {
        -1
    } else if ls.last() matches EnvFileLineView::Env(m) && m.key == key {
        ls.len() - 1
    } else {
        last_env_index(ls.drop_last(), key)
    }
}

/// `last_env_index` is the last statement of `key`, or -1 when there is none.
pub proof fn lemma_last_env_index(ls: Seq<EnvFileLineView>, key: Seq<char>)
    ensures
        -1 <= last_env_index(ls, key) < ls.len(),
        last_env_index(ls, key) >= 0 ==> (ls[last_env_index(ls, key)] matches EnvFileLineView::Env(m) && m.key == key),
        forall|j: int| last_env_index(ls, key) < j < ls.len() ==> !(#[trigger] ls[j] matches EnvFileLineView::Env(m) && m.key == key),
    decreases ls.len(),
{
    if ls.len() > 0 {
        if !(ls.last() matches EnvFileLineView::Env(m) && m.key == key) {
            lemma_last_env_index(ls.drop_last(), key);
            assert forall|j: int| last_env_index(ls, key) < j < ls.len() implies !(#[trigger] ls[j] matches EnvFileLineView::Env(m) && m.key == key) by {
                if j < ls.len() - 1 {
                    assert(ls[j] == ls.drop_last()[j]);
                }
            }
        }
    }
}

/// The value `key` has in the lines: that of its last statement.
pub open spec fn env_value(ls: Seq<EnvFileLineView>, key: Seq<char>) -> Option<Seq<char>> {
    let i = last_env_index(ls, key);
    if i >= 0 && ls[i] is Env {
        Some(ls[i]->Env_0.value)
    } else {
        None
    }
}

/// The lines after setting `key` to the already quoted `value`: the last
/// statement of `key` gets the value, or a new statement is appended.
pub open spec fn put_env_spec(ls: Seq<EnvFileLineView>, key: Seq<char>, value: Seq<char>) -> Seq<EnvFileLineView> {
    let i = last_env_index(ls, key);
    if i >= 0 && ls[i] is Env {
        ls.update(i, EnvFileLineView::Env(EnvStatementView { value: value, ..ls[i]->Env_0 }))
    } else {
        ls.push(EnvFileLineView::Env(EnvStatementView {
            key: key,
            value: value,
            leading_characters: Seq::empty(),
            following_characters: Seq::empty(),
        }))
    }
}

/// After setting `key`, reading `key` gives the value that was set, and
/// reading any other key gives what it gave before.
pub proof fn lemma_put_env_get(ls: Seq<EnvFileLineView>, key: Seq<char>, value: Seq<char>, other: Seq<char>)
    ensures
        env_value(put_env_spec(ls, key, value), key) == Some(value),
        other != key ==> env_value(put_env_spec(ls, key, value), other) == env_value(ls, other),
{
    lemma_last_env_index(ls, key);
    lemma_last_env_index(ls, other);
    let ns = put_env_spec(ls, key, value);
    lemma_last_env_index(ns, key);
    lemma_last_env_index(ns, other);
    let i = last_env_index(ls, key);
    let j = last_env_index(ns, key);
    if i >= 0 {
        assert(ns.len() == ls.len());
        assert(ns[i] matches EnvFileLineView::Env(m) && m.key == key);
        assert(j == i) by {
            if j < i {
                assert(!(ns[i] matches EnvFileLineView::Env(m) && m.key == key));
            } else if j > i {
                assert(ns[j] == ls[j]);
            }
        }
    } else {
        assert(ns[ls.len() as int] matches EnvFileLineView::Env(m) && m.key == key);
        assert(j == ls.len());
    }
    if other != key {
        let a = last_env_index(ls, other);
        let b = last_env_index(ns, other);
        if i >= 0 {
            assert(forall|t: int| 0 <= t < ls.len() && t != i ==> ns[t] == ls[t]);
            assert(a == b) by {
                if a < b {
                    assert(ns[b] == ls[b]);
                } else if b < a {
                    assert(ns[a] == ls[a]);
                }
            }
        } else {
            assert(forall|t: int| 0 <= t < ls.len() ==> ns[t] == ls[t]);
            assert(!(ns[ls.len() as int] matches EnvFileLineView::Env(m) && m.key == other));
            assert(a == b) by {
                if a < b {
                    assert(ns[b] == ls[b]);
                } else if b < a {
                    assert(ns[a] == ls[a]);
                }
            }
        }
    }
}

/// An environment file: its path and its lines. A key's value is that of its
/// last statement in the file.
#[derive(Debug, Clone)]
pub struct EnvFile {
    pub file_path: String,
    env_file_lines: EnvFileLines,
}

/// The abstract content of an environment file.
pub struct EnvFileView {
    pub file_path: Seq<char>,
    pub lines: Seq<EnvFileLineView>,
}

impl View for EnvFile {
    type V = EnvFileView;

    closed spec fn view(&self) -> EnvFileView {
        EnvFileView { file_path: self.file_path@, lines: self.env_file_lines@ }
    }
}

/// The `PATH` used when the file sets none.
pub open spec fn default_path_value() -> Seq<char> {
    "/usr/local/sbin:/usr/local/bin:/usr/sbin:/usr/bin:/sbin:/bin:/usr/games:/usr/local/games"@
}

/// The `PATH` value `put_path(p)` writes (before quoting).
pub open spec fn put_path_value(ls: Seq<EnvFileLineView>, p: Seq<char>) -> Seq<char> {
    let current = match env_value(ls, "PATH"@) {
        Some(v) => v,
        None => default_path_value(),
    };
    path_serialize_spec(path_put_spec(parse_path_spec(current), p))
}

/// A value that `put_env` accepts: it holds no line break and no backslash,
/// which would make `pam_env.so` read other variables from it.
pub open spec fn is_safe_env_value(v: Seq<char>) -> bool {
    !v.contains('\n') && !v.contains('\\')
}

fn last_env_index_exec(lines: &Vec<EnvFileLine>, key: &str) -> (r: Option<usize>)
    ensures
        match r {
            Some(i) => last_env_index(lines@.map_values(|l: EnvFileLine| l@), key@) == i as int,
            None => last_env_index(lines@.map_values(|l: EnvFileLine| l@), key@) == -1,
        },
{
    let ghost ls = lines@.map_values(|l: EnvFileLine| l@);
    let kc = str_to_chars(key);
    let mut i: usize = lines.len();
    assert(ls.take(lines.len() as int) =~= ls);
    while i > 0
        invariant
            i <= lines.len(),
            ls == lines@.map_values(|l: EnvFileLine| l@),
            kc@ == key@,
            last_env_index(ls, key@) == last_env_index(ls.take(i as int), key@),
        decreases i,
    {
        let ghost pre = ls.take(i as int);
        assert(pre.last() == lines@[i - 1]@);
        assert(pre.drop_last() =~= ls.take(i - 1));
        match &lines[i - 1] {
            EnvFileLine::Env(st) => {
                let sk = str_to_chars(st.key.as_str());
                if chars_eq(&sk, &kc) {
                    return Some(i - 1);
                }
            },
            EnvFileLine::Other(_) => {},
        }
        i = i - 1;
    }
    assert(ls.take(0) =~= Seq::<EnvFileLineView>::empty());
    None
}

impl EnvFile {
    /// An environment file read from `contents` (decoded as UTF-8, invalid
    /// sequences replaced); empty contents stand for a file that does not exist.
    pub fn parse_file(file_path: String, contents: &[u8]) -> (r: EnvFile)
        ensures
            r@.file_path == file_path@,
            r@.lines == parse_lines_spec(utf8_lossy(contents@)),
    {
        match EnvFileLines::parse(contents) {
            Ok((_, lines)) => EnvFile { file_path, env_file_lines: lines },
            Err(_) => {
                assert(false);
                EnvFile { file_path, env_file_lines: EnvFileLines(Vec::new()) }
            },
        }
    }

    /// The lines of the file.
    pub fn lines(&self) -> (r: &EnvFileLines)
        ensures
            r@ == self@.lines,
    {
        &self.env_file_lines
    }

    /// The value of `key`: that of its last statement, as written in the file.
    pub fn get_env(&self, key: &str) -> (r: Option<&str>)
        ensures
            match env_value(self@.lines, key@) {
                Some(v) => r matches Some(x) && x@ == v,
                None => r is None,
            },
    {
        let ghost ls = self@.lines;
        proof {
            lemma_last_env_index(ls, key@);
        }
        match last_env_index_exec(&self.env_file_lines.0, key) {
            Some(i) => {
                assert(ls[i as int] == self.env_file_lines.0@[i as int]@);
                match &self.env_file_lines.0[i] {
                    EnvFileLine::Env(st) => Some(st.value.as_str()),
                    EnvFileLine::Other(_) => None,
                }
            },
            None => None,
        }
    }

    /// Sets `key` to `value`, quoted for the shell: the last statement of `key`
    /// gets the new value, or a statement is appended.
    pub fn put_env(&mut self, key: String, value: String)
        requires
            is_safe_env_value(value@),
        ensures
            final(self)@.file_path == old(self)@.file_path,
            final(self)@.lines == put_env_spec(old(self)@.lines, key@, single_quoted(value@)),
    {
        let ghost ls = self@.lines;
        proof {
            lemma_last_env_index(ls, key@);
        }
        let quoted = single_quote_str_for_shell(value.as_str());
        match last_env_index_exec(&self.env_file_lines.0, key.as_str()) {
            Some(i) => {
                assert(ls[i as int] == self.env_file_lines.0@[i as int]@);
                let line = match &self.env_file_lines.0[i] {
                    EnvFileLine::Env(st) => EnvFileLine::Env(EnvStatement {
                        key: st.key.clone(),
                        value: quoted,
                        leading_characters: st.leading_characters.clone(),
                        following_characters: st.following_characters.clone(),
                    }),
                    EnvFileLine::Other(t) => EnvFileLine::Other(t.clone()),
                };
                self.env_file_lines.0.set(i, line);
                assert(self@.lines =~= put_env_spec(ls, key@, single_quoted(value@)));
            },
            None => {
                let line = EnvFileLine::Env(
                    EnvStatement {
                        key,
                        value: quoted,
                        leading_characters: String::new(),
                        following_characters: String::new(),
                    },
                );
                self.env_file_lines.0.push(line);
                assert(self@.lines =~= put_env_spec(ls, key@, single_quoted(value@)));
            },
        }
    }

    /// Prepends `path_val` to `PATH` (or to the default `PATH` when none is
    /// set), unless it was added to the value just read, and writes it back.
    pub fn put_path(&mut self, path_val: String)
        requires
            is_safe_env_value(put_path_value(old(self)@.lines, path_val@)),
        ensures
            final(self)@.file_path == old(self)@.file_path,
            final(self)@.lines == put_env_spec(
                old(self)@.lines,
                "PATH"@,
                single_quoted(put_path_value(old(self)@.lines, path_val@)),
            ),
    {
        let default_path = "/usr/local/sbin:/usr/local/bin:/usr/sbin:/usr/bin:/sbin:/bin:/usr/games:/usr/local/games";
        let current = match self.get_env("PATH") {
            Some(v) => v,
            None => default_path,
        };
        let mut pv = PathVariable::parse(current);
        pv.put_path(path_val.as_str());
        let value = pv.serialize();
        self.put_env("PATH".to_owned(), value);
    }
}


// ---------------------------------------------------------------------------
// Shell scripts that set variables.
// ---------------------------------------------------------------------------

/// The abstract content of a script: the variables (each key once) and the
/// paths to prepend to `PATH` (each once).
pub struct EnvShellScriptView {
    pub envs: Seq<(Seq<char>, Seq<char>)>,
    pub paths: Seq<Seq<char>>,
}

/// A `sh` script that sets variables that are not set yet and prepends paths to
/// `PATH` that are not in it yet.
#[derive(Debug, Clone)]
pub struct EnvShellScript {
    envs: Vec<(String, String)>,
    paths: Vec<String>,
}

impl View for EnvShellScript {
    type V = EnvShellScriptView;

    closed spec fn view(&self) -> EnvShellScriptView {
        EnvShellScriptView {
            envs: self.envs@.map_values(|p: (String, String)| (p.0@, p.1@)),
            paths: self.paths@.map_values(|p: String| p@),
        }
    }
}

/// No key occurs twice, and no path occurs twice.
pub open spec fn script_well_formed(v: EnvShellScriptView) -> bool {
    &&& forall|i: int, j: int| 0 <= i < j < v.envs.len() ==> (#[trigger] v.envs[i]).0 != (#[trigger] v.envs[j]).0
    &&& forall|i: int, j: int| 0 <= i < j < v.paths.len() ==> #[trigger] v.paths[i] != #[trigger] v.paths[j]
}

/// Index of `key` among the variables, or -1.
pub open spec fn env_key_index(envs: Seq<(Seq<char>, Seq<char>)>, key: Seq<char>) -> int {
    if exists|i: int| 0 <= i < envs.len() && (#[trigger] envs[i]).0 == key {
        choose|i: int| 0 <= i < envs.len() && (#[trigger] envs[i]).0 == key
    } else {
        -1
    }
}

/// The line that sets one variable.
pub open spec fn env_line_text(key: Seq<char>, value: Seq<char>) -> Seq<char> {
    "if [ -z \"${"@ + key + ":-}\" ]; then export "@ + key + "="@ + single_quoted(value) + "; fi\n"@
}

/// The lines that prepend one path.
pub open spec fn path_block_text(path: Seq<char>) -> Seq<char> {
    "__CANDIDATE_PATH="@ + single_quoted(path) + "\n__COLON_PATH=\":${PATH}:\"\nif [ \"${__COLON_PATH#*:${__CANDIDATE_PATH}:}\" = \"${__COLON_PATH}\" ]; then export PATH=\"${__CANDIDATE_PATH}:${PATH}\"; fi\nunset __CANDIDATE_PATH\nunset __COLON_PATH\n"@
}

/// The lines of a script that set the variables, in order.
pub open spec fn env_lines_text(envs: Seq<(Seq<char>, Seq<char>)>) -> Seq<char>
    decreases envs.len(),
{
    if envs.len() == 0 {
        Seq::empty()
    } else {
        env_lines_text(envs.drop_last()) + env_line_text(envs.last().0, envs.last().1)
    }
}

/// The blocks of a script that prepend the paths to `PATH`, in order.
pub open spec fn path_blocks_text(paths: Seq<Seq<char>>) -> Seq<char>
    decreases paths.len(),
{
    if paths.len() == 0 {
        Seq::empty()
    } else {
        path_blocks_text(paths.drop_last()) + path_block_text(paths.last())
    }
}

/// The script: the variables in ascending order of their names, then the
/// paths in ascending order.
pub open spec fn script_text(v: EnvShellScriptView) -> Seq<char> {
    env_lines_text(v.envs.sort_by(|a: (Seq<char>, Seq<char>), b: (Seq<char>, Seq<char>)| pair_le(a, b)))
        + path_blocks_text(v.paths.sort_by(|a: Seq<char>, b: Seq<char>| chars_le(a, b)))
}

/// The script depends only on which variables and paths it holds, not on the
/// order in which they were put.
pub proof fn lemma_script_text_depends_on_contents(a: EnvShellScriptView, b: EnvShellScriptView)
    requires
        a.envs.to_multiset() == b.envs.to_multiset(),
        a.paths.to_multiset() == b.paths.to_multiset(),
    ensures
        script_text(a) == script_text(b),
{
    let pl = |x: (Seq<char>, Seq<char>), y: (Seq<char>, Seq<char>)| pair_le(x, y);
    let cl = |x: Seq<char>, y: Seq<char>| chars_le(x, y);
    lemma_pair_le_total_ordering();
    lemma_chars_le_total_ordering();
    a.envs.lemma_sort_by_ensures(pl);
    b.envs.lemma_sort_by_ensures(pl);
    a.paths.lemma_sort_by_ensures(cl);
    b.paths.lemma_sort_by_ensures(cl);
    vstd::seq_lib::lemma_sorted_unique(a.envs.sort_by(pl), b.envs.sort_by(pl), pl);
    vstd::seq_lib::lemma_sorted_unique(a.paths.sort_by(cl), b.paths.sort_by(cl), cl);
}

impl EnvShellScript {
    /// An empty script.
    pub fn new() -> (r: EnvShellScript)
        ensures
            r@.envs.len() == 0,
            r@.paths.len() == 0,
            script_well_formed(r@),
    {
        let r = EnvShellScript { envs: Vec::new(), paths: Vec::new() };
        assert(r@.envs =~= Seq::<(Seq<char>, Seq<char>)>::empty());
        assert(r@.paths =~= Seq::<Seq<char>>::empty());
        r
    }

    /// Sets `key` to `value`, replacing an earlier value of `key`.
    pub fn put_env(&mut self, key: String, value: String)
        requires
            script_well_formed(old(self)@),
        ensures
            script_well_formed(final(self)@),
            env_key_index(old(self)@.envs, key@) >= 0 ==> final(self)@.envs == old(self)@.envs.update(
                env_key_index(old(self)@.envs, key@),
                (key@, value@),
            ),
            env_key_index(old(self)@.envs, key@) < 0 ==> final(self)@.envs == old(self)@.envs.push((key@, value@)),
            final(self)@.paths == old(self)@.paths,
    {
        let ghost old_v = self@;
        let mut i: usize = 0;
        while i < self.envs.len()
            invariant
                i <= self.envs.len(),
                self@ == old_v,
                old_v == old(self)@,
                script_well_formed(old_v),
                forall|k: int| 0 <= k < i ==> (#[trigger] old_v.envs[k]).0 != key@,
            decreases self.envs.len() - i,
        {
            if str_eq_local(self.envs[i].0.as_str(), key.as_str()) {
                assert(old_v.envs[i as int].0 == key@);
                assert(0 <= i < old_v.envs.len() && old_v.envs[i as int].0 == key@);
                assert(env_key_index(old_v.envs, key@) == i as int) by {
                    let c = choose|c: int| 0 <= c < old_v.envs.len() && (#[trigger] old_v.envs[c]).0 == key@;
                    if c != i {
                        if c < i {
                        } else {
                            assert(old_v.envs[i as int].0 != old_v.envs[c].0);
                        }
                    }
                }
                self.envs.set(i, (key, value));
                assert(self@.envs =~= old_v.envs.update(i as int, (key@, value@)));
                assert forall|a: int, b: int| 0 <= a < b < self@.envs.len() implies (#[trigger] self@.envs[a]).0 != (#[trigger] self@.envs[b]).0 by {
                    assert(self@.envs[a].0 == old_v.envs[a].0);
                    assert(self@.envs[b].0 == old_v.envs[b].0);
                }
                assert(self@.paths =~= old_v.paths);
                assert(script_well_formed(self@));
                return;
            }
            i = i + 1;
        }
        let ghost ov = self@;
        self.envs.push((key, value));
        assert(self@.envs =~= old_v.envs.push((key@, value@)));
        assert(env_key_index(old_v.envs, key@) == -1);
        assert forall|a: int, b: int| 0 <= a < b < self@.envs.len() implies (#[trigger] self@.envs[a]).0 != (#[trigger] self@.envs[b]).0 by {
            if b == old_v.envs.len() {
                assert(old_v.envs[a].0 != key@);
            } else {
                assert(self@.envs[a] == old_v.envs[a]);
                assert(self@.envs[b] == old_v.envs[b]);
            }
        }
        assert(self@.paths =~= old_v.paths);
        assert(script_well_formed(self@));
    }

    /// Adds `path` to the paths, unless it is there already.
    pub fn put_path(&mut self, path: String)
        requires
            script_well_formed(old(self)@),
        ensures
            script_well_formed(final(self)@),
            old(self)@.paths.contains(path@) ==> final(self)@.paths == old(self)@.paths,
            !old(self)@.paths.contains(path@) ==> final(self)@.paths == old(self)@.paths.push(path@),
            final(self)@.envs == old(self)@.envs,
    {
        let ghost old_v = self@;
        let mut i: usize = 0;
        while i < self.paths.len()
            invariant
                i <= self.paths.len(),
                self@ == old_v,
                old_v == old(self)@,
                script_well_formed(old_v),
                forall|k: int| 0 <= k < i ==> #[trigger] old_v.paths[k] != path@,
            decreases self.paths.len() - i,
        {
            if str_eq_local(self.paths[i].as_str(), path.as_str()) {
                assert(old_v.paths[i as int] == path@);
                assert(old_v.paths.contains(path@));
                return;
            }
            i = i + 1;
        }
        self.paths.push(path);
        assert(self@.paths =~= old_v.paths.push(path@));
        assert(!old_v.paths.contains(path@));
        assert forall|a: int, b: int| 0 <= a < b < self@.paths.len() implies #[trigger] self@.paths[a] != #[trigger] self@.paths[b] by {
            if b == old_v.paths.len() {
                assert(old_v.paths[a] != path@);
            } else {
                assert(self@.paths[a] == old_v.paths[a]);
                assert(self@.paths[b] == old_v.paths[b]);
            }
        }
        assert(self@.envs =~= old_v.envs);
        assert(script_well_formed(self@));
    }

    /// The text of the script.
    pub fn gen_shell_script(&self) -> (r: String)
        ensures
            r@ == script_text(self@),
    {
        let pl = Ghost(|x: (Seq<char>, Seq<char>), y: (Seq<char>, Seq<char>)| pair_le(x, y));
        let cl = Ghost(|x: Seq<char>, y: Seq<char>| chars_le(x, y));
        proof {
            lemma_pair_le_total_ordering();
            lemma_chars_le_total_ordering();
            self@.envs.lemma_sort_by_ensures(pl@);
            self@.paths.lemma_sort_by_ensures(cl@);
        }
        let envs = sort_string_pairs(copy_string_pairs(&self.envs));
        assert(self.envs@.map_values(|p: (String, String)| (p.0@, p.1@)) == self@.envs);
        proof {
            vstd::seq_lib::lemma_sorted_unique(
                envs@.map_values(|p: (String, String)| (p.0@, p.1@)),
                self@.envs.sort_by(pl@),
                pl@,
            );
        }
        let ghost se = envs@.map_values(|p: (String, String)| (p.0@, p.1@));
        let mut out: Vec<char> = Vec::new();
        let mut i: usize = 0;
        assert(se.take(0) =~= Seq::<(Seq<char>, Seq<char>)>::empty());
        while i < envs.len()
            invariant
                i <= envs.len(),
                se == envs@.map_values(|p: (String, String)| (p.0@, p.1@)),
                out@ == env_lines_text(se.take(i as int)),
            decreases envs.len() - i,
        {
            let key = envs[i].0.as_str();
            let q = single_quote_str_for_shell(envs[i].1.as_str());
            extend_str(&mut out, "if [ -z \"${");
            extend_str(&mut out, key);
            extend_str(&mut out, ":-}\" ]; then export ");
            extend_str(&mut out, key);
            extend_str(&mut out, "=");
            extend_str(&mut out, q.as_str());
            extend_str(&mut out, "; fi\n");
            assert(se.take(i + 1).drop_last() =~= se.take(i as int));
            assert(se.take(i + 1).last() == se[i as int]);
            assert(out@ =~= env_lines_text(se.take(i + 1)));
            i = i + 1;
        }
        assert(se.take(i as int) =~= se);
        let paths = sort_strings(copy_strings(&self.paths));
        assert(self.paths@.map_values(|p: String| p@) == self@.paths);
        proof {
            vstd::seq_lib::lemma_sorted_unique(
                paths@.map_values(|p: String| p@),
                self@.paths.sort_by(cl@),
                cl@,
            );
        }
        let ghost sp = paths@.map_values(|p: String| p@);
        let ghost env_part = out@;
        let mut j: usize = 0;
        assert(sp.take(0) =~= Seq::<Seq<char>>::empty());
        assert(out@ =~= env_part + path_blocks_text(sp.take(0)));
        while j < paths.len()
            invariant
                j <= paths.len(),
                sp == paths@.map_values(|p: String| p@),
                out@ == env_part + path_blocks_text(sp.take(j as int)),
            decreases paths.len() - j,
        {
            let q = single_quote_str_for_shell(paths[j].as_str());
            extend_str(&mut out, "__CANDIDATE_PATH=");
            extend_str(&mut out, q.as_str());
            extend_str(&mut out, "\n__COLON_PATH=\":${PATH}:\"\nif [ \"${__COLON_PATH#*:${__CANDIDATE_PATH}:}\" = \"${__COLON_PATH}\" ]; then export PATH=\"${__CANDIDATE_PATH}:${PATH}\"; fi\nunset __CANDIDATE_PATH\nunset __COLON_PATH\n");
            assert(sp.take(j + 1).drop_last() =~= sp.take(j as int));
            assert(sp.take(j + 1).last() == sp[j as int]);
            assert(out@ =~= env_part + path_blocks_text(sp.take(j + 1)));
            j = j + 1;
        }
        assert(sp.take(j as int) =~= sp);
        seq_to_string(&out)
    }
}

fn str_eq_local(a: &str, b: &str) -> (r: bool)
    ensures
        r == (a@ == b@),
{
    crate::text::str_eq(a, b)
}

} // verus!

verus! {

/// The abstract content of a profile.d script.
pub struct ProfileDotDScriptView {
    pub script_name: Seq<char>,
    pub dot_profile_dir_path: Seq<char>,
    pub script: EnvShellScriptView,
}

/// A script in a root filesystem's `/etc/profile.d`, run by login shells.
#[derive(Debug, Clone)]
pub struct ProfileDotDScript {
    script_name: String,
    dot_profile_dir_path: String,
    env_shell_script: EnvShellScript,
}

impl View for ProfileDotDScript {
    type V = ProfileDotDScriptView;

    closed spec fn view(&self) -> ProfileDotDScriptView {
        ProfileDotDScriptView {
            script_name: self.script_name@,
            dot_profile_dir_path: self.dot_profile_dir_path@,
            script: self.env_shell_script@,
        }
    }
}

/// The `profile.d` directory of a root filesystem.
pub open spec fn profile_dot_d_dir(rootfs: Seq<char>) -> Seq<char> {
    crate::paths::path_join(rootfs, "etc/profile.d"@)
}

impl ProfileDotDScript {
    /// The script is well formed.
    pub open spec fn wf(&self) -> bool {
        script_well_formed(self@.script)
    }

    /// An empty script named `script_name` in the `profile.d` directory of
    /// `rootfs_path`; whether that directory exists is for the caller to check.
    pub fn open(script_name: String, rootfs_path: &str) -> (r: ProfileDotDScript)
        ensures
            r.wf(),
            r@.script_name == script_name@,
            r@.dot_profile_dir_path == profile_dot_d_dir(rootfs_path@),
            r@.script.envs.len() == 0,
            r@.script.paths.len() == 0,
    {
        let dot_profile_dir_path = crate::paths::join_path(rootfs_path, "etc/profile.d");
        ProfileDotDScript { script_name, dot_profile_dir_path, env_shell_script: EnvShellScript::new() }
    }

    /// Sets `name` to `value` in the script.
    pub fn put_env(&mut self, name: String, value: String)
        requires
            old(self).wf(),
        ensures
            final(self).wf(),
            final(self)@.script_name == old(self)@.script_name,
            final(self)@.dot_profile_dir_path == old(self)@.dot_profile_dir_path,
            env_key_index(old(self)@.script.envs, name@) >= 0 ==> final(self)@.script.envs == old(
                self,
            )@.script.envs.update(env_key_index(old(self)@.script.envs, name@), (name@, value@)),
            env_key_index(old(self)@.script.envs, name@) < 0 ==> final(self)@.script.envs == old(
                self,
            )@.script.envs.push((name@, value@)),
            final(self)@.script.paths == old(self)@.script.paths,
    {
        self.env_shell_script.put_env(name, value);
    }

    /// Adds `path` to the paths of the script.
    pub fn put_path(&mut self, path: String)
        requires
            old(self).wf(),
        ensures
            final(self).wf(),
            final(self)@.script_name == old(self)@.script_name,
            final(self)@.dot_profile_dir_path == old(self)@.dot_profile_dir_path,
            old(self)@.script.paths.contains(path@) ==> final(self)@.script.paths == old(self)@.script.paths,
            !old(self)@.script.paths.contains(path@) ==> final(self)@.script.paths == old(
                self,
            )@.script.paths.push(path@),
            final(self)@.script.envs == old(self)@.script.envs,
    {
        self.env_shell_script.put_path(path);
    }

    /// Where the script is written.
    pub fn script_path(&self) -> (r: String)
        ensures
            r@ == crate::paths::path_join(self@.dot_profile_dir_path, self@.script_name),
    {
        crate::paths::join_path(self.dot_profile_dir_path.as_str(), self.script_name.as_str())
    }

    /// The text of the script.
    pub fn script(&self) -> (r: String)
        ensures
            r@ == script_text(self@.script),
    {
        self.env_shell_script.gen_shell_script()
    }
}

} // verus!

verus! {

/// `key_end` stops at the first character after a run of name characters.
proof fn lemma_key_run(s: Seq<char>, i: int, e: int)
    requires
        0 <= i <= e < s.len(),
        forall|j: int| i <= j < e ==> is_key_char(#[trigger] s[j]),
        !is_key_char(s[e]),
    ensures
        key_end(s, i) == e,
    decreases e - i,
{
    if i < e {
        lemma_key_run(s, i + 1, e);
    }
}

/// A value made of plain characters ends at the line break that follows it.
proof fn lemma_value_run(s: Seq<char>, i: int, e: int)
    requires
        0 <= i <= e < s.len(),
        forall|j: int| i <= j < e ==> is_plain_value_char(#[trigger] s[j]),
        s[e] == '\n',
    ensures
        value_scan(s, i) == e,
        value_end(s, i) == e,
    decreases e - i,
{
    if i < e {
        lemma_value_run(s, i + 1, e);
        assert(unit_len(s, i) == 1);
    } else {
        assert(unit_len(s, e) == 0);
        assert(space_end(s, e) == e);
    }
}

/// A line `NAME=VALUE`, where the name is made of ASCII letters (of either
/// case), digits and `_` and does not start with the word `export`, and the
/// value holds no space, tab, `#`, backslash or line break, is read as one
/// statement of that name with that value; reading the name gives the value,
/// and setting the name rewrites that statement in place rather than adding
/// another.
pub proof fn lemma_plain_assignment(k: Seq<char>, v: Seq<char>, w: Seq<char>)
    requires
        k.len() > 0,
        forall|i: int|
            0 <= i < k.len() ==> ('a' <= #[trigger] k[i] && k[i] <= 'z') || ('A' <= k[i] && k[i] <= 'Z')
                || ('0' <= k[i] && k[i] <= '9') || k[i] == '_',
        !(k.len() >= 6 && k.take(6) == seq!['e', 'x', 'p', 'o', 'r', 't']),
        forall|i: int|
            0 <= i < v.len() ==> #[trigger] v[i] != '\n' && v[i] != '#' && v[i] != ' ' && v[i] != '\t'
                && v[i] != '\\',
    ensures
        parse_lines_spec(k + seq!['='] + v + seq!['\n']) == seq![
            EnvFileLineView::Env(
                EnvStatementView {
                    leading_characters: Seq::empty(),
                    key: k,
                    value: v,
                    following_characters: Seq::empty(),
                },
            ),
        ],
        env_value(parse_lines_spec(k + seq!['='] + v + seq!['\n']), k) == Some(v),
        put_env_spec(parse_lines_spec(k + seq!['='] + v + seq!['\n']), k, w) == seq![
            EnvFileLineView::Env(
                EnvStatementView {
                    leading_characters: Seq::empty(),
                    key: k,
                    value: w,
                    following_characters: Seq::empty(),
                },
            ),
        ],
{
    let s = k + seq!['='] + v + seq!['\n'];
    let kl = k.len() as int;
    let ve = kl + 1 + v.len();
    assert(s.len() == ve + 1);
    assert forall|j: int| 0 <= j < kl implies s[j] == k[j] by {}
    assert(s[kl] == '=');
    assert forall|j: int| 0 <= j < v.len() implies s[kl + 1 + j] == v[j] by {}
    assert(s[ve] == '\n');
    assert(!is_space(s[0]));
    assert(space_end(s, 0) == 0);
    let ex = seq!['e', 'x', 'p', 'o', 'r', 't'];
    assert(!export_at(s, 0)) by {
        if export_at(s, 0) {
            let sub = s.subrange(0, 6);
            assert(sub == ex);
            if kl >= 6 {
                assert(k.take(6) =~= sub);
            } else {
                assert(sub[kl] == s[kl]);
                assert(ex[kl] != '=');
            }
        }
    }
    assert(leading_end(s) == 0);
    assert forall|j: int| 0 <= j < kl implies is_key_char(#[trigger] s[j]) by {
        assert(s[j] == k[j]);
    }
    lemma_key_run(s, 0, kl);
    assert forall|j: int| kl + 1 <= j < ve implies is_plain_value_char(#[trigger] s[j]) by {
        assert(s[j] == v[j - kl - 1]);
    }
    lemma_value_run(s, kl + 1, ve);
    assert(line_end(s, ve) == ve);
    assert(statement_span(s) == Some((0int, kl, ve, ve)));
    let m = EnvStatementView {
        leading_characters: Seq::empty(),
        key: k,
        value: v,
        following_characters: Seq::empty(),
    };
    assert(s.subrange(0, 0) =~= Seq::<char>::empty());
    assert(s.subrange(0, kl) =~= k);
    assert(s.subrange(kl + 1, ve) =~= v);
    assert(s.subrange(ve, ve) =~= Seq::<char>::empty());
    assert(statement_of_span(s, 0, kl, ve, ve) == m);
    assert(parse_line_spec(s) == Some((s.len() as int, EnvFileLineView::Env(m))));
    let e = Seq::<char>::empty();
    assert(s.skip(s.len() as int) =~= e);
    assert(leading_end(e) == 0);
    assert(key_end(e, 0) == 0);
    assert(statement_span(e) is None);
    assert(parse_line_spec(e) is None);
    assert(parse_lines_spec(e) =~= Seq::<EnvFileLineView>::empty());
    let ls = parse_lines_spec(s);
    assert(ls =~= seq![EnvFileLineView::Env(m)]);
    assert(last_env_index(ls, k) == 0);
    assert(put_env_spec(ls, k, w) =~= seq![EnvFileLineView::Env(EnvStatementView { value: w, ..m })]);
}

} // verus!
