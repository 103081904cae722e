//! Text parser for NWChem-style basis set definitions.
//!
//! The grammar, line by line:
//! - a section header is a line `BASIS SET: (<d1>) -> [<d2>]` with both
//!   descriptors nonempty; a section's body runs to the next line that
//!   begins with `#` or with `END`, and a section with no terminator
//!   line is not a section at all;
//! - inside a body, a shell block begins with a line `<Sym> <L>` (an
//!   uppercase letter, optionally one lowercase letter, one or more
//!   spaces, one uppercase letter), followed immediately by one or more
//!   data lines: lines that open with a space and whose first non-space
//!   character starts a number;
//! - every whitespace-separated token on a data line must be a float of
//!   the shape `-?d+.d+(E(+|-)d+)?`, else `MalformedNumber`; the shell
//!   letter must be in the fixed table S P D F G H I (codes 0 to 6),
//!   else `UnsupportedShellKind`; the token count must divide exactly by
//!   the data-line count, else `RaggedShellMatrix`;
//! - a section's element symbol is the first block's symbol; later
//!   blocks of the same section are not re-validated against it; a
//!   section without any block yields no entry; symbols repeating
//!   across sections are kept as separate entries, in file order.
//!
//! The whole parse aborts on the first failing shell block, in reading
//! order. `spec_parse` is the grammar's mathematical statement;
//! `parse_basis` returns exactly its value.
//!
//! Numeric tokens are returned as text: binding them to machine floats
//! is the host layer's step.

use vstd::prelude::*;
use vstd::string::StrSliceExecFns;

use crate::data::BasisError;

verus! {

pub open spec fn is_upper_c(c: char) -> bool {
    65 <= c as u32 <= 90
}

pub open spec fn is_lower_c(c: char) -> bool {
    97 <= c as u32 <= 122
}

pub open spec fn is_digit_c(c: char) -> bool {
    48 <= c as u32 <= 57
}

fn is_upper_x(c: char) -> (r: bool)
    ensures
        r == is_upper_c(c),
{
    (c as u32) >= 65 && (c as u32) <= 90
}

fn is_lower_x(c: char) -> (r: bool)
    ensures
        r == is_lower_c(c),
{
    (c as u32) >= 97 && (c as u32) <= 122
}

fn is_digit_x(c: char) -> (r: bool)
    ensures
        r == is_digit_c(c),
{
    (c as u32) >= 48 && (c as u32) <= 57
}

/// First index at or after `i` holding `c`, or the length.
pub open spec fn find_char(t: Seq<char>, i: int, c: char) -> int
    decreases t.len() - i,
{
    if i < 0 || i >= t.len() {
        t.len() as int
    } else if t[i] == c {
        i
    } else {
        find_char(t, i + 1, c)
    }
}

proof fn lemma_find_char_bounds(t: Seq<char>, i: int, c: char)
    requires
        0 <= i <= t.len(),
    ensures
        i <= find_char(t, i, c) <= t.len(),
    decreases t.len() - i,
{
    if i < t.len() && t[i] != c {
        lemma_find_char_bounds(t, i + 1, c);
    }
}

fn find_char_x(t: &str, n: usize, i: usize, c: char) -> (r: usize)
    requires
        n == t@.len(),
        i <= n,
    ensures
        r as int == find_char(t@, i as int, c),
        i <= r <= n,
    decreases n - i,
{
    if i >= n {
        n
    } else if t.get_char(i) == c {
        i
    } else {
        find_char_x(t, n, i + 1, c)
    }
}

/// First index at or after `i` that does not hold a digit.
pub open spec fn digits_end(t: Seq<char>, i: int) -> int
    decreases t.len() - i,
{
    if i < 0 || i >= t.len() || !is_digit_c(t[i]) {
        i
    } else {
        digits_end(t, i + 1)
    }
}

fn digits_end_x(t: &str, n: usize, i: usize) -> (r: usize)
    requires
        n == t@.len(),
        i <= n,
    ensures
        r as int == digits_end(t@, i as int),
        i <= r <= n,
    decreases n - i,
{
    if i >= n || !is_digit_x(t.get_char(i)) {
        i
    } else {
        digits_end_x(t, n, i + 1)
    }
}

/// First index at or after `i` that does not hold a space.
pub open spec fn spaces_end(t: Seq<char>, i: int) -> int
    decreases t.len() - i,
{
    if i < 0 || i >= t.len() || t[i] != ' ' {
        i
    } else {
        spaces_end(t, i + 1)
    }
}

fn spaces_end_x(t: &str, n: usize, i: usize) -> (r: usize)
    requires
        n == t@.len(),
        i <= n,
    ensures
        r as int == spaces_end(t@, i as int),
        i <= r <= n,
    decreases n - i,
{
    if i >= n || t.get_char(i) != ' ' {
        i
    } else {
        spaces_end_x(t, n, i + 1)
    }
}

/// First index at or after `i` holding something other than a space:
/// the end of the token that starts at `i`.
pub open spec fn token_end(t: Seq<char>, i: int) -> int
    decreases t.len() - i,
{
    if i < 0 || i >= t.len() || t[i] == ' ' {
        i
    } else {
        token_end(t, i + 1)
    }
}

proof fn lemma_token_end_bounds(t: Seq<char>, i: int)
    requires
        0 <= i <= t.len(),
    ensures
        i <= token_end(t, i) <= t.len(),
    decreases t.len() - i,
{
    if i < t.len() && t[i] != ' ' {
        lemma_token_end_bounds(t, i + 1);
    }
}

fn token_end_x(t: &str, n: usize, i: usize) -> (r: usize)
    requires
        n == t@.len(),
        i <= n,
    ensures
        r as int == token_end(t@, i as int),
        i <= r <= n,
    decreases n - i,
{
    if i >= n || t.get_char(i) == ' ' {
        i
    } else {
        token_end_x(t, n, i + 1)
    }
}

/// The line's whitespace-separated tokens from position `i` on, in
/// reading order.
pub open spec fn spec_tokens_from(t: Seq<char>, i: int) -> Seq<Seq<char>>
    decreases t.len() - i,
    via spec_tokens_from_dec
{
    if i < 0 || i >= t.len() {
        Seq::empty()
    } else if t[i] == ' ' {
        spec_tokens_from(t, i + 1)
    } else {
        seq![t.subrange(i, token_end(t, i))] + spec_tokens_from(t, token_end(t, i))
    }
}

#[via_fn]
proof fn spec_tokens_from_dec(t: Seq<char>, i: int) {
    if 0 <= i < t.len() && t[i] != ' ' {
        lemma_token_end_bounds(t, i + 1);
        assert(token_end(t, i) == token_end(t, i + 1));
        assert(token_end(t, i) > i);
    }
}

fn tokens_from(t: &str, n: usize, i: usize) -> (r: Vec<String>)
    requires
        n == t@.len(),
        i <= n,
    ensures
        r.deep_view() == spec_tokens_from(t@, i as int),
    decreases n - i,
{
    if i >= n {
        let r: Vec<String> = Vec::new();
        proof {
            assert(r.deep_view() =~= spec_tokens_from(t@, i as int));
        }
        r
    } else if t.get_char(i) == ' ' {
        tokens_from(t, n, i + 1)
    } else {
        let e = token_end_x(t, n, i);
        proof {
            lemma_token_end_bounds(t@, i as int + 1);
            assert(token_end(t@, i as int) == token_end(t@, i as int + 1));
            assert(e > i);
        }
        let tok = t.substring_char(i, e).to_owned();
        let mut rest = tokens_from(t, n, e);
        rest.insert(0, tok);
        proof {
            assert(rest.deep_view() =~= spec_tokens_from(t@, i as int));
        }
        rest
    }
}

/// The text split at every newline, as Rust's `split('\n')` does: a
/// trailing newline yields a final empty line.
pub open spec fn spec_lines_from(t: Seq<char>, i: int) -> Seq<Seq<char>>
    decreases t.len() - i,
    via spec_lines_from_dec
{
    if i < 0 || i > t.len() {
        Seq::empty()
    } else {
        let j = find_char(t, i, '\n');
        if j >= t.len() {
            seq![t.subrange(i, t.len() as int)]
        } else {
            seq![t.subrange(i, j)] + spec_lines_from(t, j + 1)
        }
    }
}

#[via_fn]
proof fn spec_lines_from_dec(t: Seq<char>, i: int) {
    if 0 <= i <= t.len() {
        lemma_find_char_bounds(t, i, '\n');
    }
}

fn lines_from(t: &str, n: usize, i: usize) -> (r: Vec<String>)
    requires
        n == t@.len(),
        i <= n,
    ensures
        r.deep_view() == spec_lines_from(t@, i as int),
    decreases n - i,
{
    let j = find_char_x(t, n, i, '\n');
    if j >= n {
        let line = t.substring_char(i, n).to_owned();
        let mut r: Vec<String> = Vec::new();
        r.push(line);
        proof {
            assert(r.deep_view() =~= spec_lines_from(t@, i as int));
        }
        r
    } else {
        let line = t.substring_char(i, j).to_owned();
        let mut rest = lines_from(t, n, j + 1);
        rest.insert(0, line);
        proof {
            assert(rest.deep_view() =~= spec_lines_from(t@, i as int));
        }
        rest
    }
}

/// Whether the token has the accepted float shape:
/// `-?d+.d+(E(+|-)d+)?`.
pub open spec fn is_float_token(t: Seq<char>) -> bool {
    let i0: int = if t.len() > 0 && t[0] == '-' {
        1
    } else {
        0
    };
    let j = digits_end(t, i0);
    &&& j > i0
    &&& j < t.len()
    &&& t[j] == '.'
    &&& {
        let k = digits_end(t, j + 1);
        &&& k > j + 1
        &&& (k == t.len() || is_exponent(t, k))
    }
}

pub open spec fn is_exponent(t: Seq<char>, k: int) -> bool {
    &&& t[k] == 'E'
    &&& k + 2 < t.len()
    &&& (t[k + 1] == '+' || t[k + 1] == '-')
    &&& digits_end(t, k + 2) == t.len()
}

fn is_float_x(t: &str) -> (r: bool)
    ensures
        r == is_float_token(t@),
{
    let n = t.unicode_len();
    let i0: usize = if n > 0 && t.get_char(0) == '-' {
        1
    } else {
        0
    };
    let j = digits_end_x(t, n, i0);
    if j <= i0 || j >= n {
        return false;
    }
    if t.get_char(j) != '.' {
        return false;
    }
    let k = digits_end_x(t, n, j + 1);
    if k <= j + 1 {
        return false;
    }
    if k == n {
        return true;
    }
    if t.get_char(k) != 'E' {
        return false;
    }
    if n - k < 3 {
        return false;
    }
    let sgn = t.get_char(k + 1);
    if sgn != '+' && sgn != '-' {
        return false;
    }
    let e = digits_end_x(t, n, k + 2);
    e == n
}

/// Whether `t` holds the pattern `p` starting at `i`.
pub open spec fn matches_at(t: Seq<char>, i: int, p: Seq<char>) -> bool {
    &&& 0 <= i
    &&& i + p.len() <= t.len()
    &&& forall|k: int| 0 <= k < p.len() ==> t[i + k] == p[k]
}

fn matches_at_x(t: &str, n: usize, i: usize, p: &str, m: usize) -> (r: bool)
    requires
        n == t@.len(),
        m == p@.len(),
        i <= n,
    ensures
        r == matches_at(t@, i as int, p@),
{
    if n - i < m {
        return false;
    }
    let mut k: usize = 0;
    while k < m
        invariant
            n == t@.len(),
            m == p@.len(),
            i + m <= n,
            k <= m,
            forall|q: int| 0 <= q < k ==> t@[i + q] == p@[q],
        decreases m - k,
    {
        if t.get_char(i + k) != p.get_char(k) {
            return false;
        }
        k += 1;
    }
    true
}

/// First position at or after `i` where the pattern occurs, or the
/// length when it occurs nowhere.
pub open spec fn find_sub(t: Seq<char>, i: int, p: Seq<char>) -> int
    decreases t.len() - i,
{
    if i < 0 || i >= t.len() {
        t.len() as int
    } else if matches_at(t, i, p) {
        i
    } else {
        find_sub(t, i + 1, p)
    }
}

fn find_sub_x(t: &str, n: usize, i: usize, p: &str, m: usize) -> (r: usize)
    requires
        n == t@.len(),
        m == p@.len(),
        i <= n,
    ensures
        r as int == find_sub(t@, i as int, p@),
        i <= r <= n,
    decreases n - i,
{
    if i >= n {
        n
    } else if matches_at_x(t, n, i, p, m) {
        i
    } else {
        find_sub_x(t, n, i + 1, p, m)
    }
}

/// A section header line: `BASIS SET: (<d1>) -> [<d2>]`, both
/// descriptors nonempty, the closing bracket ending the line.
pub open spec fn is_section_header(line: Seq<char>) -> bool {
    &&& matches_at(line, 0, "BASIS SET: ("@)
    &&& {
        let p = find_sub(line, 12, ") -> ["@);
        &&& p > 12
        &&& p + 6 < line.len() - 1
        &&& line[line.len() - 1] == ']'
    }
}

fn is_section_header_x(line: &str) -> (r: bool)
    ensures
        r == is_section_header(line@),
{
    proof {
        reveal_strlit("BASIS SET: (");
        reveal_strlit(") -> [");
    }
    let n = line.unicode_len();
    if !matches_at_x(line, n, 0, "BASIS SET: (", 12) {
        return false;
    }
    let p = find_sub_x(line, n, 12, ") -> [", 6);
    if p <= 12 {
        return false;
    }
    if n - p < 8 {
        return false;
    }
    line.get_char(n - 1) == ']'
}

/// A terminator line ends a section's body: it begins with `#` or with
/// the literal `END`.
pub open spec fn is_terminator(line: Seq<char>) -> bool {
    ||| (line.len() >= 1 && line[0] == '#')
    ||| matches_at(line, 0, "END"@)
}

fn is_terminator_x(line: &str) -> (r: bool)
    ensures
        r == is_terminator(line@),
{
    proof {
        reveal_strlit("END");
    }
    let n = line.unicode_len();
    if n >= 1 && line.get_char(0) == '#' {
        return true;
    }
    matches_at_x(line, n, 0, "END", 3)
}

/// A shell block's header line: element symbol (one uppercase letter,
/// optionally one lowercase letter), one or more spaces, one uppercase
/// shell letter ending the line.
pub open spec fn shell_header(line: Seq<char>) -> Option<(Seq<char>, char)> {
    if line.len() < 3 || !is_upper_c(line[0]) {
        None
    } else {
        let sl: int = if is_lower_c(line[1]) {
            2
        } else {
            1
        };
        let last = line.len() - 1;
        if last > sl && is_upper_c(line[last]) && spaces_end(line, sl) == last {
            Some((line.subrange(0, sl), line[last]))
        } else {
            None
        }
    }
}

fn shell_header_x(line: &str) -> (r: Option<(String, char)>)
    ensures
        match r {
            Some(p) => shell_header(line@) == Some((p.0@, p.1)),
            None => shell_header(line@) is None,
        },
{
    let n = line.unicode_len();
    if n < 3 || !is_upper_x(line.get_char(0)) {
        return None;
    }
    let sl: usize = if is_lower_x(line.get_char(1)) {
        2
    } else {
        1
    };
    let last = n - 1;
    if last <= sl {
        return None;
    }
    if !is_upper_x(line.get_char(last)) {
        return None;
    }
    let se = spaces_end_x(line, n, sl);
    if se != last {
        return None;
    }
    let sym = line.substring_char(0, sl).to_owned();
    Some((sym, line.get_char(last)))
}

/// A data line opens with a space and its first non-space character
/// starts a number.
pub open spec fn is_data_line(line: Seq<char>) -> bool {
    &&& line.len() > 0
    &&& line[0] == ' '
    &&& {
        let s = spaces_end(line, 0);
        &&& s < line.len()
        &&& (is_digit_c(line[s]) || line[s] == '-')
    }
}

fn is_data_line_x(line: &str) -> (r: bool)
    ensures
        r == is_data_line(line@),
{
    let n = line.unicode_len();
    if n == 0 || line.get_char(0) != ' ' {
        return false;
    }
    let s = spaces_end_x(line, n, 0);
    if s >= n {
        return false;
    }
    let c = line.get_char(s);
    is_digit_x(c) || c == '-'
}

/// The fixed angular-momentum table: S P D F G H I give 0 to 6; any
/// other letter is outside the table.
pub open spec fn am_of(c: char) -> Option<int> {
    if c == 'S' {
        Some(0)
    } else if c == 'P' {
        Some(1)
    } else if c == 'D' {
        Some(2)
    } else if c == 'F' {
        Some(3)
    } else if c == 'G' {
        Some(4)
    } else if c == 'H' {
        Some(5)
    } else if c == 'I' {
        Some(6)
    } else {
        None
    }
}

/// Maps a shell letter to its angular-momentum code; every letter
/// outside the fixed table is `UnsupportedShellKind`, never a default.
pub fn get_angular_momentum(c: char) -> (r: Result<i32, BasisError>)
    ensures
        match am_of(c) {
            Some(a) => r == Ok::<i32, BasisError>(a as i32),
            None => r == Err::<i32, BasisError>(BasisError::UnsupportedShellKind),
        },
{
    match c {
        'S' => Ok(0),
        'P' => Ok(1),
        'D' => Ok(2),
        'F' => Ok(3),
        'G' => Ok(4),
        'H' => Ok(5),
        'I' => Ok(6),
        _ => Err(BasisError::UnsupportedShellKind),
    }
}

/// The portion of a basis file's name before its first `.`: the basis
/// set's name.
pub fn basis_name_stem(filename: &str) -> (r: String)
    ensures
        r@ == filename@.subrange(0, find_char(filename@, 0, '.')),
{
    let n = filename.unicode_len();
    let j = find_char_x(filename, n, 0, '.');
    filename.substring_char(0, j).to_owned()
}

/// Model of one parsed shell: code, matrix extents, and the numeric
/// tokens of its block in reading order.
pub ghost struct RawShellV {
    pub am: int,
    pub rows: nat,
    pub cols: nat,
    pub tokens: Seq<Seq<char>>,
}

/// Model of one parsed section: the element symbol and its shells.
pub ghost struct RawAtomV {
    pub symbol: Seq<char>,
    pub shells: Seq<RawShellV>,
}

/// One parsed shell: angular-momentum code, matrix extents, and the
/// numeric tokens of its block, row by row, left to right.
#[derive(Debug, Clone, PartialEq)]
pub struct RawShell {
    pub am: i32,
    pub rows: usize,
    pub cols: usize,
    pub tokens: Vec<String>,
}

impl DeepView for RawShell {
    type V = RawShellV;

    open spec fn deep_view(&self) -> RawShellV {
        RawShellV {
            am: self.am as int,
            rows: self.rows as nat,
            cols: self.cols as nat,
            tokens: self.tokens.deep_view(),
        }
    }
}

/// One parsed section: the element symbol and its shells in file order.
#[derive(Debug, Clone, PartialEq)]
pub struct RawAtom {
    pub symbol: String,
    pub shells: Vec<RawShell>,
}

impl DeepView for RawAtom {
    type V = RawAtomV;

    open spec fn deep_view(&self) -> RawAtomV {
        RawAtomV { symbol: self.symbol@, shells: self.shells.deep_view() }
    }
}

/// First section-header line at or after `i`.
pub open spec fn find_header(lines: Seq<Seq<char>>, i: int) -> int
    decreases lines.len() - i,
{
    if i < 0 || i >= lines.len() {
        lines.len() as int
    } else if is_section_header(lines[i]) {
        i
    } else {
        find_header(lines, i + 1)
    }
}

proof fn lemma_find_header_bounds(lines: Seq<Seq<char>>, i: int)
    requires
        0 <= i <= lines.len(),
    ensures
        i <= find_header(lines, i) <= lines.len(),
    decreases lines.len() - i,
{
    if i < lines.len() && !is_section_header(lines[i]) {
        lemma_find_header_bounds(lines, i + 1);
    }
}

fn find_header_x(lines: &Vec<String>, i: usize) -> (r: usize)
    requires
        i <= lines@.len(),
    ensures
        r as int == find_header(lines.deep_view(), i as int),
        i <= r <= lines@.len(),
    decreases lines@.len() - i,
{
    if i >= lines.len() {
        return lines.len();
    }
    if is_section_header_x(lines[i].as_str()) {
        proof {
            assert(lines.deep_view()[i as int] == lines@[i as int]@);
        }
        i
    } else {
        proof {
            assert(lines.deep_view()[i as int] == lines@[i as int]@);
        }
        find_header_x(lines, i + 1)
    }
}

/// First terminator line at or after `i`.
pub open spec fn find_term(lines: Seq<Seq<char>>, i: int) -> int
    decreases lines.len() - i,
{
    if i < 0 || i >= lines.len() {
        lines.len() as int
    } else if is_terminator(lines[i]) {
        i
    } else {
        find_term(lines, i + 1)
    }
}

proof fn lemma_find_term_bounds(lines: Seq<Seq<char>>, i: int)
    requires
        0 <= i <= lines.len(),
    ensures
        i <= find_term(lines, i) <= lines.len(),
    decreases lines.len() - i,
{
    if i < lines.len() && !is_terminator(lines[i]) {
        lemma_find_term_bounds(lines, i + 1);
    }
}

fn find_term_x(lines: &Vec<String>, i: usize) -> (r: usize)
    requires
        i <= lines@.len(),
    ensures
        r as int == find_term(lines.deep_view(), i as int),
        i <= r <= lines@.len(),
    decreases lines@.len() - i,
{
    if i >= lines.len() {
        return lines.len();
    }
    if is_terminator_x(lines[i].as_str()) {
        proof {
            assert(lines.deep_view()[i as int] == lines@[i as int]@);
        }
        i
    } else {
        proof {
            assert(lines.deep_view()[i as int] == lines@[i as int]@);
        }
        find_term_x(lines, i + 1)
    }
}

/// End of the run of data lines that starts at `i` and may reach `end`.
pub open spec fn data_end(lines: Seq<Seq<char>>, i: int, end: int) -> int
    decreases end - i,
{
    if i < 0 || i >= end || end > lines.len() {
        i
    } else if !is_data_line(lines[i]) {
        i
    } else {
        data_end(lines, i + 1, end)
    }
}

proof fn lemma_data_end_bounds(lines: Seq<Seq<char>>, i: int, end: int)
    requires
        0 <= i <= end,
    ensures
        i <= data_end(lines, i, end) <= end,
    decreases end - i,
{
    if i < end && end <= lines.len() && is_data_line(lines[i]) {
        lemma_data_end_bounds(lines, i + 1, end);
    }
}

fn data_end_x(lines: &Vec<String>, i: usize, end: usize) -> (r: usize)
    requires
        i <= end,
        end <= lines@.len(),
    ensures
        r as int == data_end(lines.deep_view(), i as int, end as int),
        i <= r <= end,
    decreases end - i,
{
    if i >= end {
        return i;
    }
    proof {
        assert(lines.deep_view()[i as int] == lines@[i as int]@);
    }
    if is_data_line_x(lines[i].as_str()) {
        data_end_x(lines, i + 1, end)
    } else {
        i
    }
}

/// The tokens of the data lines `i` to `m`, in reading order.
pub open spec fn block_tokens(lines: Seq<Seq<char>>, i: int, m: int) -> Seq<Seq<char>>
    decreases m - i,
{
    if i < 0 || i >= m || m > lines.len() {
        Seq::empty()
    } else {
        spec_tokens_from(lines[i], 0) + block_tokens(lines, i + 1, m)
    }
}

fn block_tokens_x(lines: &Vec<String>, i: usize, m: usize) -> (r: Vec<String>)
    requires
        i <= m,
        m <= lines@.len(),
    ensures
        r.deep_view() == block_tokens(lines.deep_view(), i as int, m as int),
    decreases m - i,
{
    if i >= m {
        let r: Vec<String> = Vec::new();
        proof {
            assert(r.deep_view() =~= block_tokens(lines.deep_view(), i as int, m as int));
        }
        return r;
    }
    let line = lines[i].as_str();
    let n = line.unicode_len();
    proof {
        assert(lines.deep_view()[i as int] == lines@[i as int]@);
    }
    let mut first = tokens_from(line, n, 0);
    let mut rest = block_tokens_x(lines, i + 1, m);
    let ghost f = first.deep_view();
    let ghost re = rest.deep_view();
    first.append(&mut rest);
    proof {
        assert(first.deep_view() =~= f + re);
        assert(first.deep_view() =~= block_tokens(lines.deep_view(), i as int, m as int));
    }
    first
}

pub open spec fn all_floats(ts: Seq<Seq<char>>) -> bool {
    forall|i: int| 0 <= i < ts.len() ==> is_float_token(#[trigger] ts[i])
}

fn all_floats_x(ts: &Vec<String>) -> (r: bool)
    ensures
        r == all_floats(ts.deep_view()),
{
    let n = ts.len();
    for i in 0..n
        invariant
            n == ts@.len(),
            forall|k: int| 0 <= k < i ==> is_float_token(#[trigger] ts.deep_view()[k]),
    {
        proof {
            assert(ts.deep_view()[i as int] == ts@[i as int]@);
        }
        if !is_float_x(ts[i].as_str()) {
            return false;
        }
    }
    true
}

/// The shell blocks between `i` and `end`, each paired with the symbol
/// of its own header line; the first failing block aborts the parse.
pub open spec fn sp_blocks(lines: Seq<Seq<char>>, i: int, end: int) -> Result<
    Seq<(Seq<char>, RawShellV)>,
    BasisError,
>
    decreases end - i,
    via sp_blocks_dec
{
    if i < 0 || i >= end || end > lines.len() {
        Ok(Seq::empty())
    } else {
        match shell_header(lines[i]) {
            None => sp_blocks(lines, i + 1, end),
            Some((sym, letter)) => {
                let m = data_end(lines, i + 1, end);
                if m == i + 1 {
                    sp_blocks(lines, i + 1, end)
                } else {
                    let toks = block_tokens(lines, i + 1, m);
                    if !all_floats(toks) {
                        Err(BasisError::MalformedNumber)
                    } else {
                        match am_of(letter) {
                            None => Err(BasisError::UnsupportedShellKind),
                            Some(am) => {
                                let h = m - (i + 1);
                                if toks.len() as int % h != 0 {
                                    Err(BasisError::RaggedShellMatrix)
                                } else {
                                    match sp_blocks(lines, m, end) {
                                        Err(e) => Err(e),
                                        Ok(rest) => Ok(
                                            seq![
                                                (
                                                    sym,
                                                    RawShellV {
                                                        am,
                                                        rows: h as nat,
                                                        cols: (toks.len() as int / h) as nat,
                                                        tokens: toks,
                                                    },
                                                ),
                                            ] + rest,
                                        ),
                                    }
                                }
                            },
                        }
                    }
                }
            },
        }
    }
}

#[via_fn]
proof fn sp_blocks_dec(lines: Seq<Seq<char>>, i: int, end: int) {
    if 0 <= i && i < end && end <= lines.len() {
        lemma_data_end_bounds(lines, i + 1, end);
    }
}

/// The parsed sections from line `i` on: each terminated section with
/// at least one shell block yields one entry, carrying the symbol of
/// its first block.
pub open spec fn sp_sections(lines: Seq<Seq<char>>, i: int) -> Result<Seq<RawAtomV>, BasisError>
    decreases lines.len() - i,
    via sp_sections_dec
{
    if i < 0 || i > lines.len() {
        Ok(Seq::empty())
    } else {
        let h = find_header(lines, i);
        if h >= lines.len() {
            Ok(Seq::empty())
        } else {
            let t = find_term(lines, h + 1);
            if t >= lines.len() {
                Ok(Seq::empty())
            } else {
                match sp_blocks(lines, h + 1, t) {
                    Err(e) => Err(e),
                    Ok(blocks) => match sp_sections(lines, t + 1) {
                        Err(e) => Err(e),
                        Ok(rest) => if blocks.len() == 0 {
                            Ok(rest)
                        } else {
                            Ok(
                                seq![
                                    RawAtomV {
                                        symbol: blocks[0].0,
                                        shells: blocks.map_values(
                                            |b: (Seq<char>, RawShellV)| b.1,
                                        ),
                                    },
                                ] + rest,
                            )
                        },
                    },
                }
            }
        }
    }
}

#[via_fn]
proof fn sp_sections_dec(lines: Seq<Seq<char>>, i: int) {
    if 0 <= i <= lines.len() {
        lemma_find_header_bounds(lines, i);
        let h = find_header(lines, i);
        if h < lines.len() {
            lemma_find_term_bounds(lines, h + 1);
        }
    }
}

/// The parse of a whole file's text.
pub open spec fn spec_parse(text: Seq<char>) -> Result<Seq<RawAtomV>, BasisError> {
    sp_sections(spec_lines_from(text, 0), 0)
}

/// Well-formedness of a parsed shell: code in the table, at least one
/// row, at least one token per row on average, the matrix exactly
/// rectangular over the block's tokens, every token a float.
pub open spec fn wf_raw_shell(s: RawShellV) -> bool {
    &&& 0 <= s.am <= 6
    &&& s.rows >= 1
    &&& s.rows * s.cols == s.tokens.len()
    &&& all_floats(s.tokens)
}

pub open spec fn wf_raw_atoms(atoms: Seq<RawAtomV>) -> bool {
    forall|i: int, j: int|
        0 <= i < atoms.len() && 0 <= j < atoms[i].shells.len() ==> wf_raw_shell(
            #[trigger] atoms[i].shells[j],
        )
}

proof fn lemma_sp_blocks_wf(lines: Seq<Seq<char>>, i: int, end: int)
    requires
        sp_blocks(lines, i, end) is Ok,
    ensures
        forall|j: int|
            0 <= j < sp_blocks(lines, i, end)->Ok_0.len() ==> wf_raw_shell(
                (#[trigger] sp_blocks(lines, i, end)->Ok_0[j]).1,
            ),
    decreases end - i,
{
    if i < 0 || i >= end || end > lines.len() {
    } else {
        match shell_header(lines[i]) {
            None => {
                lemma_sp_blocks_wf(lines, i + 1, end);
            },
            Some((sym, letter)) => {
                let m = data_end(lines, i + 1, end);
                lemma_data_end_bounds(lines, i + 1, end);
                if m == i + 1 {
                    lemma_sp_blocks_wf(lines, i + 1, end);
                } else {
                    let toks = block_tokens(lines, i + 1, m);
                    if all_floats(toks) && am_of(letter) is Some && toks.len() as int % (m - (i
                        + 1)) == 0 {
                        lemma_sp_blocks_wf(lines, m, end);
                        let h = m - (i + 1);
                        assert(h * (toks.len() as int / h) == toks.len()) by (nonlinear_arith)
                            requires
                                h >= 1,
                                toks.len() as int % h == 0,
                        ;
                        assert(0 <= am_of(letter)->0 <= 6);
                    }
                }
            },
        }
    }
}

/// Shape soundness of the parse: every shell of every entry is well
/// formed; in particular `rows * cols` is exactly the count of tokens
/// extracted from the shell's block.
pub proof fn lemma_parse_shapes(lines: Seq<Seq<char>>, i: int)
    requires
        sp_sections(lines, i) is Ok,
    ensures
        wf_raw_atoms(sp_sections(lines, i)->Ok_0),
    decreases lines.len() - i,
{
    if i < 0 || i > lines.len() {
    } else {
        let h = find_header(lines, i);
        if h < lines.len() {
            let t = find_term(lines, h + 1);
            if t < lines.len() {
                lemma_find_header_bounds(lines, i);
                lemma_find_term_bounds(lines, h + 1);
                let blocks = sp_blocks(lines, h + 1, t)->Ok_0;
                lemma_sp_blocks_wf(lines, h + 1, t);
                lemma_parse_shapes(lines, t + 1);
                let rest = sp_sections(lines, t + 1)->Ok_0;
                if blocks.len() > 0 {
                    let entry = RawAtomV {
                        symbol: blocks[0].0,
                        shells: blocks.map_values(|b: (Seq<char>, RawShellV)| b.1),
                    };
                    let all = seq![entry] + rest;
                    assert forall|a: int, j: int|
                        0 <= a < all.len() && 0 <= j < all[a].shells.len() implies wf_raw_shell(
                        #[trigger] all[a].shells[j],
                    ) by {
                        if a == 0 {
                            assert(all[0].shells[j] == blocks[j].1);
                        } else {
                            assert(all[a] == rest[a - 1]);
                        }
                    }
                }
            }
        }
    }
}

fn parse_blocks_x(lines: &Vec<String>, i: usize, end: usize) -> (r: Result<
    (Option<String>, Vec<RawShell>),
    BasisError,
>)
    requires
        i <= end,
        end <= lines@.len(),
    ensures
        match r {
            Ok(p) => sp_blocks(lines.deep_view(), i as int, end as int) matches Ok(bs) && {
                &&& p.1.deep_view().len() == bs.len()
                &&& forall|j: int| 0 <= j < bs.len() ==> p.1.deep_view()[j] == (
                #[trigger] bs[j]).1
                &&& (bs.len() == 0 <==> p.0 is None)
                &&& (bs.len() > 0 ==> (p.0 matches Some(s) && s@ == bs[0].0))
            },
            Err(e) => sp_blocks(lines.deep_view(), i as int, end as int) == Err::<
                Seq<(Seq<char>, RawShellV)>,
                BasisError,
            >(e),
        },
    decreases end - i,
{
    let ghost dv = lines.deep_view();
    if i >= end {
        let v: Vec<RawShell> = Vec::new();
        return Ok((None, v));
    }
    proof {
        assert(dv[i as int] == lines@[i as int]@);
    }
    let header = shell_header_x(lines[i].as_str());
    let (sym, letter) = match header {
        None => {
            return parse_blocks_x(lines, i + 1, end);
        },
        Some(p) => p,
    };
    let m = data_end_x(lines, i + 1, end);
    if m == i + 1 {
        return parse_blocks_x(lines, i + 1, end);
    }
    let toks = block_tokens_x(lines, i + 1, m);
    if !all_floats_x(&toks) {
        return Err(BasisError::MalformedNumber);
    }
    let am = match get_angular_momentum(letter) {
        Ok(a) => a,
        Err(e) => {
            return Err(e);
        },
    };
    let h = m - (i + 1);
    let tot = toks.len();
    if tot % h != 0 {
        return Err(BasisError::RaggedShellMatrix);
    }
    let cols = tot / h;
    let shell = RawShell { am, rows: h, cols, tokens: toks };
    let rest = match parse_blocks_x(lines, m, end) {
        Ok(p) => p,
        Err(e) => {
            return Err(e);
        },
    };
    let (_, mut shells) = rest;
    let ghost tail = shells.deep_view();
    shells.insert(0, shell);
    proof {
        let bs = sp_blocks(dv, i as int, end as int)->Ok_0;
        let rbs = sp_blocks(dv, m as int, end as int)->Ok_0;
        assert(bs[0].1 == shell.deep_view());
        assert forall|j: int| 0 <= j < bs.len() implies shells.deep_view()[j] == (
        #[trigger] bs[j]).1 by {
            if j > 0 {
                assert(bs[j] == rbs[j - 1]);
                assert(shells.deep_view()[j] == tail[j - 1]);
            }
        }
    }
    Ok((Some(sym), shells))
}

fn parse_sections_x(lines: &Vec<String>, i: usize) -> (r: Result<Vec<RawAtom>, BasisError>)
    requires
        i <= lines@.len(),
    ensures
        match r {
            Ok(v) => sp_sections(lines.deep_view(), i as int) matches Ok(atoms) && v.deep_view()
                == atoms,
            Err(e) => sp_sections(lines.deep_view(), i as int) == Err::<Seq<RawAtomV>, BasisError>(
                e,
            ),
        },
    decreases lines@.len() - i,
{
    let ghost dv = lines.deep_view();
    let h = find_header_x(lines, i);
    if h >= lines.len() {
        let v: Vec<RawAtom> = Vec::new();
        proof {
            assert(v.deep_view() =~= Seq::<RawAtomV>::empty());
        }
        return Ok(v);
    }
    let t = find_term_x(lines, h + 1);
    if t >= lines.len() {
        let v: Vec<RawAtom> = Vec::new();
        proof {
            assert(v.deep_view() =~= Seq::<RawAtomV>::empty());
        }
        return Ok(v);
    }
    let blocks = match parse_blocks_x(lines, h + 1, t) {
        Ok(p) => p,
        Err(e) => {
            return Err(e);
        },
    };
    let mut rest = match parse_sections_x(lines, t + 1) {
        Ok(v) => v,
        Err(e) => {
            return Err(e);
        },
    };
    match blocks.0 {
        None => Ok(rest),
        Some(sym) => {
            let entry = RawAtom { symbol: sym, shells: blocks.1 };
            let ghost ev = entry.deep_view();
            let ghost tail = rest.deep_view();
            rest.insert(0, entry);
            proof {
                let atoms = sp_sections(dv, i as int)->Ok_0;
                let h_ = find_header(dv, i as int);
                let t_ = find_term(dv, h_ + 1);
                let bs = sp_blocks(dv, h_ + 1, t_)->Ok_0;
                assert(atoms[0].shells =~= bs.map_values(|b: (Seq<char>, RawShellV)| b.1));
                assert(ev.shells =~= atoms[0].shells);
                assert(ev == atoms[0]);
                assert forall|j: int| 0 <= j < atoms.len() implies rest.deep_view()[j] == (
                #[trigger] atoms[j]) by {
                    if j > 0 {
                        assert(rest.deep_view()[j] == tail[j - 1]);
                    }
                }
                assert(rest.deep_view() =~= atoms);
            }
            Ok(rest)
        },
    }
}

/// Parses a whole basis definition file: one entry per terminated
/// `BASIS SET` section holding at least one shell block, in file order,
/// duplicates kept. The result is exactly `spec_parse` of the text, and
/// every shell of a successful parse is well formed (`wf_raw_atoms`).
pub fn parse_basis(text: &str) -> (r: Result<Vec<RawAtom>, BasisError>)
    ensures
        match r {
            Ok(v) => spec_parse(text@) matches Ok(atoms) && v.deep_view() == atoms && wf_raw_atoms(
                atoms,
            ),
            Err(e) => spec_parse(text@) == Err::<Seq<RawAtomV>, BasisError>(e),
        },
{
    let n = text.unicode_len();
    let lines = lines_from(text, n, 0);
    let r = parse_sections_x(&lines, 0);
    proof {
        if r is Ok {
            lemma_parse_shapes(lines.deep_view(), 0);
        }
    }
    r
}

} // verus!
