//! The grammar of SVG path data (the `d` attribute of a `path` element):
//! command letters, each with the number tokens it takes, repeated while
//! complete groups of numbers follow. The numbers are kept as text; what
//! they mean as coordinates is left to the caller.

use super::svg::{is_separator, skip_whitespace_and_commas};
use crate::records::sub_chars;
use crate::text::{chars_to_string, str_chars, str_views};
use vstd::prelude::*;

verus! {

/// Whether `char::is_numeric` holds of `c` (the Unicode numeric
/// categories).
pub uninterp spec fn numeric(c: char) -> bool;

/// `char::is_numeric`: whether the character is in one of Unicode's numeric
/// categories. Its result is named, not described.
#[verifier::external_body]
fn is_numeric_char(c: char) -> (r: bool)
    ensures
        r == numeric(c),
{
    c.is_numeric()
}

/// Characters a number token is made of.
pub open spec fn token_char(c: char) -> bool {
    numeric(c) || c == '.' || c == '-' || c == '+' || c == 'e' || c == 'E'
}

/// Characters that start the parameters skipped after an unknown command.
pub open spec fn token_start(c: char) -> bool {
    numeric(c) || c == '.' || c == '-' || c == '+'
}

/// The first position at or after `i` that holds no separator.
pub open spec fn skip_seps(t: Seq<char>, i: int) -> int
    decreases t.len() - i,
{
    if 0 <= i < t.len() && is_separator(t[i]) {
        skip_seps(t, i + 1)
    } else {
        i
    }
}

/// The end of the run of token characters starting at `i`.
pub open spec fn token_end(t: Seq<char>, i: int) -> int
    decreases t.len() - i,
{
    if 0 <= i < t.len() && token_char(t[i]) {
        token_end(t, i + 1)
    } else {
        i
    }
}

/// The end of the run of ASCII digits starting at `i`.
pub open spec fn digits_end(s: Seq<char>, i: int) -> int
    decreases s.len() - i,
{
    if 0 <= i < s.len() && '0' <= s[i] <= '9' {
        digits_end(s, i + 1)
    } else {
        i
    }
}

/// The exponent part `e`, an optional sign and one or more digits, running
/// from `c` to the end of `s`.
pub open spec fn exponent_at(s: Seq<char>, c: int) -> bool {
    let d = if c + 1 < s.len() && (s[c + 1] == '+' || s[c + 1] == '-') {
        c + 2
    } else {
        c + 1
    };
    &&& 0 <= c < s.len()
    &&& (s[c] == 'e' || s[c] == 'E')
    &&& d < s.len()
    &&& digits_end(s, d) == s.len()
}

/// A decimal floating-point literal as `f64::from_str` documents them: an
/// optional sign, digits with an optional `.` and at least one digit, and
/// an optional exponent.
pub open spec fn float_literal(s: Seq<char>) -> bool {
    let a: int = if s.len() > 0 && (s[0] == '+' || s[0] == '-') {
        1
    } else {
        0
    };
    let b = digits_end(s, a);
    let dot = b < s.len() && s[b] == '.';
    let c = if dot {
        digits_end(s, b + 1)
    } else {
        b
    };
    let frac: int = if dot {
        c - (b + 1)
    } else {
        0
    };
    &&& (b - a) + frac > 0
    &&& (c == s.len() || exponent_at(s, c))
}

/// Reads one number from `i`: separators are skipped, then the run of token
/// characters is taken; the token is given when it is a literal. Also gives
/// the position after what was read.
pub open spec fn read_number(t: Seq<char>, i: int) -> (int, Option<Seq<char>>) {
    let j = skip_seps(t, i);
    let k = token_end(t, j);
    if k == j {
        (j, None)
    } else if float_literal(t.subrange(j, k)) {
        (k, Some(t.subrange(j, k)))
    } else {
        (k, None)
    }
}

/// `p` put in front of the tokens of a read, when it succeeded.
pub open spec fn prepend(p: Seq<Seq<char>>, r: (int, Option<Seq<Seq<char>>>)) -> (int, Option<Seq<Seq<char>>>) {
    (
        r.0,
        match r.1 {
            Some(x) => Some(p + x),
            None => None,
        },
    )
}

/// Reads `n` numbers from `i`, stopping at the first that fails; the tokens
/// when all `n` were read.
pub open spec fn read_numbers(t: Seq<char>, i: int, n: nat) -> (int, Option<Seq<Seq<char>>>)
    decreases n,
{
    if n == 0 {
        (i, Some(Seq::empty()))
    } else {
        let r = read_number(t, i);
        match r.1 {
            None => (r.0, None),
            Some(tok) => prepend(seq![tok], read_numbers(t, r.0, (n - 1) as nat)),
        }
    }
}

/// For a path command letter: the command in upper case, how many numbers
/// one group of its parameters holds, and whether groups repeat.
pub open spec fn command_info(c: char) -> Option<(char, nat, bool)> {
    if c == 'M' || c == 'm' {
        Some(('M', 2, false))
    } else if c == 'L' || c == 'l' {
        Some(('L', 2, true))
    } else if c == 'H' || c == 'h' {
        Some(('H', 1, false))
    } else if c == 'V' || c == 'v' {
        Some(('V', 1, false))
    } else if c == 'C' || c == 'c' {
        Some(('C', 6, true))
    } else if c == 'S' || c == 's' {
        Some(('S', 4, true))
    } else if c == 'Q' || c == 'q' {
        Some(('Q', 4, true))
    } else if c == 'T' || c == 't' {
        Some(('T', 2, true))
    } else if c == 'A' || c == 'a' {
        Some(('A', 7, true))
    } else if c == 'Z' || c == 'z' {
        Some(('Z', 0, false))
    } else {
        None
    }
}

/// One command of path data: its letter in upper case, whether it was
/// written in lower case (relative), and its number tokens.
pub struct PathCmd {
    pub letter: char,
    pub relative: bool,
    pub args: Seq<Seq<char>>,
}

/// The command written with letter `c` and parameters `args`.
pub open spec fn path_cmd(c: char, args: Seq<Seq<char>>) -> PathCmd {
    let up = command_info(c).unwrap().0;
    PathCmd { letter: up, relative: c != up, args }
}

/// The parameters after an unknown command are skipped: separators and
/// number tokens, up to the next other character.
pub open spec fn skip_other(t: Seq<char>, i: int) -> int
    decreases t.len() - i,
{
    if 0 <= i < t.len() {
        if is_separator(t[i]) {
            skip_other(t, i + 1)
        } else if token_start(t[i]) {
            proof {
                lemma_token_end(t, i);
            }
            skip_other(t, token_end(t, i))
        } else {
            i
        }
    } else {
        i
    }
}

/// The commands of a repeating command with letter `c`, from `i` on: one
/// for each complete group of `n` numbers, until a group fails; with the
/// position after the failed group.
pub open spec fn repeat_cmds(t: Seq<char>, i: int, c: char, n: nat) -> (Seq<PathCmd>, int)
    decreases t.len() - i,
{
    let r = read_numbers(t, i, n);
    match r.1 {
        Some(args) => if 0 <= i <= t.len() && n > 0 {
            proof {
                lemma_read_numbers(t, i, n);
            }
            let rest = repeat_cmds(t, r.0, c, n);
            (seq![path_cmd(c, args)] + rest.0, rest.1)
        } else {
            (Seq::empty(), r.0)
        },
        None => (Seq::empty(), r.0),
    }
}

/// The commands of path data from position `i` on. A letter that is no
/// command is skipped with its parameters; a command whose parameters are
/// incomplete gives nothing.
pub open spec fn path_from(t: Seq<char>, i: int) -> Seq<PathCmd>
    decreases t.len() - i,
{
    if i < 0 || i >= t.len() {
        Seq::empty()
    } else {
        let c = t[i];
        match command_info(c) {
            Some(info) => if info.2 {
                proof {
                    lemma_repeat_cmds(t, i + 1, c, info.1);
                }
                let r = repeat_cmds(t, i + 1, c, info.1);
                r.0 + path_from(t, r.1)
            } else {
                proof {
                    lemma_read_numbers(t, i + 1, info.1);
                }
                let r = read_numbers(t, i + 1, info.1);
                match r.1 {
                    Some(args) => seq![path_cmd(c, args)] + path_from(t, r.0),
                    None => path_from(t, r.0),
                }
            },
            None => {
                proof {
                    lemma_skip_other(t, i + 1);
                }
                path_from(t, skip_other(t, i + 1))
            },
        }
    }
}

/// The commands of the path data `d`.
pub open spec fn path_commands_spec(d: Seq<char>) -> Seq<PathCmd> {
    path_from(d, 0)
}

pub proof fn lemma_skip_seps(t: Seq<char>, i: int)
    requires
        0 <= i <= t.len(),
    ensures
        i <= skip_seps(t, i) <= t.len(),
    decreases t.len() - i,
{
    if i < t.len() && is_separator(t[i]) {
        lemma_skip_seps(t, i + 1);
    }
}

pub proof fn lemma_token_end(t: Seq<char>, i: int)
    requires
        0 <= i <= t.len(),
    ensures
        i <= token_end(t, i) <= t.len(),
        i < t.len() && token_char(t[i]) ==> token_end(t, i) > i,
    decreases t.len() - i,
{
    if i < t.len() && token_char(t[i]) {
        lemma_token_end(t, i + 1);
    }
}

pub proof fn lemma_read_number(t: Seq<char>, i: int)
    requires
        0 <= i <= t.len(),
    ensures
        i <= read_number(t, i).0 <= t.len(),
        read_number(t, i).1 is Some ==> read_number(t, i).0 > i,
{
    lemma_skip_seps(t, i);
    lemma_token_end(t, skip_seps(t, i));
}

pub proof fn lemma_read_numbers(t: Seq<char>, i: int, n: nat)
    requires
        0 <= i <= t.len(),
    ensures
        i <= read_numbers(t, i, n).0 <= t.len(),
        n > 0 && read_numbers(t, i, n).1 is Some ==> read_numbers(t, i, n).0 > i,
    decreases n,
{
    if n > 0 {
        lemma_read_number(t, i);
        let r = read_number(t, i);
        if r.1 is Some {
            lemma_read_numbers(t, r.0, (n - 1) as nat);
        }
    }
}

pub proof fn lemma_repeat_cmds(t: Seq<char>, i: int, c: char, n: nat)
    requires
        0 <= i <= t.len(),
    ensures
        i <= repeat_cmds(t, i, c, n).1 <= t.len(),
    decreases t.len() - i,
{
    lemma_read_numbers(t, i, n);
    let r = read_numbers(t, i, n);
    if r.1 is Some && n > 0 {
        lemma_repeat_cmds(t, r.0, c, n);
    }
}

pub proof fn lemma_skip_other(t: Seq<char>, i: int)
    requires
        0 <= i <= t.len(),
    ensures
        i <= skip_other(t, i) <= t.len(),
    decreases t.len() - i,
{
    if i < t.len() {
        if is_separator(t[i]) {
            lemma_skip_other(t, i + 1);
        } else if token_start(t[i]) {
            lemma_token_end(t, i);
            lemma_skip_other(t, token_end(t, i));
        }
    }
}

/// The repeating commands, each with its upper-case letter and the size
/// of one group of its parameters.
pub open spec fn repeating_command(c: char, up: char, n: nat) -> bool {
    ||| (c == 'L' || c == 'l') && up == 'L' && n == 2
    ||| (c == 'C' || c == 'c') && up == 'C' && n == 6
    ||| (c == 'S' || c == 's') && up == 'S' && n == 4
    ||| (c == 'Q' || c == 'q') && up == 'Q' && n == 4
    ||| (c == 'T' || c == 't') && up == 'T' && n == 2
    ||| (c == 'A' || c == 'a') && up == 'A' && n == 7
}

proof fn lemma_repeat_groups(
    d: Seq<char>,
    c: char,
    up: char,
    n: nat,
    groups: Seq<Seq<Seq<char>>>,
    ends: Seq<int>,
    m: int,
)
    requires
        repeating_command(c, up, n),
        ends.len() == groups.len() + 1,
        0 <= m <= groups.len(),
        0 <= ends[m] <= d.len(),
        forall|q: int| 0 <= q < groups.len() ==> #[trigger] read_numbers(d, ends[q], n) == (ends[q + 1], Some(groups[q])),
    ensures
        repeat_cmds(d, ends[m], c, n).0.len() >= groups.len() - m,
        forall|q: int| 0 <= q < groups.len() - m ==> #[trigger] repeat_cmds(d, ends[m], c, n).0[q] == (PathCmd {
            letter: up,
            relative: c != up,
            args: groups[m + q],
        }),
    decreases groups.len() - m,
{
    if m < groups.len() {
        assert(read_numbers(d, ends[m], n) == (ends[m + 1], Some(groups[m])));
        lemma_read_numbers(d, ends[m], n);
        lemma_repeat_groups(d, c, up, n, groups, ends, m + 1);
        let rest = repeat_cmds(d, ends[m + 1], c, n);
        let r = repeat_cmds(d, ends[m], c, n);
        assert(r.0 == seq![path_cmd(c, groups[m])] + rest.0);
        assert forall|q: int| 0 <= q < groups.len() - m implies #[trigger] r.0[q] == (PathCmd {
            letter: up,
            relative: c != up,
            args: groups[m + q],
        }) by {
            if q > 0 {
                assert(r.0[q] == rest.0[q - 1]);
            }
        }
    }
}

/// A repeating command (`L`, `C`, `S`, `Q`, `T`, `A`, in either case)
/// followed by `k` complete groups of its parameters gives `k` commands of
/// that letter, one for each group, in order.
pub proof fn lemma_groups_repeat(
    d: Seq<char>,
    i: int,
    c: char,
    up: char,
    n: nat,
    groups: Seq<Seq<Seq<char>>>,
    ends: Seq<int>,
)
    requires
        0 <= i < d.len(),
        d[i] == c,
        repeating_command(c, up, n),
        ends.len() == groups.len() + 1,
        ends[0] == i + 1,
        forall|q: int| 0 <= q < groups.len() ==> #[trigger] read_numbers(d, ends[q], n) == (ends[q + 1], Some(groups[q])),
    ensures
        path_from(d, i).len() >= groups.len(),
        forall|q: int| 0 <= q < groups.len() ==> #[trigger] path_from(d, i)[q] == (PathCmd {
            letter: up,
            relative: c != up,
            args: groups[q],
        }),
{
    lemma_repeat_groups(d, c, up, n, groups, ends, 0);
    lemma_repeat_cmds(d, i + 1, c, n);
    let r = repeat_cmds(d, i + 1, c, n);
    assert(command_info(c) == Some((up, n, true)));
    assert(path_from(d, i) == r.0 + path_from(d, r.1));
    assert forall|q: int| 0 <= q < groups.len() implies #[trigger] path_from(d, i)[q] == (PathCmd {
        letter: up,
        relative: c != up,
        args: groups[q],
    }) by {
        assert(path_from(d, i)[q] == r.0[q]);
        assert(r.0[q] == (PathCmd { letter: up, relative: c != up, args: groups[0 + q] }));
    }
}

/// A position reached by skipping separators is where `skip_seps` stops.
proof fn lemma_skip_seps_at(t: Seq<char>, i: int, r: int)
    requires
        0 <= i <= r <= t.len(),
        forall|k: int| i <= k < r ==> is_separator(#[trigger] t[k]),
        r == t.len() || !is_separator(t[r]),
    ensures
        skip_seps(t, i) == r,
    decreases r - i,
{
    if i < r {
        lemma_skip_seps_at(t, i + 1, r);
    }
}

/// One command of path data.
#[derive(Debug, Clone, PartialEq)]
pub struct PathCommand {
    /// The command letter, in upper case.
    pub letter: char,
    /// Whether the command was written in lower case.
    pub relative: bool,
    /// Its number tokens, as written.
    pub args: Vec<String>,
}

impl View for PathCommand {
    type V = PathCmd;

    open spec fn view(&self) -> PathCmd {
        PathCmd { letter: self.letter, relative: self.relative, args: str_views(self.args@) }
    }
}

/// The views of a sequence of commands.
pub open spec fn path_views(v: Seq<PathCommand>) -> Seq<PathCmd> {
    v.map_values(|c: PathCommand| c@)
}

/// The end of the run of token characters from `i`.
fn scan_token(t: &Vec<char>, i: usize) -> (r: usize)
    requires
        i <= t@.len(),
    ensures
        r == token_end(t@, i as int),
{
    let mut j = i;
    while j < t.len() && (is_numeric_char(t[j]) || t[j] == '.' || t[j] == '-' || t[j] == '+'
        || t[j] == 'e' || t[j] == 'E')
        invariant
            i <= j <= t@.len(),
            token_end(t@, j as int) == token_end(t@, i as int),
        decreases t@.len() - j,
    {
        j = j + 1;
    }
    j
}

/// The end of the run of ASCII digits from `i`.
fn scan_digits(s: &Vec<char>, i: usize) -> (r: usize)
    requires
        i <= s@.len(),
    ensures
        r == digits_end(s@, i as int),
        i <= r <= s@.len(),
{
    let mut j = i;
    while j < s.len() && '0' <= s[j] && s[j] <= '9'
        invariant
            i <= j <= s@.len(),
            digits_end(s@, j as int) == digits_end(s@, i as int),
        decreases s@.len() - j,
    {
        j = j + 1;
    }
    j
}

/// Whether `s` is a decimal floating-point literal.
fn is_float_literal(s: &Vec<char>) -> (r: bool)
    ensures
        r == float_literal(s@),
{
    let n = s.len();
    let a: usize = if n > 0 && (s[0] == '+' || s[0] == '-') {
        1
    } else {
        0
    };
    let b = scan_digits(s, a);
    let dot = b < n && s[b] == '.';
    let c = if dot {
        scan_digits(s, b + 1)
    } else {
        b
    };
    let frac: usize = if dot {
        c - (b + 1)
    } else {
        0
    };
    if (b - a) + frac == 0 {
        return false;
    }
    if c == n {
        return true;
    }
    if !(s[c] == 'e' || s[c] == 'E') {
        return false;
    }
    let d = if c + 1 < n && (s[c + 1] == '+' || s[c + 1] == '-') {
        c + 2
    } else {
        c + 1
    };
    d < n && scan_digits(s, d) == n
}

/// Reads one number from `i` (see `read_number`).
fn read_number_at(t: &Vec<char>, i: usize) -> (r: (usize, Option<String>))
    requires
        i <= t@.len(),
    ensures
        r.0 == read_number(t@, i as int).0,
        match read_number(t@, i as int).1 {
            Some(tok) => r.1 matches Some(s) && s@ == tok,
            None => r.1 is None,
        },
{
    let j = skip_whitespace_and_commas(t, i);
    proof {
        lemma_skip_seps_at(t@, i as int, j as int);
    }
    let k = scan_token(t, j);
    proof {
        lemma_token_end(t@, j as int);
    }
    if k == j {
        return (j, None);
    }
    let tok = sub_chars(t, j, k);
    if is_float_literal(&tok) {
        (k, Some(chars_to_string(&tok)))
    } else {
        (k, None)
    }
}

/// Reads `n` numbers from `i` (see `read_numbers`).
fn read_numbers_at(t: &Vec<char>, i: usize, n: usize) -> (r: (usize, Option<Vec<String>>))
    requires
        i <= t@.len(),
    ensures
        r.0 == read_numbers(t@, i as int, n as nat).0,
        match read_numbers(t@, i as int, n as nat).1 {
            Some(toks) => r.1 matches Some(v) && str_views(v@) == toks,
            None => r.1 is None,
        },
{
    let mut toks: Vec<String> = Vec::new();
    let mut cur = i;
    let mut m: usize = 0;
    while m < n
        invariant
            m <= n,
            cur <= t@.len(),
            read_numbers(t@, i as int, n as nat) == prepend(
                str_views(toks@),
                read_numbers(t@, cur as int, (n - m) as nat),
            ),
        decreases n - m,
    {
        let ghost before = str_views(toks@);
        proof {
            lemma_read_number(t@, cur as int);
        }
        let (j, x) = read_number_at(t, cur);
        match x {
            None => {
                return (j, None);
            },
            Some(tok) => {
                let ghost tv = tok@;
                toks.push(tok);
                proof {
                    assert(str_views(toks@) =~= before + seq![tv]);
                    let rest = read_numbers(t@, j as int, (n - m - 1) as nat);
                    assert(prepend(before, prepend(seq![tv], rest)) == prepend(before + seq![tv], rest)) by {
                        match rest.1 {
                            Some(x) => {
                                assert(before + (seq![tv] + x) =~= (before + seq![tv]) + x);
                            },
                            None => {},
                        }
                    }
                }
                cur = j;
            },
        }
        m = m + 1;
    }
    proof {
        assert(str_views(toks@) + Seq::<Seq<char>>::empty() =~= str_views(toks@));
    }
    (cur, Some(toks))
}

/// The upper-case letter, group size and repetition of a command letter.
fn command_info_of(c: char) -> (r: Option<(char, usize, bool)>)
    ensures
        match command_info(c) {
            Some(info) => r matches Some(x) && x.0 == info.0 && x.1 == info.1 && x.2 == info.2,
            None => r is None,
        },
{
    if c == 'M' || c == 'm' {
        Some(('M', 2, false))
    } else if c == 'L' || c == 'l' {
        Some(('L', 2, true))
    } else if c == 'H' || c == 'h' {
        Some(('H', 1, false))
    } else if c == 'V' || c == 'v' {
        Some(('V', 1, false))
    } else if c == 'C' || c == 'c' {
        Some(('C', 6, true))
    } else if c == 'S' || c == 's' {
        Some(('S', 4, true))
    } else if c == 'Q' || c == 'q' {
        Some(('Q', 4, true))
    } else if c == 'T' || c == 't' {
        Some(('T', 2, true))
    } else if c == 'A' || c == 'a' {
        Some(('A', 7, true))
    } else if c == 'Z' || c == 'z' {
        Some(('Z', 0, false))
    } else {
        None
    }
}

/// Skips the parameters of an unknown command (see `skip_other`).
fn skip_other_at(t: &Vec<char>, i: usize) -> (r: usize)
    requires
        i <= t@.len(),
    ensures
        r == skip_other(t@, i as int),
{
    let mut j = i;
    while j < t.len()
        invariant
            i <= j <= t@.len(),
            skip_other(t@, j as int) == skip_other(t@, i as int),
        decreases t@.len() - j,
    {
        let c = t[j];
        if is_whitespace_or_comma(c) {
            j = j + 1;
        } else if is_numeric_char(c) || c == '.' || c == '-' || c == '+' {
            proof {
                lemma_token_end(t@, j as int);
            }
            j = scan_token(t, j);
        } else {
            return j;
        }
    }
    j
}

fn is_whitespace_or_comma(c: char) -> (r: bool)
    ensures
        r == is_separator(c),
{
    crate::text::is_whitespace_char(c) || c == ','
}

/// The commands of the SVG path data `d`, in order: each command letter
/// with the number tokens of one group of its parameters. A repeating
/// command (`L`, `C`, `S`, `Q`, `T`, `A`) gives one command for each
/// complete group that follows it; `M`, `H` and `V` take one group and `Z`
/// none. A number is read after any white space and commas as the longest
/// run of numeric characters, `.`, `+`, `-`, `e` and `E`, and counts only
/// when it is a decimal literal; a command whose group is incomplete gives
/// nothing for that group. Any other character is skipped together with the
/// separators and numbers after it.
pub fn path_commands(d: &str) -> (r: Vec<PathCommand>)
    ensures
        path_views(r@) == path_commands_spec(d@),
{
    let t = str_chars(d);
    let mut out: Vec<PathCommand> = Vec::new();
    let mut i: usize = 0;
    proof {
        assert(path_views(out@) =~= Seq::<PathCmd>::empty());
    }
    while i < t.len()
        invariant
            t@ == d@,
            i <= t@.len(),
            path_views(out@) + path_from(t@, i as int) == path_from(t@, 0),
        decreases t@.len() - i,
    {
        let c = t[i];
        match command_info_of(c) {
            Some((up, n, rep)) => {
                if rep {
                    let mut j = i + 1;
                    proof {
                        lemma_repeat_cmds(t@, j as int, c, n as nat);
                    }
                    loop
                        invariant_except_break
                            i < j <= t@.len(),
                            path_views(out@) + repeat_cmds(t@, j as int, c, n as nat).0 + path_from(
                                t@,
                                repeat_cmds(t@, j as int, c, n as nat).1,
                            ) == path_from(t@, 0),
                        invariant
                            t@ == d@,
                            command_info(c) == Some((up, n as nat, true)),
                        ensures
                            i < j <= t@.len(),
                            path_views(out@) + path_from(t@, j as int) == path_from(t@, 0),
                        decreases t@.len() - j,
                    {
                        proof {
                            lemma_read_numbers(t@, j as int, n as nat);
                        }
                        let (k, r) = read_numbers_at(&t, j, n);
                        match r {
                            Some(args) => {
                                if n == 0 {
                                    j = k;
                                    break;
                                }
                                let ghost v0 = path_views(out@);
                                let ghost cmd = path_cmd(c, str_views(args@));
                                out.push(PathCommand { letter: up, relative: c != up, args });
                                proof {
                                    assert(path_views(out@) =~= v0.push(cmd));
                                    let rest = repeat_cmds(t@, k as int, c, n as nat);
                                    assert(v0.push(cmd) + rest.0 =~= v0 + (seq![cmd] + rest.0));
                                }
                                j = k;
                            },
                            None => {
                                j = k;
                                break;
                            },
                        }
                    }
                    i = j;
                } else {
                    proof {
                        lemma_read_numbers(t@, i + 1, n as nat);
                    }
                    let (k, r) = read_numbers_at(&t, i + 1, n);
                    match r {
                        Some(args) => {
                            let ghost v0 = path_views(out@);
                            let ghost cmd = path_cmd(c, str_views(args@));
                            out.push(PathCommand { letter: up, relative: c != up, args });
                            proof {
                                assert(path_views(out@) =~= v0.push(cmd));
                                assert(v0.push(cmd) + path_from(t@, k as int) =~= v0 + (seq![cmd]
                                    + path_from(t@, k as int)));
                            }
                        },
                        None => {},
                    }
                    i = k;
                }
            },
            None => {
                proof {
                    lemma_skip_other(t@, i + 1);
                }
                i = skip_other_at(&t, i + 1);
            },
        }
    }
    proof {
        assert(path_views(out@) + Seq::<PathCmd>::empty() =~= path_views(out@));
    }
    out
}

} // verus!
