//! DXF helpers: the parser's error kinds and the cleanup of MTEXT
//! formatting codes.

use crate::text::{chars_to_string, str_chars};
use vstd::prelude::*;

verus! {

#[verifier::external_type_specification]
#[verifier::external_body]
pub struct ExIoError(std::io::Error);

/// DXF file parser.
pub struct DxfParser;

/// Errors of DXF parsing.
#[derive(Debug)]
pub enum DxfError {
    /// The file could not be read.
    Io(std::io::Error),
    /// The file does not exist.
    FileNotFound(String),
    /// The content is not valid DXF.
    ParseError(String),
    /// The file was refused for safety.
    Security(String),
    /// The DXF version is not supported.
    UnsupportedVersion(String),
}

/// MTEXT codes that carry an argument ending at the next `;`: font, height,
/// colour, oblique angle, width, tracking, alignment and paragraph codes.
pub open spec fn is_argument_code(c: char) -> bool {
    c == 'f' || c == 'F' || c == 'H' || c == 'C' || c == 'c' || c == 'Q' || c == 'q' || c == 'W'
        || c == 'T' || c == 'A' || c == 'p'
}

/// The position just after the first `;` at or after `i`, or the end.
pub open spec fn after_semicolon(t: Seq<char>, i: int) -> int
    decreases t.len() - i,
{
    if i >= t.len() {
        t.len() as int
    } else if t[i] == ';' {
        i + 1
    } else {
        after_semicolon(t, i + 1)
    }
}

pub proof fn lemma_after_semicolon(t: Seq<char>, i: int)
    ensures
        i <= t.len() ==> i <= after_semicolon(t, i) <= t.len(),
    decreases t.len() - i,
{
    if i < t.len() && t[i] != ';' {
        lemma_after_semicolon(t, i + 1);
    }
}

/// The text shown by the MTEXT `t` from position `i` on: `\P` is a
/// paragraph break (a newline) and `\\` a backslash; a code with an
/// argument is dropped together with its argument and the `;` closing it;
/// any other code (`\X`, `\l`, `\O`, ...) is dropped; grouping braces and
/// stray `;` are dropped; every other character is kept.
pub open spec fn mtext_from(t: Seq<char>, i: int) -> Seq<char>
    decreases t.len() - i,
{
    if i < 0 || i >= t.len() {
        Seq::empty()
    } else if t[i] == '\\' && i + 1 < t.len() {
        let c = t[i + 1];
        if c == 'P' {
            seq!['\n'] + mtext_from(t, i + 2)
        } else if c == '\\' {
            seq!['\\'] + mtext_from(t, i + 2)
        } else if is_argument_code(c) {
            proof {
                lemma_after_semicolon(t, i + 2);
            }
            mtext_from(t, after_semicolon(t, i + 2))
        } else {
            mtext_from(t, i + 2)
        }
    } else if t[i] == '{' || t[i] == '}' || t[i] == ';' {
        mtext_from(t, i + 1)
    } else {
        seq![t[i]] + mtext_from(t, i + 1)
    }
}

/// MTEXT with its formatting codes removed.
pub open spec fn mtext_clean(t: Seq<char>) -> Seq<char> {
    mtext_from(t, 0)
}

/// The position after the first `;` at or after `i`, or the end.
fn skip_argument(t: &Vec<char>, i: usize) -> (r: usize)
    requires
        i <= t.len(),
    ensures
        r == after_semicolon(t@, i as int),
{
    let mut j = i;
    while j < t.len() && t[j] != ';'
        invariant
            i <= j <= t.len(),
            after_semicolon(t@, j as int) == after_semicolon(t@, i as int),
        decreases t.len() - j,
    {
        j = j + 1;
    }
    if j < t.len() {
        j + 1
    } else {
        j
    }
}

/// Removes MTEXT formatting codes from `text`: `\P` becomes a newline,
/// `\\` a backslash; a code with an argument (`\fArial|b0;`) is dropped up
/// to and including its `;`; other codes, grouping braces and stray `;`
/// are dropped.
pub fn clean_mtext_formatting(text: &str) -> (r: String)
    ensures
        r@ == mtext_clean(text@),
{
    let t = str_chars(text);
    let mut out: Vec<char> = Vec::new();
    let mut i: usize = 0;
    while i < t.len()
        invariant
            t@ == text@,
            i <= t.len(),
            out@ + mtext_from(t@, i as int) == mtext_clean(text@),
        decreases t.len() - i,
    {
        let ghost o0 = out@;
        let c = t[i];
        if c == '\\' && i + 1 < t.len() {
            let d = t[i + 1];
            if d == 'P' {
                out.push('\n');
                proof {
                    assert(out@ + mtext_from(t@, i + 2) =~= o0 + mtext_from(t@, i as int));
                }
                i = i + 2;
            } else if d == '\\' {
                out.push('\\');
                proof {
                    assert(out@ + mtext_from(t@, i + 2) =~= o0 + mtext_from(t@, i as int));
                }
                i = i + 2;
            } else if d == 'f' || d == 'F' || d == 'H' || d == 'C' || d == 'c' || d == 'Q' || d == 'q'
                || d == 'W' || d == 'T' || d == 'A' || d == 'p' {
                let j = skip_argument(&t, i + 2);
                proof {
                    lemma_after_semicolon(t@, i + 2);
                }
                i = j;
            } else {
                i = i + 2;
            }
        } else if c == '{' || c == '}' || c == ';' {
            i = i + 1;
        } else {
            out.push(c);
            proof {
                assert(out@ + mtext_from(t@, i + 1) =~= o0 + mtext_from(t@, i as int));
            }
            i = i + 1;
        }
    }
    chars_to_string(&out)
}

/// Cleaned MTEXT holds no `;` and no brace.
pub proof fn lemma_clean_has_no_semicolon_or_brace(t: Seq<char>, i: int)
    ensures
        !mtext_from(t, i).contains(';'),
        !mtext_from(t, i).contains('{'),
        !mtext_from(t, i).contains('}'),
    decreases t.len() - i,
{
    if 0 <= i < t.len() {
        let r = mtext_from(t, i);
        if t[i] == '\\' && i + 1 < t.len() {
            let c = t[i + 1];
            lemma_clean_has_no_semicolon_or_brace(t, i + 2);
            if is_argument_code(c) {
                lemma_after_semicolon(t, i + 2);
                lemma_clean_has_no_semicolon_or_brace(t, after_semicolon(t, i + 2));
            } else if c == 'P' || c == '\\' {
                let rest = mtext_from(t, i + 2);
                assert forall|k: int| 0 <= k < r.len() implies r[k] != ';' && r[k] != '{' && r[k] != '}' by {
                    if k > 0 {
                        assert(r[k] == rest[k - 1]);
                    }
                }
            }
        } else {
            lemma_clean_has_no_semicolon_or_brace(t, i + 1);
            if !(t[i] == '{' || t[i] == '}' || t[i] == ';') {
                let rest = mtext_from(t, i + 1);
                assert forall|k: int| 0 <= k < r.len() implies r[k] != ';' && r[k] != '{' && r[k] != '}' by {
                    if k > 0 {
                        assert(r[k] == rest[k - 1]);
                    }
                }
            }
        }
    }
}

} // verus!
