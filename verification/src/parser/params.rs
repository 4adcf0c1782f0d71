//! Splitting of STEP and IGES parameter lists at top-level commas.

use crate::text::{chars_to_string, str_chars, str_views, trim_chars, trimmed};
use vstd::prelude::*;

verus! {

/// State of the scan over a parameter list.
pub struct ScanState {
    /// Parameters completed so far.
    pub params: Seq<Seq<char>>,
    /// The parameter being read.
    pub current: Seq<char>,
    /// Inside a quoted string.
    pub in_string: bool,
    /// Parenthesis nesting depth.
    pub depth: int,
}

/// Whether `c` opens or closes a quoted string; double quotes count only
/// when `double_quotes` is set.
pub open spec fn is_quote(c: char, double_quotes: bool) -> bool {
    c == '\'' || (double_quotes && c == '"')
}

/// One character of the scan: quotes toggle the string state, parentheses
/// change the depth, a comma outside strings and parentheses ends the
/// current parameter (trimmed), and everything else is kept.
pub open spec fn scan_char(st: ScanState, c: char, double_quotes: bool) -> ScanState {
    if is_quote(c, double_quotes) {
        ScanState { current: st.current.push(c), in_string: !st.in_string, ..st }
    } else if c == '(' {
        ScanState { current: st.current.push(c), depth: st.depth + 1, ..st }
    } else if c == ')' {
        ScanState { current: st.current.push(c), depth: st.depth - 1, ..st }
    } else if c == ',' && !st.in_string && st.depth == 0 {
        ScanState { params: st.params.push(trimmed(st.current)), current: Seq::empty(), ..st }
    } else {
        ScanState { current: st.current.push(c), ..st }
    }
}

/// The scan state after reading `s`.
pub open spec fn scan(s: Seq<char>, double_quotes: bool) -> ScanState
    decreases s.len(),
{
    if s.len() == 0 {
        ScanState { params: Seq::empty(), current: Seq::empty(), in_string: false, depth: 0 }
    } else {
        scan_char(scan(s.drop_last(), double_quotes), s.last(), double_quotes)
    }
}

/// The parameters of a list: those ended by commas, then the last one if it
/// is not empty, each trimmed.
pub open spec fn split_params(s: Seq<char>, double_quotes: bool) -> Seq<Seq<char>> {
    let st = scan(s, double_quotes);
    if st.current.len() > 0 {
        st.params.push(trimmed(st.current))
    } else {
        st.params
    }
}

proof fn lemma_scan_depth(s: Seq<char>, double_quotes: bool)
    ensures
        -s.len() <= scan(s, double_quotes).depth <= s.len(),
    decreases s.len(),
{
    if s.len() > 0 {
        lemma_scan_depth(s.drop_last(), double_quotes);
    }
}

/// Splits a parameter list at the commas that are outside quoted strings
/// and parentheses, trimming each parameter.
pub fn split_parameters(params_str: &str, double_quotes: bool) -> (r: Vec<String>)
    requires
        params_str@.len() <= i32::MAX,
    ensures
        str_views(r@) == split_params(params_str@, double_quotes),
{
    let chars = str_chars(params_str);
    let mut params: Vec<String> = Vec::new();
    let mut current: Vec<char> = Vec::new();
    let mut in_string = false;
    let mut paren_depth: i32 = 0;
    let mut k: usize = 0;
    proof {
        assert(chars@.take(0) =~= Seq::<char>::empty());
        assert(str_views(params@) =~= Seq::<Seq<char>>::empty());
    }
    while k < chars.len()
        invariant
            chars@ == params_str@,
            chars@.len() <= i32::MAX,
            k <= chars@.len(),
            ({
                let st = scan(chars@.take(k as int), double_quotes);
                &&& str_views(params@) == st.params
                &&& current@ == st.current
                &&& in_string == st.in_string
                &&& paren_depth as int == st.depth
            }),
        decreases chars@.len() - k,
    {
        let c = chars[k];
        proof {
            assert(chars@.take(k + 1).drop_last() =~= chars@.take(k as int));
            assert(chars@.take(k + 1).last() == c);
            lemma_scan_depth(chars@.take(k as int), double_quotes);
        }
        if c == '\'' || (double_quotes && c == '"') {
            in_string = !in_string;
            current.push(c);
        } else if c == '(' {
            paren_depth = paren_depth + 1;
            current.push(c);
        } else if c == ')' {
            paren_depth = paren_depth - 1;
            current.push(c);
        } else if c == ',' && !in_string && paren_depth == 0 {
            let t = trim_chars(&current);
            let ghost before = str_views(params@);
            params.push(chars_to_string(&t));
            proof {
                assert(str_views(params@) =~= before.push(t@));
            }
            current = Vec::new();
        } else {
            current.push(c);
        }
        k = k + 1;
    }
    proof {
        assert(chars@.take(chars@.len() as int) =~= chars@);
    }
    if current.len() > 0 {
        let t = trim_chars(&current);
        let ghost before = str_views(params@);
        params.push(chars_to_string(&t));
        proof {
            assert(str_views(params@) =~= before.push(t@));
        }
    }
    params
}

} // verus!
