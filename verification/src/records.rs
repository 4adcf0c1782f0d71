//! Text records of the exchange formats: lines, comma-separated fields,
//! UTF-8 lengths and searches for keywords.

use crate::text::occurs_at;
use vstd::prelude::*;

verus! {

/// The characters of each vector.
pub open spec fn vec_views(v: Seq<Vec<char>>) -> Seq<Seq<char>> {
    v.map_values(|l: Vec<char>| l@)
}

/// The characters of an optional string.
pub open spec fn opt_view(o: Option<String>) -> Option<Seq<char>> {
    match o {
        Some(s) => Some(s@),
        None => None,
    }
}

/// State of the split of a text into lines: the lines ended so far and
/// the characters read since the last line feed.
pub struct LineScan {
    pub done: Seq<Seq<char>>,
    pub current: Seq<char>,
}

/// A line without the carriage return that ends it, if any.
pub open spec fn strip_cr(line: Seq<char>) -> Seq<char> {
    if line.len() > 0 && line.last() == '\r' {
        line.drop_last()
    } else {
        line
    }
}

/// The split of `s` into lines after reading all of it.
pub open spec fn scan_lines(s: Seq<char>) -> LineScan
    decreases s.len(),
{
    if s.len() == 0 {
        LineScan { done: Seq::empty(), current: Seq::empty() }
    } else {
        let st = scan_lines(s.drop_last());
        if s.last() == '\n' {
            LineScan { done: st.done.push(strip_cr(st.current)), current: Seq::empty() }
        } else {
            LineScan { current: st.current.push(s.last()), ..st }
        }
    }
}

/// The lines of `s` as `str::lines` gives them: the text is cut after each
/// line feed, the line feed and a carriage return just before it are
/// dropped, and a final line ending adds no empty line.
pub open spec fn lines_of(s: Seq<char>) -> Seq<Seq<char>> {
    let st = scan_lines(s);
    if st.current.len() > 0 {
        st.done.push(st.current)
    } else {
        st.done
    }
}

/// The lines of a text.
pub fn split_lines(s: &Vec<char>) -> (r: Vec<Vec<char>>)
    ensures
        vec_views(r@) == lines_of(s@),
{
    let mut out: Vec<Vec<char>> = Vec::new();
    let mut cur: Vec<char> = Vec::new();
    let mut i: usize = 0;
    proof {
        assert(s@.take(0) =~= Seq::<char>::empty());
        assert(vec_views(out@) =~= Seq::<Seq<char>>::empty());
    }
    while i < s.len()
        invariant
            i <= s.len(),
            vec_views(out@) == scan_lines(s@.take(i as int)).done,
            cur@ == scan_lines(s@.take(i as int)).current,
        decreases s.len() - i,
    {
        let c = s[i];
        proof {
            assert(s@.take(i + 1).drop_last() =~= s@.take(i as int));
            assert(s@.take(i + 1).last() == c);
        }
        if c == '\n' {
            let mut line = cur;
            if line.len() > 0 && line[line.len() - 1] == '\r' {
                line.pop();
            }
            let ghost before = out@;
            out.push(line);
            proof {
                assert(vec_views(out@) =~= vec_views(before).push(line@));
            }
            cur = Vec::new();
        } else {
            cur.push(c);
        }
        i = i + 1;
    }
    proof {
        assert(s@.take(s.len() as int) =~= s@);
    }
    if cur.len() > 0 {
        let ghost before = out@;
        out.push(cur);
        proof {
            assert(vec_views(out@) =~= vec_views(before).push(cur@));
        }
    }
    out
}

/// The fields of `s` between the separators `sep`, as `str::split` gives
/// them: one more field than there are separators, empty ones included.
pub open spec fn split_on(s: Seq<char>, sep: char) -> Seq<Seq<char>>
    decreases s.len(),
{
    if s.len() == 0 {
        seq![Seq::empty()]
    } else {
        let f = split_on(s.drop_last(), sep);
        if s.last() == sep {
            f.push(Seq::empty())
        } else {
            f.update(f.len() - 1, f.last().push(s.last()))
        }
    }
}

proof fn lemma_split_on_len(s: Seq<char>, sep: char)
    ensures
        split_on(s, sep).len() >= 1,
    decreases s.len(),
{
    if s.len() > 0 {
        lemma_split_on_len(s.drop_last(), sep);
    }
}

/// The fields of `s` between the separators `sep`.
pub fn split_fields(s: &Vec<char>, sep: char) -> (r: Vec<Vec<char>>)
    ensures
        vec_views(r@) == split_on(s@, sep),
{
    let mut out: Vec<Vec<char>> = Vec::new();
    let mut cur: Vec<char> = Vec::new();
    let mut i: usize = 0;
    proof {
        assert(s@.take(0) =~= Seq::<char>::empty());
        assert(vec_views(out@).push(cur@) =~= seq![Seq::<char>::empty()]);
    }
    while i < s.len()
        invariant
            i <= s.len(),
            vec_views(out@).push(cur@) == split_on(s@.take(i as int), sep),
        decreases s.len() - i,
    {
        let c = s[i];
        proof {
            assert(s@.take(i + 1).drop_last() =~= s@.take(i as int));
            assert(s@.take(i + 1).last() == c);
            lemma_split_on_len(s@.take(i as int), sep);
        }
        let ghost before = out@;
        let ghost cur0 = cur@;
        if c == sep {
            out.push(cur);
            cur = Vec::new();
            proof {
                assert(vec_views(out@) =~= vec_views(before).push(cur0));
            }
        } else {
            cur.push(c);
            proof {
                let f = vec_views(before).push(cur0);
                assert(vec_views(out@).push(cur@) =~= f.update(f.len() - 1, f.last().push(c)));
            }
        }
        i = i + 1;
    }
    proof {
        assert(s@.take(s.len() as int) =~= s@);
    }
    let ghost before = out@;
    out.push(cur);
    proof {
        assert(vec_views(out@) =~= vec_views(before).push(cur@));
    }
    out
}

/// The number of bytes of the UTF-8 encoding of `c`.
pub open spec fn utf8_width(c: char) -> nat {
    let u = c as u32;
    if u < 0x80 {
        1
    } else if u < 0x800 {
        2
    } else if u < 0x10000 {
        3
    } else {
        4
    }
}

/// The number of bytes of the UTF-8 encoding of `s`.
pub open spec fn utf8_len(s: Seq<char>) -> nat
    decreases s.len(),
{
    if s.len() == 0 {
        0
    } else {
        utf8_len(s.drop_last()) + utf8_width(s.last())
    }
}

/// The number of bytes of the UTF-8 encoding of `c`.
pub fn char_width(c: char) -> (r: usize)
    ensures
        r == utf8_width(c),
{
    let u = c as u32;
    if u < 0x80 {
        1
    } else if u < 0x800 {
        2
    } else if u < 0x10000 {
        3
    } else {
        4
    }
}

proof fn lemma_utf8_len_step(s: Seq<char>, i: int)
    requires
        0 <= i < s.len(),
    ensures
        utf8_len(s.take(i + 1)) == utf8_len(s.take(i)) + utf8_width(s[i]),
{
    assert(s.take(i + 1).drop_last() =~= s.take(i));
}

proof fn lemma_utf8_len_prefix(s: Seq<char>, i: int, j: int)
    requires
        0 <= i <= j <= s.len(),
    ensures
        utf8_len(s.take(i)) + (j - i) <= utf8_len(s.take(j)),
    decreases j - i,
{
    if i < j {
        lemma_utf8_len_prefix(s, i, j - 1);
        lemma_utf8_len_step(s, j - 1);
    }
}

/// Whether the UTF-8 encoding of `s` has at least `n` bytes.
pub fn utf8_len_at_least(s: &Vec<char>, n: usize) -> (r: bool)
    requires
        n < usize::MAX - 4,
    ensures
        r == (utf8_len(s@) >= n),
{
    let mut k: usize = 0;
    let mut acc: usize = 0;
    while k < s.len() && acc < n
        invariant
            k <= s.len(),
            acc == utf8_len(s@.take(k as int)),
            n < usize::MAX - 4,
            acc < n + 4,
        decreases s.len() - k,
    {
        proof {
            lemma_utf8_len_step(s@, k as int);
        }
        acc = acc + char_width(s[k]);
        k = k + 1;
    }
    proof {
        lemma_utf8_len_prefix(s@, k as int, s@.len() as int);
        assert(s@.take(s@.len() as int) =~= s@);
    }
    acc >= n
}

/// Whether `n` bytes of the UTF-8 encoding of `s` end at a character.
pub open spec fn has_byte_boundary(s: Seq<char>, n: nat) -> bool {
    exists|k: int| 0 <= k <= s.len() && utf8_len(#[trigger] s.take(k)) == n
}

/// The characters of `s` whose encoding fills its first `n` bytes.
pub open spec fn byte_prefix(s: Seq<char>, n: nat) -> Seq<char> {
    s.take(choose|k: int| 0 <= k <= s.len() && utf8_len(#[trigger] s.take(k)) == n)
}

/// The characters of `s` whose encoding fills its first `n` bytes, where
/// a character ends there.
pub fn byte_prefix_chars(s: &Vec<char>, n: usize) -> (r: Vec<char>)
    requires
        has_byte_boundary(s@, n as nat),
        n < usize::MAX - 4,
    ensures
        r@ == byte_prefix(s@, n as nat),
{
    let ghost kk = choose|k: int| 0 <= k <= s@.len() && utf8_len(#[trigger] s@.take(k)) == n;
    let mut out: Vec<char> = Vec::new();
    let mut k: usize = 0;
    let mut acc: usize = 0;
    while acc < n && k < s.len()
        invariant
            k <= s.len(),
            acc == utf8_len(s@.take(k as int)),
            out@ == s@.take(k as int),
            n < usize::MAX - 4,
            acc < n + 4,
            0 <= kk <= s@.len(),
            utf8_len(s@.take(kk)) == n,
            k <= kk,
        decreases s.len() - k,
    {
        proof {
            lemma_utf8_len_step(s@, k as int);
            if kk == k {
                assert(false);
            }
            assert(s@.take(k + 1) =~= s@.take(k as int).push(s@[k as int]));
        }
        acc = acc + char_width(s[k]);
        out.push(s[k]);
        k = k + 1;
    }
    proof {
        if k < kk {
            lemma_utf8_len_prefix(s@, k as int, kk);
            if acc < n {
                assert(k == s.len());
            }
        }
    }
    out
}

/// The first position from `i` on where `pat` occurs in `s`.
pub open spec fn first_from(s: Seq<char>, pat: Seq<char>, i: int) -> Option<int>
    decreases s.len() + 1 - i,
{
    if i < 0 || i + pat.len() > s.len() {
        None
    } else if occurs_at(s, pat, i) {
        Some(i)
    } else {
        first_from(s, pat, i + 1)
    }
}

proof fn lemma_first_from(s: Seq<char>, pat: Seq<char>, i: int)
    requires
        0 <= i,
    ensures
        match first_from(s, pat, i) {
            Some(p) => i <= p && occurs_at(s, pat, p) && forall|q: int|
                i <= q < p ==> !occurs_at(s, pat, q),
            None => forall|q: int| i <= q ==> !occurs_at(s, pat, q),
        },
    decreases s.len() + 1 - i,
{
    if i + pat.len() <= s.len() && !occurs_at(s, pat, i) {
        lemma_first_from(s, pat, i + 1);
    }
}

/// The first position from `from` on where `pat` occurs in `s`.
pub fn find_chars(s: &Vec<char>, pat: &Vec<char>, from: usize) -> (r: Option<usize>)
    ensures
        match r {
            Some(p) => first_from(s@, pat@, from as int) == Some(p as int),
            None => first_from(s@, pat@, from as int) is None,
        },
{
    let mut i: usize = from;
    proof {
        lemma_first_from(s@, pat@, from as int);
    }
    while i <= s.len() && pat.len() <= s.len() - i
        invariant
            from <= i,
            forall|q: int| from <= q < i ==> !occurs_at(s@, pat@, q),
            first_from(s@, pat@, from as int) == first_from(s@, pat@, i as int),
        decreases s.len() + 1 - i,
    {
        let mut k: usize = 0;
        let mut hit = true;
        while k < pat.len()
            invariant
                i + pat.len() <= s.len(),
                k <= pat.len(),
                hit ==> forall|m: int| 0 <= m < k ==> s@[i + m] == pat@[m],
                !hit ==> !occurs_at(s@, pat@, i as int),
                !hit ==> pat.len() > 0,
            decreases pat.len() - k,
        {
            if s[i + k] != pat[k] {
                proof {
                    assert(s@.subrange(i as int, i + pat.len())[k as int] != pat@[k as int]);
                }
                hit = false;
            }
            k = k + 1;
        }
        if hit {
            proof {
                assert(s@.subrange(i as int, i + pat.len()) =~= pat@);
            }
            return Some(i);
        }
        i = i + 1;
    }
    proof {
        lemma_first_from(s@, pat@, i as int);
    }
    None
}

/// The characters of `s` from `a` up to `b`.
pub fn sub_chars(s: &Vec<char>, a: usize, b: usize) -> (r: Vec<char>)
    requires
        a <= b <= s@.len(),
    ensures
        r@ == s@.subrange(a as int, b as int),
{
    let mut out: Vec<char> = Vec::new();
    let mut k: usize = a;
    while k < b
        invariant
            a <= k <= b,
            b <= s@.len(),
            out@ == s@.subrange(a as int, k as int),
        decreases b - k,
    {
        out.push(s[k]);
        proof {
            assert(s@.subrange(a as int, k + 1) =~= s@.subrange(a as int, k as int).push(s@[k as int]));
        }
        k = k + 1;
    }
    out
}

/// `s` without the copies of `c` at its start and at its end, as
/// `str::trim_matches` with one character gives it.
pub open spec fn strip_char(s: Seq<char>, c: char) -> Seq<char>
    decreases s.len(),
{
    if s.len() > 0 && s[0] == c {
        strip_char(s.skip(1), c)
    } else if s.len() > 0 && s.last() == c {
        strip_char(s.drop_last(), c)
    } else {
        s
    }
}

proof fn lemma_strip_start(s: Seq<char>, c: char, a: int)
    requires
        0 <= a <= s.len(),
        forall|k: int| 0 <= k < a ==> #[trigger] s[k] == c,
    ensures
        strip_char(s, c) == strip_char(s.skip(a), c),
    decreases a,
{
    if a > 0 {
        assert(s.skip(1).skip(a - 1) =~= s.skip(a));
        assert forall|k: int| 0 <= k < a - 1 implies #[trigger] s.skip(1)[k] == c by {
            assert(s.skip(1)[k] == s[k + 1]);
        }
        lemma_strip_start(s.skip(1), c, a - 1);
    } else {
        assert(s.skip(0) =~= s);
    }
}

proof fn lemma_strip_end(s: Seq<char>, c: char, b: int)
    requires
        0 <= b <= s.len(),
        s.len() == 0 || s[0] != c,
        forall|k: int| b <= k < s.len() ==> #[trigger] s[k] == c,
    ensures
        strip_char(s, c) == strip_char(s.take(b), c),
    decreases s.len() - b,
{
    if b < s.len() {
        let d = s.drop_last();
        assert(d.take(b) =~= s.take(b));
        if s.len() > 1 {
            assert(d[0] == s[0]);
        }
        assert forall|k: int| b <= k < d.len() implies #[trigger] d[k] == c by {
            assert(d[k] == s[k]);
        }
        if s.len() == 1 {
            assert(b == 0);
            assert(d =~= Seq::<char>::empty());
        }
        lemma_strip_end(d, c, b);
    } else {
        assert(s.take(b) =~= s);
    }
}

/// The characters of `s` without the copies of `c` at its start and end.
pub fn strip_char_chars(s: &Vec<char>, c: char) -> (r: Vec<char>)
    ensures
        r@ == strip_char(s@, c),
{
    let n = s.len();
    let mut a: usize = 0;
    while a < n && s[a] == c
        invariant
            n == s@.len(),
            a <= n,
            forall|k: int| 0 <= k < a ==> #[trigger] s@[k] == c,
        decreases n - a,
    {
        a = a + 1;
    }
    let mut b: usize = n;
    while b > a && s[b - 1] == c
        invariant
            n == s@.len(),
            a <= b <= n,
            forall|k: int| b <= k < n ==> #[trigger] s@[k] == c,
        decreases b,
    {
        b = b - 1;
    }
    let out = sub_chars(s, a, b);
    proof {
        lemma_strip_start(s@, c, a as int);
        let t = s@.skip(a as int);
        assert forall|q: int| (b - a) <= q < t.len() implies #[trigger] t[q] == c by {
            assert(t[q] == s@[q + a]);
        }
        if a < n {
            assert(t[0] == s@[a as int]);
        }
        lemma_strip_end(t, c, (b - a) as int);
        assert(t.take((b - a) as int) =~= s@.subrange(a as int, b as int));
        let u = s@.subrange(a as int, b as int);
        if u.len() > 0 {
            assert(u[0] == s@[a as int]);
            assert(u.last() == s@[b - 1]);
        }
    }
    out
}


/// Whether `c` is an ASCII decimal digit.
pub open spec fn is_digit(c: char) -> bool {
    '0' <= c <= '9'
}

/// The value of a string of decimal digits.
pub open spec fn digits_value(s: Seq<char>) -> nat
    decreases s.len(),
{
    if s.len() == 0 {
        0
    } else {
        digits_value(s.drop_last()) * 10 + ((s.last() as u32 - 48) as nat)
    }
}

/// The digits of an unsigned numeral: the text without a leading `+`.
pub open spec fn unsigned_digits(s: Seq<char>) -> Seq<char> {
    if s.len() > 0 && s[0] == '+' {
        s.skip(1)
    } else {
        s
    }
}

/// Whether `d` is a non-empty string of decimal digits.
pub open spec fn all_digits(d: Seq<char>) -> bool {
    d.len() > 0 && forall|k: int| 0 <= k < d.len() ==> is_digit(#[trigger] d[k])
}

/// The number that `s` denotes as `from_str` of an unsigned integer type
/// whose largest value is `max` reads it: an optional `+` followed by at
/// least one decimal digit, with a value up to `max`.
pub open spec fn unsigned_value(s: Seq<char>, max: nat) -> Option<nat> {
    let d = unsigned_digits(s);
    if all_digits(d) && digits_value(d) <= max {
        Some(digits_value(d))
    } else {
        None
    }
}

/// The `u16` that `s` denotes as `u16::from_str` reads it.
pub open spec fn u16_value(s: Seq<char>) -> Option<u16> {
    match unsigned_value(s, 65535) {
        Some(v) => Some(v as u16),
        None => None,
    }
}

/// The `usize` that `s` denotes as `usize::from_str` reads it.
pub open spec fn usize_value(s: Seq<char>) -> Option<usize> {
    match unsigned_value(s, usize::MAX as nat) {
        Some(v) => Some(v as usize),
        None => None,
    }
}

proof fn lemma_digits_value_prefix(s: Seq<char>, i: int)
    requires
        0 <= i <= s.len(),
        forall|k: int| 0 <= k < s.len() ==> is_digit(#[trigger] s[k]),
    ensures
        digits_value(s.take(i)) <= digits_value(s),
    decreases s.len() - i,
{
    if i < s.len() {
        let d = s.drop_last();
        assert forall|k: int| 0 <= k < d.len() implies is_digit(#[trigger] d[k]) by {
            assert(d[k] == s[k]);
        }
        lemma_digits_value_prefix(d, i);
        assert(d.take(i) =~= s.take(i));
    } else {
        assert(s.take(i) =~= s);
    }
}

/// Reads an unsigned number up to `max` from its decimal text as
/// `from_str` of an unsigned integer type does.
fn parse_bounded(s: &Vec<char>, max: usize) -> (r: Option<usize>)
    ensures
        match unsigned_value(s@, max as nat) {
            Some(v) => r == Some(v as usize),
            None => r is None,
        },
{
    let start: usize = if s.len() > 0 && s[0] == '+' {
        1
    } else {
        0
    };
    let ghost d = unsigned_digits(s@);
    proof {
        if start == 0 {
            assert(d =~= s@.skip(0));
        }
    }
    if start >= s.len() {
        return None;
    }
    let mut acc: usize = 0;
    let mut k: usize = start;
    while k < s.len()
        invariant
            start <= k <= s@.len(),
            d == s@.skip(start as int),
            d == unsigned_digits(s@),
            forall|m: int| 0 <= m < k - start ==> is_digit(#[trigger] d[m]),
            acc == digits_value(d.take(k - start)),
            acc <= max,
        decreases s.len() - k,
    {
        let c = s[k];
        proof {
            assert(d[k - start] == c);
        }
        if !('0' <= c && c <= '9') {
            proof {
                assert(!is_digit(d[k - start]));
            }
            return None;
        }
        let dig: usize = ((c as u32) - 48) as usize;
        proof {
            assert(d.take(k - start + 1).drop_last() =~= d.take(k - start));
            assert(d.take(k - start + 1).last() == c);
            assert(digits_value(d.take(k - start + 1)) == acc * 10 + dig);
        }
        if dig > max || acc > (max - dig) / 10 {
            proof {
                assert(acc * 10 + dig > max);
                if all_digits(d) {
                    lemma_digits_value_prefix(d, k - start + 1);
                }
            }
            return None;
        }
        acc = acc * 10 + dig;
        k = k + 1;
    }
    proof {
        assert(d.take(k - start) =~= d);
    }
    Some(acc)
}

/// Reads a `u16` from its decimal text as `u16::from_str` does.
pub fn parse_u16(s: &Vec<char>) -> (r: Option<u16>)
    ensures
        r == u16_value(s@),
{
    match parse_bounded(s, 65535) {
        Some(v) => Some(v as u16),
        None => None,
    }
}

/// Reads a `usize` from its decimal text as `usize::from_str` does.
pub fn parse_usize(s: &Vec<char>) -> (r: Option<usize>)
    ensures
        r == usize_value(s@),
{
    parse_bounded(s, usize::MAX)
}

} // verus!
