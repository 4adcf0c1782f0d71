//! STEP records: parameter lists and the HEADER section.

use super::params::{split_parameters, split_params};
use super::parser_common::CadMetadata;
use crate::records::{
    byte_prefix, byte_prefix_chars, find_chars, first_from, has_byte_boundary, lines_of, opt_view,
    parse_usize, split_lines, strip_char, strip_char_chars, sub_chars, usize_value, vec_views,
};
use crate::text::{chars_to_string, str_chars, str_views, trim_chars, trimmed};
use vstd::prelude::*;

verus! {

/// Splits a STEP parameter list at the commas outside single-quoted
/// strings and parentheses, trimming each parameter.
pub fn parse_parameters(params_str: &str) -> (r: Vec<String>)
    requires
        params_str@.len() <= i32::MAX,
    ensures
        str_views(r@) == split_params(params_str@, false),
{
    split_parameters(params_str, false)
}

/// Why a STEP text could not be read.
#[derive(Debug, Clone)]
pub enum StepFormatError {
    /// The text has no `HEADER` keyword.
    MissingHeader,
    /// No `ENDSEC` follows the `HEADER` keyword.
    MissingHeaderEnd,
    /// The text has no `DATA` keyword.
    MissingData,
    /// No `ENDSEC` follows the `DATA` keyword.
    MissingDataEnd,
    /// An entity instance without an opening parenthesis; it holds the
    /// instance text.
    InvalidEntity(String),
}

impl StepFormatError {
    /// The message of the error.
    pub fn message(&self) -> (r: String)
        ensures
            r@ == match *self {
                StepFormatError::MissingHeader => "缺少 HEADER 段"@,
                StepFormatError::MissingHeaderEnd => "缺少 HEADER 结束标记"@,
                StepFormatError::MissingData => "缺少 DATA 段"@,
                StepFormatError::MissingDataEnd => "缺少 DATA 结束标记"@,
                StepFormatError::InvalidEntity(d) => "无效的实体格式："@ + d@,
            },
    {
        match self {
            StepFormatError::MissingHeader => "缺少 HEADER 段".to_string(),
            StepFormatError::MissingHeaderEnd => "缺少 HEADER 结束标记".to_string(),
            StepFormatError::MissingData => "缺少 DATA 段".to_string(),
            StepFormatError::MissingDataEnd => "缺少 DATA 结束标记".to_string(),
            StepFormatError::InvalidEntity(d) => {
                let mut m = str_chars("无效的实体格式：");
                let dc = str_chars(d.as_str());
                let ghost m0 = m@;
                let mut k: usize = 0;
                while k < dc.len()
                    invariant
                        k <= dc.len(),
                        m@ == m0 + dc@.take(k as int),
                    decreases dc.len() - k,
                {
                    m.push(dc[k]);
                    proof {
                        assert(dc@.take(k + 1) =~= dc@.take(k as int).push(dc@[k as int]));
                    }
                    k = k + 1;
                }
                proof {
                    assert(dc@.take(dc.len() as int) =~= dc@);
                }
                chars_to_string(&m)
            },
        }
    }
}

/// The HEADER section of a STEP text: from the first `HEADER` up to the
/// first `ENDSEC` after it, or the error when one of them is missing.
pub open spec fn header_section(c: Seq<char>) -> Result<Seq<char>, StepFormatError> {
    match first_from(c, "HEADER"@, 0) {
        None => Err(StepFormatError::MissingHeader),
        Some(h) => match first_from(c, "ENDSEC"@, h) {
            None => Err(StepFormatError::MissingHeaderEnd),
            Some(e) => Ok(c.subrange(h, e)),
        },
    }
}

/// Where the entry `key` starts in a header section and where the first
/// `);` after it starts, if both are there.
pub open spec fn entry_span(hc: Seq<char>, key: Seq<char>) -> Option<(int, int)> {
    match first_from(hc, key, 0) {
        None => None,
        Some(d) => match first_from(hc, ");"@, d) {
            None => None,
            Some(k) => Some((d, k)),
        },
    }
}

/// Whether the arguments of the entry `key`, which start `skip` characters
/// after the entry (its name and the character after it), can be cut out
/// of the header section by byte positions: they start before the `);`
/// and the character they skip over is one byte long.
pub open spec fn entry_sliceable(hc: Seq<char>, key: Seq<char>, skip: int) -> bool {
    match entry_span(hc, key) {
        None => true,
        Some((d, k)) => k >= d + skip && (hc[d + skip - 1] as u32) < 0x80,
    }
}

/// Whether the entries of a STEP header can be cut out: the text has no
/// complete HEADER section, or both `FILE_DESCRIPTION` and `FILE_NAME` are
/// sliceable in it.
pub open spec fn header_sliceable(c: Seq<char>) -> bool {
    match header_section(c) {
        Err(_) => true,
        Ok(hc) => entry_sliceable(hc, "FILE_DESCRIPTION"@, 17) && entry_sliceable(
            hc,
            "FILE_NAME"@,
            10,
        ),
    }
}

/// The source software named by `FILE_DESCRIPTION`: its argument text
/// without the parentheses around it.
pub open spec fn header_description(hc: Seq<char>) -> Option<Seq<char>> {
    match entry_span(hc, "FILE_DESCRIPTION"@) {
        None => None,
        Some((d, k)) => Some(strip_char(strip_char(hc.subrange(d + 17, k), '('), ')')),
    }
}

/// The file name in `FILE_NAME`: the text between the first two single
/// quotes of its arguments.
pub open spec fn header_file_name(hc: Seq<char>) -> Option<Seq<char>> {
    match entry_span(hc, "FILE_NAME"@) {
        None => None,
        Some((n, k)) => {
            let ns = hc.subrange(n + 10, k);
            match first_from(ns, seq!['\''], 0) {
                None => None,
                Some(q) => match first_from(ns, seq!['\''], q + 1) {
                    None => None,
                    Some(q2) => Some(ns.subrange(q + 1, q2)),
                },
            }
        },
    }
}

proof fn lemma_first_from_bounds(s: Seq<char>, pat: Seq<char>, i: int)
    ensures
        first_from(s, pat, i) matches Some(p) ==> 0 <= i <= p && p + pat.len() <= s.len(),
    decreases s.len() + 1 - i,
{
    if !(i < 0 || i + pat.len() > s.len()) && !crate::text::occurs_at(s, pat, i) {
        lemma_first_from_bounds(s, pat, i + 1);
    }
}

fn entry_span_exec(hc: &Vec<char>, key: &str) -> (r: Option<(usize, usize)>)
    ensures
        match r {
            Some((d, k)) => entry_span(hc@, key@) == Some((d as int, k as int)) && d <= k <= hc@.len(),
            None => entry_span(hc@, key@) is None,
        },
{
    let kc = str_chars(key);
    let close = str_chars(");");
    match find_chars(hc, &kc, 0) {
        None => None,
        Some(d) => match find_chars(hc, &close, d) {
            None => None,
            Some(k) => {
                proof {
                    lemma_first_from_bounds(hc@, close@, d as int);
                }
                Some((d, k))
            },
        },
    }
}

/// Whether the HEADER entries of a STEP text can be cut out by byte
/// positions (see `header_sliceable`).
pub fn header_entries_sliceable(content: &str) -> (r: bool)
    ensures
        r == header_sliceable(content@),
{
    let c = str_chars(content);
    let hc = match header_chars(&c) {
        Err(_) => {
            return true;
        },
        Ok(hc) => hc,
    };
    let desc_ok = match entry_span_exec(&hc, "FILE_DESCRIPTION") {
        None => true,
        Some((d, k)) => k - d >= 17 && (hc[d + 16] as u32) < 0x80,
    };
    let name_ok = match entry_span_exec(&hc, "FILE_NAME") {
        None => true,
        Some((n, k)) => k - n >= 10 && (hc[n + 9] as u32) < 0x80,
    };
    desc_ok && name_ok
}

fn header_chars(c: &Vec<char>) -> (r: Result<Vec<char>, StepFormatError>)
    ensures
        match r {
            Ok(hc) => header_section(c@) == Ok::<Seq<char>, StepFormatError>(hc@),
            Err(e) => header_section(c@) == Err::<Seq<char>, StepFormatError>(e),
        },
{
    let header = str_chars("HEADER");
    let endsec = str_chars("ENDSEC");
    let h = match find_chars(c, &header, 0) {
        None => {
            return Err(StepFormatError::MissingHeader);
        },
        Some(h) => h,
    };
    proof {
        lemma_first_from_bounds(c@, header@, 0);
    }
    let e = match find_chars(c, &endsec, h) {
        None => {
            return Err(StepFormatError::MissingHeaderEnd);
        },
        Some(e) => e,
    };
    proof {
        lemma_first_from_bounds(c@, endsec@, h as int);
    }
    Ok(sub_chars(c, h, e))
}

/// Reads the HEADER section of a STEP text into `metadata`. The section
/// runs from the first `HEADER` to the first `ENDSEC` after it; without
/// either the result is the matching error and `metadata` is unchanged.
/// Inside it, the arguments of `FILE_DESCRIPTION` up to the first `);`,
/// without surrounding parentheses, become the source software, and the
/// text between the first two single quotes of the `FILE_NAME` arguments
/// becomes the name; an entry that is missing leaves its field as it was.
pub fn parse_header(content: &str, metadata: &mut CadMetadata) -> (r: Result<(), StepFormatError>)
    requires
        header_sliceable(content@),
    ensures
        match header_section(content@) {
            Err(e) => r == Err::<(), StepFormatError>(e) && *final(metadata) == *old(metadata),
            Ok(hc) => {
                &&& r is Ok
                &&& match header_description(hc) {
                    Some(d) => opt_view(final(metadata).source_software) == Some(d),
                    None => final(metadata).source_software == old(metadata).source_software,
                }
                &&& match header_file_name(hc) {
                    Some(n) => opt_view(final(metadata).name) == Some(n),
                    None => final(metadata).name == old(metadata).name,
                }
                &&& final(metadata).author == old(metadata).author
                &&& final(metadata).organization == old(metadata).organization
                &&& final(metadata).creation_date == old(metadata).creation_date
                &&& final(metadata).modification_date == old(metadata).modification_date
                &&& final(metadata).target_software == old(metadata).target_software
                &&& final(metadata).units == old(metadata).units
            },
        },
{
    let c = str_chars(content);
    let hc = match header_chars(&c) {
        Err(e) => {
            return Err(e);
        },
        Ok(hc) => hc,
    };
    match entry_span_exec(&hc, "FILE_DESCRIPTION") {
        None => {},
        Some((d, k)) => {
            let inner = sub_chars(&hc, d + 17, k);
            let s = strip_char_chars(&strip_char_chars(&inner, '('), ')');
            metadata.source_software = Some(chars_to_string(&s));
        },
    }
    match entry_span_exec(&hc, "FILE_NAME") {
        None => {},
        Some((n, k)) => {
            let ns = sub_chars(&hc, n + 10, k);
            let quote = str_chars("'");
            proof {
                reveal_strlit("'");
                assert(quote@ =~= seq!['\'']);
            }
            match find_chars(&ns, &quote, 0) {
                None => {},
                Some(q) => {
                    proof {
                        lemma_first_from_bounds(ns@, quote@, 0);
                    }
                    match find_chars(&ns, &quote, q + 1) {
                        None => {},
                        Some(q2) => {
                            proof {
                                lemma_first_from_bounds(ns@, quote@, q + 1);
                            }
                            let name = sub_chars(&ns, q + 1, q2);
                            metadata.name = Some(chars_to_string(&name));
                        },
                    }
                },
            }
        },
    }
    Ok(())
}

/// Where the DATA section starts: at the first line feed followed by
/// `DATA`, or else at the first `DATA`.
pub open spec fn data_start(c: Seq<char>) -> Option<int> {
    match first_from(c, "\nDATA"@, 0) {
        Some(p) => Some(p),
        None => first_from(c, "DATA"@, 0),
    }
}

/// Whether the search for the end of the DATA section, which resumes 7
/// bytes after its start, starts at a character of the text.
pub open spec fn data_sliceable(c: Seq<char>) -> bool {
    match data_start(c) {
        None => true,
        Some(ds) => has_byte_boundary(c.skip(ds), 7),
    }
}

/// The DATA section of a STEP text: from its start up to the first line
/// feed followed by `ENDSEC` that begins 7 bytes or more after the start,
/// or else up to the end of the first `ENDSEC` after the start; or the
/// error when the start or the end is missing.
pub open spec fn data_section(c: Seq<char>) -> Result<Seq<char>, StepFormatError> {
    match data_start(c) {
        None => Err(StepFormatError::MissingData),
        Some(ds) => {
            let j = ds + byte_prefix(c.skip(ds), 7).len();
            match first_from(c, "\nENDSEC"@, j) {
                Some(p) => Ok(c.subrange(ds, p)),
                None => match first_from(c, "ENDSEC"@, ds) {
                    Some(q) => Ok(c.subrange(ds, q + 6)),
                    None => Err(StepFormatError::MissingDataEnd),
                },
            }
        },
    }
}

/// The entity instance on one line of the DATA section: a trimmed line
/// other than `DATA` with an `=`, whose left side is `#` and an instance
/// number, gives the number and the trimmed right side.
pub open spec fn data_line_record(line: Seq<char>) -> Option<(usize, Seq<char>)> {
    let t = trimmed(line);
    if t.len() == 0 || t == seq!['D', 'A', 'T', 'A'] {
        None
    } else {
        match first_from(t, seq!['='], 0) {
            None => None,
            Some(e) => {
                let id_part = trimmed(t.take(e));
                if id_part.len() > 0 && id_part[0] == '#' {
                    match usize_value(trimmed(id_part.skip(1))) {
                        Some(id) => Some((id, trimmed(t.skip(e + 1)))),
                        None => None,
                    }
                } else {
                    None
                }
            },
        }
    }
}

/// The entity instances on the given lines, in order.
pub open spec fn line_records(ls: Seq<Seq<char>>) -> Seq<(usize, Seq<char>)>
    decreases ls.len(),
{
    if ls.len() == 0 {
        Seq::empty()
    } else {
        let r = line_records(ls.drop_last());
        match data_line_record(ls.last()) {
            Some(x) => r.push(x),
            None => r,
        }
    }
}

/// The instances with their texts taken as character sequences.
pub open spec fn instance_views(v: Seq<(usize, String)>) -> Seq<(usize, Seq<char>)> {
    v.map_values(|p: (usize, String)| (p.0, p.1@))
}

fn data_start_exec(c: &Vec<char>) -> (r: Option<usize>)
    ensures
        match r {
            Some(ds) => data_start(c@) == Some(ds as int) && ds <= c@.len(),
            None => data_start(c@) is None,
        },
{
    let nl_data = str_chars("\nDATA");
    let data = str_chars("DATA");
    match find_chars(c, &nl_data, 0) {
        Some(p) => {
            proof {
                lemma_first_from_bounds(c@, nl_data@, 0);
            }
            Some(p)
        },
        None => match find_chars(c, &data, 0) {
            Some(p) => {
                proof {
                    lemma_first_from_bounds(c@, data@, 0);
                }
                Some(p)
            },
            None => None,
        },
    }
}

/// Whether the end of the DATA section of a STEP text can be searched for
/// by byte positions (see `data_sliceable`).
pub fn data_section_sliceable(content: &str) -> (r: bool)
    ensures
        r == data_sliceable(content@),
{
    let c = str_chars(content);
    match data_start_exec(&c) {
        None => true,
        Some(ds) => {
            let rest = sub_chars(&c, ds, c.len());
            proof {
                assert(rest@ =~= c@.skip(ds as int));
            }
            crate::parser::iges::ends_at_byte(&rest, 7)
        },
    }
}

fn data_chars(c: &Vec<char>) -> (r: Result<Vec<char>, StepFormatError>)
    requires
        data_sliceable(c@),
    ensures
        match r {
            Ok(dc) => data_section(c@) == Ok::<Seq<char>, StepFormatError>(dc@),
            Err(e) => data_section(c@) == Err::<Seq<char>, StepFormatError>(e),
        },
{
    let ds = match data_start_exec(c) {
        None => {
            return Err(StepFormatError::MissingData);
        },
        Some(ds) => ds,
    };
    let rest = sub_chars(c, ds, c.len());
    proof {
        assert(rest@ =~= c@.skip(ds as int));
    }
    let skipped = byte_prefix_chars(&rest, 7);
    let j = ds + skipped.len();
    let nl_endsec = str_chars("\nENDSEC");
    let endsec = str_chars("ENDSEC");
    match find_chars(c, &nl_endsec, j) {
        Some(p) => {
            proof {
                lemma_first_from_bounds(c@, nl_endsec@, j as int);
            }
            Ok(sub_chars(c, ds, p))
        },
        None => match find_chars(c, &endsec, ds) {
            Some(q) => {
                proof {
                    lemma_first_from_bounds(c@, endsec@, ds as int);
                    reveal_strlit("ENDSEC");
                }
                Ok(sub_chars(c, ds, q + 6))
            },
            None => Err(StepFormatError::MissingDataEnd),
        },
    }
}

fn data_line_record_exec(line: &Vec<char>) -> (r: Option<(usize, String)>)
    ensures
        match data_line_record(line@) {
            Some((id, d)) => r matches Some((rid, rd)) && rid == id && rd@ == d,
            None => r is None,
        },
{
    let t = trim_chars(line);
    if t.len() == 0 || (t.len() == 4 && t[0] == 'D' && t[1] == 'A' && t[2] == 'T' && t[3] == 'A') {
        proof {
            if t.len() == 4 && t[0] == 'D' && t[1] == 'A' && t[2] == 'T' && t[3] == 'A' {
                assert(t@ =~= seq!['D', 'A', 'T', 'A']);
            }
        }
        return None;
    }
    proof {
        if t@ == seq!['D', 'A', 'T', 'A'] {
            assert(t@[0] == 'D' && t@[1] == 'A' && t@[2] == 'T' && t@[3] == 'A');
        }
    }
    let eq = vec!['='];
    let e = match find_chars(&t, &eq, 0) {
        None => {
            proof {
                assert(eq@ =~= seq!['=']);
            }
            return None;
        },
        Some(e) => e,
    };
    proof {
        assert(eq@ =~= seq!['=']);
        lemma_first_from_bounds(t@, eq@, 0);
    }
    let id_part = trim_chars(&sub_chars(&t, 0, e));
    proof {
        assert(t@.subrange(0, e as int) =~= t@.take(e as int));
    }
    if id_part.len() > 0 && id_part[0] == '#' {
        let digits = trim_chars(&sub_chars(&id_part, 1, id_part.len()));
        proof {
            assert(id_part@.subrange(1, id_part@.len() as int) =~= id_part@.skip(1));
        }
        match parse_usize(&digits) {
            Some(id) => {
                let d = trim_chars(&sub_chars(&t, e + 1, t.len()));
                proof {
                    assert(t@.subrange(e + 1, t@.len() as int) =~= t@.skip(e + 1));
                }
                Some((id, chars_to_string(&d)))
            },
            None => None,
        }
    } else {
        None
    }
}

/// The DATA section of a STEP text read into entity instances: the lines of
/// the section (see `data_section`) that hold `#`, an instance number, `=`
/// and the instance text give the number and the text, trimmed, in order.
pub fn data_records(content: &str) -> (r: Result<Vec<(usize, String)>, StepFormatError>)
    requires
        data_sliceable(content@),
    ensures
        match data_section(content@) {
            Err(e) => r == Err::<Vec<(usize, String)>, StepFormatError>(e),
            Ok(dc) => r matches Ok(v) && instance_views(v@) == line_records(lines_of(dc)),
        },
{
    let c = str_chars(content);
    let dc = match data_chars(&c) {
        Err(e) => {
            return Err(e);
        },
        Ok(dc) => dc,
    };
    let lines = split_lines(&dc);
    let ghost ls = lines_of(dc@);
    let mut out: Vec<(usize, String)> = Vec::new();
    let mut i: usize = 0;
    while i < lines.len()
        invariant
            vec_views(lines@) == ls,
            i <= lines.len(),
            instance_views(out@) == line_records(ls.take(i as int)),
        decreases lines.len() - i,
    {
        proof {
            assert(ls.take(i + 1).drop_last() =~= ls.take(i as int));
            assert(ls.take(i + 1).last() == lines@[i as int]@);
        }
        let ghost before = out@;
        match data_line_record_exec(&lines[i]) {
            Some(rec) => {
                let ghost v = (rec.0, rec.1@);
                out.push(rec);
                proof {
                    assert(instance_views(out@) =~= instance_views(before).push(v));
                }
            },
            None => {},
        }
        i = i + 1;
    }
    proof {
        assert(ls.take(lines.len() as int) =~= ls);
    }
    Ok(out)
}

/// `s` without the copies of `c` at its end, as `str::trim_end_matches`
/// with one character gives it.
pub open spec fn strip_end_char(s: Seq<char>, c: char) -> Seq<char>
    decreases s.len(),
{
    if s.len() > 0 && s.last() == c {
        strip_end_char(s.drop_last(), c)
    } else {
        s
    }
}

proof fn lemma_strip_end_char(s: Seq<char>, c: char, b: int)
    requires
        0 <= b <= s.len(),
        forall|k: int| b <= k < s.len() ==> #[trigger] s[k] == c,
    ensures
        strip_end_char(s, c) == strip_end_char(s.take(b), c),
    decreases s.len() - b,
{
    if b < s.len() {
        let d = s.drop_last();
        assert(d.take(b) =~= s.take(b));
        assert forall|k: int| b <= k < d.len() implies #[trigger] d[k] == c by {
            assert(d[k] == s[k]);
        }
        lemma_strip_end_char(d, c, b);
    } else {
        assert(s.take(b) =~= s);
    }
}

/// The text of an entity instance: trimmed, without the semicolons at its
/// end.
pub open spec fn entity_text(data: Seq<char>) -> Seq<char> {
    strip_end_char(trimmed(data), ';')
}

/// The type name and the parameter text of an entity instance: the text
/// before its first `(`, and the text after it up to the last character
/// (the closing parenthesis), which is left out; or the instance text when
/// it has no `(`.
pub open spec fn entity_head(data: Seq<char>) -> Result<(Seq<char>, Seq<char>), Seq<char>> {
    let d = entity_text(data);
    match first_from(d, seq!['('], 0) {
        None => Err(d),
        Some(o) => Ok((d.take(o), d.subrange(o + 1, d.len() - 1))),
    }
}

/// Whether the parameter text of an entity instance can be cut out by byte
/// positions: its `(` is not the last character and the last character is
/// one byte long.
pub open spec fn entity_sliceable(data: Seq<char>) -> bool {
    let d = entity_text(data);
    match first_from(d, seq!['('], 0) {
        None => true,
        Some(o) => o + 1 <= d.len() - 1 && (d.last() as u32) < 0x80,
    }
}

fn entity_text_exec(data: &str) -> (r: Vec<char>)
    ensures
        r@ == entity_text(data@),
{
    let t = trim_chars(&str_chars(data));
    let mut b: usize = t.len();
    while b > 0 && t[b - 1] == ';'
        invariant
            b <= t@.len(),
            forall|k: int| b <= k < t@.len() ==> #[trigger] t@[k] == ';',
        decreases b,
    {
        b = b - 1;
    }
    proof {
        lemma_strip_end_char(t@, ';', b as int);
        assert(t@.subrange(0, b as int) =~= t@.take(b as int));
    }
    sub_chars(&t, 0, b)
}

fn open_paren(d: &Vec<char>) -> (r: Option<usize>)
    ensures
        match r {
            Some(o) => first_from(d@, seq!['('], 0) == Some(o as int) && o < d@.len(),
            None => first_from(d@, seq!['('], 0) is None,
        },
{
    let paren = vec!['('];
    proof {
        assert(paren@ =~= seq!['(']);
    }
    let r = find_chars(d, &paren, 0);
    proof {
        lemma_first_from_bounds(d@, paren@, 0);
    }
    r
}

/// Whether the parameter text of an entity instance can be cut out by byte
/// positions (see `entity_sliceable`).
pub fn entity_head_sliceable(data: &str) -> (r: bool)
    ensures
        r == entity_sliceable(data@),
{
    let d = entity_text_exec(data);
    match open_paren(&d) {
        None => true,
        Some(o) => o < d.len() - 1 && (d[d.len() - 1] as u32) < 0x80,
    }
}

/// Splits an entity instance into its type name and its parameter text
/// (see `entity_head`); an instance without `(` is refused with its text.
pub fn parse_entity_head(data: &str) -> (r: Result<(String, String), StepFormatError>)
    requires
        entity_sliceable(data@),
    ensures
        match entity_head(data@) {
            Err(d) => r matches Err(StepFormatError::InvalidEntity(m)) && m@ == d,
            Ok((t, p)) => r matches Ok((rt, rp)) && rt@ == t && rp@ == p,
        },
{
    let d = entity_text_exec(data);
    match open_paren(&d) {
        None => Err(StepFormatError::InvalidEntity(chars_to_string(&d))),
        Some(o) => {
            let ty = sub_chars(&d, 0, o);
            proof {
                assert(d@.subrange(0, o as int) =~= d@.take(o as int));
            }
            let n = d.len();
            assert(o < n - 1);
            let params = sub_chars(&d, o + 1, n - 1);
            Ok((chars_to_string(&ty), chars_to_string(&params)))
        },
    }
}

/// The instance that a parameter refers to: a trimmed parameter `#`
/// followed by an instance number.
pub open spec fn param_ref(p: Seq<char>) -> Option<usize> {
    let t = trimmed(p);
    if t.len() > 0 && t[0] == '#' {
        usize_value(t.skip(1))
    } else {
        None
    }
}

/// The STEP logical `.T.`.
pub open spec fn true_flag() -> Seq<char> {
    seq!['.', 'T', '.']
}

/// The STEP logical `.F.`.
pub open spec fn false_flag() -> Seq<char> {
    seq!['.', 'F', '.']
}

fn trimmed_param(p: &String) -> (r: Vec<char>)
    ensures
        r@ == trimmed(p@),
{
    trim_chars(&str_chars(p.as_str()))
}

fn param_ref_exec(p: &String) -> (r: Option<usize>)
    ensures
        r == param_ref(p@),
{
    let t = trimmed_param(p);
    if t.len() > 0 && t[0] == '#' {
        let rest = sub_chars(&t, 1, t.len());
        proof {
            assert(rest@ =~= t@.skip(1));
        }
        parse_usize(&rest)
    } else {
        None
    }
}

fn is_flag(t: &Vec<char>, letter: char) -> (r: bool)
    ensures
        r == (t@ == seq!['.', letter, '.']),
{
    let r = t.len() == 3 && t[0] == '.' && t[1] == letter && t[2] == '.';
    proof {
        if r {
            assert(t@ =~= seq!['.', letter, '.']);
        }
        if t@ == seq!['.', letter, '.'] {
            assert(t@[1] == letter);
        }
    }
    r
}

/// One parameter of an `EDGE_LOOP`: a reference adds its edge with the
/// orientation true; a `.T.` or `.F.` adds an orientation alone.
pub open spec fn edge_loop_step(acc: (Seq<usize>, Seq<bool>), p: Seq<char>) -> (Seq<usize>, Seq<bool>) {
    let t = trimmed(p);
    if t.len() > 0 && t[0] == '#' {
        match usize_value(t.skip(1)) {
            Some(id) => (acc.0.push(id), acc.1.push(true)),
            None => acc,
        }
    } else if t == true_flag() || t == false_flag() {
        (acc.0, acc.1.push(t == true_flag()))
    } else {
        acc
    }
}

/// The edges and orientations of an `EDGE_LOOP`, from its parameters.
pub open spec fn edge_loop_refs(ps: Seq<Seq<char>>) -> (Seq<usize>, Seq<bool>)
    decreases ps.len(),
{
    if ps.len() == 0 {
        (Seq::empty(), Seq::empty())
    } else {
        edge_loop_step(edge_loop_refs(ps.drop_last()), ps.last())
    }
}

/// The edge references and orientations of an `EDGE_LOOP` instance.
pub fn parse_edge_loop(params: &Vec<String>) -> (r: (Vec<usize>, Vec<bool>))
    ensures
        (r.0@, r.1@) == edge_loop_refs(str_views(params@)),
{
    let mut edge_ids: Vec<usize> = Vec::new();
    let mut orientations: Vec<bool> = Vec::new();
    let ghost ps = str_views(params@);
    let mut i: usize = 0;
    while i < params.len()
        invariant
            ps == str_views(params@),
            i <= params.len(),
            (edge_ids@, orientations@) == edge_loop_refs(ps.take(i as int)),
        decreases params.len() - i,
    {
        proof {
            assert(ps.take(i + 1).drop_last() =~= ps.take(i as int));
            assert(ps.take(i + 1).last() == params@[i as int]@);
        }
        let t = trimmed_param(&params[i]);
        if t.len() > 0 && t[0] == '#' {
            let rest = sub_chars(&t, 1, t.len());
            proof {
                assert(rest@ =~= t@.skip(1));
            }
            match parse_usize(&rest) {
                Some(id) => {
                    edge_ids.push(id);
                    orientations.push(true);
                },
                None => {},
            }
        } else {
            let is_t = is_flag(&t, 'T');
            let is_f = is_flag(&t, 'F');
            if is_t || is_f {
                orientations.push(is_t);
            }
        }
        i = i + 1;
    }
    proof {
        assert(ps.take(params.len() as int) =~= ps);
    }
    (edge_ids, orientations)
}

/// The parameter at `i`, if there is one.
pub open spec fn param_at(ps: Seq<Seq<char>>, i: int) -> Option<usize> {
    if i < ps.len() {
        param_ref(ps[i])
    } else {
        None
    }
}

/// The curve, start vertex and end vertex of an `EDGE_CURVE` instance: the
/// references among its first three parameters.
pub fn parse_edge_curve(params: &Vec<String>) -> (r: (Option<usize>, Option<usize>, Option<usize>))
    ensures
        r.0 == param_at(str_views(params@), 0),
        r.1 == param_at(str_views(params@), 1),
        r.2 == param_at(str_views(params@), 2),
{
    let curve_id = if params.len() > 0 {
        param_ref_exec(&params[0])
    } else {
        None
    };
    let start_id = if params.len() > 1 {
        param_ref_exec(&params[1])
    } else {
        None
    };
    let end_id = if params.len() > 2 {
        param_ref_exec(&params[2])
    } else {
        None
    };
    (curve_id, start_id, end_id)
}

/// The bound and orientation of a `FACE_BOUND` instance: the reference in
/// its first parameter, and whether its second parameter is `.T.` (true
/// when there is no second parameter).
pub fn parse_face_bound(params: &Vec<String>) -> (r: (Option<usize>, bool))
    ensures
        r.0 == param_at(str_views(params@), 0),
        r.1 == if params@.len() > 1 {
            trimmed(params@[1]@) == true_flag()
        } else {
            true
        },
{
    let bound_id = if params.len() > 0 {
        param_ref_exec(&params[0])
    } else {
        None
    };
    let orientation = if params.len() > 1 {
        is_flag(&trimmed_param(&params[1]), 'T')
    } else {
        true
    };
    (bound_id, orientation)
}

/// One parameter of a `MANIFOLD_SOLID_BREP`: a reference adds its instance;
/// a parenthesized list adds one boundary.
pub open spec fn brep_step(acc: (Seq<usize>, nat), p: Seq<char>) -> (Seq<usize>, nat) {
    let t = trimmed(p);
    if t.len() > 0 && t[0] == '#' {
        match usize_value(t.skip(1)) {
            Some(id) => (acc.0.push(id), acc.1),
            None => acc,
        }
    } else if t.len() > 0 && t[0] == '(' {
        (acc.0, acc.1 + 1)
    } else {
        acc
    }
}

/// The instance references and the number of boundary lists of a
/// `MANIFOLD_SOLID_BREP`, from its parameters.
pub open spec fn brep_refs(ps: Seq<Seq<char>>) -> (Seq<usize>, nat)
    decreases ps.len(),
{
    if ps.len() == 0 {
        (Seq::empty(), 0)
    } else {
        brep_step(brep_refs(ps.drop_last()), ps.last())
    }
}

proof fn lemma_brep_count_bound(ps: Seq<Seq<char>>)
    ensures
        brep_refs(ps).1 <= ps.len(),
    decreases ps.len(),
{
    if ps.len() > 0 {
        lemma_brep_count_bound(ps.drop_last());
    }
}

/// The instance references and the number of boundary lists of a
/// `MANIFOLD_SOLID_BREP` (or `BREP_WITH_VOIDS`) instance.
pub fn parse_manifold_solid_brep(params: &Vec<String>) -> (r: (Vec<usize>, usize))
    ensures
        (r.0@, r.1 as nat) == brep_refs(str_views(params@)),
{
    let mut refs: Vec<usize> = Vec::new();
    let mut boundaries: usize = 0;
    let ghost ps = str_views(params@);
    let mut i: usize = 0;
    while i < params.len()
        invariant
            ps == str_views(params@),
            i <= params.len(),
            (refs@, boundaries as nat) == brep_refs(ps.take(i as int)),
        decreases params.len() - i,
    {
        proof {
            assert(ps.take(i + 1).drop_last() =~= ps.take(i as int));
            assert(ps.take(i + 1).last() == params@[i as int]@);
            lemma_brep_count_bound(ps.take(i as int));
        }
        let t = trimmed_param(&params[i]);
        if t.len() > 0 && t[0] == '#' {
            let rest = sub_chars(&t, 1, t.len());
            proof {
                assert(rest@ =~= t@.skip(1));
            }
            match parse_usize(&rest) {
                Some(id) => {
                    refs.push(id);
                },
                None => {},
            }
        } else if t.len() > 0 && t[0] == '(' {
            boundaries = boundaries + 1;
        }
        i = i + 1;
    }
    proof {
        assert(ps.take(params.len() as int) =~= ps);
    }
    (refs, boundaries)
}

} // verus!
