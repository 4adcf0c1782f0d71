//! IGES records: parameter lists and the Global section.

use super::params::{split_parameters, split_params};
use super::parser_common::CadMetadata;
use crate::records::{
    byte_prefix, byte_prefix_chars, char_width, has_byte_boundary, lines_of, opt_view, parse_u16,
    split_fields, split_lines, split_on, u16_value, utf8_len, utf8_len_at_least, vec_views,
};
use crate::text::{chars_to_string, str_chars, str_views, trim_chars, trimmed};
use vstd::prelude::*;

verus! {

/// Splits an IGES parameter record at the commas outside quoted strings
/// (single or double quotes) and parentheses, trimming each parameter.
pub fn parse_iges_parameters(param_data: &str) -> (r: Vec<String>)
    requires
        param_data@.len() <= i32::MAX,
    ensures
        str_views(r@) == split_params(param_data@, true),
{
    split_parameters(param_data, true)
}

/// Whether `line` is a line of the section marked `tag`: at least 80
/// bytes long, with `tag` as its 73rd character.
pub open spec fn is_section_line(line: Seq<char>, tag: char) -> bool {
    utf8_len(line) >= 80 && line.len() > 72 && line[72] == tag
}

/// Whether `line` belongs to the Global section.
pub open spec fn is_global_line(line: Seq<char>) -> bool {
    is_section_line(line, 'G')
}

fn is_section_line_exec(line: &Vec<char>, tag: char) -> (r: bool)
    ensures
        r == is_section_line(line@, tag),
{
    line.len() > 72 && line[72] == tag && utf8_len_at_least(line, 80)
}

/// The index of the first Global line from `i` on.
pub open spec fn first_global_from(ls: Seq<Seq<char>>, i: int) -> Option<int>
    decreases ls.len() - i,
{
    if i < 0 || i >= ls.len() {
        None
    } else if is_global_line(ls[i]) {
        Some(i)
    } else {
        first_global_from(ls, i + 1)
    }
}

/// The first Global line of an IGES text.
pub open spec fn global_line(content: Seq<char>) -> Option<Seq<char>> {
    match first_global_from(lines_of(content), 0) {
        Some(i) => Some(lines_of(content)[i]),
        None => None,
    }
}

/// Whether the first 72 bytes of the first Global line end at a character,
/// so that its parameter area can be cut off.
pub open spec fn global_sliceable(content: Seq<char>) -> bool {
    match global_line(content) {
        Some(l) => has_byte_boundary(l, 72),
        None => true,
    }
}

/// The comma-separated fields of the parameter area (the first 72 bytes)
/// of the first Global line, if there is one.
pub open spec fn global_fields(content: Seq<char>) -> Option<Seq<Seq<char>>> {
    match global_line(content) {
        Some(l) => Some(split_on(byte_prefix(l, 72), ',')),
        None => None,
    }
}

/// The unit named by the units flag of the Global section.
pub open spec fn unit_name(code: Seq<char>) -> Seq<char> {
    if code == seq!['1'] {
        "inches"@
    } else if code == seq!['2'] {
        "mm"@
    } else if code == seq!['3'] {
        "meters"@
    } else {
        "unknown"@
    }
}

fn unit_string(code: &Vec<char>) -> (r: String)
    ensures
        r@ == unit_name(code@),
{
    let one = code.len() == 1;
    if one && code[0] == '1' {
        proof {
            assert(code@ =~= seq!['1']);
        }
        "inches".to_string()
    } else if one && code[0] == '2' {
        proof {
            assert(code@ =~= seq!['2']);
        }
        "mm".to_string()
    } else if one && code[0] == '3' {
        proof {
            assert(code@ =~= seq!['3']);
        }
        "meters".to_string()
    } else {
        proof {
            if code@.len() == 1 {
                assert(code@ != seq!['1'] ==> code@[0] != '1');
            }
        }
        "unknown".to_string()
    }
}

/// Whether the first 72 bytes of the first Global line of `content` end at
/// a character.
pub fn global_section_sliceable(content: &str) -> (r: bool)
    ensures
        r == global_sliceable(content@),
{
    let chars = str_chars(content);
    let lines = split_lines(&chars);
    let ghost ls = lines_of(content@);
    let mut i: usize = 0;
    while i < lines.len()
        invariant
            vec_views(lines@) == ls,
            ls == lines_of(content@),
            i <= lines.len(),
            first_global_from(ls, 0) == first_global_from(ls, i as int),
        decreases lines.len() - i,
    {
        let line = &lines[i];
        proof {
            assert(line@ == ls[i as int]);
        }
        if line.len() > 72 && line[72] == 'G' && utf8_len_at_least(line, 80) {
            return ends_at_byte(line, 72);
        }
        i = i + 1;
    }
    true
}

proof fn lemma_width_positive(s: Seq<char>, i: int, j: int)
    requires
        0 <= i < j <= s.len(),
    ensures
        utf8_len(s.take(i)) < utf8_len(s.take(j)),
    decreases j - i,
{
    assert(s.take(i + 1).drop_last() =~= s.take(i));
    if i + 1 < j {
        lemma_width_positive(s, i + 1, j);
    }
}

/// Whether `n` bytes of the UTF-8 encoding of `s` end at a character.
pub(crate) fn ends_at_byte(s: &Vec<char>, n: usize) -> (r: bool)
    requires
        n < usize::MAX - 4,
    ensures
        r == has_byte_boundary(s@, n as nat),
{
    let mut k: usize = 0;
    let mut acc: usize = 0;
    while acc < n && k < s.len()
        invariant
            k <= s.len(),
            acc == utf8_len(s@.take(k as int)),
            n < usize::MAX - 4,
            acc < n + 4,
            forall|q: int| 0 <= q < k ==> utf8_len(#[trigger] s@.take(q)) < n,
        decreases s.len() - k,
    {
        proof {
            assert(s@.take(k + 1).drop_last() =~= s@.take(k as int));
        }
        acc = acc + char_width(s[k]);
        k = k + 1;
    }
    proof {
        if acc == n {
            assert(utf8_len(s@.take(k as int)) == n);
        } else {
            assert forall|q: int| 0 <= q <= s@.len() implies utf8_len(#[trigger] s@.take(q)) != n by {
                if q < k {
                } else if q > k {
                    lemma_width_positive(s@, k as int, q);
                } else {
                }
                if acc < n {
                    assert(k == s@.len());
                }
            }
        }
    }
    acc == n
}

/// Reads the Global section of an IGES text into `metadata`: in the
/// parameter area (the first 72 bytes) of the first line that is at least
/// 80 bytes long with `G` in column 73, the comma-separated field 13 is
/// the file name, field 15 the version of the producing system and field
/// 16 the units flag (1 inches, 2 mm, 3 meters, anything else unknown),
/// each trimmed. Fields the line lacks leave their entry as it was.
pub fn parse_global(content: &str, metadata: &mut CadMetadata)
    requires
        global_sliceable(content@),
    ensures
        match global_fields(content@) {
            None => *final(metadata) == *old(metadata),
            Some(f) => {
                &&& if f.len() > 15 {
                    opt_view(final(metadata).source_software) == Some(trimmed(f[15]))
                } else {
                    final(metadata).source_software == old(metadata).source_software
                }
                &&& if f.len() > 13 {
                    opt_view(final(metadata).name) == Some(trimmed(f[13]))
                } else {
                    final(metadata).name == old(metadata).name
                }
                &&& if f.len() > 16 {
                    opt_view(final(metadata).units) == Some(unit_name(trimmed(f[16])))
                } else {
                    final(metadata).units == old(metadata).units
                }
                &&& final(metadata).author == old(metadata).author
                &&& final(metadata).organization == old(metadata).organization
                &&& final(metadata).creation_date == old(metadata).creation_date
                &&& final(metadata).modification_date == old(metadata).modification_date
                &&& final(metadata).target_software == old(metadata).target_software
            },
        },
{
    let chars = str_chars(content);
    let lines = split_lines(&chars);
    let ghost ls = lines_of(content@);
    let mut i: usize = 0;
    while i < lines.len()
        invariant
            vec_views(lines@) == ls,
            ls == lines_of(content@),
            i <= lines.len(),
            first_global_from(ls, 0) == first_global_from(ls, i as int),
            *metadata == *old(metadata),
            global_sliceable(content@),
        decreases lines.len() - i,
    {
        let line = &lines[i];
        proof {
            assert(line@ == ls[i as int]);
        }
        if line.len() > 72 && line[72] == 'G' && utf8_len_at_least(line, 80) {
            proof {
                assert(is_global_line(ls[i as int]));
                assert(global_line(content@) == Some(ls[i as int]));
            }
            let prefix = byte_prefix_chars(line, 72);
            let fields = split_fields(&prefix, ',');
            proof {
                assert(vec_views(fields@).len() == fields@.len());
            }
            if fields.len() > 15 {
                let v = chars_to_string(&trim_chars(&fields[15]));
                proof {
                    assert(vec_views(fields@)[15] == fields@[15]@);
                }
                metadata.source_software = Some(v);
            }
            if fields.len() > 13 {
                let v = chars_to_string(&trim_chars(&fields[13]));
                proof {
                    assert(vec_views(fields@)[13] == fields@[13]@);
                }
                metadata.name = Some(v);
            }
            if fields.len() > 16 {
                let v = unit_string(&trim_chars(&fields[16]));
                proof {
                    assert(vec_views(fields@)[16] == fields@[16]@);
                }
                metadata.units = Some(v);
            }
            return;
        }
        i = i + 1;
    }
}

/// The entity type in the first field (the first 8 bytes, trimmed) of a
/// Directory Entry line.
pub open spec fn dir_entity_type(line: Seq<char>) -> Option<u16> {
    u16_value(trimmed(byte_prefix(line, 8)))
}

/// The entity records of the lines from `i` on: each Directory Entry line
/// whose entity type reads as a number and that has a next line is paired
/// with that next line; when the next line is a Parameter Data line, the
/// entity type and the parameter area (the first 72 bytes) of that line
/// form a record. Both lines are then passed over.
pub open spec fn records_from(ls: Seq<Seq<char>>, i: int) -> Seq<(u16, Seq<char>)>
    decreases ls.len() - i,
{
    if i < 0 || i >= ls.len() {
        Seq::empty()
    } else if is_section_line(ls[i], 'D') && dir_entity_type(ls[i]) is Some && i + 1 < ls.len() {
        if is_section_line(ls[i + 1], 'P') {
            seq![(dir_entity_type(ls[i])->0, byte_prefix(ls[i + 1], 72))] + records_from(ls, i + 2)
        } else {
            records_from(ls, i + 2)
        }
    } else {
        records_from(ls, i + 1)
    }
}

/// Whether the fields read by `records_from` can be cut out by byte
/// positions: the first 8 bytes of each Directory Entry line visited and
/// the first 72 bytes of each Parameter Data line paired with one end at a
/// character.
pub open spec fn records_sliceable_from(ls: Seq<Seq<char>>, i: int) -> bool
    decreases ls.len() - i,
{
    if i < 0 || i >= ls.len() {
        true
    } else if is_section_line(ls[i], 'D') {
        has_byte_boundary(ls[i], 8) && if dir_entity_type(ls[i]) is Some && i + 1 < ls.len() {
            (is_section_line(ls[i + 1], 'P') ==> has_byte_boundary(ls[i + 1], 72))
                && records_sliceable_from(ls, i + 2)
        } else {
            records_sliceable_from(ls, i + 1)
        }
    } else {
        records_sliceable_from(ls, i + 1)
    }
}

/// The records with their parameter areas taken as character sequences.
pub open spec fn record_views(v: Seq<(u16, String)>) -> Seq<(u16, Seq<char>)> {
    v.map_values(|p: (u16, String)| (p.0, p.1@))
}

/// Whether the entity records of an IGES text can be cut out by byte
/// positions (see `records_sliceable_from`).
pub fn entity_records_sliceable(content: &str) -> (r: bool)
    ensures
        r == records_sliceable_from(lines_of(content@), 0),
{
    let chars = str_chars(content);
    let lines = split_lines(&chars);
    let ghost ls = lines_of(content@);
    let mut i: usize = 0;
    while i < lines.len()
        invariant
            vec_views(lines@) == ls,
            ls == lines_of(content@),
            i <= lines.len() + 1,
            records_sliceable_from(ls, 0) == records_sliceable_from(ls, i as int),
        decreases lines.len() + 1 - i,
    {
        let line = &lines[i];
        proof {
            assert(line@ == ls[i as int]);
        }
        if is_section_line_exec(line, 'D') {
            if !ends_at_byte(line, 8) {
                return false;
            }
            let head = byte_prefix_chars(line, 8);
            let t = parse_u16(&trim_chars(&head));
            if t.is_some() && i + 1 < lines.len() {
                let next = &lines[i + 1];
                proof {
                    assert(next@ == ls[i + 1]);
                }
                if is_section_line_exec(next, 'P') && !ends_at_byte(next, 72) {
                    return false;
                }
                i = i + 2;
            } else {
                i = i + 1;
            }
        } else {
            i = i + 1;
        }
    }
    true
}

/// The entity records of an IGES text, in order: for each Directory Entry
/// line (at least 80 bytes, `D` in column 73) whose first field reads as an
/// entity type and whose next line is a Parameter Data line (`P` in column
/// 73), the entity type and the parameter area of that next line.
pub fn entity_records(content: &str) -> (r: Vec<(u16, String)>)
    requires
        records_sliceable_from(lines_of(content@), 0),
    ensures
        record_views(r@) == records_from(lines_of(content@), 0),
{
    let chars = str_chars(content);
    let lines = split_lines(&chars);
    let ghost ls = lines_of(content@);
    let mut out: Vec<(u16, String)> = Vec::new();
    let mut i: usize = 0;
    while i < lines.len()
        invariant
            vec_views(lines@) == ls,
            ls == lines_of(content@),
            i <= lines.len() + 1,
            records_sliceable_from(ls, i as int),
            records_from(ls, 0) == record_views(out@) + records_from(ls, i as int),
        decreases lines.len() + 1 - i,
    {
        let line = &lines[i];
        proof {
            assert(line@ == ls[i as int]);
        }
        if is_section_line_exec(line, 'D') {
            let head = byte_prefix_chars(line, 8);
            let t = parse_u16(&trim_chars(&head));
            if t.is_some() && i + 1 < lines.len() {
                let next = &lines[i + 1];
                proof {
                    assert(next@ == ls[i + 1]);
                }
                if is_section_line_exec(next, 'P') {
                    let area = chars_to_string(&byte_prefix_chars(next, 72));
                    let ghost before = out@;
                    let ty = t.unwrap();
                    out.push((ty, area));
                    proof {
                        assert(record_views(out@) =~= record_views(before).push((ty, area@)));
                        assert(record_views(before).push((ty, area@)) + records_from(ls, i + 2)
                            =~= record_views(before) + (seq![(ty, area@)] + records_from(ls, i + 2)));
                    }
                }
                i = i + 2;
            } else {
                i = i + 1;
            }
        } else {
            i = i + 1;
        }
    }
    proof {
        assert(records_from(ls, i as int) =~= Seq::<(u16, Seq<char>)>::empty());
        assert(record_views(out@) + Seq::<(u16, Seq<char>)>::empty() =~= record_views(out@));
    }
    out
}

} // verus!
