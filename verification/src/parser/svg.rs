//! SVG helpers: error kinds, metadata and the safety screen run before an
//! SVG document is rendered.

use crate::seqs::{count_in, lemma_count_le_len, lemma_count_push};
use crate::text::{decimal, decimal_string, is_white_space, is_whitespace_char, occurs_at};
use vstd::prelude::*;
use vstd::string::{StringExecFns, StringSliceAdditionalSpecFns};

verus! {

/// SVG file parser.
pub struct SvgParser;

/// Size attributes of an SVG document.
#[derive(Debug, Clone)]
pub struct SvgMetadata {
    pub width: String,
    pub height: String,
    pub view_box: Option<String>,
}

/// Errors of SVG parsing.
#[derive(Debug)]
pub enum SvgError {
    /// The file could not be read.
    Io(std::io::Error),
    /// The file does not exist.
    FileNotFound(String),
    /// The content is not valid SVG.
    ParseError(String),
    /// The document was refused for safety.
    Security(String),
}

/// Errors of SVG rendering.
#[derive(Debug)]
pub enum SvgRenderError {
    /// A file could not be read or written.
    IoError(std::io::Error),
    /// The content is not valid SVG.
    ParseError(String),
    /// The document was refused for safety.
    Security(String),
    /// The operation is not available.
    NotImplemented,
    /// The image has no area.
    InvalidSize,
    /// The PNG could not be written.
    PngError(String),
}

/// `std::io::Error`'s `Display` text. It comes from the operating system,
/// so nothing is claimed of it.
#[verifier::external_body]
fn io_error_text(e: &std::io::Error) -> String {
    e.to_string()
}

impl SvgRenderError {
    /// The error's message.
    pub fn message(&self) -> (r: String)
        ensures
            match self {
                SvgRenderError::IoError(_) => exists|t: Seq<char>| r@ == "文件读取失败："@ + t,
                SvgRenderError::ParseError(m) => r@ == "SVG 解析失败："@ + m@,
                SvgRenderError::Security(m) => r@ == "安全错误："@ + m@,
                SvgRenderError::NotImplemented => r@ == "功能尚未实现"@,
                SvgRenderError::InvalidSize => r@ == "无效的图像尺寸"@,
                SvgRenderError::PngError(m) => r@ == "PNG 保存失败："@ + m@,
            },
    {
        match self {
            SvgRenderError::IoError(e) => {
                let mut r = "文件读取失败：".to_owned();
                let t = io_error_text(e);
                r.append(t.as_str());
                r
            },
            SvgRenderError::ParseError(m) => {
                let mut r = "SVG 解析失败：".to_owned();
                r.append(m.as_str());
                r
            },
            SvgRenderError::Security(m) => {
                let mut r = "安全错误：".to_owned();
                r.append(m.as_str());
                r
            },
            SvgRenderError::NotImplemented => "功能尚未实现".to_owned(),
            SvgRenderError::InvalidSize => "无效的图像尺寸".to_owned(),
            SvgRenderError::PngError(m) => {
                let mut r = "PNG 保存失败：".to_owned();
                r.append(m.as_str());
                r
            },
        }
    }
}

/// `needle` occurs in `hay` starting somewhere in `lo..` and ending by `hi`.
pub open spec fn occurs_between(hay: Seq<u8>, needle: Seq<u8>, lo: int, hi: int) -> bool {
    exists|j: int| lo <= j && j + needle.len() <= hi && #[trigger] occurs_at(hay, needle, j)
}

/// `needle` occurs somewhere in `hay`.
pub open spec fn occurs(hay: Seq<u8>, needle: Seq<u8>) -> bool {
    occurs_between(hay, needle, 0, hay.len() as int)
}

/// `i` is where `needle` first occurs in `hay`.
pub open spec fn first_occurrence(hay: Seq<u8>, needle: Seq<u8>, i: int) -> bool {
    occurs_at(hay, needle, i) && forall|j: int| 0 <= j < i ==> !#[trigger] occurs_at(hay, needle, j)
}

/// Where `needle` first occurs in `hay` (meaningful when it occurs).
pub open spec fn first_index(hay: Seq<u8>, needle: Seq<u8>) -> int {
    choose|i: int| first_occurrence(hay, needle, i)
}

/// `i` is where `needle` first occurs in `hay` at or after `lo`.
pub open spec fn first_from(hay: Seq<u8>, needle: Seq<u8>, lo: int, i: int) -> bool {
    lo <= i && occurs_at(hay, needle, i) && forall|j: int| lo <= j < i ==> !#[trigger] occurs_at(hay, needle, j)
}

/// Where the DOCTYPE section examined for entity definitions ends: at the
/// first `>` from the start of the first `<!DOCTYPE` on, or at the end of
/// the document.
pub open spec fn doctype_end(content: Seq<u8>) -> int {
    let start = first_index(content, "<!DOCTYPE".spec_bytes());
    if occurs_between(content, ">".spec_bytes(), start, content.len() as int) {
        choose|i: int| first_from(content, ">".spec_bytes(), start, i)
    } else {
        content.len() as int
    }
}

/// The document declares entities and a DOCTYPE.
pub open spec fn declares_entities(content: Seq<u8>) -> bool {
    occurs(content, "<!ENTITY".spec_bytes()) && occurs(content, "<!DOCTYPE".spec_bytes())
}

/// The lowercase form of a document holds script content: a script tag, a
/// `javascript:` URL or a `data:text/html` URL.
pub open spec fn script_issue(lower: Seq<u8>) -> bool {
    occurs(lower, "<script".spec_bytes()) || occurs(lower, "</script".spec_bytes()) || occurs(
        lower,
        "javascript:".spec_bytes(),
    ) || occurs(lower, "data:text/html".spec_bytes())
}

/// Number of `&` bytes, each a possible entity reference.
pub open spec fn ampersands(content: Seq<u8>) -> nat {
    count_in(content, 38u8)
}

/// The first safety problem of a document, as the message of the refusal,
/// given its bytes and the bytes of its lowercase form; `None` for a safe
/// document.
pub open spec fn svg_issue(content: Seq<u8>, lower: Seq<u8>) -> Option<Seq<char>> {
    if occurs(lower, "<script".spec_bytes()) || occurs(lower, "</script".spec_bytes()) {
        Some("SVG 安全检测：不允许使用 <script> 标签"@)
    } else if occurs(lower, "javascript:".spec_bytes()) {
        Some("SVG 安全检测：不允许使用 javascript: URL"@)
    } else if occurs(lower, "data:text/html".spec_bytes()) {
        Some("SVG 安全检测：不允许使用 data:text/html URL"@)
    } else if declares_entities(content) && occurs_between(
        content,
        "<!ENTITY".spec_bytes(),
        first_index(content, "<!DOCTYPE".spec_bytes()),
        doctype_end(content),
    ) {
        Some("SVG 安全检测：不允许在 DOCTYPE 中定义实体"@)
    } else if ampersands(content) > 1000 {
        Some(
            "SVG 安全检测：实体引用数量过多（"@ + decimal(ampersands(content))
                + "），可能存在实体扩展攻击"@,
        )
    } else if content.len() > 10485760 {
        Some("SVG 安全检测：SVG 文件过大（>10MB）"@)
    } else {
        None
    }
}

/// The lowercase form of a string, as `str::to_lowercase` computes it.
pub uninterp spec fn lowercase(s: Seq<char>) -> Seq<char>;

/// `str::to_lowercase`: the Unicode lowercase mapping of every character.
/// Its result is named, not described.
#[verifier::external_body]
fn to_lowercase(s: &str) -> (r: String)
    ensures
        r@ == lowercase(s@),
{
    s.to_lowercase()
}

/// First position in `lo..` where `needle` occurs and ends by `hi`.
fn find_between(hay: &[u8], needle: &[u8], lo: usize, hi: usize) -> (r: Option<usize>)
    requires
        lo <= hi <= hay@.len(),
    ensures
        match r {
            Some(i) => lo <= i && i + needle@.len() <= hi && occurs_at(hay@, needle@, i as int)
                && forall|j: int| lo <= j < i ==> !#[trigger] occurs_at(hay@, needle@, j),
            None => !occurs_between(hay@, needle@, lo as int, hi as int),
        },
{
    if needle.len() > hi - lo {
        return None;
    }
    let last = hi - needle.len();
    let mut i: usize = lo;
    while i <= last
        invariant
            lo <= i,
            last + needle@.len() == hi,
            hi <= hay@.len(),
            forall|j: int| lo <= j < i ==> !#[trigger] occurs_at(hay@, needle@, j),
        decreases last + 1 - i,
    {
        let mut k: usize = 0;
        let mut same = true;
        while same && k < needle.len()
            invariant
                i <= last,
                last + needle@.len() == hi,
                hi <= hay@.len(),
                k <= needle@.len(),
                same ==> forall|m: int| 0 <= m < k ==> hay@[i + m] == needle@[m],
                !same ==> !occurs_at(hay@, needle@, i as int),
            decreases needle@.len() - k + if same { 1int } else { 0int },
        {
            if hay[i + k] != needle[k] {
                proof {
                    assert(hay@.subrange(i as int, i + needle@.len())[k as int] != needle@[k as int]);
                }
                same = false;
            } else {
                k = k + 1;
            }
        }
        if same {
            proof {
                assert(hay@.subrange(i as int, i + needle@.len()) =~= needle@);
            }
            return Some(i);
        }
        if i == last {
            return None;
        }
        i = i + 1;
    }
    None
}

/// First position where `needle` occurs in `hay`.
fn find_bytes(hay: &[u8], needle: &[u8]) -> (r: Option<usize>)
    ensures
        match r {
            Some(i) => first_occurrence(hay@, needle@, i as int),
            None => !occurs(hay@, needle@),
        },
{
    let r = find_between(hay, needle, 0, hay.len());
    proof {
        if let Some(i) = r {
            assert forall|j: int| 0 <= j < i implies !#[trigger] occurs_at(hay@, needle@, j) by {}
        }
    }
    r
}

proof fn lemma_first_index(hay: Seq<u8>, needle: Seq<u8>, i: int)
    requires
        first_occurrence(hay, needle, i),
    ensures
        first_index(hay, needle) == i,
{
    let k = first_index(hay, needle);
    assert(first_occurrence(hay, needle, k));
    if k < i {
        assert(!occurs_at(hay, needle, k));
    }
    if i < k {
        assert(!occurs_at(hay, needle, i));
    }
}

proof fn lemma_first_from(hay: Seq<u8>, needle: Seq<u8>, lo: int, i: int)
    requires
        first_from(hay, needle, lo, i),
    ensures
        (choose|k: int| first_from(hay, needle, lo, k)) == i,
{
    let k = choose|k: int| first_from(hay, needle, lo, k);
    assert(first_from(hay, needle, lo, k));
    if k < i {
        assert(!occurs_at(hay, needle, k));
    }
    if i < k {
        assert(!occurs_at(hay, needle, i));
    }
}

/// Number of `&` bytes in `hay`.
fn count_ampersands(hay: &[u8]) -> (r: usize)
    ensures
        r == count_in(hay@, 38u8),
{
    let mut n: usize = 0;
    let mut k: usize = 0;
    while k < hay.len()
        invariant
            k <= hay@.len(),
            n == count_in(hay@.take(k as int), 38u8),
        decreases hay@.len() - k,
    {
        proof {
            assert(hay@.take(k + 1) =~= hay@.take(k as int).push(hay@[k as int]));
            lemma_count_push(hay@.take(k as int), hay@[k as int], 38u8);
            lemma_count_le_len(hay@.take(k as int), 38u8);
        }
        if hay[k] == 38u8 {
            n = n + 1;
        }
        k = k + 1;
    }
    proof {
        assert(hay@.take(hay@.len() as int) =~= hay@);
    }
    n
}

/// Screens a document, given its lowercase form, for script content,
/// entity definitions in the DOCTYPE, too many entity references and
/// excessive size, and refuses it with the message of the first problem
/// found.
pub fn check_svg_content(svg_content: &str, svg_lower: &str) -> (r: Result<(), SvgRenderError>)
    ensures
        match r {
            Ok(()) => svg_issue(svg_content.spec_bytes(), svg_lower.spec_bytes()) is None,
            Err(e) => e matches SvgRenderError::Security(m) && svg_issue(
                svg_content.spec_bytes(),
                svg_lower.spec_bytes(),
            ) == Some(m@),
        },
{
    let content = svg_content.as_bytes();
    let lower = svg_lower.as_bytes();
    if find_bytes(lower, "<script".as_bytes()).is_some() || find_bytes(
        lower,
        "</script".as_bytes(),
    ).is_some() {
        return Err(SvgRenderError::Security("SVG 安全检测：不允许使用 <script> 标签".to_owned()));
    }
    if find_bytes(lower, "javascript:".as_bytes()).is_some() {
        return Err(
            SvgRenderError::Security("SVG 安全检测：不允许使用 javascript: URL".to_owned()),
        );
    }
    if find_bytes(lower, "data:text/html".as_bytes()).is_some() {
        return Err(
            SvgRenderError::Security("SVG 安全检测：不允许使用 data:text/html URL".to_owned()),
        );
    }
    if find_bytes(content, "<!ENTITY".as_bytes()).is_some() {
        if let Some(start) = find_bytes(content, "<!DOCTYPE".as_bytes()) {
            proof {
                lemma_first_index(content@, "<!DOCTYPE".spec_bytes(), start as int);
            }
            let gt = find_between(content, ">".as_bytes(), start, content.len());
            let end = match gt {
                Some(g) => g,
                None => content.len(),
            };
            proof {
                if let Some(g) = gt {
                    lemma_first_from(content@, ">".spec_bytes(), start as int, g as int);
                }
                assert(end as int == doctype_end(content@));
            }
            if find_between(content, "<!ENTITY".as_bytes(), start, end).is_some() {
                return Err(
                    SvgRenderError::Security("SVG 安全检测：不允许在 DOCTYPE 中定义实体".to_owned()),
                );
            }
        }
    }
    let refs = count_ampersands(content);
    if refs > 1000 {
        let mut msg = "SVG 安全检测：实体引用数量过多（".to_owned();
        let num = decimal_string(refs as u64);
        msg.append(num.as_str());
        msg.append("），可能存在实体扩展攻击");
        return Err(SvgRenderError::Security(msg));
    }
    if content.len() > 10485760 {
        return Err(SvgRenderError::Security("SVG 安全检测：SVG 文件过大（>10MB）".to_owned()));
    }
    Ok(())
}

/// Screens an SVG document before it is rendered: refuses script tags,
/// `javascript:` and `data:text/html` URLs (in any letter case), entity
/// definitions inside the DOCTYPE, more than 1000 entity references and
/// documents over 10 MB, with the message of the first problem found.
pub fn validate_svg_security(svg_content: &str) -> (r: Result<(), SvgRenderError>)
    ensures
        match r {
            Ok(()) => svg_issue(
                svg_content.spec_bytes(),
                vstd::utf8::encode_utf8(lowercase(svg_content@)),
            ) is None,
            Err(e) => e matches SvgRenderError::Security(m) && svg_issue(
                svg_content.spec_bytes(),
                vstd::utf8::encode_utf8(lowercase(svg_content@)),
            ) == Some(m@),
        },
{
    let lower = to_lowercase(svg_content);
    check_svg_content(svg_content, lower.as_str())
}

/// Whether path data treats `c` as a separator: white space or a comma.
pub open spec fn is_separator(c: char) -> bool {
    is_white_space(c) || c == ','
}

/// Skips the white space and commas of path data from `pos` on: returns the
/// position of the first other character, or the end of the data.
pub fn skip_whitespace_and_commas(chars: &Vec<char>, pos: usize) -> (r: usize)
    requires
        pos <= chars@.len(),
    ensures
        pos <= r <= chars@.len(),
        forall|k: int| pos <= k < r ==> is_separator(#[trigger] chars@[k]),
        r == chars@.len() || !is_separator(chars@[r as int]),
{
    let mut i = pos;
    while i < chars.len() && (is_whitespace_char(chars[i]) || chars[i] == ',')
        invariant
            pos <= i <= chars@.len(),
            forall|k: int| pos <= k < i ==> is_separator(#[trigger] chars@[k]),
        decreases chars@.len() - i,
    {
        i = i + 1;
    }
    i
}

} // verus!
