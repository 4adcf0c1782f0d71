//! Structured prompts for the language model: templates, settings, the
//! fixed system prompts and reasoning guidance, the primitive statistics,
//! and the assembly of analysis and reasoning prompts.

use crate::records::opt_view;
use crate::seqs::{count_in, lemma_count_le_len, lemma_count_push};
use crate::text::{decimal, decimal_string, occurs_at, str_views};
use vstd::prelude::*;
use vstd::string::StringExecFns;

verus! {

/// Kind of prompt.
#[derive(Debug, Clone, Copy, PartialEq)]
pub enum PromptTemplate {
    /// Geometric analysis.
    Analysis,
    /// Geometric reasoning.
    Reasoning,
    /// Constraint verification.
    Verification,
    /// Room detection.
    RoomDetection,
    /// Dimension measurement.
    DimensionMeasurement,
    /// Anything else.
    Custom,
}

/// Settings of prompt building.
#[derive(Debug, Clone)]
pub struct PromptConfig {
    /// Kind of prompt.
    pub template: PromptTemplate,
    /// Whether primitives are listed in detail.
    pub include_primitive_details: bool,
    /// Whether constraints are listed.
    pub include_constraints: bool,
    /// Whether verification results are included.
    pub include_verification: bool,
    /// Whether reasoning guidance is included.
    pub include_reasoning_guidance: bool,
    /// Whether coordinate ranges are included.
    pub include_coordinate_info: bool,
    /// Most primitives listed in detail.
    pub max_primitives_display: usize,
    /// Language of the prompt.
    pub language: String,
    /// Whether many primitives are only summarised.
    pub enable_summary_mode: bool,
    /// Number of primitives above which only a summary is given.
    pub summary_mode_threshold: usize,
}

impl Default for PromptConfig {
    /// Analysis prompts with every section, at most 50 primitives in
    /// detail, in Chinese, summarised above 100 primitives.
    fn default() -> (c: PromptConfig)
        ensures
            c.template == PromptTemplate::Analysis,
            c.include_primitive_details,
            c.include_constraints,
            c.include_verification,
            c.include_reasoning_guidance,
            c.include_coordinate_info,
            c.max_primitives_display == 50,
            c.language@ == "zh-CN"@,
            c.enable_summary_mode,
            c.summary_mode_threshold == 100,
    {
        PromptConfig {
            template: PromptTemplate::Analysis,
            include_primitive_details: true,
            include_constraints: true,
            include_verification: true,
            include_reasoning_guidance: true,
            include_coordinate_info: true,
            max_primitives_display: 50,
            language: "zh-CN".to_owned(),
            enable_summary_mode: true,
            summary_mode_threshold: 100,
        }
    }
}

/// A built prompt.
#[derive(Debug, Clone)]
pub struct StructuredPrompt {
    /// System part.
    pub system_prompt: String,
    /// User part.
    pub user_prompt: String,
    /// Both parts together.
    pub full_prompt: String,
    /// What went into it.
    pub metadata: PromptMetadata,
}

/// What went into a prompt.
#[derive(Debug, Clone)]
pub struct PromptMetadata {
    /// Number of primitives.
    pub primitive_count: usize,
    /// Number of constraints.
    pub constraint_count: usize,
    /// Length of the full prompt in bytes.
    pub prompt_length: usize,
    /// Template used.
    pub template: PromptTemplate,
    /// Kinds of context injected.
    pub injected_context: Vec<String>,
}

/// Builds prompts from geometric analysis results.
#[derive(Debug, Clone)]
pub struct PromptBuilder {
    config: PromptConfig,
}

/// The system prompt of a template.
pub open spec fn system_prompt(t: PromptTemplate) -> Seq<char> {
    match t {
        PromptTemplate::Analysis => "你是一个 CAD 几何推理专家。你将收到经过精确计算的几何基元和约束关系，请基于这些结构化信息进行推理分析。你的推理应该：\n1. 基于给定的几何事实，不臆测\n2. 逻辑清晰，分步骤推理\n3. 输出可解释、可验证的结论"@,
        PromptTemplate::Reasoning => "你是一个 CAD 几何推理专家。你将收到精确的几何数据和约束关系，请根据任务要求进行推理。注意：\n1. 所有几何数据已经过算法验证，是可靠的事实\n2. 请基于这些事实进行逻辑推理\n3. 推理过程应该分步骤、可解释\n4. 如有不确定性，请明确指出"@,
        _ => "你是一个 CAD 几何推理助手，请基于给定的几何信息进行分析。"@,
    }
}

/// The reasoning guidance of a template; for reasoning prompts it mentions
/// closed regions when there are polygons and right-angle corners when
/// there are perpendicular relations.
pub open spec fn reasoning_guidance_text(
    t: PromptTemplate,
    has_polygons: bool,
    has_perpendicular: bool,
) -> Seq<char> {
    match t {
        PromptTemplate::Analysis => "建议按以下步骤分析：\n1. 观察基元类型和数量分布\n2. 分析几何约束关系（平行、垂直等）\n3. 识别可能的功能区域（如房间、墙体等）\n4. 总结几何结构特征"@,
        PromptTemplate::Reasoning => (if has_polygons {
            "1. 识别所有封闭区域（多边形）\n"@
        } else {
            Seq::empty()
        }) + (if has_perpendicular {
            "2. 注意垂直关系，这可能表示直角墙角\n"@
        } else {
            Seq::empty()
        }) + "3. 基于约束关系推导几何特征\n4. 输出结构化结论"@,
        _ => Seq::empty(),
    }
}

/// Kind of a geometric primitive, as the prompt statistics count them.
#[derive(Debug, Clone, Copy, PartialEq, Eq, Structural)]
pub enum PrimitiveKind {
    Point,
    Line,
    Circle,
    Arc,
    Polygon,
    Rect,
    Polyline,
    Text,
}

/// Kind of a geometric relation, as far as prompts tell them apart.
#[derive(Debug, Clone, Copy, PartialEq, Eq, Structural)]
pub enum RelationKind {
    Parallel,
    Perpendicular,
    Collinear,
    Tangent,
    Concentric,
    Connected,
    Other,
}

/// A statistics line `  - label：n unit`, followed by a line break.
pub open spec fn count_line(label: Seq<char>, n: nat, unit: Seq<char>) -> Seq<char> {
    "  - "@ + label + "："@ + decimal(n) + unit + "\n"@
}

/// The line when `n` is not zero, else nothing.
pub open spec fn count_line_if(label: Seq<char>, n: nat, unit: Seq<char>) -> Seq<char> {
    if n > 0 {
        count_line(label, n, unit)
    } else {
        Seq::empty()
    }
}

/// Whether only a summary of the primitives is given: summary mode is on
/// and there are more primitives than its threshold.
pub open spec fn summary_mode(c: PromptConfig, total: nat) -> bool {
    c.enable_summary_mode && total > c.summary_mode_threshold
}

/// The note that closes a summary.
pub open spec fn summary_note() -> Seq<char> {
    "\n> 📊 注：基元数量较多，已启用摘要模式以节省 Token。仅显示统计信息，未展示样本详情。"@
}

/// The primitive statistics of a prompt: the total, the numbers of lines
/// and circles, and the numbers of polygons, arcs, rectangles, polylines and
/// texts that occur; in summary mode closed by a note that only
/// statistics are shown.
pub open spec fn primitive_context_text(c: PromptConfig, kinds: Seq<PrimitiveKind>) -> Seq<char> {
    "- **基元统计**: 共 "@ + decimal(kinds.len()) + " 个基元\n"@
        + count_line("线段"@, count_in(kinds, PrimitiveKind::Line), " 条"@)
        + count_line("圆"@, count_in(kinds, PrimitiveKind::Circle), " 个"@)
        + count_line_if("多边形"@, count_in(kinds, PrimitiveKind::Polygon), " 个（可能表示房间或封闭区域）"@)
        + count_line_if("弧"@, count_in(kinds, PrimitiveKind::Arc), " 个"@)
        + count_line_if("矩形"@, count_in(kinds, PrimitiveKind::Rect), " 个"@)
        + count_line_if("折线"@, count_in(kinds, PrimitiveKind::Polyline), " 条"@)
        + count_line_if("文本标注"@, count_in(kinds, PrimitiveKind::Text), " 个（可能包含房间名称、尺寸等信息）"@)
        + if summary_mode(c, kinds.len()) {
        summary_note()
    } else {
        Seq::empty()
    }
}

proof fn lemma_at_end(pre: Seq<char>, x: Seq<char>)
    ensures
        occurs_at(pre + x, x, pre.len() as int),
{
    assert((pre + x).subrange(pre.len() as int, (pre.len() + x.len()) as int) =~= x);
}

proof fn lemma_extend_right(s: Seq<char>, y: Seq<char>, pat: Seq<char>, j: int)
    requires
        occurs_at(s, pat, j),
    ensures
        occurs_at(s + y, pat, j),
{
    assert((s + y).subrange(j, j + pat.len()) =~= s.subrange(j, j + pat.len()));
}

/// The primitive statistics name the total, and give a count line for every
/// kind of primitive other than points that occurs (lines and circles
/// always), with its number of primitives of that kind.
proof fn lemma_prefix_piece(prefixes: Seq<Seq<char>>, pieces: Seq<Seq<char>>, h: Seq<char>, k: int, m: int)
    requires
        prefixes.len() == pieces.len() + 1,
        prefixes[0] == h,
        forall|q: int| 0 <= q < pieces.len() ==> prefixes[q + 1] == #[trigger] prefixes[q] + pieces[q],
        0 <= k <= m < prefixes.len(),
    ensures
        occurs_at(prefixes[m], if k == 0 { h } else { pieces[k - 1] }, if k == 0 { 0 } else { prefixes[k - 1].len() as int }),
    decreases m - k,
{
    if m == k {
        if k == 0 {
            assert(h.subrange(0, h.len() as int) =~= h);
        } else {
            assert(prefixes[k] == prefixes[k - 1] + pieces[k - 1]);
            lemma_at_end(prefixes[k - 1], pieces[k - 1]);
        }
    } else {
        lemma_prefix_piece(prefixes, pieces, h, k, m - 1);
        assert(prefixes[m] == prefixes[m - 1] + pieces[m - 1]);
        lemma_extend_right(prefixes[m - 1], pieces[m - 1], if k == 0 { h } else { pieces[k - 1] }, if k == 0 { 0 } else { prefixes[k - 1].len() as int });
    }
}

#[verifier::rlimit(40)]
pub proof fn lemma_statistics_count_each_kind(c: PromptConfig, kinds: Seq<PrimitiveKind>)
    ensures
        occurs_at(primitive_context_text(c, kinds), "- **基元统计**: 共 "@ + decimal(kinds.len()) + " 个基元\n"@, 0),
        exists|j: int| occurs_at(primitive_context_text(c, kinds), "  - "@ + "线段"@ + "："@ + decimal(count_in(kinds, PrimitiveKind::Line)) + " 条"@ + "\n"@, j),
        exists|j: int| occurs_at(primitive_context_text(c, kinds), "  - "@ + "圆"@ + "："@ + decimal(count_in(kinds, PrimitiveKind::Circle)) + " 个"@ + "\n"@, j),
        count_in(kinds, PrimitiveKind::Polygon) > 0 ==> exists|j: int| occurs_at(primitive_context_text(c, kinds), "  - "@ + "多边形"@ + "："@ + decimal(count_in(kinds, PrimitiveKind::Polygon)) + " 个（可能表示房间或封闭区域）"@ + "\n"@, j),
        count_in(kinds, PrimitiveKind::Arc) > 0 ==> exists|j: int| occurs_at(primitive_context_text(c, kinds), "  - "@ + "弧"@ + "："@ + decimal(count_in(kinds, PrimitiveKind::Arc)) + " 个"@ + "\n"@, j),
        count_in(kinds, PrimitiveKind::Rect) > 0 ==> exists|j: int| occurs_at(primitive_context_text(c, kinds), "  - "@ + "矩形"@ + "："@ + decimal(count_in(kinds, PrimitiveKind::Rect)) + " 个"@ + "\n"@, j),
        count_in(kinds, PrimitiveKind::Polyline) > 0 ==> exists|j: int| occurs_at(primitive_context_text(c, kinds), "  - "@ + "折线"@ + "："@ + decimal(count_in(kinds, PrimitiveKind::Polyline)) + " 条"@ + "\n"@, j),
        count_in(kinds, PrimitiveKind::Text) > 0 ==> exists|j: int| occurs_at(primitive_context_text(c, kinds), "  - "@ + "文本标注"@ + "："@ + decimal(count_in(kinds, PrimitiveKind::Text)) + " 个（可能包含房间名称、尺寸等信息）"@ + "\n"@, j),
{
    let h = "- **基元统计**: 共 "@ + decimal(kinds.len()) + " 个基元\n"@;
    let l0 = count_line("线段"@, count_in(kinds, PrimitiveKind::Line), " 条"@);
    let l1 = count_line("圆"@, count_in(kinds, PrimitiveKind::Circle), " 个"@);
    let l2 = count_line_if("多边形"@, count_in(kinds, PrimitiveKind::Polygon), " 个（可能表示房间或封闭区域）"@);
    let l3 = count_line_if("弧"@, count_in(kinds, PrimitiveKind::Arc), " 个"@);
    let l4 = count_line_if("矩形"@, count_in(kinds, PrimitiveKind::Rect), " 个"@);
    let l5 = count_line_if("折线"@, count_in(kinds, PrimitiveKind::Polyline), " 条"@);
    let l6 = count_line_if("文本标注"@, count_in(kinds, PrimitiveKind::Text), " 个（可能包含房间名称、尺寸等信息）"@);
    let tail = if summary_mode(c, kinds.len()) {
        summary_note()
    } else {
        Seq::empty()
    };
    let p0 = h;
    let p1 = p0 + l0;
    let p2 = p1 + l1;
    let p3 = p2 + l2;
    let p4 = p3 + l3;
    let p5 = p4 + l4;
    let p6 = p5 + l5;
    let p7 = p6 + l6;
    let t = p7 + tail;
    assert(t == primitive_context_text(c, kinds));
    let pieces = seq![l0, l1, l2, l3, l4, l5, l6, tail];
    let prefixes = seq![p0, p1, p2, p3, p4, p5, p6, p7, t];
    assert forall|k: int| 0 <= k < 8 implies prefixes[k + 1] == #[trigger] prefixes[k] + pieces[k] by {}
    lemma_prefix_piece(prefixes, pieces, h, 0, 8);
    lemma_prefix_piece(prefixes, pieces, h, 1, 8);
    lemma_prefix_piece(prefixes, pieces, h, 2, 8);
    lemma_prefix_piece(prefixes, pieces, h, 3, 8);
    lemma_prefix_piece(prefixes, pieces, h, 4, 8);
    lemma_prefix_piece(prefixes, pieces, h, 5, 8);
    lemma_prefix_piece(prefixes, pieces, h, 6, 8);
    lemma_prefix_piece(prefixes, pieces, h, 7, 8);
    assert(occurs_at(prefixes[8], h, 0));
    assert(occurs_at(prefixes[8], pieces[0], prefixes[0].len() as int));
    assert(occurs_at(prefixes[8], pieces[1], prefixes[1].len() as int));
    assert(occurs_at(prefixes[8], pieces[2], prefixes[2].len() as int));
    assert(occurs_at(prefixes[8], pieces[3], prefixes[3].len() as int));
    assert(occurs_at(prefixes[8], pieces[4], prefixes[4].len() as int));
    assert(occurs_at(prefixes[8], pieces[5], prefixes[5].len() as int));
    assert(occurs_at(prefixes[8], pieces[6], prefixes[6].len() as int));
}

/// The lines of text joined, each after a line break.
pub open spec fn after_newlines(parts: Seq<Seq<char>>) -> Seq<char>
    decreases parts.len(),
{
    if parts.len() == 0 {
        Seq::empty()
    } else {
        after_newlines(parts.drop_last()) + "\n"@ + parts.last()
    }
}

/// The user part of a prompt: the task line, the geometric context
/// sections and, when there is guidance, the reasoning guidance.
pub open spec fn user_prompt_text(task_line: Seq<char>, parts: Seq<Seq<char>>, guidance: Seq<char>) -> Seq<char> {
    task_line + "\n\n### 几何上下文"@ + after_newlines(parts) + if guidance.len() > 0 {
        "\n\n### 推理引导\n"@ + guidance
    } else {
        Seq::empty()
    }
}

/// The context sections a prompt holds: the primitives; the constraints
/// when they are included; the verification when it is included and
/// given.
pub open spec fn context_sections(
    c: PromptConfig,
    primitives: Seq<char>,
    constraints: Seq<char>,
    verification: Option<Seq<char>>,
) -> Seq<Seq<char>> {
    seq![primitives] + (if c.include_constraints {
        seq![constraints]
    } else {
        Seq::empty()
    }) + match verification {
        Some(v) => if c.include_verification {
            seq![v]
        } else {
            Seq::empty()
        },
        None => Seq::empty(),
    }
}

/// The names of the context kinds a prompt holds, in the same order.
pub open spec fn injected_names(c: PromptConfig, has_verification: bool) -> Seq<Seq<char>> {
    seq!["primitive_geometry"@] + (if c.include_constraints {
        seq!["geometric_constraints"@]
    } else {
        Seq::empty()
    }) + (if c.include_verification && has_verification {
        seq!["constraint_verification"@]
    } else {
        Seq::empty()
    })
}

/// The task line of an analysis prompt.
pub open spec fn analysis_task_line() -> Seq<char> {
    "### 任务\n请分析这个 CAD 图纸的几何结构。"@
}

/// A prompt of template `t` holds: its system prompt, the user part built
/// from the task line, the context sections and the guidance (when
/// guidance is included), the two joined by a blank line, and the counts,
/// length, template and context kinds in its metadata.
pub open spec fn prompt_is(
    p: StructuredPrompt,
    c: PromptConfig,
    t: PromptTemplate,
    task_line: Seq<char>,
    kinds: Seq<PrimitiveKind>,
    relations: Seq<RelationKind>,
    primitives: Seq<char>,
    constraints: Seq<char>,
    verification: Option<Seq<char>>,
) -> bool {
    let guidance = if c.include_reasoning_guidance {
        reasoning_guidance_text(t, kinds.contains(PrimitiveKind::Polygon), relations.contains(RelationKind::Perpendicular))
    } else {
        Seq::empty()
    };
    &&& p.system_prompt@ == system_prompt(t)
    &&& p.user_prompt@ == user_prompt_text(task_line, context_sections(c, primitives, constraints, verification), guidance)
    &&& p.full_prompt@ == p.system_prompt@ + "\n\n"@ + p.user_prompt@
    &&& p.metadata.primitive_count == kinds.len()
    &&& p.metadata.constraint_count == relations.len()
    &&& p.metadata.prompt_length == vstd::utf8::encode_utf8(p.full_prompt@).len() as usize
    &&& p.metadata.template == t
    &&& str_views(p.metadata.injected_context@) == injected_names(c, verification is Some)
}

/// Number of primitives of kind `k`.
fn count_kind(kinds: &[PrimitiveKind], k: PrimitiveKind) -> (r: usize)
    ensures
        r == count_in(kinds@, k),
{
    let mut n: usize = 0;
    let mut i: usize = 0;
    while i < kinds.len()
        invariant
            i <= kinds@.len(),
            n == count_in(kinds@.take(i as int), k),
        decreases kinds@.len() - i,
    {
        proof {
            assert(kinds@.take(i + 1) =~= kinds@.take(i as int).push(kinds@[i as int]));
            lemma_count_push(kinds@.take(i as int), kinds@[i as int], k);
            lemma_count_le_len(kinds@.take(i as int), k);
        }
        if kinds[i] == k {
            n = n + 1;
        }
        i = i + 1;
    }
    proof {
        assert(kinds@.take(i as int) =~= kinds@);
    }
    n
}

/// Whether a relation of kind `k` occurs.
fn has_relation(relations: &[RelationKind], k: RelationKind) -> (r: bool)
    ensures
        r == relations@.contains(k),
{
    let mut i: usize = 0;
    while i < relations.len()
        invariant
            i <= relations@.len(),
            forall|j: int| 0 <= j < i ==> relations@[j] != k,
        decreases relations@.len() - i,
    {
        if relations[i] == k {
            proof {
                assert(relations@[i as int] == k);
            }
            return true;
        }
        i = i + 1;
    }
    false
}

/// Appends a statistics line for `n` (when `always` or `n` is not zero).
fn push_count_line(s: &mut String, label: &str, n: usize, unit: &str, always: bool)
    ensures
        final(s)@ == old(s)@ + if always {
            count_line(label@, n as nat, unit@)
        } else {
            count_line_if(label@, n as nat, unit@)
        },
{
    if always || n > 0 {
        s.append("  - ");
        s.append(label);
        s.append("：");
        s.append(decimal_string(n as u64).as_str());
        s.append(unit);
        s.append("\n");
    }
    proof {
        if !(always || n > 0) {
            assert(old(s)@ + Seq::<char>::empty() =~= old(s)@);
        }
    }
}

impl PromptBuilder {
    /// The builder's settings.
    pub closed spec fn settings(&self) -> PromptConfig {
        self.config
    }

    /// A builder with the given settings.
    pub fn new(config: PromptConfig) -> (b: PromptBuilder)
        ensures
            b.settings() == config,
    {
        PromptBuilder { config }
    }

    /// A builder with the default settings.
    pub fn with_defaults() -> (b: PromptBuilder)
        ensures
            b.settings().template == PromptTemplate::Analysis,
            b.settings().include_primitive_details,
            b.settings().include_constraints,
            b.settings().include_verification,
            b.settings().include_reasoning_guidance,
            b.settings().include_coordinate_info,
            b.settings().max_primitives_display == 50,
            b.settings().enable_summary_mode,
            b.settings().summary_mode_threshold == 100,
            b.settings().language@ == "zh-CN"@,
    {
        PromptBuilder::new(PromptConfig::default())
    }

    /// The settings.
    pub fn config(&self) -> (r: &PromptConfig)
        ensures
            *r == self.settings(),
    {
        &self.config
    }

    /// The system prompt of a template.
    pub fn get_system_prompt(&self, template: PromptTemplate) -> (r: String)
        ensures
            r@ == system_prompt(template),
    {
        match template {
            PromptTemplate::Analysis => "你是一个 CAD 几何推理专家。你将收到经过精确计算的几何基元和约束关系，请基于这些结构化信息进行推理分析。你的推理应该：\n1. 基于给定的几何事实，不臆测\n2. 逻辑清晰，分步骤推理\n3. 输出可解释、可验证的结论".to_owned(),
            PromptTemplate::Reasoning => "你是一个 CAD 几何推理专家。你将收到精确的几何数据和约束关系，请根据任务要求进行推理。注意：\n1. 所有几何数据已经过算法验证，是可靠的事实\n2. 请基于这些事实进行逻辑推理\n3. 推理过程应该分步骤、可解释\n4. 如有不确定性，请明确指出".to_owned(),
            _ => "你是一个 CAD 几何推理助手，请基于给定的几何信息进行分析。".to_owned(),
        }
    }

    /// The reasoning guidance of a template, given whether the drawing has
    /// polygons and whether it has perpendicular relations.
    pub fn get_reasoning_guidance(
        &self,
        template: PromptTemplate,
        has_polygons: bool,
        has_perpendicular: bool,
    ) -> (r: String)
        ensures
            r@ == reasoning_guidance_text(template, has_polygons, has_perpendicular),
    {
        match template {
            PromptTemplate::Analysis => "建议按以下步骤分析：\n1. 观察基元类型和数量分布\n2. 分析几何约束关系（平行、垂直等）\n3. 识别可能的功能区域（如房间、墙体等）\n4. 总结几何结构特征".to_owned(),
            PromptTemplate::Reasoning => {
                let mut g = String::new();
                if has_polygons {
                    g.append("1. 识别所有封闭区域（多边形）\n");
                }
                if has_perpendicular {
                    g.append("2. 注意垂直关系，这可能表示直角墙角\n");
                }
                g.append("3. 基于约束关系推导几何特征\n4. 输出结构化结论");
                proof {
                    assert(g@ =~= reasoning_guidance_text(template, has_polygons, has_perpendicular));
                }
                g
            },
            _ => String::new(),
        }
    }

    /// The primitive statistics of a prompt for primitives of the given
    /// kinds (see `primitive_context_text`).
    pub fn primitive_statistics(&self, kinds: &[PrimitiveKind]) -> (r: String)
        ensures
            r@ == primitive_context_text(self.settings(), kinds@),
    {
        let total = kinds.len();
        let mut s = "- **基元统计**: 共 ".to_owned();
        s.append(decimal_string(total as u64).as_str());
        s.append(" 个基元\n");
        push_count_line(&mut s, "线段", count_kind(kinds, PrimitiveKind::Line), " 条", true);
        push_count_line(&mut s, "圆", count_kind(kinds, PrimitiveKind::Circle), " 个", true);
        push_count_line(&mut s, "多边形", count_kind(kinds, PrimitiveKind::Polygon), " 个（可能表示房间或封闭区域）", false);
        push_count_line(&mut s, "弧", count_kind(kinds, PrimitiveKind::Arc), " 个", false);
        push_count_line(&mut s, "矩形", count_kind(kinds, PrimitiveKind::Rect), " 个", false);
        push_count_line(&mut s, "折线", count_kind(kinds, PrimitiveKind::Polyline), " 条", false);
        push_count_line(&mut s, "文本标注", count_kind(kinds, PrimitiveKind::Text), " 个（可能包含房间名称、尺寸等信息）", false);
        if self.config.enable_summary_mode && total > self.config.summary_mode_threshold {
            s.append("\n> 📊 注：基元数量较多，已启用摘要模式以节省 Token。仅显示统计信息，未展示样本详情。");
        }
        proof {
            assert(s@ =~= primitive_context_text(self.settings(), kinds@));
        }
        s
    }

    /// Assembles a prompt of template `t` from its task line and its
    /// context sections.
    fn assemble(
        &self,
        t: PromptTemplate,
        task_line: String,
        kinds: &[PrimitiveKind],
        relations: &[RelationKind],
        primitive_context: String,
        constraint_context: String,
        verification_context: Option<String>,
    ) -> (p: StructuredPrompt)
        ensures
            prompt_is(
                p,
                self.settings(),
                t,
                task_line@,
                kinds@,
                relations@,
                primitive_context@,
                constraint_context@,
                opt_view(verification_context),
            ),
    {
        let ghost vv = opt_view(verification_context);
        let ghost pc = primitive_context@;
        let ghost cc = constraint_context@;
        let has_verification = verification_context.is_some();
        let mut parts: Vec<String> = Vec::new();
        let mut injected: Vec<String> = Vec::new();
        parts.push(primitive_context);
        injected.push("primitive_geometry".to_owned());
        if self.config.include_constraints {
            parts.push(constraint_context);
            injected.push("geometric_constraints".to_owned());
        }
        if self.config.include_verification {
            if let Some(v) = verification_context {
                parts.push(v);
                injected.push("constraint_verification".to_owned());
            }
        }
        proof {
            assert(str_views(parts@) =~= context_sections(self.settings(), pc, cc, vv));
            assert(str_views(injected@) =~= injected_names(self.settings(), has_verification));
        }
        let guidance = if self.config.include_reasoning_guidance {
            let has_polygons = count_kind(kinds, PrimitiveKind::Polygon) > 0;
            proof {
                crate::seqs::lemma_count_contains(kinds@, PrimitiveKind::Polygon);
            }
            let has_perpendicular = has_relation(relations, RelationKind::Perpendicular);
            self.get_reasoning_guidance(t, has_polygons, has_perpendicular)
        } else {
            String::new()
        };
        let ghost sections = str_views(parts@);
        let mut user = task_line;
        user.append("\n\n### 几何上下文");
        let mut k: usize = 0;
        let ghost head = user@;
        while k < parts.len()
            invariant
                k <= parts@.len(),
                sections == str_views(parts@),
                user@ == head + after_newlines(sections.take(k as int)),
            decreases parts@.len() - k,
        {
            proof {
                assert(sections.take(k + 1).drop_last() =~= sections.take(k as int));
            }
            user.append("\n");
            user.append(parts[k].as_str());
            proof {
                assert(user@ =~= head + after_newlines(sections.take(k + 1)));
            }
            k = k + 1;
        }
        proof {
            assert(sections.take(k as int) =~= sections);
        }
        if crate::text::str_chars(guidance.as_str()).len() > 0 {
            user.append("\n\n### 推理引导\n");
            user.append(guidance.as_str());
        }
        let system = self.get_system_prompt(t);
        let mut full = system.clone();
        full.append("\n\n");
        full.append(user.as_str());
        let prompt_length = full.as_str().len();
        proof {
            assert(system@ == system_prompt(t));
            assert(full@ == system@ + "\n\n"@ + user@);
            assert(user@ == user_prompt_text(task_line@, sections, guidance@));
        }
        StructuredPrompt {
            system_prompt: system,
            user_prompt: user,
            full_prompt: full,
            metadata: PromptMetadata { primitive_count: kinds.len(), constraint_count: relations.len(), prompt_length, template: t, injected_context: injected },
        }
    }

    /// The prompt for analysing a drawing with primitives of the given
    /// kinds and relations of the given kinds, from its primitive,
    /// constraint and verification context sections.
    pub fn build_analysis_prompt(
        &self,
        kinds: &[PrimitiveKind],
        relations: &[RelationKind],
        primitive_context: String,
        constraint_context: String,
        verification_context: Option<String>,
    ) -> (p: StructuredPrompt)
        ensures
            prompt_is(
                p,
                self.settings(),
                PromptTemplate::Analysis,
                analysis_task_line(),
                kinds@,
                relations@,
                primitive_context@,
                constraint_context@,
                opt_view(verification_context),
            ),
    {
        self.assemble(
            PromptTemplate::Analysis,
            "### 任务\n请分析这个 CAD 图纸的几何结构。".to_owned(),
            kinds,
            relations,
            primitive_context,
            constraint_context,
            verification_context,
        )
    }

    /// The prompt for reasoning about `task` over a drawing with
    /// primitives and relations of the given kinds, from its context
    /// sections.
    pub fn build_reasoning_prompt(
        &self,
        kinds: &[PrimitiveKind],
        relations: &[RelationKind],
        primitive_context: String,
        constraint_context: String,
        verification_context: Option<String>,
        task: &str,
    ) -> (p: StructuredPrompt)
        ensures
            prompt_is(
                p,
                self.settings(),
                PromptTemplate::Reasoning,
                "### 任务\n"@ + task@,
                kinds@,
                relations@,
                primitive_context@,
                constraint_context@,
                opt_view(verification_context),
            ),
    {
        let mut line = "### 任务\n".to_owned();
        line.append(task);
        self.assemble(
            PromptTemplate::Reasoning,
            line,
            kinds,
            relations,
            primitive_context,
            constraint_context,
            verification_context,
        )
    }
}

} // verus!
