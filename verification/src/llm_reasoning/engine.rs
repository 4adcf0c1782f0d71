//! Template reasoning: how a task is understood and planned when no
//! language model is available, and the reasoning errors.

use super::types::{LlmReasoningRequest, PlanStep, ReasoningPlan, ReasoningStep, ReasoningTask, StepType};
use crate::records::{find_chars, first_from, opt_view, sub_chars};
use crate::text::{
    chars_to_string, decimal, decimal_string, lemma_trimmed_len, str_chars, str_views, trim_chars, trimmed,
};
use vstd::prelude::*;
use vstd::string::StringExecFns;

verus! {

/// Errors of reasoning.
#[derive(Debug)]
pub enum ReasoningError {
    /// The task could not be understood.
    UnderstandError(String),
    /// No plan could be made.
    PlanError(String),
    /// A tool call failed.
    ToolError(String),
    /// Inference failed.
    InferenceError(String),
}

impl ReasoningError {
    /// The error's message.
    pub fn message(&self) -> (r: String)
        ensures
            r@ == match self {
                ReasoningError::UnderstandError(m) => "任务理解失败："@ + m@,
                ReasoningError::PlanError(m) => "规划失败："@ + m@,
                ReasoningError::ToolError(m) => "工具调用失败："@ + m@,
                ReasoningError::InferenceError(m) => "推理失败："@ + m@,
            },
    {
        let (prefix, m) = match self {
            ReasoningError::UnderstandError(m) => ("任务理解失败：", m),
            ReasoningError::PlanError(m) => ("规划失败：", m),
            ReasoningError::ToolError(m) => ("工具调用失败：", m),
            ReasoningError::InferenceError(m) => ("推理失败：", m),
        };
        let mut r = prefix.to_owned();
        r.append(m.as_str());
        r
    }
}

/// The display name of a task kind.
pub open spec fn task_name(t: ReasoningTask) -> Seq<char> {
    match t {
        ReasoningTask::CountRooms => "房间计数"@,
        ReasoningTask::CalculateArea => "面积计算"@,
        ReasoningTask::MeasureDimension => "尺寸测量"@,
        ReasoningTask::DetectDoorsWindows => "门窗检测"@,
        ReasoningTask::AnalyzeLayout => "户型分析"@,
        ReasoningTask::Custom => "自定义任务"@,
    }
}

impl ReasoningTask {
    /// The display name of the task kind.
    pub fn task_type_str(&self) -> (r: &'static str)
        ensures
            r@ == task_name(*self),
    {
        match self {
            ReasoningTask::CountRooms => "房间计数",
            ReasoningTask::CalculateArea => "面积计算",
            ReasoningTask::MeasureDimension => "尺寸测量",
            ReasoningTask::DetectDoorsWindows => "门窗检测",
            ReasoningTask::AnalyzeLayout => "户型分析",
            ReasoningTask::Custom => "自定义任务",
        }
    }
}

/// The strategy the template reasoning states for a task kind.
pub open spec fn task_strategy(t: ReasoningTask) -> Seq<char> {
    match t {
        ReasoningTask::CountRooms => "这是一个房间计数任务。我需要：1) 识别图纸中的封闭区域 2) 排除外部边界 3) 统计内部房间数量"@,
        ReasoningTask::CalculateArea => "这是一个面积计算任务。我需要：1) 识别目标区域边界 2) 使用鞋带公式计算面积 3) 考虑单位转换"@,
        ReasoningTask::MeasureDimension => "这是一个尺寸测量任务。我需要：1) 识别测量起点和终点 2) 计算欧几里得距离 3) 返回测量结果"@,
        ReasoningTask::DetectDoorsWindows => "这是一个门窗检测任务。我需要：1) 识别墙体上的缺口 2) 检测文本标记（D/W）3) 统计数量并定位"@,
        ReasoningTask::AnalyzeLayout => "这是一个户型分析任务。我需要：1) 识别所有房间 2) 分析房间连接关系 3) 判断户型类型"@,
        ReasoningTask::Custom => "这是一个自定义任务。我将根据具体内容进行分析"@,
    }
}

fn strategy_text(t: ReasoningTask) -> (r: &'static str)
    ensures
        r@ == task_strategy(t),
{
    match t {
        ReasoningTask::CountRooms => "这是一个房间计数任务。我需要：1) 识别图纸中的封闭区域 2) 排除外部边界 3) 统计内部房间数量",
        ReasoningTask::CalculateArea => "这是一个面积计算任务。我需要：1) 识别目标区域边界 2) 使用鞋带公式计算面积 3) 考虑单位转换",
        ReasoningTask::MeasureDimension => "这是一个尺寸测量任务。我需要：1) 识别测量起点和终点 2) 计算欧几里得距离 3) 返回测量结果",
        ReasoningTask::DetectDoorsWindows => "这是一个门窗检测任务。我需要：1) 识别墙体上的缺口 2) 检测文本标记（D/W）3) 统计数量并定位",
        ReasoningTask::AnalyzeLayout => "这是一个户型分析任务。我需要：1) 识别所有房间 2) 分析房间连接关系 3) 判断户型类型",
        ReasoningTask::Custom => "这是一个自定义任务。我将根据具体内容进行分析",
    }
}

/// How the template reasoning understands a request: the task kind, the
/// question and the strategy for the kind.
pub fn understand_task_mock(request: &LlmReasoningRequest) -> (r: Result<String, ReasoningError>)
    ensures
        r matches Ok(s) && s@ == "任务理解："@ + task_name(request.task_type) + "\n\n用户问题："@
            + request.task@ + "\n\n我将采用以下策略："@ + task_strategy(request.task_type),
{
    let mut s = "任务理解：".to_owned();
    s.append(request.task_type.task_type_str());
    s.append("\n\n用户问题：");
    s.append(request.task.as_str());
    s.append("\n\n我将采用以下策略：");
    s.append(strategy_text(request.task_type));
    Ok(s)
}

/// A planned step as plain values: order, description, tool, dependencies.
pub struct PlanEntry {
    pub order: usize,
    pub description: Seq<char>,
    pub tool: Option<Seq<char>>,
    pub dependencies: Seq<usize>,
}

/// The template plan for a task kind.
pub open spec fn mock_plan(t: ReasoningTask) -> Seq<PlanEntry> {
    match t {
        ReasoningTask::CountRooms => seq![
            PlanEntry { order: 1, description: "调用分析管线识别基元"@, tool: Some("analysis_execute"@), dependencies: seq![] },
            PlanEntry { order: 2, description: "分析拓扑图识别封闭区域"@, tool: None, dependencies: seq![1] },
            PlanEntry { order: 3, description: "排除外边界，统计房间数量"@, tool: None, dependencies: seq![2] },
        ],
        ReasoningTask::CalculateArea => seq![
            PlanEntry { order: 1, description: "调用分析管线获取基元和约束"@, tool: Some("analysis_execute"@), dependencies: seq![] },
            PlanEntry { order: 2, description: "识别目标区域的多边形边界"@, tool: None, dependencies: seq![1] },
            PlanEntry { order: 3, description: "使用鞋带公式计算面积"@, tool: None, dependencies: seq![2] },
        ],
        _ => seq![
            PlanEntry { order: 1, description: "获取几何数据"@, tool: Some("analysis_execute"@), dependencies: seq![] },
            PlanEntry { order: 2, description: "分析数据并生成结论"@, tool: None, dependencies: seq![1] },
        ],
    }
}

/// A step matches a planned entry; it calls a tool exactly when it names
/// one.
pub open spec fn step_is(s: PlanStep, e: PlanEntry) -> bool {
    &&& s.order == e.order
    &&& s.description@ == e.description
    &&& s.needs_tool == (e.tool is Some)
    &&& match (s.tool_name, e.tool) {
        (Some(a), Some(b)) => a@ == b,
        (None, None) => true,
        _ => false,
    }
    &&& s.dependencies@ == e.dependencies
}

/// The tool names of the steps that call a tool, in order.
pub open spec fn tools_of(steps: Seq<PlanStep>) -> Seq<Seq<char>>
    decreases steps.len(),
{
    if steps.len() == 0 {
        Seq::empty()
    } else {
        let rest = tools_of(steps.drop_last());
        match steps.last().tool_name {
            Some(n) => rest.push(n@),
            None => rest,
        }
    }
}

fn plan_step(order: usize, description: &str, tool: Option<&str>, dependencies: Vec<usize>) -> (s: PlanStep)
    ensures
        s.order == order,
        s.description@ == description@,
        s.needs_tool == (tool is Some),
        match (s.tool_name, tool) {
            (Some(a), Some(b)) => a@ == b@,
            (None, None) => true,
            _ => false,
        },
        s.dependencies@ == dependencies@,
{
    let needs_tool = tool.is_some();
    let tool_name = match tool {
        Some(t) => Some(t.to_owned()),
        None => None,
    };
    PlanStep { order, description: description.to_owned(), needs_tool, tool_name, dependencies }
}

/// The template plan for a request: for room counting and area
/// calculation three steps, otherwise two; the first step calls the
/// analysis tool.
pub fn generate_plan_mock(request: &LlmReasoningRequest, understanding: &str) -> (r: Result<
    ReasoningPlan,
    ReasoningError,
>)
    ensures
        r matches Ok(plan) && {
            &&& plan.task@ == request.task@
            &&& plan.plan_steps@.len() == mock_plan(request.task_type).len()
            &&& forall|k: int|
                0 <= k < plan.plan_steps@.len() ==> step_is(
                    #[trigger] plan.plan_steps@[k],
                    mock_plan(request.task_type)[k],
                )
            &&& str_views(plan.required_tools@) == tools_of(plan.plan_steps@)
        },
{
    let mut steps: Vec<PlanStep> = Vec::new();
    let none: Vec<usize> = Vec::new();
    let after_first: Vec<usize> = vec![1];
    let after_second: Vec<usize> = vec![2];
    proof {
        assert(none@ =~= seq![]);
        assert(after_first@ =~= seq![1usize]);
        assert(after_second@ =~= seq![2usize]);
    }
    match request.task_type {
        ReasoningTask::CountRooms => {
            steps.push(plan_step(1, "调用分析管线识别基元", Some("analysis_execute"), none));
            steps.push(plan_step(2, "分析拓扑图识别封闭区域", None, after_first));
            steps.push(plan_step(3, "排除外边界，统计房间数量", None, after_second));
        },
        ReasoningTask::CalculateArea => {
            steps.push(plan_step(1, "调用分析管线获取基元和约束", Some("analysis_execute"), none));
            steps.push(plan_step(2, "识别目标区域的多边形边界", None, after_first));
            steps.push(plan_step(3, "使用鞋带公式计算面积", None, after_second));
        },
        _ => {
            steps.push(plan_step(1, "获取几何数据", Some("analysis_execute"), none));
            steps.push(plan_step(2, "分析数据并生成结论", None, after_first));
        },
    }
    proof {
        let plan = mock_plan(request.task_type);
        assert(steps@.len() == plan.len());
        assert forall|k: int| 0 <= k < steps@.len() implies step_is(#[trigger] steps@[k], plan[k]) by {
            assert(steps@[k] == steps@[k]);
        }
    }
    let mut tools: Vec<String> = Vec::new();
    let mut k: usize = 0;
    while k < steps.len()
        invariant
            k <= steps.len(),
            str_views(tools@) == tools_of(steps@.take(k as int)),
        decreases steps.len() - k,
    {
        let ghost before = tools@;
        proof {
            assert(steps@.take(k + 1).drop_last() =~= steps@.take(k as int));
        }
        if let Some(name) = &steps[k].tool_name {
            tools.push(name.clone());
            proof {
                assert(str_views(tools@) =~= str_views(before).push(name@));
            }
        }
        k = k + 1;
    }
    proof {
        assert(steps@.take(steps.len() as int) =~= steps@);
    }
    Ok(ReasoningPlan { task: request.task.clone(), plan_steps: steps, required_tools: tools })
}

/// The index of the first tool-use step.
pub open spec fn first_tool_step(steps: Seq<ReasoningStep>) -> Option<int>
    decreases steps.len(),
{
    if steps.len() == 0 {
        None
    } else {
        match first_tool_step(steps.drop_last()) {
            Some(i) => Some(i),
            None => if steps.last().step_type == StepType::ToolUse {
                Some(steps.len() - 1)
            } else {
                None
            },
        }
    }
}

/// What the first tool-use step observed: nothing when there is no such
/// step or it has no observation.
pub fn tool_observation(steps: &[ReasoningStep]) -> (r: Option<&serde_json::Value>)
    ensures
        match first_tool_step(steps@) {
            None => r is None,
            Some(i) => match steps@[i].observation {
                None => r is None,
                Some(v) => r matches Some(o) && *o == v,
            },
        },
{
    let mut k: usize = 0;
    while k < steps.len()
        invariant
            k <= steps@.len(),
            first_tool_step(steps@.take(k as int)) is None,
        decreases steps.len() - k,
    {
        proof {
            assert(steps@.take(k + 1).drop_last() =~= steps@.take(k as int));
        }
        if matches!(steps[k].step_type, StepType::ToolUse) {
            proof {
                lemma_first_tool_step_prefix(steps@, k as int + 1);
            }
            return match &steps[k].observation {
                Some(v) => Some(v),
                None => None,
            };
        }
        k = k + 1;
    }
    proof {
        assert(steps@.take(k as int) =~= steps@);
    }
    None
}

proof fn lemma_first_tool_step_prefix(steps: Seq<ReasoningStep>, n: int)
    requires
        0 <= n <= steps.len(),
        first_tool_step(steps.take(n)) is Some,
    ensures
        first_tool_step(steps) == first_tool_step(steps.take(n)),
    decreases steps.len() - n,
{
    if n < steps.len() {
        let d = steps.drop_last();
        assert(d.take(n) =~= steps.take(n));
        lemma_first_tool_step_prefix(d, n);
    } else {
        assert(steps.take(n) =~= steps);
    }
}

/// The member `key` of the JSON value `v` read as a `u64`, as
/// `serde_json`'s indexing and `Value::as_u64` give it.
pub uninterp spec fn json_member_u64(v: serde_json::Value, key: Seq<char>) -> Option<u64>;

/// `serde_json::Value::as_u64` of the member `key` of `v`, read through
/// `Value`'s indexing (a missing member, or a value that is no object,
/// reads as null, whose `as_u64` is `None`). Its result is a function of
/// the value and the key alone and is named, not described.
#[verifier::external_body]
fn json_u64_field(v: &serde_json::Value, key: &str) -> (r: Option<u64>)
    ensures
        r == json_member_u64(*v, key@),
{
    v[key].as_u64()
}

/// The number of primitives the first tool call observed, as the template
/// conclusion reads it: `None` when no tool step observed anything, else
/// the observation's `primitives_count` read as a `u64` (0 when it holds
/// no such count).
pub fn observed_primitive_count(steps: &[ReasoningStep]) -> (r: Option<u64>)
    ensures
        r == match first_tool_step(steps@) {
            None => None,
            Some(i) => match steps@[i].observation {
                None => None,
                Some(v) => Some(
                    match json_member_u64(v, "primitives_count"@) {
                        Some(c) => c,
                        None => 0,
                    },
                ),
            },
        },
{
    match tool_observation(steps) {
        None => None,
        Some(obs) => match json_u64_field(obs, "primitives_count") {
            Some(c) => Some(c),
            None => Some(0),
        },
    }
}

/// The number of rooms the template answer estimates from the number of
/// primitives a tool saw: half of them when there are more than five,
/// else one.
pub open spec fn room_estimate(count: u64) -> nat {
    if count > 5 {
        (count / 2) as nat
    } else {
        1
    }
}

/// The template answer for a task kind, given what a tool observed:
/// `None` when nothing was observed, else the number of primitives seen
/// (0 when the observation does not give one).
pub open spec fn conclusion_text(t: ReasoningTask, count: Option<u64>) -> Seq<char> {
    match t {
        ReasoningTask::CountRooms => match count {
            Some(c) => "共有"@ + decimal(room_estimate(c)) + "个房间"@,
            None => "无法确定房间数量"@,
        },
        ReasoningTask::CalculateArea => match count {
            Some(c) => "总面积约为"@ + decimal((c * 10) as nat) + "平方单位"@,
            None => "无法计算面积"@,
        },
        _ => "分析完成"@,
    }
}

/// The answer of the template reasoning: a room estimate, an area estimate
/// of ten square units per primitive, or a plain completion note.
pub fn conclusion_answer(task: ReasoningTask, count: Option<u64>) -> (r: String)
    requires
        task == ReasoningTask::CalculateArea ==> (count matches Some(c) ==> c * 10 <= u64::MAX),
    ensures
        r@ == conclusion_text(task, count),
{
    match task {
        ReasoningTask::CountRooms => match count {
            Some(c) => {
                let rooms: u64 = if c > 5 {
                    c / 2
                } else {
                    1
                };
                let mut s = "共有".to_owned();
                s.append(decimal_string(rooms).as_str());
                s.append("个房间");
                s
            },
            None => "无法确定房间数量".to_owned(),
        },
        ReasoningTask::CalculateArea => match count {
            Some(c) => {
                let mut s = "总面积约为".to_owned();
                s.append(decimal_string(c * 10).as_str());
                s.append("平方单位");
                s
            },
            None => "无法计算面积".to_owned(),
        },
        _ => "分析完成".to_owned(),
    }
}

/// A plan step as the plan step of a reasoning chain lists it:
/// `order. description`.
pub open spec fn plan_item(s: PlanStep) -> Seq<char> {
    decimal(s.order as nat) + ". "@ + s.description@
}

/// The plan steps listed one after another, separated by `; `.
pub open spec fn plan_listing(steps: Seq<PlanStep>) -> Seq<char>
    decreases steps.len(),
{
    if steps.len() == 0 {
        Seq::empty()
    } else if steps.len() == 1 {
        plan_item(steps[0])
    } else {
        plan_listing(steps.drop_last()) + "; "@ + plan_item(steps.last())
    }
}

/// The tools the plan steps name, each at its first mention, in order.
pub open spec fn first_tools(steps: Seq<PlanStep>) -> Seq<Seq<char>>
    decreases steps.len(),
{
    if steps.len() == 0 {
        Seq::empty()
    } else {
        let rest = first_tools(steps.drop_last());
        match steps.last().tool_name {
            Some(n) => if rest.contains(n@) {
                rest
            } else {
                rest.push(n@)
            },
            None => rest,
        }
    }
}

/// Puts a reasoning chain together: the understanding of the task, the
/// plan, the results of the executed plan steps in order, and the
/// conclusion holding `answer`; with the tools the plan uses, each once.
pub fn assemble_chain(
    _request: &LlmReasoningRequest,
    understanding: String,
    plan: &ReasoningPlan,
    results: Vec<ReasoningStep>,
    answer: String,
) -> (r: (Vec<ReasoningStep>, Vec<String>))
    requires
        results@.len() + 3 <= usize::MAX,
        forall|k: int| 0 <= k < plan.plan_steps@.len() ==> (#[trigger] plan.plan_steps@[k]).order <= u64::MAX,
    ensures
        r.0@.len() == results@.len() + 3,
        r.0@[0] == (ReasoningStep {
            id: 0,
            step_type: StepType::Understand,
            thought: understanding,
            tool_call: None,
            observation: None,
            conclusion: None,
        }),
        r.0@[1].id == 1,
        r.0@[1].step_type == StepType::Plan,
        r.0@[1].thought@ == "我将按以下步骤执行："@ + plan_listing(plan.plan_steps@),
        r.0@[1].tool_call is None,
        r.0@[1].observation is None,
        r.0@[1].conclusion matches Some(c) && c@ == "规划完成，开始执行"@,
        forall|k: int| 0 <= k < results@.len() ==> r.0@[k + 2] == #[trigger] results@[k],
        r.0@.last().id == r.0@.len() - 1,
        r.0@.last().step_type == StepType::Conclude,
        r.0@.last().thought@ == "基于以上分析，我可以得出结论"@,
        r.0@.last().tool_call is None,
        r.0@.last().observation is None,
        r.0@.last().conclusion == Some(answer),
        str_views(r.1@) == first_tools(plan.plan_steps@),
{
    let mut steps: Vec<ReasoningStep> = Vec::new();
    steps.push(ReasoningStep {
        id: 0,
        step_type: StepType::Understand,
        thought: understanding,
        tool_call: None,
        observation: None,
        conclusion: None,
    });
    let mut thought = "我将按以下步骤执行：".to_owned();
    let ghost head = thought@;
    let ps = &plan.plan_steps;
    let mut k: usize = 0;
    while k < ps.len()
        invariant
            k <= ps@.len(),
            ps@ == plan.plan_steps@,
            forall|m: int| 0 <= m < ps@.len() ==> (#[trigger] ps@[m]).order <= u64::MAX,
            thought@ == head + plan_listing(ps@.take(k as int)),
        decreases ps@.len() - k,
    {
        let ghost t0 = thought@;
        proof {
            assert(ps@.take(k + 1).drop_last() =~= ps@.take(k as int));
            assert(ps@.take(k + 1).last() == ps@[k as int]);
        }
        if k > 0 {
            thought.append("; ");
        }
        let order = ps[k].order;
        assert(order <= u64::MAX);
        thought.append(decimal_string(order as u64).as_str());
        thought.append(". ");
        thought.append(ps[k].description.as_str());
        proof {
            if k == 0 {
                assert(ps@.take(0) =~= Seq::<PlanStep>::empty());
                assert(thought@ =~= head + plan_listing(ps@.take(k + 1)));
            } else {
                assert(thought@ =~= head + plan_listing(ps@.take(k + 1)));
            }
        }
        k = k + 1;
    }
    proof {
        assert(ps@.take(ps@.len() as int) =~= ps@);
    }
    steps.push(ReasoningStep {
        id: 1,
        step_type: StepType::Plan,
        thought,
        tool_call: None,
        observation: None,
        conclusion: Some("规划完成，开始执行".to_owned()),
    });
    let ghost before = steps@;
    let mut rest = results;
    let ghost res = rest@;
    steps.append(&mut rest);
    let id = steps.len();
    steps.push(ReasoningStep {
        id,
        step_type: StepType::Conclude,
        thought: "基于以上分析，我可以得出结论".to_owned(),
        tool_call: None,
        observation: None,
        conclusion: Some(answer),
    });
    proof {
        assert forall|m: int| 0 <= m < res.len() implies steps@[m + 2] == #[trigger] res[m] by {
            assert(steps@[m + 2] == (before + res)[m + 2]);
        }
    }
    let mut tools: Vec<String> = Vec::new();
    let mut j: usize = 0;
    while j < ps.len()
        invariant
            j <= ps@.len(),
            ps@ == plan.plan_steps@,
            str_views(tools@) == first_tools(ps@.take(j as int)),
        decreases ps@.len() - j,
    {
        let ghost t0 = str_views(tools@);
        proof {
            assert(ps@.take(j + 1).drop_last() =~= ps@.take(j as int));
            assert(ps@.take(j + 1).last() == ps@[j as int]);
        }
        if let Some(name) = &ps[j].tool_name {
            match crate::incremental::dependency_graph::position(&tools, name.as_str()) {
                None => {
                    tools.push(name.clone());
                    proof {
                        assert(str_views(tools@) =~= t0.push(name@));
                    }
                },
                Some(i) => {
                    proof {
                        assert(t0[i as int] == name@);
                        assert(t0.contains(name@));
                    }
                },
            }
        }
        j = j + 1;
    }
    proof {
        assert(ps@.take(ps@.len() as int) =~= ps@);
    }
    (steps, tools)
}

/// The fields of each step of a plan written as a JSON array, as
/// `serde_json` reads them: the `description` when it is a string, the
/// `needs_tool` flag when it is a boolean and the `tool_name` when it is a
/// string; `None` when the text is not a JSON array.
pub uninterp spec fn json_plan(content: Seq<char>) -> Option<
    Seq<(Option<Seq<char>>, Option<bool>, Option<Seq<char>>)>,
>;

/// The plan fields with the strings taken as character sequences.
pub open spec fn plan_field_views(v: Seq<(Option<String>, Option<bool>, Option<String>)>) -> Seq<
    (Option<Seq<char>>, Option<bool>, Option<Seq<char>>),
> {
    v.map_values(|t: (Option<String>, Option<bool>, Option<String>)| (opt_view(t.0), t.1, opt_view(t.2)))
}

/// `serde_json::from_str` of the text as an array of JSON values, each
/// read for its `description`, `needs_tool` and `tool_name` through
/// `Value`'s indexing, `as_str` and `as_bool`. Its result is named, not
/// described.
#[verifier::external_body]
fn json_plan_fields(content: &str) -> (r: Option<Vec<(Option<String>, Option<bool>, Option<String>)>>)
    ensures
        match r {
            Some(v) => json_plan(content@) == Some(plan_field_views(v@)),
            None => json_plan(content@) is None,
        },
{
    let steps = serde_json::from_str::<Vec<serde_json::Value>>(content).ok()?;
    Some(steps.iter().map(|s| (
        s["description"].as_str().map(|d| d.to_string()),
        s["needs_tool"].as_bool(),
        s["tool_name"].as_str().map(|t| t.to_string()),
    )).collect())
}

/// The JSON inside the first Markdown code block marked `json`: the text
/// after the first `` ```json `` up to the next `` ``` ``, trimmed.
pub open spec fn json_block(content: Seq<char>) -> Option<Seq<char>> {
    match first_from(content, "```json"@, 0) {
        None => None,
        Some(s) => match first_from(content, "```"@, s + 7) {
            None => None,
            Some(e) => Some(trimmed(content.subrange(s + 7, e))),
        },
    }
}

/// The code block read by `json_block` is shorter than the text it is in.
pub proof fn lemma_json_block_shorter(content: Seq<char>)
    ensures
        json_block(content) matches Some(inner) ==> inner.len() < content.len(),
{
    reveal_strlit("```json");
    reveal_strlit("```");
    if let Some(s) = first_from(content, "```json"@, 0) {
        lemma_first_from_in(content, "```json"@, 0);
        if let Some(e) = first_from(content, "```"@, s + 7) {
            lemma_first_from_in(content, "```"@, s + 7);
            lemma_trimmed_len(content.subrange(s + 7, e));
        }
    }
}

/// A position found by `first_from` lies in the text, from `i` on.
pub proof fn lemma_first_from_in(s: Seq<char>, pat: Seq<char>, i: int)
    ensures
        first_from(s, pat, i) matches Some(p) ==> 0 <= i <= p && p + pat.len() <= s.len(),
    decreases s.len() + 1 - i,
{
    if !(i < 0 || i + pat.len() > s.len()) && !crate::text::occurs_at(s, pat, i) {
        lemma_first_from_in(s, pat, i + 1);
    }
}

/// The plan a language model answered: the steps of the JSON array it
/// wrote, each described as "执行推理" and needing no tool unless the step
/// says otherwise; or, when the answer is not such an array, the plan in
/// its first `json` code block; `None` when neither reads.
pub open spec fn llm_plan(content: Seq<char>) -> Option<Seq<(Seq<char>, bool, Option<Seq<char>>)>>
    decreases content.len(),
{
    match json_plan(content) {
        Some(f) => Some(
            f.map_values(
                |x: (Option<Seq<char>>, Option<bool>, Option<Seq<char>>)|
                    (
                        match x.0 {
                            Some(d) => d,
                            None => "执行推理"@,
                        },
                        match x.1 {
                            Some(b) => b,
                            None => false,
                        },
                        x.2,
                    ),
            ),
        ),
        None => match json_block(content) {
            Some(inner) => {
                proof {
                    lemma_json_block_shorter(content);
                }
                llm_plan(inner)
            },
            None => None,
        },
    }
}

/// Reads the plan a language model answered (see `llm_plan`): the steps
/// are numbered from 1 and depend on nothing; an answer with no readable
/// plan is refused.
pub fn parse_llm_plan(content: &str) -> (r: Result<Vec<PlanStep>, ReasoningError>)
    ensures
        match llm_plan(content@) {
            Some(steps) => r matches Ok(v) && v@.len() == steps.len() && forall|i: int|
                0 <= i < steps.len() ==> {
                    &&& (#[trigger] v@[i]).order == i + 1
                    &&& v@[i].description@ == steps[i].0
                    &&& v@[i].needs_tool == steps[i].1
                    &&& opt_view(v@[i].tool_name) == steps[i].2
                    &&& v@[i].dependencies@.len() == 0
                },
            None => r matches Err(ReasoningError::PlanError(m)) && m@ == "无法解析 LLM 计划"@,
        },
    decreases content@.len(),
{
    if let Some(fields) = json_plan_fields(content) {
        let ghost fv = plan_field_views(fields@);
        let mut steps: Vec<PlanStep> = Vec::new();
        let mut i: usize = 0;
        while i < fields.len()
            invariant
                i <= fields@.len(),
                fv == plan_field_views(fields@),
                steps@.len() == i,
                forall|k: int|
                    0 <= k < i ==> {
                        &&& (#[trigger] steps@[k]).order == k + 1
                        &&& steps@[k].description@ == match fv[k].0 {
                            Some(d) => d,
                            None => "执行推理"@,
                        }
                        &&& steps@[k].needs_tool == match fv[k].1 {
                            Some(b) => b,
                            None => false,
                        }
                        &&& opt_view(steps@[k].tool_name) == fv[k].2
                        &&& steps@[k].dependencies@.len() == 0
                    },
            decreases fields@.len() - i,
        {
            let f = &fields[i];
            let description = match &f.0 {
                Some(d) => d.clone(),
                None => "执行推理".to_string(),
            };
            let needs_tool = match f.1 {
                Some(b) => b,
                None => false,
            };
            let tool_name = match &f.2 {
                Some(t) => Some(t.clone()),
                None => None,
            };
            proof {
                assert(fv[i as int] == (opt_view(f.0), f.1, opt_view(f.2)));
            }
            steps.push(PlanStep { order: i + 1, description, needs_tool, tool_name, dependencies: Vec::new() });
            i = i + 1;
        }
        return Ok(steps);
    }
    let c = str_chars(content);
    let open = str_chars("```json");
    let fence = str_chars("```");
    proof {
        reveal_strlit("```json");
        assert(open@.len() == 7);
    }
    if let Some(s) = find_chars(&c, &open, 0) {
        proof {
            lemma_first_from_in(c@, open@, 0);
        }
        let n = c.len();
        assert(s + 7 <= n);
        if let Some(e) = find_chars(&c, &fence, s + 7) {
            proof {
                lemma_first_from_in(c@, fence@, s + 7);
                lemma_json_block_shorter(content@);
            }
            let inner = chars_to_string(&trim_chars(&sub_chars(&c, s + 7, e)));
            return parse_llm_plan(inner.as_str());
        }
    }
    Err(ReasoningError::PlanError("无法解析 LLM 计划".to_string()))
}

} // verus!
