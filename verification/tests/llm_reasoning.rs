use cadagent::llm_reasoning::parse_llm_plan;
use cadagent::llm_reasoning::conclusion_answer;
use cadagent::llm_reasoning::{assemble_chain, observed_primitive_count, tool_observation, ReasoningStep, StepType};
use cadagent::llm_reasoning::{
    generate_plan_mock, understand_task_mock, LlmReasoningRequest, ReasoningError,
    ReasoningState, ReasoningTask,
};

fn request(task: &str, task_type: ReasoningTask) -> LlmReasoningRequest {
    LlmReasoningRequest {
        task: task.to_string(),
        task_type,
        context: serde_json::Value::Null,
        verbose: false,
    }
}

#[test]
fn task_type_names() {
    assert_eq!(ReasoningTask::CountRooms.task_type_str(), "房间计数");
    assert_eq!(ReasoningTask::CalculateArea.task_type_str(), "面积计算");
    assert_eq!(ReasoningTask::Custom.task_type_str(), "自定义任务");
    assert_eq!(ReasoningState::default(), ReasoningState::Pending);
}

#[test]
fn mock_understanding_text() {
    let r = understand_task_mock(&request("这个户型有多少个房间？", ReasoningTask::CountRooms)).unwrap();
    assert_eq!(
        r,
        "任务理解：房间计数\n\n用户问题：这个户型有多少个房间？\n\n我将采用以下策略：这是一个房间计数任务。我需要：1) 识别图纸中的封闭区域 2) 排除外部边界 3) 统计内部房间数量"
    );
}

#[test]
fn mock_plan_for_area() {
    let plan = generate_plan_mock(&request("面积", ReasoningTask::CalculateArea), "").unwrap();
    assert_eq!(plan.task, "面积");
    assert_eq!(plan.plan_steps.len(), 3);
    assert_eq!(plan.plan_steps[0].tool_name.as_deref(), Some("analysis_execute"));
    assert!(plan.plan_steps[0].needs_tool);
    assert_eq!(plan.plan_steps[2].description, "使用鞋带公式计算面积");
    assert_eq!(plan.plan_steps[2].dependencies, vec![2]);
    assert_eq!(plan.required_tools, vec!["analysis_execute".to_string()]);
}

#[test]
fn mock_plan_default_has_two_steps() {
    let plan = generate_plan_mock(&request("x", ReasoningTask::MeasureDimension), "").unwrap();
    assert_eq!(plan.plan_steps.len(), 2);
    assert_eq!(plan.plan_steps[1].order, 2);
    assert!(plan.plan_steps[1].tool_name.is_none());
}

#[test]
fn reasoning_error_message() {
    assert_eq!(
        ReasoningError::PlanError("x".to_string()).message(),
        "规划失败：x"
    );
}

#[test]
fn template_conclusions() {
    assert_eq!(conclusion_answer(ReasoningTask::CountRooms, Some(12)), "共有6个房间");
    assert_eq!(conclusion_answer(ReasoningTask::CountRooms, Some(5)), "共有1个房间");
    assert_eq!(conclusion_answer(ReasoningTask::CountRooms, None), "无法确定房间数量");
    assert_eq!(conclusion_answer(ReasoningTask::CalculateArea, Some(7)), "总面积约为70平方单位");
    assert_eq!(conclusion_answer(ReasoningTask::CalculateArea, None), "无法计算面积");
    assert_eq!(conclusion_answer(ReasoningTask::AnalyzeLayout, Some(3)), "分析完成");
}

#[test]
fn first_tool_step_observation() {
    let step = |id: usize, step_type: StepType, obs: Option<&str>| ReasoningStep {
        id,
        step_type,
        thought: String::new(),
        tool_call: None,
        observation: obs.map(|o| serde_json::from_str(o).unwrap()),
        conclusion: None,
    };
    let steps = vec![
        step(0, StepType::Understand, Some("{\"primitives_count\": 1}")),
        step(1, StepType::ToolUse, Some("{\"primitives_count\": 12}")),
        step(2, StepType::ToolUse, Some("{\"primitives_count\": 99}")),
    ];
    let obs = tool_observation(&steps).unwrap();
    assert_eq!(obs["primitives_count"].as_u64(), Some(12));
    let without = vec![step(0, StepType::ToolUse, None), step(1, StepType::ToolUse, Some("1"))];
    assert!(tool_observation(&without).is_none());
    assert!(tool_observation(&[]).is_none());
}

#[test]
fn llm_plans_from_json_arrays() {
    let plan = parse_llm_plan(
        r#"[{"description":"识别基元","needs_tool":true,"tool_name":"analysis_execute"},{"x":1}]"#,
    )
    .unwrap();
    assert_eq!(plan.len(), 2);
    assert_eq!(plan[0].order, 1);
    assert_eq!(plan[0].description, "识别基元");
    assert!(plan[0].needs_tool);
    assert_eq!(plan[0].tool_name, Some("analysis_execute".to_string()));
    assert_eq!(plan[1].order, 2);
    assert_eq!(plan[1].description, "执行推理");
    assert!(!plan[1].needs_tool);
    assert_eq!(plan[1].tool_name, None);
    assert!(plan[1].dependencies.is_empty());
}

#[test]
fn llm_plans_from_code_blocks() {
    let plan = parse_llm_plan("计划如下：\n```json\n [{\"description\":\"d\"}] \n```\n").unwrap();
    assert_eq!(plan.len(), 1);
    assert_eq!(plan[0].description, "d");
    let e = parse_llm_plan("no plan here").unwrap_err();
    assert!(matches!(&e, ReasoningError::PlanError(m) if m == "无法解析 LLM 计划"));
    assert!(parse_llm_plan("{\"a\": 1}").is_err());
    assert!(parse_llm_plan("```json [1, 2").is_err());
}

fn obs_step(id: usize, step_type: StepType, obs: Option<&str>) -> ReasoningStep {
    ReasoningStep {
        id,
        step_type,
        thought: String::new(),
        tool_call: None,
        observation: obs.map(|o| serde_json::from_str(o).unwrap()),
        conclusion: None,
    }
}

#[test]
fn observed_primitive_counts() {
    let steps = vec![
        obs_step(0, StepType::Analyze, Some("{\"primitives_count\": 3}")),
        obs_step(1, StepType::ToolUse, Some("{\"primitives_count\": 12}")),
    ];
    assert_eq!(observed_primitive_count(&steps), Some(12));
    let no_count = vec![obs_step(0, StepType::ToolUse, Some("{\"other\": 1}"))];
    assert_eq!(observed_primitive_count(&no_count), Some(0));
    let nothing = vec![obs_step(0, StepType::ToolUse, None)];
    assert_eq!(observed_primitive_count(&nothing), None);
    assert_eq!(observed_primitive_count(&[]), None);
}

#[test]
fn chains_are_assembled_in_order() {
    let req = request("有几个房间？", ReasoningTask::CountRooms);
    let understanding = understand_task_mock(&req).unwrap();
    let plan = generate_plan_mock(&req, &understanding).unwrap();
    let results = vec![
        obs_step(2, StepType::ToolUse, Some("{\"primitives_count\": 12}")),
        obs_step(3, StepType::Analyze, None),
        obs_step(4, StepType::Analyze, None),
    ];
    let (chain, tools) = assemble_chain(&req, understanding.clone(), &plan, results, "共有6个房间".to_string());
    assert_eq!(chain.len(), 6);
    assert_eq!(chain[0].id, 0);
    assert_eq!(chain[0].step_type, StepType::Understand);
    assert_eq!(chain[0].thought, understanding);
    assert_eq!(chain[1].id, 1);
    assert_eq!(chain[1].step_type, StepType::Plan);
    assert_eq!(
        chain[1].thought,
        "我将按以下步骤执行：1. 调用分析管线识别基元; 2. 分析拓扑图识别封闭区域; 3. 排除外边界，统计房间数量"
    );
    assert_eq!(chain[1].conclusion.as_deref(), Some("规划完成，开始执行"));
    assert_eq!(chain[2].step_type, StepType::ToolUse);
    assert_eq!(chain[4].id, 4);
    assert_eq!(chain[5].id, 5);
    assert_eq!(chain[5].step_type, StepType::Conclude);
    assert_eq!(chain[5].thought, "基于以上分析，我可以得出结论");
    assert_eq!(chain[5].conclusion.as_deref(), Some("共有6个房间"));
    assert_eq!(tools, vec!["analysis_execute".to_string()]);
}

#[test]
fn chain_tools_are_listed_once() {
    let req = request("x", ReasoningTask::Custom);
    let plan = parse_llm_plan(
        r#"[{"description":"a","needs_tool":true,"tool_name":"t1"},{"description":"b","needs_tool":true,"tool_name":"t2"},{"description":"c","needs_tool":true,"tool_name":"t1"}]"#,
    )
    .unwrap();
    let plan = cadagent::llm_reasoning::ReasoningPlan {
        task: "x".to_string(),
        plan_steps: plan,
        required_tools: Vec::new(),
    };
    let (chain, tools) = assemble_chain(&req, String::new(), &plan, Vec::new(), String::new());
    assert_eq!(chain.len(), 3);
    assert_eq!(chain[1].thought, "我将按以下步骤执行：1. a; 2. b; 3. c");
    assert_eq!(chain[2].id, 2);
    assert_eq!(tools, vec!["t1".to_string(), "t2".to_string()]);
}

#[test]
fn observed_count_is_read_from_primitives_count_only() {
    let steps = vec![obs_step(0, StepType::ToolUse, Some("{\"primitive_total\": 7, \"primitives_count\": 4}"))];
    assert_eq!(observed_primitive_count(&steps), Some(4));
    let negative = vec![obs_step(0, StepType::ToolUse, Some("{\"primitives_count\": -3}"))];
    assert_eq!(observed_primitive_count(&negative), Some(0));
    let not_object = vec![obs_step(0, StepType::ToolUse, Some("[1, 2]"))];
    assert_eq!(observed_primitive_count(&not_object), Some(0));
}
