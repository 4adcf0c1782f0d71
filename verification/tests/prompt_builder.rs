use cadagent::prompt_builder::{PromptBuilder, PromptConfig, PromptTemplate};

#[test]
fn prompt_config_defaults() {
    let c = PromptConfig::default();
    assert_eq!(c.template, PromptTemplate::Analysis);
    assert_eq!(c.max_primitives_display, 50);
    assert_eq!(c.language, "zh-CN");
    assert_eq!(c.summary_mode_threshold, 100);
    let b = PromptBuilder::with_defaults();
    assert_eq!(b.config().max_primitives_display, 50);
}

#[test]
fn system_prompts() {
    let b = PromptBuilder::new(PromptConfig::default());
    assert!(b.get_system_prompt(PromptTemplate::Analysis).starts_with("你是一个 CAD 几何推理专家。"));
    assert_eq!(
        b.get_system_prompt(PromptTemplate::Custom),
        "你是一个 CAD 几何推理助手，请基于给定的几何信息进行分析。"
    );
}

#[test]
fn reasoning_guidance_depends_on_drawing() {
    let b = PromptBuilder::with_defaults();
    assert_eq!(
        b.get_reasoning_guidance(PromptTemplate::Reasoning, true, false),
        "1. 识别所有封闭区域（多边形）\n3. 基于约束关系推导几何特征\n4. 输出结构化结论"
    );
    assert_eq!(
        b.get_reasoning_guidance(PromptTemplate::Reasoning, false, false),
        "3. 基于约束关系推导几何特征\n4. 输出结构化结论"
    );
    assert_eq!(b.get_reasoning_guidance(PromptTemplate::Custom, true, true), "");
}

use cadagent::prompt_builder::{PrimitiveKind, RelationKind};

#[test]
fn primitive_statistics_normal_layout() {
    let builder = cadagent::prompt_builder::PromptBuilder::with_defaults();
    let kinds = [PrimitiveKind::Line, PrimitiveKind::Line, PrimitiveKind::Circle, PrimitiveKind::Point];
    assert_eq!(
        builder.primitive_statistics(&kinds),
        "- **基元统计**: 共 4 个基元\n  - 线段：2 条\n  - 圆：1 个\n"
    );
}

#[test]
fn primitive_statistics_summary_mode() {
    let mut config = cadagent::prompt_builder::PromptConfig::default();
    config.summary_mode_threshold = 2;
    let builder = cadagent::prompt_builder::PromptBuilder::new(config);
    let kinds = [PrimitiveKind::Line, PrimitiveKind::Polygon, PrimitiveKind::Text, PrimitiveKind::Arc];
    assert_eq!(
        builder.primitive_statistics(&kinds),
        "- **基元统计**: 共 4 个基元\n  - 线段：1 条\n  - 圆：0 个\n  - 多边形：1 个（可能表示房间或封闭区域）\n  - 弧：1 个\n  - 文本标注：1 个（可能包含房间名称、尺寸等信息）\n\n> 📊 注：基元数量较多，已启用摘要模式以节省 Token。仅显示统计信息，未展示样本详情。"
    );
}

#[test]
fn test_build_analysis_prompt() {
    let kinds = [PrimitiveKind::Line, PrimitiveKind::Line, PrimitiveKind::Circle];
    let relations = [RelationKind::Perpendicular];
    let builder = cadagent::prompt_builder::PromptBuilder::with_defaults();
    let prompt = builder.build_analysis_prompt(
        &kinds,
        &relations,
        builder.primitive_statistics(&kinds),
        "- **约束统计**: 共 1 个几何关系\n".to_string(),
        None,
    );
    assert!(!prompt.system_prompt.is_empty());
    assert!(!prompt.user_prompt.is_empty());
    assert!(prompt.metadata.primitive_count == 3);
    assert!(prompt.metadata.constraint_count == 1);
}

#[test]
fn test_build_reasoning_prompt() {
    let kinds = [PrimitiveKind::Polygon];
    let builder = cadagent::prompt_builder::PromptBuilder::with_defaults();
    let prompt = builder.build_reasoning_prompt(
        &kinds,
        &[],
        builder.primitive_statistics(&kinds),
        String::new(),
        None,
        "计算这个房间的面积",
    );
    assert!(prompt.full_prompt.contains("计算这个房间的面积"));
    assert!(prompt.metadata.template == cadagent::prompt_builder::PromptTemplate::Reasoning);
}

#[test]
fn analysis_prompt_exact_text() {
    let builder = cadagent::prompt_builder::PromptBuilder::with_defaults();
    let prompt = builder.build_analysis_prompt(&[PrimitiveKind::Line], &[], "P".to_string(), "C".to_string(), None);
    assert_eq!(
        prompt.user_prompt,
        "### 任务\n请分析这个 CAD 图纸的几何结构。\n\n### 几何上下文\nP\nC\n\n### 推理引导\n建议按以下步骤分析：\n1. 观察基元类型和数量分布\n2. 分析几何约束关系（平行、垂直等）\n3. 识别可能的功能区域（如房间、墙体等）\n4. 总结几何结构特征"
    );
    assert_eq!(prompt.full_prompt, format!("{}\n\n{}", prompt.system_prompt, prompt.user_prompt));
    assert_eq!(prompt.metadata.prompt_length, prompt.full_prompt.len());
    assert_eq!(
        prompt.metadata.injected_context,
        vec!["primitive_geometry".to_string(), "geometric_constraints".to_string()]
    );
}

#[test]
fn reasoning_prompt_guidance_and_sections() {
    let mut config = cadagent::prompt_builder::PromptConfig::default();
    config.include_constraints = false;
    let builder = cadagent::prompt_builder::PromptBuilder::new(config);
    let prompt = builder.build_reasoning_prompt(
        &[PrimitiveKind::Polygon],
        &[RelationKind::Perpendicular, RelationKind::Parallel],
        "P".to_string(),
        "C".to_string(),
        Some("V".to_string()),
        "T",
    );
    assert_eq!(
        prompt.user_prompt,
        "### 任务\nT\n\n### 几何上下文\nP\nV\n\n### 推理引导\n1. 识别所有封闭区域（多边形）\n2. 注意垂直关系，这可能表示直角墙角\n3. 基于约束关系推导几何特征\n4. 输出结构化结论"
    );
    assert_eq!(prompt.metadata.constraint_count, 2);
    assert_eq!(
        prompt.metadata.injected_context,
        vec!["primitive_geometry".to_string(), "constraint_verification".to_string()]
    );
}
