//! Data types of the reasoning chain: tasks, steps, plans and
//! uncertainties.

use vstd::prelude::*;

verus! {

/// Kind of reasoning task.
#[derive(Debug, Clone, Copy, PartialEq, Eq)]
pub enum ReasoningTask {
    /// Count the rooms.
    CountRooms,
    /// Compute an area.
    CalculateArea,
    /// Measure a dimension.
    MeasureDimension,
    /// Find doors and windows.
    DetectDoorsWindows,
    /// Analyse the layout.
    AnalyzeLayout,
    /// Anything else.
    Custom,
}

/// State of a reasoning run.
#[derive(Debug, Clone, Copy, PartialEq, Eq)]
pub enum ReasoningState {
    /// Not started.
    Pending,
    /// Reasoning.
    Thinking,
    /// Waiting for a tool.
    WaitingForTool,
    /// Revising earlier steps.
    Revising,
    /// Finished.
    Completed,
    /// Failed.
    Failed,
}

impl Default for ReasoningState {
    /// Not started.
    fn default() -> (s: ReasoningState)
        ensures
            s is Pending,
    {
        ReasoningState::Pending
    }
}

/// One step of a reasoning chain.
#[derive(Debug, Clone)]
pub struct ReasoningStep {
    /// Position of the step.
    pub id: usize,
    /// Kind of step.
    pub step_type: StepType,
    /// What was thought.
    pub thought: String,
    /// The tool called, if any.
    pub tool_call: Option<ToolCallInfo>,
    /// What the tool returned.
    pub observation: Option<serde_json::Value>,
    /// The step's conclusion.
    pub conclusion: Option<String>,
}

/// Kind of reasoning step.
#[derive(Debug, Clone, Copy, PartialEq, Eq)]
pub enum StepType {
    /// Understand the task.
    Understand,
    /// Plan the steps.
    Plan,
    /// Call a tool.
    ToolUse,
    /// Analyse results.
    Analyze,
    /// Check results.
    Verify,
    /// Revise earlier steps.
    Revise,
    /// Conclude.
    Conclude,
}

/// A tool call made during reasoning.
#[derive(Debug, Clone)]
pub struct ToolCallInfo {
    /// Tool name.
    pub tool_name: String,
    /// Arguments given.
    pub arguments: serde_json::Value,
    /// Outcome.
    pub status: ToolCallStatus,
}

/// Outcome of a tool call.
#[derive(Debug, Clone, Copy, PartialEq, Eq)]
pub enum ToolCallStatus {
    /// Not finished.
    Pending,
    /// Succeeded.
    Success,
    /// Failed.
    Failed,
}

/// A request for reasoning.
#[derive(Debug, Clone)]
pub struct LlmReasoningRequest {
    /// The question, in natural language.
    pub task: String,
    /// Kind of task.
    pub task_type: ReasoningTask,
    /// Drawing data the question is about.
    pub context: serde_json::Value,
    /// Whether to log in detail.
    pub verbose: bool,
}

/// A plan of reasoning steps.
#[derive(Debug, Clone)]
pub struct ReasoningPlan {
    /// The question planned for.
    pub task: String,
    /// The steps, in order.
    pub plan_steps: Vec<PlanStep>,
    /// Tools the steps need.
    pub required_tools: Vec<String>,
}

/// One planned step.
#[derive(Debug, Clone)]
pub struct PlanStep {
    /// Position of the step, from 1.
    pub order: usize,
    /// What the step does.
    pub description: String,
    /// Whether it calls a tool.
    pub needs_tool: bool,
    /// The tool it calls.
    pub tool_name: Option<String>,
    /// Positions of the steps it depends on.
    pub dependencies: Vec<usize>,
}

/// An uncertainty met while reasoning.
#[derive(Debug, Clone)]
pub struct Uncertainty {
    /// What is uncertain.
    pub description: String,
    /// Where it comes from.
    pub source: UncertaintySource,
    /// How much it matters.
    pub impact: ImpactLevel,
    /// How it could be resolved.
    pub resolution_strategy: Option<String>,
}

/// Where an uncertainty comes from.
#[derive(Debug, Clone, Copy, PartialEq, Eq)]
pub enum UncertaintySource {
    /// The image is of poor quality.
    PoorImageQuality,
    /// A label is ambiguous.
    AmbiguousLabel,
    /// A primitive was recognised with doubt.
    PrimitiveUncertainty,
    /// Constraints conflict.
    ConstraintConflict,
    /// Anything else.
    Other,
}

/// How much an uncertainty matters.
#[derive(Debug, Clone, Copy, PartialEq, Eq)]
pub enum ImpactLevel {
    Low,
    Medium,
    High,
    Critical,
}

} // verus!
