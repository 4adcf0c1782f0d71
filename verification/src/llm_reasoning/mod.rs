//! Data of the chain-of-thought reasoning over drawings, and the template
//! reasoning used when no language model is available.

pub mod engine;
pub mod types;

pub use engine::{
    assemble_chain, conclusion_answer, generate_plan_mock, observed_primitive_count, parse_llm_plan,
    tool_observation, understand_task_mock,
    ReasoningError,
};
pub use types::{
    ImpactLevel, LlmReasoningRequest, PlanStep, ReasoningPlan, ReasoningState, ReasoningStep,
    ReasoningTask, StepType, ToolCallInfo, ToolCallStatus, Uncertainty, UncertaintySource,
};
