//! Plain data model of the control plane around the bridge: the commands the
//! interactive shell issues, the AI model routing configuration, and the
//! agents the workflow controller composes. Only the data shapes live here;
//! the I/O that acts on them stays outside the library.

use vstd::prelude::*;

verus! {

/// What a sub-agent is currently doing.
#[derive(Clone, Debug)]
pub enum AgentStatus {
    Idle,
    Working,
    Failed(String),
}

/// Which models the workflow phases route to.
#[derive(Clone, Debug)]
pub struct AIConfig {
    pub planner_model: String,
    pub editor_model: String,
    pub reviewer_model: String,
    pub grunt_models: Vec<String>,
}

/// A command the interactive shell can issue.
#[derive(Clone, Debug)]
pub enum DevysCommand {
    Initialize,
    StartZellijSession,
    ExecuteWorkflow { query: String, mode: Option<String> },
    ToggleGruntMode,
    ShowStatus,
    Shutdown,
    RefreshContext,
    OptimizeContext,
    SwitchModel { model: String },
}

/// Placeholder service handles the workflow controller composes.
#[derive(Debug)]
pub struct ContextService;

#[derive(Debug)]
pub struct PlannerAgent;

#[derive(Debug)]
pub struct EditorAgent;

#[derive(Debug)]
pub struct ReviewerAgent;

#[derive(Debug)]
pub struct GruntAgent;

/// The services a workflow run goes through, in phase order.
#[derive(Debug)]
pub struct IntegratedWorkflowController {
    pub context_service: ContextService,
    pub planner_agent: PlannerAgent,
    pub editor_agent: EditorAgent,
    pub reviewer_agent: ReviewerAgent,
    pub grunt_agent: GruntAgent,
}

} // verus!