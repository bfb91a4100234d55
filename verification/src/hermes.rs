use vstd::prelude::*;

verus! {

/// The role that reports a decision or an outcome on the event bus.
#[derive(Debug, Clone, Copy, PartialEq, Eq, Structural)]
pub enum AgentRole {
    Producer,
    GameDesigner,
    LevelDesigner,
    GameplayProgrammer,
    ArtDirector,
    QaTester,
}

/// The topic under which an event is filed.
#[derive(Debug, Clone, Copy, PartialEq, Eq, Structural)]
pub enum HermesTopic {
    ProducerGate,
    LevelPlan,
    Gameplay,
    Qa,
}

/// One message on the event bus.
#[derive(Debug, Clone)]
pub struct HermesEvent {
    pub topic: HermesTopic,
    pub from: AgentRole,
    pub message: String,
}

/// Marker for the plugin that registers the event bus with an application.
pub struct HermesPlugin;

} // verus!
