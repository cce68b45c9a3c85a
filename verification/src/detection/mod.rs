pub mod confidence_boost;
pub mod orchestrator;
pub mod type_classifier;
