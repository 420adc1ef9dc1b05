//! The analysis of configured targets.
//!
//! A target of a build is analysed in a configuration: its selectable attributes are resolved, the
//! targets it depends on are looked up, its rule is run on their providers, and the result is a
//! configured target that carries the providers and actions of the rule and a map from the files of
//! its dependencies to the actions that produce them.
//!
//! - [`key`], [`wire`]: the identity of a configured target, and canonical bytes.
//! - [`value`], [`decl`], [`target`], [`content`]: values, declarations and configured targets.
//! - [`label`], [`visibility`]: the labels by which targets name each other, and who may.
//! - [`select`], [`branch`], [`configurable`]: configurations, and attributes that depend on them.
//! - [`node`], [`stage`], [`analysis`], [`dependencies`], [`evaluation`]: the analysis as steps that
//!   ask for nodes of the build graph and go on with the answers.
//! - [`course`]: what holds of a whole analysis.
//! - [`text`], [`order`], [`seqs`], [`string_map`]: texts, lists and maps.
//! - [`outside`]: functions of the standard library that are taken on trust.

pub mod analysis;
pub mod branch;
pub mod configurable;
pub mod content;
pub mod course;
pub mod decl;
pub mod dependencies;
pub mod error;
pub mod evaluation;
pub mod key;
pub mod label;
pub mod node;
pub mod order;
pub mod outside;
pub mod select;
pub mod seqs;
pub mod stage;
pub mod string_map;
pub mod target;
pub mod text;
pub mod value;
pub mod visibility;
pub mod wire;

pub use crate::analysis::ConfiguredTargetFn;
pub use crate::key::{decode_ct_key, ConfiguredTargetKey, CONFIGURED_TARGET};
pub use crate::select::{SelectConfig, CONFIG_MATCH_INFO};
pub use crate::target::{ConfiguredTarget, DepOutput};
