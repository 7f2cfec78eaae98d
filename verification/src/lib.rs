//! Deployment-state tracking for promoting files through a pipeline of
//! environments.

pub mod database;
pub mod laws;
pub mod ordered_map;
pub mod paths;
pub mod pattern;
pub mod persisted;
pub mod state;
pub mod text;
pub mod workspace;
