//! Retention of compilation variants: which cached build outputs belong to
//! which observed inputs, who owns them on disk, and when they may go.

pub mod artifact_family;
pub mod build_env_laws;
pub mod build_env_variants;
pub mod clean;
pub mod clean_command;
pub mod clean_laws;
pub mod clean_tree;
pub mod depinfo_laws;
pub mod environment;
pub mod environment_laws;
pub mod expiry_laws;
pub mod family_laws;
pub mod features;
pub mod framing;
pub mod hasher;
pub mod input_variant;
pub mod locking;
pub mod locking_laws;
pub mod membership;
pub mod name_map;
pub mod order;
pub mod output_depinfo;
pub mod outputs;
pub mod outputs_v1;
pub mod ownership_laws;
pub mod path;
pub mod path_buf;
pub mod path_laws;
pub mod path_set;
pub mod reach;
pub mod registry_laws;
pub mod render;
pub mod render_laws;
pub mod scan_laws;
pub mod selection_laws;
pub mod sorted_map;
pub mod text;
pub mod text_laws;
pub mod tracking;
pub mod variants;
pub mod walk;
