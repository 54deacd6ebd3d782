//! Build planning for Rust packages: manifests, features, units, command lines and the shared store.

pub mod building;
pub mod bundle;
pub mod blobs;
pub mod build_script;
pub mod cfgexpr;
pub mod check_laws;
pub mod cleaning;
pub mod command_laws;
pub mod commands;
pub mod config;
pub mod config_get;
pub mod config_laws;
pub mod deferred;
pub mod depinfo;
pub mod doc_laws;
pub mod edit;
pub mod env_laws;
pub mod exec;
pub mod exec_laws;
pub mod feature_laws;
pub mod features;
pub mod finite;
pub mod gc;
pub mod git;
pub mod graph;
pub mod hash;
pub mod host;
pub mod info;
pub mod installs;
pub mod invocation;
pub mod json;
pub mod keymap;
pub mod key_laws;
pub mod keys;
pub mod laws;
pub mod layout;
pub mod lint_laws;
pub mod lints;
pub mod lock_laws;
pub mod lockfile;
pub mod manifest;
pub mod manifest_laws;
pub mod messages;
pub mod num;
pub mod order;
pub mod path;
pub mod places;
pub mod plan;
pub mod plan_laws;
pub mod planning;
pub mod profile;
pub mod profile_laws;
pub mod registry;
pub mod registry_laws;
pub mod rekey;
pub mod resolve;
pub mod run;
pub mod run_laws;
pub mod schedule;
pub mod session;
pub mod sets;
pub mod script_laws;
pub mod shell;
pub mod size;
pub mod sort;
pub mod srchash;
pub mod state;
pub mod store;
pub mod strmap;
pub mod text;
pub mod timings;
pub mod tree;
pub mod unit;
pub mod unit_laws;
pub mod value;
pub mod version;
pub mod workspace;
pub mod workspace_laws;
pub mod worktree;
