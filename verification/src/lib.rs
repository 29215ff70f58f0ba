//! Two-way project synchronisation between a Studio session and a project
//! directory: the rules, formats and state machines, each with its contract.
pub mod access;
pub mod artifacts;
pub mod baselines;
pub mod capture;
pub mod capture_flow;
pub mod capture_laws;
pub mod choice_laws;
pub mod collection_laws;
pub mod compare_laws;
pub mod compare_session;
pub mod conflict;
pub mod daemon_control;
pub mod daemon_laws;
pub mod daemon_manager;
pub mod decimal;
pub mod decision;
pub mod details;
pub mod diff;
pub mod disk_index;
pub mod edge_laws;
pub mod escape;
pub mod fingerprint;
pub mod flat;
pub mod flat_laws;
pub mod fs_chain;
pub mod fs_map;
pub mod fs_safety;
pub mod hex;
pub mod img_upload;
pub mod initial_sync;
pub mod json;
pub mod legacy_scan;
pub mod lifecycle;
pub mod packing;
pub mod path_laws;
pub mod path_lists;
pub mod path_reach;
pub mod path_text;
pub mod preflight;
pub mod preparation;
pub mod prepare_laws;
pub mod pull_session;
pub mod pull_stream;
pub mod push_stream;
pub mod ranking;
pub mod reservations;
pub mod safety_laws;
pub mod selection;
pub mod selective;
pub mod service_walks;
pub mod stream_laws;
pub mod survey;
pub mod sync_scope;
pub mod text;
pub mod text_map;
pub mod timed_store;
pub mod tree;
