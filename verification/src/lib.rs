//! MusicOS core: the symbolic music model, theory, rhythm, timeline, the
//! project aggregate with commands, events, and undo, MIDI files and live
//! scheduling, the audio-graph compiler and render plan, configuration, and
//! the decisions of the agent loop.

pub mod core_types;
pub mod text;
pub mod sorting;
pub mod timeline;
pub mod rng;
pub mod pattern;
pub mod float;
pub mod project_types;
pub mod project_store;
pub mod project_event;
pub mod project_apply;
pub mod project_plan;
pub mod project_undo;
pub mod project_laws;
pub mod harmony;
pub mod rhythm;
pub mod arrangement;
pub mod midi_stream;
pub mod instruments;
pub mod composition;
pub mod graph;
pub mod midi;
pub mod midi_schedule;
pub mod agent;
pub mod render_plan;
pub mod ai_provider;
pub mod config;
pub mod project_service;
pub mod midi_laws;
