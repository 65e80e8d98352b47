//! Autosampling for the Dirtywave M8: which notes and chords a sample chain
//! holds, how the chain is cut into slots and files, how recorded samples become
//! slots, how an offline chain is written as a MIDI file, how a live run goes on,
//! and which arguments describe a valid run.
pub mod analysis;
pub mod arg_error;
pub mod arith;
pub mod asked;
pub mod audio;
pub mod batch;
pub mod chain;
pub mod chord_files;
pub mod chords;
pub mod cli;
pub mod config;
pub mod contents;
pub mod course;
pub mod cutting;
pub mod devices;
pub mod digits;
pub mod display;
pub mod engine;
pub mod fanout;
pub mod hearing;
pub mod keeping;
pub mod layout;
pub mod level;
pub mod limits;
pub mod listening;
pub mod mapping;
pub mod messages;
pub mod notes;
pub mod number;
pub mod order;
pub mod output;
pub mod outputs;
pub mod paths;
pub mod pcm;
pub mod picking;
pub mod plain;
pub mod plan;
pub mod playback;
pub mod render;
pub mod render_sfz;
pub mod session;
pub mod sfz;
pub mod signal;
pub mod single;
pub mod slots;
pub mod takes;
pub mod telling;
pub mod text;
pub mod tracks;
