//! Streaming, cataloguing and describing a video library that lives behind
//! shared links.
//!
//! Everything here computes: nothing reads a file, opens a socket or asks the
//! time. Where the outside has to be asked, a function says what to ask for, and
//! takes the answer as an argument.
//!
//! Times are in milliseconds, scores and volumes in thousandths.

// What everything else is written in.
pub mod text;
pub mod unicode;
pub mod order;
pub mod hash;

// What a file is, going by its name and the folders it lies in.
pub mod naming;
pub mod naming_laws;
pub mod keys;
pub mod uid;
pub mod rows;

// The shares, and the settings that belong to them.
pub mod core_error;
pub mod config;
pub mod shares;
pub mod appearance;
pub mod prefs;

// The catalog, and the library that it is shown as.
pub mod table;
pub mod schema;
pub mod sizes;
pub mod metadata_rows;
pub mod catalog;
pub mod library;
pub mod library_laws;

// What the providers of metadata say about a title.
pub mod meta_error;
pub mod metadata;
pub mod matching;
pub mod anilist;
pub mod tmdb;
pub mod service;
pub mod settings;

// Reading a file block by block.
pub mod stream_error;
pub mod block;
pub mod recency;
pub mod ring;
pub mod disk;
pub mod single_flight;
pub mod stream;
pub mod source;

// Playing it.
pub mod registry;
pub mod cursor;
pub mod chapters;
pub mod tracks;
pub mod player;
