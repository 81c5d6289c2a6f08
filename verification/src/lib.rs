//! Splitting long recordings into tracks.
pub mod ab;
pub mod boxes;
pub mod bytes;
pub mod checksum;
pub mod cleaning;
pub mod clips;
pub mod controls;
pub mod cutlist;
pub mod decisions;
pub mod detect;
pub mod download;
pub mod edit;
pub mod export;
pub mod exporting;
pub mod fetching;
pub mod formats;
pub mod frames;
pub mod history;
pub mod keys;
pub mod laws;
pub mod listing;
pub mod loudness;
pub mod media_server;
pub mod mp3cut;
pub mod mp3index;
pub mod mp4;
pub mod naming;
pub mod peaks;
pub mod player;
pub mod playing;
pub mod readback;
pub mod recording;
pub mod review;
pub mod ring;
pub mod scan;
pub mod scanner;
pub mod serving;
pub mod silences;
pub mod source;
pub mod state;
pub mod tags;
pub mod text;
pub mod time;
pub mod titles;
pub mod tracklist;
pub mod tools;
pub mod tracks;
pub mod transcode;
pub mod update_check;
pub mod video;
pub mod video_export;
pub mod views;
pub mod wav;
pub mod waveform;
pub mod writing;

pub use recording::Status;
