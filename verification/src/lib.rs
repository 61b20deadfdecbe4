//! A music player's logic: the play queue and its playback monitor, the
//! player commands, the play order of a directory of songs, the folder
//! browser and song cards of the shell, and the identification of songs.
use vstd::prelude::*;

pub mod browser;
pub mod desktop;
pub mod library;
pub mod paths;
pub mod player;
pub mod queue;
pub mod song_cache;
pub mod song_data;
pub mod song_determiner;
pub mod sorting;
pub mod text;

pub use desktop::{process_mp3, remove_whites, MessageWindow};
