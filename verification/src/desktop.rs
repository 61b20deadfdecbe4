//! The logic of the desktop window: its control buttons and the sink
//! commands they send, the pop-up message window, and where an identified
//! song is stored.
use vstd::prelude::*;

use crate::text::{is_white_space, text_eq, without_chars, without_white_space};

verus! {

/// Declares `std::path::PathBuf` so that `process_mp3` can take paths;
/// nothing of a path's contents is known here.
#[verifier::external_type_specification]
#[verifier::external_body]
pub struct ExPathBuf(std::path::PathBuf);

/// A command of the desktop window's buttons to the audio thread.
#[derive(Clone, Copy, Debug, PartialEq, Eq, Structural)]
pub enum SinkCommand {
    Pause,
    Play,
    SkipOne,
    Clear,
}

/// The command that a button code stands for: 0 pause, 1 play, 2 skip the
/// current song, 3 clear; no other code names a command.
pub open spec fn sink_command_of_code(code: usize) -> Option<SinkCommand> {
    if code == 0 {
        Some(SinkCommand::Pause)
    } else if code == 1 {
        Some(SinkCommand::Play)
    } else if code == 2 {
        Some(SinkCommand::SkipOne)
    } else if code == 3 {
        Some(SinkCommand::Clear)
    } else {
        None
    }
}

impl SinkCommand {
    /// The command of a button code, if the code names one.
    pub fn from_code(code: usize) -> (c: Option<SinkCommand>)
        ensures
            c == sink_command_of_code(code),
    {
        match code {
            0 => Some(SinkCommand::Pause),
            1 => Some(SinkCommand::Play),
            2 => Some(SinkCommand::SkipOne),
            3 => Some(SinkCommand::Clear),
            _ => None,
        }
    }
}

/// A window that shows a message.
pub struct MessageWindow {
    message: String,
}

impl MessageWindow {
    /// A window that shows `message`.
    pub fn new(message: String) -> (w: MessageWindow)
        ensures
            w.shown()@ == message@,
    {
        MessageWindow { message }
    }

    /// The message of the window.
    pub closed spec fn shown(&self) -> String {
        self.message
    }

    /// The message of the window.
    pub fn message(&self) -> (m: &String)
        ensures
            m@ == self.shown()@,
    {
        &self.message
    }
}

/// `string` without its white space (the characters of the Unicode
/// White_Space property).
pub fn remove_whites(string: String) -> (r: String)
    ensures
        r@ == string@.filter(|c: char| !is_white_space(c)),
{
    without_white_space(string.as_str())
}

/// Processing of a tagged file; it does nothing.
pub fn process_mp3(
    path: &std::path::PathBuf,
    name: &str,
    artist_credit: &str,
    album: &str,
    file: std::path::PathBuf,
) {
}

/// Whether a song was identified: its title is not "Unknown".
pub fn identified(title: &str) -> (r: bool)
    ensures
        r == (title@ != "Unknown"@),
{
    !text_eq(title, "Unknown")
}

/// Where an identified song is stored: "./Stored_Songs/", its title without
/// slashes, and ".mp3".
pub open spec fn stored_song_path_of(title: Seq<char>) -> Seq<char> {
    "./Stored_Songs/"@ + title.filter(|c: char| c != '/') + ".mp3"@
}

/// The path under which an identified song with `title` is stored.
pub fn stored_song_path(title: &str) -> (path: String)
    ensures
        path@ == stored_song_path_of(title@),
{
    let name = without_chars(title, '/', '/');
    proof {
        assert((|c: char| c != '/' && c != '/') =~= (|c: char| c != '/'));
    }
    let mut path = String::from_str("./Stored_Songs/");
    path.append(name.as_str());
    path.append(".mp3");
    path
}

} // verus!
