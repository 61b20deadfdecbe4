//! The player: the commands of the user interface, and what they do to the
//! play queue.
use vstd::prelude::*;

use crate::library::{SongFile, counter_after, directory_order, file_views, order_songs};
use crate::queue::{
    added, added_actions, cleared, skip_actions, skipped, texts, update_step, Queue, QueueAction,
    QueueView,
};

verus! {

/// A command of the player's control buttons.
#[derive(Clone, Copy, Debug, PartialEq, Eq, Structural)]
pub enum PlayerCommand {
    Pause,
    Play,
    SkipForward,
    SkipBackward,
    Clear,
    LoopSong,
    LoopStop,
}

/// The command that a numeric code stands for: 0 pause, 1 play, 2 skip
/// forward, 3 skip backward, 4 clear, 5 loop the song, 6 stop looping; no
/// other code names a command.
pub open spec fn command_of_code(code: usize) -> Option<PlayerCommand> {
    if code == 0 {
        Some(PlayerCommand::Pause)
    } else if code == 1 {
        Some(PlayerCommand::Play)
    } else if code == 2 {
        Some(PlayerCommand::SkipForward)
    } else if code == 3 {
        Some(PlayerCommand::SkipBackward)
    } else if code == 4 {
        Some(PlayerCommand::Clear)
    } else if code == 5 {
        Some(PlayerCommand::LoopSong)
    } else if code == 6 {
        Some(PlayerCommand::LoopStop)
    } else {
        None
    }
}

/// What a command does to the queue, and the actions it hands the sink.
pub open spec fn command_step(q: QueueView, c: PlayerCommand) -> (QueueView, Seq<QueueAction>) {
    match c {
        PlayerCommand::Pause => (q, seq![QueueAction::PauseSink]),
        PlayerCommand::Play => (q, seq![QueueAction::PlaySink]),
        PlayerCommand::SkipForward => (skipped(q), skip_actions(1isize)),
        PlayerCommand::SkipBackward => (skipped(q), skip_actions(-1isize)),
        PlayerCommand::Clear => (cleared(q), seq![QueueAction::ClearSink]),
        PlayerCommand::LoopSong => (QueueView { looping: true, ..q }, Seq::empty()),
        PlayerCommand::LoopStop => (QueueView { looping: false, ..q }, Seq::empty()),
    }
}

/// The queue after the queue was cleared and `songs` were added to it, and
/// the actions that this takes.
pub open spec fn replaced(q: QueueView, songs: Seq<Seq<char>>) -> (QueueView, Seq<QueueAction>) {
    (added(cleared(q), songs), seq![QueueAction::ClearSink] + added_actions(cleared(q)))
}

impl PlayerCommand {
    /// The command of a numeric code, if the code names one.
    pub fn from_code(code: usize) -> (c: Option<PlayerCommand>)
        ensures
            c == command_of_code(code),
    {
        match code {
            0 => Some(PlayerCommand::Pause),
            1 => Some(PlayerCommand::Play),
            2 => Some(PlayerCommand::SkipForward),
            3 => Some(PlayerCommand::SkipBackward),
            4 => Some(PlayerCommand::Clear),
            5 => Some(PlayerCommand::LoopSong),
            6 => Some(PlayerCommand::LoopStop),
            _ => None,
        }
    }
}

/// The music player: its play queue and the user's commands on it.
pub struct Player {
    queue: Queue,
}

impl View for Player {
    type V = QueueView;

    closed spec fn view(&self) -> QueueView {
        self.queue@
    }
}

impl Player {
    /// A player with an empty queue.
    pub fn new() -> (p: Player)
        ensures
            p@ == (QueueView {
                songs: Seq::empty(),
                index: 0,
                up: false,
                looping: false,
                ext_trigger: true,
            }),
    {
        Player { queue: Queue::new() }
    }

    /// The player's queue.
    pub fn queue(&self) -> (q: &Queue)
        ensures
            q@ == self@,
    {
        &self.queue
    }

    /// The player's queue, for the playback monitor's steps.
    pub fn queue_mut(&mut self) -> (q: &mut Queue)
        ensures
            q@ == old(self)@,
            final(self)@ == final(q)@,
    {
        &mut self.queue
    }

    /// Carries out the command that `command` stands for. Returns `None`,
    /// and changes nothing, where the code names no command.
    pub fn send_command(&mut self, command: usize) -> (actions: Option<Vec<QueueAction>>)
        ensures
            match command_of_code(command) {
                None => actions is None && final(self)@ == old(self)@,
                Some(c) => actions is Some && (final(self)@, actions->0@) == command_step(
                    old(self)@,
                    c,
                ),
            },
    {
        match PlayerCommand::from_code(command) {
            None => None,
            Some(c) => Some(self.apply(c)),
        }
    }

    /// Carries out `c`.
    pub fn apply(&mut self, c: PlayerCommand) -> (actions: Vec<QueueAction>)
        ensures
            (final(self)@, actions@) == command_step(old(self)@, c),
    {
        match c {
            PlayerCommand::Pause => self.queue.pause(),
            PlayerCommand::Play => self.queue.play(),
            PlayerCommand::SkipForward => self.queue.skip_forward(),
            PlayerCommand::SkipBackward => self.queue.skip_backward(),
            PlayerCommand::Clear => self.queue.clear(),
            PlayerCommand::LoopSong => {
                self.queue.loop_song();
                Vec::new()
            },
            PlayerCommand::LoopStop => {
                self.queue.loop_stop();
                Vec::new()
            },
        }
    }

    /// The songs that playing `song` queues: the song alone.
    pub fn load_song(&self, song: String) -> (songs: Vec<String>)
        ensures
            texts(songs@) == seq![song@],
    {
        let mut songs: Vec<String> = Vec::new();
        songs.push(song);
        proof {
            assert(texts(songs@) =~= seq![song@]);
        }
        songs
    }

    fn replace_queue(&mut self, songs: Vec<String>) -> (actions: Vec<QueueAction>)
        ensures
            (final(self)@, actions@) == replaced(old(self)@, texts(songs@)),
    {
        let mut actions = self.queue.clear();
        let mut more = self.queue.add_songs(songs);
        let ghost a = actions@;
        let ghost m = more@;
        actions.append(&mut more);
        proof {
            assert(actions@ =~= a + m);
        }
        actions
    }

    /// Empties the queue and plays `song`.
    pub fn play_song(&mut self, song: String) -> (actions: Vec<QueueAction>)
        ensures
            (final(self)@, actions@) == replaced(old(self)@, seq![song@]),
    {
        let songs = self.load_song(song);
        self.replace_queue(songs)
    }

    /// Appends `song` to the queue.
    pub fn queue_song(&mut self, song: String) -> (actions: Vec<QueueAction>)
        ensures
            final(self)@ == added(old(self)@, seq![song@]),
            actions@ == added_actions(old(self)@),
    {
        let songs = self.load_song(song);
        self.queue.add_songs(songs)
    }

    /// The songs of a directory in play order (see `order_songs`): `files`
    /// are its playable songs with their tags, and `entry_count` is its
    /// number of entries.
    pub fn load_dir(&self, files: Vec<SongFile>, entry_count: usize) -> (songs: Vec<String>)
        requires
            counter_after(file_views(files@), (entry_count as u32) as int) <= u32::MAX,
        ensures
            directory_order(file_views(files@), (entry_count as u32) as int, texts(songs@)),
    {
        order_songs(&files, entry_count)
    }

    /// Empties the queue and plays the songs of a directory.
    pub fn play_dir(&mut self, files: Vec<SongFile>, entry_count: usize) -> (actions: Vec<
        QueueAction,
    >)
        requires
            counter_after(file_views(files@), (entry_count as u32) as int) <= u32::MAX,
        ensures
            exists|songs: Seq<Seq<char>>|
                directory_order(file_views(files@), (entry_count as u32) as int, songs) && (
                final(self)@,
                actions@,
            ) == replaced(old(self)@, songs),
    {
        let songs = self.load_dir(files, entry_count);
        let ghost order = texts(songs@);
        let actions = self.replace_queue(songs);
        proof {
            assert(directory_order(file_views(files@), (entry_count as u32) as int, order));
        }
        actions
    }

    /// Appends the songs of a directory to the queue.
    pub fn queue_dir(&mut self, files: Vec<SongFile>, entry_count: usize) -> (actions: Vec<
        QueueAction,
    >)
        requires
            counter_after(file_views(files@), (entry_count as u32) as int) <= u32::MAX,
        ensures
            exists|songs: Seq<Seq<char>>|
                directory_order(file_views(files@), (entry_count as u32) as int, songs)
                    && final(self)@ == added(old(self)@, songs),
            actions@ == added_actions(old(self)@),
    {
        let songs = self.load_dir(files, entry_count);
        let ghost order = texts(songs@);
        let actions = self.queue.add_songs(songs);
        proof {
            assert(directory_order(file_views(files@), (entry_count as u32) as int, order));
            assert(self@ == added(old(self)@, order));
        }
        actions
    }
}

/// Playing a song empties the queue, clears the sink, and asks the monitor
/// for an update by 0, which starts that song and nothing else.
pub proof fn lemma_play_song_starts_it(q: QueueView, song: Seq<char>)
    ensures
        replaced(q, seq![song]).1 == seq![QueueAction::ClearSink, QueueAction::SendUpdate(0)],
        update_step(replaced(q, seq![song]).0, 0) == (
            QueueView {
                songs: seq![song],
                index: 0,
                up: true,
                looping: q.looping,
                ext_trigger: false,
            },
            Some(song),
        ),
{
    assert(Seq::<Seq<char>>::empty() + seq![song] =~= seq![song]);
    assert(seq![QueueAction::ClearSink] + seq![QueueAction::SendUpdate(0)] =~= seq![
        QueueAction::ClearSink,
        QueueAction::SendUpdate(0),
    ]);
}

/// Replacing the queue by `songs` (as `play_dir` does with a directory's
/// order) empties the queue, clears the sink, and asks for an update by 0,
/// which starts the first of `songs` at index 0, or leaves nothing up where
/// `songs` is empty.
pub proof fn lemma_replace_starts_first(q: QueueView, songs: Seq<Seq<char>>)
    ensures
        replaced(q, songs).0.songs == songs,
        replaced(q, songs).0.index == 0,
        replaced(q, songs).1 == seq![QueueAction::ClearSink, QueueAction::SendUpdate(0)],
        update_step(replaced(q, songs).0, 0).0.index == 0,
        update_step(replaced(q, songs).0, 0).0.songs == songs,
        update_step(replaced(q, songs).0, 0).0.up == (songs.len() > 0),
        update_step(replaced(q, songs).0, 0).1 == if songs.len() > 0 {
            Some(songs[0])
        } else {
            None::<Seq<char>>
        },
{
    assert(Seq::<Seq<char>>::empty() + songs =~= songs);
    assert(seq![QueueAction::ClearSink] + seq![QueueAction::SendUpdate(0)] =~= seq![
        QueueAction::ClearSink,
        QueueAction::SendUpdate(0),
    ]);
}

/// What each code of the control buttons does to the queue and hands the
/// sink: 0 pauses, 1 plays, 2 pauses, sets the outside trigger, stops and
/// sends the monitor an update of +1, 3 does the same with -1, 4 empties the
/// queue and clears the sink, 5 and 6 turn looping on and off, and no other
/// code does anything.
pub proof fn lemma_command_codes(q: QueueView, code: usize)
    ensures
        code == 0 ==> command_of_code(code) == Some(PlayerCommand::Pause) && command_step(
            q,
            PlayerCommand::Pause,
        ) == (q, seq![QueueAction::PauseSink]),
        code == 1 ==> command_of_code(code) == Some(PlayerCommand::Play) && command_step(
            q,
            PlayerCommand::Play,
        ) == (q, seq![QueueAction::PlaySink]),
        code == 2 ==> command_of_code(code) == Some(PlayerCommand::SkipForward) && command_step(
            q,
            PlayerCommand::SkipForward,
        ) == (
            QueueView { ext_trigger: true, ..q },
            seq![QueueAction::PauseSink, QueueAction::StopSink, QueueAction::SendUpdate(1isize)],
        ),
        code == 3 ==> command_of_code(code) == Some(PlayerCommand::SkipBackward) && command_step(
            q,
            PlayerCommand::SkipBackward,
        ) == (
            QueueView { ext_trigger: true, ..q },
            seq![QueueAction::PauseSink, QueueAction::StopSink, QueueAction::SendUpdate(-1isize)],
        ),
        code == 4 ==> command_of_code(code) == Some(PlayerCommand::Clear) && command_step(
            q,
            PlayerCommand::Clear,
        ) == (
            QueueView { songs: Seq::empty(), index: 0, up: false, ..q },
            seq![QueueAction::ClearSink],
        ),
        code == 5 ==> command_of_code(code) == Some(PlayerCommand::LoopSong) && command_step(
            q,
            PlayerCommand::LoopSong,
        ) == (QueueView { looping: true, ..q }, Seq::<QueueAction>::empty()),
        code == 6 ==> command_of_code(code) == Some(PlayerCommand::LoopStop) && command_step(
            q,
            PlayerCommand::LoopStop,
        ) == (QueueView { looping: false, ..q }, Seq::<QueueAction>::empty()),
        code > 6 ==> command_of_code(code) is None,
{
}

/// Skipping forward by the button moves the queue one song on once the
/// monitor takes the update it sent; skipping back moves one song back,
/// stopping at the first.
pub proof fn lemma_skip_buttons_move_by_one(q: QueueView)
    requires
        0 <= q.index < usize::MAX,
    ensures
        ({
            let (q2, actions) = command_step(q, command_of_code(2).unwrap());
            actions.last() == QueueAction::SendUpdate(1isize) && update_step(q2, 1).0.index == q.index + 1
        }),
        ({
            let (q3, actions) = command_step(q, command_of_code(3).unwrap());
            actions.last() == QueueAction::SendUpdate(-1isize) && update_step(q3, -1).0.index == if q.index
                == 0 {
                0
            } else {
                q.index - 1
            }
        }),
{
    lemma_command_codes(q, 2);
    lemma_command_codes(q, 3);
}

} // verus!
