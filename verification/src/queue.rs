//! The play queue: the list of songs, the position in it, and the flags that
//! decide what the playback monitor does when a song ends or when the user
//! skips.
//!
//! The queue holds no audio device and no thread. Each operation changes the
//! queue's state and hands back the actions that the caller performs on the
//! audio sink, in order; the monitor's two events (a song ran out, an index
//! update arrived) hand back the song to start, if any.
use vstd::prelude::*;

verus! {

/// Something the audio side has to do after a queue operation.
#[derive(Clone, Copy, Debug, PartialEq, Eq, Structural)]
pub enum QueueAction {
    /// Pause the sink.
    PauseSink,
    /// Resume the sink.
    PlaySink,
    /// Stop the sink (drops what is playing).
    StopSink,
    /// Clear the sink.
    ClearSink,
    /// Hand this index increment to the playback monitor.
    SendUpdate(isize),
}

/// The mathematical state of a queue.
pub struct QueueView {
    pub songs: Seq<Seq<char>>,
    pub index: int,
    pub up: bool,
    pub looping: bool,
    pub ext_trigger: bool,
}

/// The texts of a sequence of strings.
pub open spec fn texts(v: Seq<String>) -> Seq<Seq<char>> {
    v.map_values(|s: String| s@)
}

/// The text of an optional string.
pub open spec fn opt_text(o: Option<String>) -> Option<Seq<char>> {
    match o {
        Some(s) => Some(s@),
        None => None,
    }
}

/// What every reachable queue satisfies: while a song is up, the index
/// points into the queue.
pub open spec fn queue_inv(q: QueueView) -> bool {
    &&& 0 <= q.index <= usize::MAX
    &&& q.up ==> q.index < q.songs.len()
}

/// The queue moved to `index`: the song there is started if there is one,
/// and `up` says whether there was.
pub open spec fn start_at(q: QueueView, index: int) -> (QueueView, Option<Seq<char>>) {
    if 0 <= index < q.songs.len() {
        (QueueView { index, up: true, ..q }, Some(q.songs[index]))
    } else {
        (QueueView { index, up: false, ..q }, None)
    }
}

/// The monitor's answer when the playing song ran out: ignored while an
/// outside trigger is pending; otherwise the next song (the same one while
/// looping) is started.
pub open spec fn finished_step(q: QueueView) -> (QueueView, Option<Seq<char>>) {
    if q.ext_trigger {
        (q, None)
    } else if q.looping {
        start_at(q, q.index)
    } else {
        start_at(q, q.index + 1)
    }
}

/// The index after an update by `increment`, saturating at both ends.
pub open spec fn moved_index(index: int, increment: int) -> int {
    if increment > 0 {
        if index + increment > usize::MAX {
            usize::MAX as int
        } else {
            index + increment
        }
    } else if increment < 0 {
        if index + increment < 0 {
            0
        } else {
            index + increment
        }
    } else {
        index
    }
}

/// The monitor's answer to an index update: the outside trigger is
/// consumed, the index moves, and the song there is started if there is one.
pub open spec fn update_step(q: QueueView, increment: int) -> (QueueView, Option<Seq<char>>) {
    start_at(QueueView { ext_trigger: false, ..q }, moved_index(q.index, increment))
}

/// The queue after `clear`.
pub open spec fn cleared(q: QueueView) -> QueueView {
    QueueView { songs: Seq::empty(), index: 0, up: false, ..q }
}

/// The queue after `add_songs`: the songs are appended, and when nothing is
/// up an outside trigger is set (an update by 0 is then sent).
pub open spec fn added(q: QueueView, new_songs: Seq<Seq<char>>) -> QueueView {
    if q.up {
        QueueView { songs: q.songs + new_songs, ..q }
    } else {
        QueueView { songs: q.songs + new_songs, ext_trigger: true, ..q }
    }
}

/// The actions of `add_songs`.
pub open spec fn added_actions(q: QueueView) -> Seq<QueueAction> {
    if q.up {
        Seq::empty()
    } else {
        seq![QueueAction::SendUpdate(0)]
    }
}

/// The queue after a skip in either direction.
pub open spec fn skipped(q: QueueView) -> QueueView {
    QueueView { ext_trigger: true, ..q }
}

/// The actions of a skip by `increment`.
pub open spec fn skip_actions(increment: isize) -> Seq<QueueAction> {
    seq![QueueAction::PauseSink, QueueAction::StopSink, QueueAction::SendUpdate(increment)]
}

/// The monitor's `+= 1` on the index must not overflow.
pub open spec fn finished_step_fits(q: QueueView) -> bool {
    !q.ext_trigger && !q.looping ==> q.index < usize::MAX
}

/// The play queue.
pub struct Queue {
    songs: Vec<String>,
    index: usize,
    up: bool,
    looping: bool,
    ext_trigger: bool,
}

impl View for Queue {
    type V = QueueView;

    closed spec fn view(&self) -> QueueView {
        QueueView {
            songs: texts(self.songs@),
            index: self.index as int,
            up: self.up,
            looping: self.looping,
            ext_trigger: self.ext_trigger,
        }
    }
}

impl Queue {
    #[verifier::type_invariant]
    closed spec fn well_formed(self) -> bool {
        self.up ==> self.index < self.songs.len()
    }

    /// An empty queue, at index 0, with nothing up, not looping, and with an
    /// outside trigger pending.
    pub fn new() -> (q: Queue)
        ensures
            queue_inv(q@),
            q@ == (QueueView {
                songs: Seq::empty(),
                index: 0,
                up: false,
                looping: false,
                ext_trigger: true,
            }),
    {
        let q = Queue {
            songs: Vec::new(),
            index: 0,
            up: false,
            looping: false,
            ext_trigger: true,
        };
        assert(texts(q.songs@) =~= Seq::empty());
        q
    }

    /// The songs of the queue.
    pub fn songs(&self) -> (s: &Vec<String>)
        ensures
            texts(s@) == self@.songs,
    {
        &self.songs
    }

    /// The position in the queue.
    pub fn index(&self) -> (i: usize)
        ensures
            i == self@.index,
    {
        self.index
    }

    /// Whether a song is up.
    pub fn is_up(&self) -> (b: bool)
        ensures
            b == self@.up,
    {
        self.up
    }

    /// Whether the current song repeats.
    pub fn is_looping(&self) -> (b: bool)
        ensures
            b == self@.looping,
    {
        self.looping
    }

    /// Every queue satisfies `queue_inv`; calling this gives a caller that
    /// fact for `self` (it does nothing at run time).
    pub fn invariant_holds(&self)
        ensures
            queue_inv(self@),
    {
        proof {
            use_type_invariant(self);
        }
    }

    /// Whether an outside trigger is pending.
    pub fn is_externally_triggered(&self) -> (b: bool)
        ensures
            b == self@.ext_trigger,
    {
        self.ext_trigger
    }

    /// Empties the queue and clears the sink.
    pub fn clear(&mut self) -> (actions: Vec<QueueAction>)
        ensures
            queue_inv(final(self)@),
            final(self)@ == cleared(old(self)@),
            actions@ == seq![QueueAction::ClearSink],
    {
        proof {
            use_type_invariant(&*self);
        }
        self.up = false;
        self.index = 0;
        self.songs = Vec::new();
        proof {
            assert(texts(self.songs@) =~= Seq::empty());
        }
        let mut actions: Vec<QueueAction> = Vec::new();
        actions.push(QueueAction::ClearSink);
        actions
    }

    /// Stops the sink.
    pub fn stop(&self) -> (actions: Vec<QueueAction>)
        ensures
            actions@ == seq![QueueAction::StopSink],
    {
        let mut actions: Vec<QueueAction> = Vec::new();
        actions.push(QueueAction::StopSink);
        actions
    }

    /// Appends `songs`; when nothing is up, sets the outside trigger and
    /// asks the monitor to start the song at the current index.
    pub fn add_songs(&mut self, songs: Vec<String>) -> (actions: Vec<QueueAction>)
        ensures
            queue_inv(final(self)@),
            final(self)@ == added(old(self)@, texts(songs@)),
            actions@ == added_actions(old(self)@),
    {
        proof {
            use_type_invariant(&*self);
        }
        let ghost old_songs = self.songs@;
        let mut songs = songs;
        let ghost new_songs = songs@;
        // The list is taken out while `up` is cleared, so that the queue is
        // well formed at every step; `up` is then restored.
        let was_up = self.up;
        self.up = false;
        let mut all: Vec<String> = Vec::new();
        std::mem::swap(&mut all, &mut self.songs);
        all.append(&mut songs);
        self.songs = all;
        self.up = was_up;
        proof {
            assert(texts(old_songs + new_songs) =~= texts(old_songs) + texts(new_songs));
        }
        let mut actions: Vec<QueueAction> = Vec::new();
        if !self.up {
            self.ext_trigger = true;
            actions.push(QueueAction::SendUpdate(0));
        }
        actions
    }

    /// Pauses the sink.
    pub fn pause(&self) -> (actions: Vec<QueueAction>)
        ensures
            actions@ == seq![QueueAction::PauseSink],
    {
        let mut actions: Vec<QueueAction> = Vec::new();
        actions.push(QueueAction::PauseSink);
        actions
    }

    /// Resumes the sink.
    pub fn play(&self) -> (actions: Vec<QueueAction>)
        ensures
            actions@ == seq![QueueAction::PlaySink],
    {
        let mut actions: Vec<QueueAction> = Vec::new();
        actions.push(QueueAction::PlaySink);
        actions
    }

    fn skip(&mut self, increment: isize) -> (actions: Vec<QueueAction>)
        ensures
            queue_inv(final(self)@),
            final(self)@ == skipped(old(self)@),
            actions@ == skip_actions(increment),
    {
        proof {
            use_type_invariant(&*self);
        }
        self.ext_trigger = true;
        let mut actions: Vec<QueueAction> = Vec::new();
        actions.push(QueueAction::PauseSink);
        actions.push(QueueAction::StopSink);
        actions.push(QueueAction::SendUpdate(increment));
        actions
    }

    /// Pauses, sets the outside trigger, stops, and asks the monitor to move
    /// one song forward.
    pub fn skip_forward(&mut self) -> (actions: Vec<QueueAction>)
        ensures
            queue_inv(final(self)@),
            final(self)@ == skipped(old(self)@),
            actions@ == skip_actions(1isize),
    {
        proof {
            use_type_invariant(&*self);
        }
        self.skip(1)
    }

    /// Pauses, sets the outside trigger, stops, and asks the monitor to move
    /// one song back.
    pub fn skip_backward(&mut self) -> (actions: Vec<QueueAction>)
        ensures
            queue_inv(final(self)@),
            final(self)@ == skipped(old(self)@),
            actions@ == skip_actions(-1isize),
    {
        proof {
            use_type_invariant(&*self);
        }
        self.skip(-1)
    }

    /// The current song repeats from now on.
    pub fn loop_song(&mut self)
        ensures
            queue_inv(final(self)@),
            final(self)@ == (QueueView { looping: true, ..old(self)@ }),
    {
        proof {
            use_type_invariant(&*self);
        }
        self.looping = true;
    }

    /// The queue moves on after each song from now on.
    pub fn loop_stop(&mut self)
        ensures
            queue_inv(final(self)@),
            final(self)@ == (QueueView { looping: false, ..old(self)@ }),
    {
        proof {
            use_type_invariant(&*self);
        }
        self.looping = false;
    }

    fn start_at_index(&mut self, index: usize) -> (song: Option<String>)
        ensures
            queue_inv(final(self)@),
            (final(self)@, opt_text(song)) == start_at(old(self)@, index as int),
    {
        proof {
            use_type_invariant(&*self);
        }
        if index < self.songs.len() {
            let song = self.songs[index].clone();
            self.index = index;
            self.up = true;
            Some(song)
        } else {
            self.up = false;
            self.index = index;
            None
        }
    }

    /// The monitor's step when the playing song ran out: returns the song to
    /// start, if any.
    pub fn on_song_finished(&mut self) -> (song: Option<String>)
        requires
            finished_step_fits(old(self)@),
        ensures
            queue_inv(final(self)@),
            (final(self)@, opt_text(song)) == finished_step(old(self)@),
    {
        proof {
            use_type_invariant(&*self);
        }
        if self.ext_trigger {
            None
        } else if self.looping {
            let i = self.index;
            self.start_at_index(i)
        } else {
            let i = self.index + 1;
            self.start_at_index(i)
        }
    }

    /// The monitor's step on an index update by `increment`: returns the
    /// song to start, if any.
    pub fn on_index_update(&mut self, increment: isize) -> (song: Option<String>)
        ensures
            queue_inv(final(self)@),
            (final(self)@, opt_text(song)) == update_step(old(self)@, increment as int),
    {
        proof {
            use_type_invariant(&*self);
        }
        self.ext_trigger = false;
        let new_index: usize = if increment > 0 {
            self.index.saturating_add(increment as usize)
        } else if increment < 0 {
            let magnitude: usize = ((-(increment + 1)) as usize) + 1;
            self.index.saturating_sub(magnitude)
        } else {
            self.index
        };
        self.start_at_index(new_index)
    }
}

/// Every queue operation and monitor step keeps `queue_inv`: while a song
/// is up, the index points into the queue.
pub proof fn lemma_steps_keep_inv(q: QueueView, new_songs: Seq<Seq<char>>, increment: int)
    requires
        queue_inv(q),
    ensures
        queue_inv(cleared(q)),
        queue_inv(added(q, new_songs)),
        queue_inv(skipped(q)),
        queue_inv(QueueView { looping: true, ..q }),
        queue_inv(QueueView { looping: false, ..q }),
        finished_step_fits(q) ==> queue_inv(finished_step(q).0),
        queue_inv(update_step(q, increment).0),
{
}

/// While looping, the end of the song that is up starts the same song again,
/// at the same index.
pub proof fn lemma_loop_replays(q: QueueView)
    requires
        queue_inv(q),
        q.looping,
        !q.ext_trigger,
        q.up,
    ensures
        finished_step(q) == (q, Some(q.songs[q.index])),
{
    assert(QueueView { index: q.index, up: true, ..q } == q);
}

/// Without looping, the end of a song starts the next one; after the last
/// one nothing is up.
pub proof fn lemma_song_end_advances(q: QueueView)
    requires
        queue_inv(q),
        !q.looping,
        !q.ext_trigger,
        finished_step_fits(q),
    ensures
        finished_step(q).0.index == q.index + 1,
        q.index + 1 < q.songs.len() ==> finished_step(q).1 == Some(q.songs[q.index + 1])
            && finished_step(q).0.up,
        q.index + 1 >= q.songs.len() ==> finished_step(q).1 is None && !finished_step(q).0.up,
{
}

/// A skip sets the outside trigger, so the end signal that stopping the sink
/// causes is ignored: when it comes before the skip's update, the update
/// alone moves the queue, by one song.
pub proof fn lemma_skip_moves_once(q: QueueView, increment: isize)
    requires
        queue_inv(q),
    ensures
        finished_step(skipped(q)) == (skipped(q), None::<Seq<char>>),
        update_step(finished_step(skipped(q)).0, increment as int).0.index == moved_index(
            q.index,
            increment as int,
        ),
{
}

/// Skipping forward and then back returns to the same index, short of the
/// largest index.
pub proof fn lemma_skip_back_undoes_forward(q: QueueView)
    requires
        queue_inv(q),
        q.index < usize::MAX,
    ensures
        update_step(update_step(skipped(q), 1).0, -1).0.index == q.index,
        update_step(update_step(skipped(q), 1).0, -1).1 == start_at(q, q.index).1,
{
}

/// Skipping back from the first song stays at the first song.
pub proof fn lemma_skip_back_stops_at_first(q: QueueView)
    requires
        queue_inv(q),
        q.index == 0,
    ensures
        update_step(skipped(q), -1).0.index == 0,
{
}

/// When the queue ran out (nothing up, the index just past the end), adding
/// songs starts the first of them.
pub proof fn lemma_add_resumes(q: QueueView, new_songs: Seq<Seq<char>>)
    requires
        queue_inv(q),
        !q.up,
        q.index == q.songs.len(),
        new_songs.len() > 0,
    ensures
        added_actions(q) == seq![QueueAction::SendUpdate(0)],
        update_step(added(q, new_songs), 0) == (
            QueueView { songs: q.songs + new_songs, up: true, ext_trigger: false, ..q },
            Some(new_songs[0]),
        ),
{
    assert((q.songs + new_songs)[q.index] == new_songs[0]);
}

/// The song end signal is ignored while an outside trigger is pending.
pub proof fn lemma_trigger_ignores_song_end(q: QueueView)
    requires
        q.ext_trigger,
    ensures
        finished_step(q) == (q, None::<Seq<char>>),
{
}

/// A song is up exactly when the index points into the queue.
pub open spec fn settled(q: QueueView) -> bool {
    q.up <==> (0 <= q.index < q.songs.len())
}

/// Once every message is handled, a song is up exactly when the index
/// points into the queue: a new queue is settled; every monitor step
/// settles the queue; every operation keeps a settled queue settled, except
/// `add_songs` while nothing is up, which sends an update whose handling
/// (an update step) settles it again.
pub proof fn lemma_handled_messages_settle(q: QueueView, new_songs: Seq<Seq<char>>, increment: int)
    ensures
        settled(
            QueueView {
                songs: Seq::empty(),
                index: 0,
                up: false,
                looping: false,
                ext_trigger: true,
            },
        ),
        settled(update_step(q, increment).0),
        !q.ext_trigger ==> settled(finished_step(q).0),
        settled(q) ==> settled(finished_step(q).0),
        settled(cleared(q)),
        settled(q) && q.up ==> settled(added(q, new_songs)) && added_actions(q) == Seq::<
            QueueAction,
        >::empty(),
        !q.up ==> added_actions(q) == seq![QueueAction::SendUpdate(0)],
        settled(q) ==> settled(skipped(q)),
        settled(q) ==> settled(QueueView { looping: true, ..q }),
        settled(q) ==> settled(QueueView { looping: false, ..q }),
{
}

/// Something that happens to a playing queue: a user operation, or a
/// message that reaches the playback monitor.
pub enum QueueEvent {
    Clear,
    Add(Seq<Seq<char>>),
    SkipForward,
    SkipBackward,
    LoopSong,
    LoopStop,
    /// Pause, play or stop: only the sink is told.
    SinkOnly,
    /// The sink ran out of what it was playing.
    SongEnded,
    /// The monitor takes the oldest update waiting in its channel.
    HandleUpdate,
}

/// A queue together with the updates sent to the monitor and not yet
/// handled, oldest first.
pub struct Playback {
    pub queue: QueueView,
    pub pending: Seq<int>,
}

/// A new queue with nothing sent yet.
pub open spec fn initial_playback() -> Playback {
    Playback {
        queue: QueueView {
            songs: Seq::empty(),
            index: 0,
            up: false,
            looping: false,
            ext_trigger: true,
        },
        pending: Seq::empty(),
    }
}

/// The effect of one event, by the queue's operations and monitor steps;
/// the updates that an operation sends join the end of the channel.
pub open spec fn playback_step(p: Playback, e: QueueEvent) -> Playback {
    match e {
        QueueEvent::Clear => Playback { queue: cleared(p.queue), ..p },
        QueueEvent::Add(songs) => Playback {
            queue: added(p.queue, songs),
            pending: if p.queue.up {
                p.pending
            } else {
                p.pending.push(0)
            },
        },
        QueueEvent::SkipForward => Playback { queue: skipped(p.queue), pending: p.pending.push(1) },
        QueueEvent::SkipBackward => Playback {
            queue: skipped(p.queue),
            pending: p.pending.push(-1),
        },
        QueueEvent::LoopSong => Playback { queue: QueueView { looping: true, ..p.queue }, ..p },
        QueueEvent::LoopStop => Playback { queue: QueueView { looping: false, ..p.queue }, ..p },
        QueueEvent::SinkOnly => p,
        QueueEvent::SongEnded => Playback { queue: finished_step(p.queue).0, ..p },
        QueueEvent::HandleUpdate => if p.pending.len() == 0 {
            p
        } else {
            Playback { queue: update_step(p.queue, p.pending[0]).0, pending: p.pending.drop_first() }
        },
    }
}

/// The playback after `events`, in order.
pub open spec fn run_events(p: Playback, events: Seq<QueueEvent>) -> Playback
    decreases events.len(),
{
    if events.len() == 0 {
        p
    } else {
        run_events(playback_step(p, events[0]), events.drop_first())
    }
}

/// What holds of every playback reached from a new queue: the queue is
/// settled unless an update is on its way (and then nothing is up and the
/// outside trigger is set), and the trigger is set only while an update is
/// on its way or nothing is up.
pub open spec fn playback_inv(p: Playback) -> bool {
    &&& settled(p.queue) || (p.queue.ext_trigger && !p.queue.up && p.pending.len() > 0)
    &&& p.queue.ext_trigger ==> (p.pending.len() > 0 || !p.queue.up)
}

proof fn lemma_step_keeps_playback_inv(p: Playback, e: QueueEvent)
    requires
        playback_inv(p),
    ensures
        playback_inv(playback_step(p, e)),
{
    lemma_handled_messages_settle(p.queue, Seq::empty(), 0);
    match e {
        QueueEvent::Add(songs) => {
            lemma_handled_messages_settle(p.queue, songs, 0);
        },
        QueueEvent::HandleUpdate => {
            if p.pending.len() > 0 {
                lemma_handled_messages_settle(p.queue, Seq::empty(), p.pending[0]);
            }
        },
        _ => {},
    }
}

proof fn lemma_run_keeps_playback_inv(p: Playback, events: Seq<QueueEvent>)
    requires
        playback_inv(p),
    ensures
        playback_inv(run_events(p, events)),
    decreases events.len(),
{
    if events.len() > 0 {
        lemma_step_keeps_playback_inv(p, events[0]);
        lemma_run_keeps_playback_inv(playback_step(p, events[0]), events.drop_first());
    }
}

/// After any run of operations and monitor steps from a new queue, once
/// every sent update is handled, a song is up exactly when the index points
/// into the queue; and the outside trigger is then set only while nothing
/// is up.
pub proof fn lemma_run_settles(events: Seq<QueueEvent>)
    ensures
        playback_inv(run_events(initial_playback(), events)),
        run_events(initial_playback(), events).pending.len() == 0 ==> settled(
            run_events(initial_playback(), events).queue,
        ),
        run_events(initial_playback(), events).pending.len() == 0 && run_events(
            initial_playback(),
            events,
        ).queue.up ==> !run_events(initial_playback(), events).queue.ext_trigger,
{
    lemma_run_keeps_playback_inv(initial_playback(), events);
}

/// In a playback reached from a new queue, when no update is on its way and
/// a song is up, the end of that song moves to the next index (the same
/// one while looping) and starts the song there, if any; the songs stay.
pub proof fn lemma_song_end_with_nothing_pending(events: Seq<QueueEvent>)
    ensures
        ({
            let p = run_events(initial_playback(), events);
            p.pending.len() == 0 && p.queue.up ==> finished_step(p.queue) == start_at(
                p.queue,
                if p.queue.looping {
                    p.queue.index
                } else {
                    p.queue.index + 1
                },
            ) && finished_step(p.queue).0.songs == p.queue.songs
        }),
{
    lemma_run_settles(events);
}

/// Only song ends in `events`.
pub open spec fn only_song_ends(events: Seq<QueueEvent>) -> bool {
    forall|i: int| 0 <= i < events.len() ==> #[trigger] events[i] == QueueEvent::SongEnded
}

proof fn lemma_song_ends_change_nothing(p: Playback, events: Seq<QueueEvent>)
    requires
        p.queue.ext_trigger,
        only_song_ends(events),
    ensures
        run_events(p, events) == p,
    decreases events.len(),
{
    if events.len() > 0 {
        assert(events[0] == QueueEvent::SongEnded);
        assert(only_song_ends(events.drop_first())) by {
            assert forall|i: int| 0 <= i < events.drop_first().len() implies #[trigger] events.drop_first()[i]
                == QueueEvent::SongEnded by {
                assert(events.drop_first()[i] == events[i + 1]);
            }
        }
        lemma_song_ends_change_nothing(p, events.drop_first());
    }
}

/// After a skip, or an add while nothing is up, song ends change nothing
/// until the monitor handles an update.
pub proof fn lemma_song_ends_wait_for_update(p: Playback, songs: Seq<Seq<char>>, ends: Seq<QueueEvent>)
    requires
        only_song_ends(ends),
    ensures
        run_events(playback_step(p, QueueEvent::SkipForward), ends) == playback_step(
            p,
            QueueEvent::SkipForward,
        ),
        run_events(playback_step(p, QueueEvent::SkipBackward), ends) == playback_step(
            p,
            QueueEvent::SkipBackward,
        ),
        !p.queue.up ==> run_events(playback_step(p, QueueEvent::Add(songs)), ends) == playback_step(
            p,
            QueueEvent::Add(songs),
        ),
{
    lemma_song_ends_change_nothing(playback_step(p, QueueEvent::SkipForward), ends);
    lemma_song_ends_change_nothing(playback_step(p, QueueEvent::SkipBackward), ends);
    if !p.queue.up {
        lemma_song_ends_change_nothing(playback_step(p, QueueEvent::Add(songs)), ends);
    }
}

/// Looping, once set, stays set through any events but `LoopStop`.
pub proof fn lemma_looping_persists(p: Playback, events: Seq<QueueEvent>)
    requires
        p.queue.looping,
        forall|i: int| 0 <= i < events.len() ==> #[trigger] events[i] != QueueEvent::LoopStop,
    ensures
        run_events(p, events).queue.looping,
    decreases events.len(),
{
    if events.len() > 0 {
        assert(events[0] != QueueEvent::LoopStop);
        assert forall|i: int| 0 <= i < events.drop_first().len() implies #[trigger] events.drop_first()[i]
            != QueueEvent::LoopStop by {
            assert(events.drop_first()[i] == events[i + 1]);
        }
        lemma_looping_persists(playback_step(p, events[0]), events.drop_first());
    }
}

/// Appending songs keeps the index and leaves the song that is up alone;
/// where nothing is up, the update by 0 it sends starts the song at the
/// index, if the queue now reaches it.
pub proof fn lemma_add_keeps_position(q: QueueView, songs: Seq<Seq<char>>)
    requires
        queue_inv(q),
    ensures
        added(q, songs).index == q.index,
        added(q, songs).songs == q.songs + songs,
        q.up ==> added(q, songs).up && added_actions(q) == Seq::<QueueAction>::empty() && added(
            q,
            songs,
        ).songs[q.index] == q.songs[q.index],
        !q.up ==> added_actions(q) == seq![QueueAction::SendUpdate(0)] && update_step(
            added(q, songs),
            0,
        ).0.index == q.index && (update_step(added(q, songs), 0).1 == if q.index < q.songs.len()
            + songs.len() {
            Some((q.songs + songs)[q.index])
        } else {
            None::<Seq<char>>
        }),
{
}

} // verus!
