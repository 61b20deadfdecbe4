use clean_music::player::{Player, PlayerCommand};
use clean_music::queue::{Queue, QueueAction};

fn s(x: &str) -> String {
    x.to_string()
}

#[test]
fn new_queue_is_empty_and_triggered() {
    let q = Queue::new();
    assert!(q.songs().is_empty());
    assert_eq!(q.index(), 0);
    assert!(!q.is_up());
    assert!(!q.is_looping());
    assert!(q.is_externally_triggered());
}

#[test]
fn adding_to_idle_queue_sends_update_and_starts_first_song() {
    let mut q = Queue::new();
    let actions = q.add_songs(vec![s("/m/a.mp3"), s("/m/b.mp3")]);
    assert_eq!(actions, vec![QueueAction::SendUpdate(0)]);
    let started = q.on_index_update(0);
    assert_eq!(started, Some(s("/m/a.mp3")));
    assert!(q.is_up());
    assert!(!q.is_externally_triggered());
    // a second add while a song is up only appends
    let actions = q.add_songs(vec![s("/m/c.mp3")]);
    assert!(actions.is_empty());
    assert_eq!(q.songs().len(), 3);
}

#[test]
fn song_end_advances_and_runs_out() {
    let mut q = Queue::new();
    q.add_songs(vec![s("a"), s("b")]);
    q.on_index_update(0);
    assert_eq!(q.on_song_finished(), Some(s("b")));
    assert_eq!(q.index(), 1);
    assert_eq!(q.on_song_finished(), None);
    assert_eq!(q.index(), 2);
    assert!(!q.is_up());
    // adding now resumes with the new song
    let actions = q.add_songs(vec![s("c")]);
    assert_eq!(actions, vec![QueueAction::SendUpdate(0)]);
    assert_eq!(q.on_index_update(0), Some(s("c")));
}

#[test]
fn looping_replays_the_song() {
    let mut q = Queue::new();
    q.add_songs(vec![s("a"), s("b")]);
    q.on_index_update(0);
    q.loop_song();
    assert_eq!(q.on_song_finished(), Some(s("a")));
    assert_eq!(q.index(), 0);
    q.loop_stop();
    assert_eq!(q.on_song_finished(), Some(s("b")));
}

#[test]
fn skip_ignores_the_end_signal_and_moves_once() {
    let mut q = Queue::new();
    q.add_songs(vec![s("a"), s("b"), s("c")]);
    q.on_index_update(0);
    let actions = q.skip_forward();
    assert_eq!(
        actions,
        vec![QueueAction::PauseSink, QueueAction::StopSink, QueueAction::SendUpdate(1)]
    );
    assert_eq!(q.on_song_finished(), None);
    assert_eq!(q.index(), 0);
    assert_eq!(q.on_index_update(1), Some(s("b")));
    let actions = q.skip_backward();
    assert_eq!(actions[2], QueueAction::SendUpdate(-1));
    assert_eq!(q.on_index_update(-1), Some(s("a")));
    // back from the first song stays there
    q.skip_backward();
    assert_eq!(q.on_index_update(-1), Some(s("a")));
    assert_eq!(q.index(), 0);
}

#[test]
fn large_updates_saturate() {
    let mut q = Queue::new();
    q.add_songs(vec![s("a")]);
    assert_eq!(q.on_index_update(isize::MAX), None);
    assert_eq!(q.index(), isize::MAX as usize);
    assert_eq!(q.on_index_update(isize::MAX), None);
    assert_eq!(q.index(), usize::MAX - 1);
    assert_eq!(q.on_index_update(isize::MAX), None);
    assert_eq!(q.index(), usize::MAX);
    assert_eq!(q.on_index_update(isize::MIN), None);
    assert_eq!(q.index(), usize::MAX - (1usize << (usize::BITS - 1)));
    assert_eq!(q.on_index_update(isize::MIN), Some(s("a")));
    assert_eq!(q.index(), 0);
}

#[test]
fn clear_empties_the_queue() {
    let mut q = Queue::new();
    q.add_songs(vec![s("a"), s("b")]);
    q.on_index_update(1);
    assert_eq!(q.clear(), vec![QueueAction::ClearSink]);
    assert!(q.songs().is_empty());
    assert_eq!(q.index(), 0);
    assert!(!q.is_up());
}

#[test]
fn sink_only_operations() {
    let q = Queue::new();
    assert_eq!(q.pause(), vec![QueueAction::PauseSink]);
    assert_eq!(q.play(), vec![QueueAction::PlaySink]);
    assert_eq!(q.stop(), vec![QueueAction::StopSink]);
}

#[test]
fn command_codes() {
    assert_eq!(PlayerCommand::from_code(0), Some(PlayerCommand::Pause));
    assert_eq!(PlayerCommand::from_code(1), Some(PlayerCommand::Play));
    assert_eq!(PlayerCommand::from_code(2), Some(PlayerCommand::SkipForward));
    assert_eq!(PlayerCommand::from_code(3), Some(PlayerCommand::SkipBackward));
    assert_eq!(PlayerCommand::from_code(4), Some(PlayerCommand::Clear));
    assert_eq!(PlayerCommand::from_code(5), Some(PlayerCommand::LoopSong));
    assert_eq!(PlayerCommand::from_code(6), Some(PlayerCommand::LoopStop));
    assert_eq!(PlayerCommand::from_code(7), None);
}

#[test]
fn send_command_drives_the_queue() {
    let mut p = Player::new();
    p.queue_song(s("a"));
    p.queue_mut().on_index_update(0);
    assert_eq!(p.send_command(5), Some(vec![]));
    assert!(p.queue().is_looping());
    assert_eq!(p.send_command(6), Some(vec![]));
    assert!(!p.queue().is_looping());
    assert_eq!(p.send_command(0), Some(vec![QueueAction::PauseSink]));
    assert_eq!(p.send_command(1), Some(vec![QueueAction::PlaySink]));
    assert_eq!(p.send_command(99), None);
    assert_eq!(p.send_command(4), Some(vec![QueueAction::ClearSink]));
    assert!(p.queue().songs().is_empty());
}

#[test]
fn play_song_replaces_the_queue() {
    let mut p = Player::new();
    p.queue_song(s("a"));
    p.queue_mut().on_index_update(0);
    let actions = p.play_song(s("z"));
    assert_eq!(actions, vec![QueueAction::ClearSink, QueueAction::SendUpdate(0)]);
    assert_eq!(p.queue().songs(), &vec![s("z")]);
    assert_eq!(p.queue_mut().on_index_update(0), Some(s("z")));
    assert_eq!(p.load_song(s("q")), vec![s("q")]);
}

#[test]
fn handled_messages_leave_the_queue_settled() {
    let mut q = Queue::new();
    q.invariant_holds();
    let settled = |q: &Queue| q.is_up() == (q.index() < q.songs().len());
    assert!(settled(&q));
    q.add_songs(vec![s("a"), s("b")]);
    q.on_index_update(0);
    assert!(settled(&q));
    q.skip_forward();
    q.on_song_finished();
    q.on_index_update(1);
    assert!(settled(&q));
    q.on_song_finished();
    assert!(settled(&q));
    assert!(!q.is_up());
    q.add_songs(vec![s("c")]);
    q.on_index_update(0);
    assert!(settled(&q));
    assert!(q.is_up());
    q.clear();
    assert!(settled(&q));
}
