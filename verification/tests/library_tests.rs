use clean_music::library::{is_playable_extension, numbering_fits, order_songs, SongFile, SongTags};
use clean_music::player::Player;
use clean_music::queue::QueueAction;

fn tagged(path: &str, album: Option<&str>, track: Option<u32>) -> SongFile {
    SongFile {
        path: path.to_string(),
        tags: Some(SongTags { album: album.map(|a| a.to_string()), track }),
    }
}

fn untagged(path: &str) -> SongFile {
    SongFile { path: path.to_string(), tags: None }
}

#[test]
fn albums_ordered_by_song_lists_and_tracks_by_number() {
    let files = vec![
        tagged("/m/x.mp3", Some("B"), Some(2)),
        tagged("/m/y.mp3", Some("B"), Some(1)),
        untagged("/m/z.mp3"),
        tagged("/m/a.mp3", Some("A"), None),
        tagged("/m/b.mp3", None, Some(3)),
    ];
    let order = order_songs(&files, 5);
    assert_eq!(order, vec!["/m/a.mp3", "/m/b.mp3", "/m/y.mp3", "/m/x.mp3", "/m/z.mp3"]);
}

#[test]
fn untracked_songs_numbered_after_entry_count() {
    // both untagged songs share the album "None"; they get 3 and 4, in
    // directory order, while the tagged one keeps its 4
    let files = vec![untagged("/d/q.mp3"), tagged("/d/p.mp3", Some("None"), Some(4)), untagged("/d/r.mp3")];
    let order = order_songs(&files, 2);
    assert_eq!(order, vec!["/d/q.mp3", "/d/p.mp3", "/d/r.mp3"]);
}

#[test]
fn equal_track_numbers_fall_back_to_path_order() {
    let files = vec![
        tagged("/d/c.mp3", Some("X"), Some(1)),
        tagged("/d/a.mp3", Some("X"), Some(1)),
        tagged("/d/b.mp3", Some("X"), Some(1)),
    ];
    assert_eq!(order_songs(&files, 3), vec!["/d/a.mp3", "/d/b.mp3", "/d/c.mp3"]);
}

#[test]
fn empty_directory_plays_nothing() {
    assert!(order_songs(&vec![], 0).is_empty());
}

#[test]
fn playable_extensions() {
    assert!(is_playable_extension("flac"));
    assert!(is_playable_extension("mp3"));
    assert!(is_playable_extension("wav"));
    assert!(is_playable_extension("ogg"));
    assert!(!is_playable_extension("MP3"));
    assert!(!is_playable_extension("txt"));
    assert!(!is_playable_extension(""));
}

#[test]
fn numbering_limit() {
    assert!(numbering_fits(&vec![untagged("a")], (u32::MAX - 1) as usize));
    assert!(!numbering_fits(&vec![untagged("a")], u32::MAX as usize));
    assert!(numbering_fits(&vec![tagged("a", None, Some(7))], u32::MAX as usize));
}

#[test]
fn play_dir_replaces_the_queue_with_the_directory() {
    let mut p = Player::new();
    p.queue_song("old".to_string());
    let files = vec![tagged("/m/2.mp3", Some("A"), Some(2)), tagged("/m/1.mp3", Some("A"), Some(1))];
    let actions = p.play_dir(files, 2);
    assert_eq!(actions, vec![QueueAction::ClearSink, QueueAction::SendUpdate(0)]);
    assert_eq!(p.queue().songs(), &vec!["/m/1.mp3".to_string(), "/m/2.mp3".to_string()]);
    let more = vec![untagged("/n/x.mp3")];
    p.queue_dir(more, 1);
    assert_eq!(p.queue().songs().len(), 3);
    assert_eq!(p.load_dir(vec![untagged("/k.mp3")], 0), vec!["/k.mp3".to_string()]);
}

#[test]
fn order_does_not_depend_on_listing_order_of_tagged_songs() {
    let a = vec![
        tagged("/m/3.mp3", Some("Y"), Some(1)),
        tagged("/m/1.mp3", Some("X"), Some(2)),
        tagged("/m/2.mp3", Some("X"), Some(1)),
        tagged("/m/0.mp3", Some("Z"), Some(9)),
    ];
    let b = vec![
        tagged("/m/0.mp3", Some("Z"), Some(9)),
        tagged("/m/2.mp3", Some("X"), Some(1)),
        tagged("/m/3.mp3", Some("Y"), Some(1)),
        tagged("/m/1.mp3", Some("X"), Some(2)),
    ];
    let first = order_songs(&a, 4);
    assert_eq!(first, order_songs(&b, 4));
    assert_eq!(first, vec!["/m/0.mp3", "/m/2.mp3", "/m/1.mp3", "/m/3.mp3"]);
}

#[test]
fn each_song_is_played_once() {
    let files = vec![
        tagged("/m/a.mp3", Some("X"), Some(1)),
        tagged("/m/b.mp3", Some("Y"), Some(1)),
        untagged("/m/c.mp3"),
        tagged("/m/d.mp3", Some("X"), Some(1)),
    ];
    let mut order = order_songs(&files, 4);
    assert_eq!(order.len(), 4);
    order.sort();
    order.dedup();
    assert_eq!(order.len(), 4);
}
