use clean_music::paths::same_path;
use std::path::Path;
use clean_music::browser::{directory_button, is_listed, pull_paths, FolderEntry};
use clean_music::desktop::{identified, stored_song_path, SinkCommand};
use clean_music::song_cache::{
    plan_card, song_title, thumbnail_base_name, thumbnail_extension, CardTags, Song, SongCache,
    Thumbnail,
};
use clean_music::song_determiner::decode_all;
use clean_music::text::{text_contains, text_eq, text_less};
use clean_music::{remove_whites, MessageWindow};

fn entry(path: &str, is_dir: bool, ext: Option<&str>) -> FolderEntry {
    FolderEntry { path: path.to_string(), is_dir, extension: ext.map(|e| e.to_string()) }
}

#[test]
fn folder_listing() {
    assert!(is_listed(&entry("/m/x", true, None)));
    assert!(is_listed(&entry("/m/a.mp3", false, Some("mp3"))));
    assert!(is_listed(&entry("/m/a.ogg", false, Some("ogg"))));
    assert!(!is_listed(&entry("/m/a.txt", false, Some("txt"))));
    assert!(!is_listed(&entry("/m/README", false, None)));
    // the extension only has to occur in "mp3wavflacogg"
    assert!(is_listed(&entry("/m/a.3w", false, Some("3w"))));
    assert!(is_listed(&entry("/m/a.", false, Some(""))));
    let buttons = pull_paths(vec![
        entry("/m/Album", true, None),
        entry("/m/notes.txt", false, Some("txt")),
        entry("/m/song.flac", false, Some("flac")),
    ]);
    assert_eq!(buttons.len(), 2);
    assert_eq!(buttons[0].id, "/m/Album");
    assert_eq!(buttons[0].text, "Album");
    assert_eq!(buttons[0].class, "LeftDirectoryButton");
    assert_eq!(buttons[1].text, "song.flac");
    assert_eq!(directory_button("plain".to_string()).text, "plain");
    assert_eq!(directory_button("a/b/".to_string()).text, "");
}

#[test]
fn song_cache_read_after_write() {
    let mut cache = SongCache::new();
    let song = Song { path: "/m/a.mp3".into(), title: "A".into(), thumbnail: "/t/a.png".into() };
    assert!(cache.lookup("/m/a.mp3").is_none());
    cache.insert("/m/a.mp3".into(), song);
    assert_eq!(cache.lookup("/m/a.mp3").unwrap().title, "A");
    cache.insert(
        "/m/a.mp3".into(),
        Song { path: "/m/a.mp3".into(), title: "A2".into(), thumbnail: "t".into() },
    );
    assert_eq!(cache.lookup("/m/a.mp3").unwrap().title, "A2");
    assert_eq!(cache.entries().len(), 1);
    assert!(cache.lookup("/m/b.mp3").is_none());
    let loaded = SongCache::from_entries(vec![
        ("x".into(), Song { path: "x".into(), title: "1".into(), thumbnail: "".into() }),
        ("x".into(), Song { path: "x".into(), title: "2".into(), thumbnail: "".into() }),
    ]);
    assert_eq!(loaded.lookup("x").unwrap().title, "2");
}

#[test]
fn card_decisions() {
    assert_eq!(thumbnail_extension("image/png"), "png");
    assert_eq!(thumbnail_extension("image/jpeg"), "jpg");
    assert_eq!(thumbnail_extension("image/jpg"), "jpg");
    assert_eq!(thumbnail_extension("image/gif"), "bin");
    assert_eq!(thumbnail_base_name("AC/DC \\ Live"), "ACDC  Live");
    assert_eq!(song_title(None, "f.mp3".into()), "f.mp3");
    assert_eq!(song_title(Some("T".into()), "f.mp3".into()), "T");
    let (title, thumb) = plan_card(None, "f.mp3".into());
    assert_eq!(title, "f.mp3");
    assert!(matches!(thumb, Thumbnail::Default));
    let (title, thumb) = plan_card(
        Some(CardTags { title: Some("A/B".into()), picture_mime: Some("image/png".into()) }),
        "f.mp3".into(),
    );
    assert_eq!(title, "A/B");
    match thumb {
        Thumbnail::Picture { base_name, extension } => {
            assert_eq!(base_name, "AB");
            assert_eq!(extension, "png");
        }
        Thumbnail::Default => panic!("expected a picture"),
    }
    let (title, thumb) =
        plan_card(Some(CardTags { title: None, picture_mime: None }), "g.mp3".into());
    assert_eq!(title, "g.mp3");
    assert!(matches!(thumb, Thumbnail::Default));
}

#[test]
fn desktop_window_logic() {
    assert_eq!(SinkCommand::from_code(0), Some(SinkCommand::Pause));
    assert_eq!(SinkCommand::from_code(1), Some(SinkCommand::Play));
    assert_eq!(SinkCommand::from_code(2), Some(SinkCommand::SkipOne));
    assert_eq!(SinkCommand::from_code(3), Some(SinkCommand::Clear));
    assert_eq!(SinkCommand::from_code(4), None);
    assert_eq!(stored_song_path("AC/DC"), "./Stored_Songs/ACDC.mp3");
    assert_eq!(stored_song_path("a\\b"), "./Stored_Songs/a\\b.mp3");
    assert!(!identified("Unknown"));
    assert!(identified("Song"));
    assert_eq!(MessageWindow::new("hi".into()).message(), "hi");
}

#[test]
fn remove_whites_drops_unicode_white_space() {
    assert_eq!(remove_whites(" a\tb\nc \u{00A0}d\u{3000}e\u{2009}".to_string()), "abcde");
    assert_eq!(remove_whites("".to_string()), "");
    assert_eq!(remove_whites("x\u{200B}y".to_string()), "x\u{200B}y");
}

#[test]
fn decode_all_is_all_or_nothing() {
    let ok: Vec<Result<u8, String>> = vec![Ok(1), Ok(2)];
    assert_eq!(decode_all(ok), Some(vec![1, 2]));
    let bad: Vec<Result<u8, String>> = vec![Ok(1), Err("x".into()), Ok(3)];
    assert_eq!(decode_all(bad), None);
    let none: Vec<Result<u8, String>> = vec![];
    assert_eq!(decode_all(none), Some(vec![]));
}

#[test]
fn text_order_and_search() {
    assert!(text_less("a", "b"));
    assert!(text_less("a", "ab"));
    assert!(!text_less("ab", "ab"));
    assert!(text_less("Z", "a"));
    assert!(text_less("z", "é"));
    assert!(text_eq("é", "é"));
    assert!(!text_eq("a", "ab"));
    assert!(text_contains("mp3wavflacogg", "flac"));
    assert!(!text_contains("mp3", "mp3x"));
    assert!(text_contains("", ""));
}

#[test]
fn song_cache_compares_paths_by_components() {
    let mut cache = SongCache::new();
    cache.insert(
        "/m/a.mp3".into(),
        Song { path: "/m/a.mp3".into(), title: "A".into(), thumbnail: "t".into() },
    );
    assert_eq!(cache.lookup("/m/./a.mp3").unwrap().title, "A");
    assert_eq!(cache.lookup("//m//a.mp3/").unwrap().title, "A");
    assert!(cache.lookup("m/a.mp3").is_none());
    assert!(cache.lookup("/m/b/../a.mp3").is_none());
    cache.insert(
        "/m/./a.mp3".into(),
        Song { path: "/m/./a.mp3".into(), title: "B".into(), thumbnail: "t".into() },
    );
    // the entry keeps its first path and takes the new song
    assert_eq!(cache.entries().len(), 1);
    assert_eq!(cache.entries()[0].0, "/m/a.mp3");
    assert_eq!(cache.lookup("/m/a.mp3").unwrap().title, "B");
}

#[test]
fn path_components() {
    let cases = [
        ("a/b", "a//b"),
        ("a/b", "a/./b"),
        ("a/b", "a/b/"),
        ("a/b", "./a/b"),
        (".", ""),
        ("./", "."),
        ("/a", "//a"),
        ("/a", "a"),
        ("a/..", "a"),
        ("a/b/.", "a/b"),
        (".a", "a"),
        ("", ""),
        ("..", "../"),
    ];
    for (x, y) in cases {
        assert_eq!(same_path(x, y), Path::new(x) == Path::new(y), "{} vs {}", x, y);
    }
}
