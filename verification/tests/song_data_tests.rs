use clean_music::song_data::{
    any_official, classify_release_groups, cover_image_name, cover_image_name_for,
    get_musicbrainz_id, match_recording, unknown_song_info, AcoustidRecording, AcoustidResult,
    ArtistAlbums, MatchSearch, RecordingInfo, RecordingsField, ReleaseGroupInfo, ReleaseInfo,
};

fn rec(id: Option<&str>, ok: bool) -> AcoustidRecording {
    AcoustidRecording { id: id.map(|i| i.to_string()), duration_ok: ok }
}

#[test]
fn musicbrainz_ids_of_fitting_recordings() {
    let results = vec![
        AcoustidResult { recordings: RecordingsField::List(vec![rec(Some("r1"), true), rec(Some("r2"), false)]) },
        AcoustidResult { recordings: RecordingsField::Absent },
        AcoustidResult { recordings: RecordingsField::List(vec![rec(Some("r3"), true)]) },
    ];
    assert_eq!(get_musicbrainz_id(Some(results)), Some(vec!["r1".to_string(), "r3".to_string()]));
    assert_eq!(get_musicbrainz_id(None), None);
    assert_eq!(get_musicbrainz_id(Some(vec![])), Some(vec![]));
}

#[test]
fn musicbrainz_ids_fail_on_malformed_results() {
    let missing_id = vec![AcoustidResult { recordings: RecordingsField::List(vec![rec(Some("r1"), true), rec(None, false)]) }];
    assert_eq!(get_musicbrainz_id(Some(missing_id)), None);
    let not_list = vec![
        AcoustidResult { recordings: RecordingsField::List(vec![rec(Some("r1"), true)]) },
        AcoustidResult { recordings: RecordingsField::NotAList },
    ];
    assert_eq!(get_musicbrainz_id(Some(not_list)), None);
}

fn group(title: &str, is_album: bool, secondary: bool) -> ReleaseGroupInfo {
    ReleaseGroupInfo { title: title.to_string(), is_album, has_secondary_types: secondary }
}

#[test]
fn release_groups_are_classified() {
    let albums = classify_release_groups(&vec![
        group("One", true, false),
        group("Live", true, true),
        group("Single", false, false),
        group("Two", true, false),
    ]);
    assert_eq!(albums.officials, vec!["One".to_string(), "Two".to_string()]);
    assert_eq!(albums.others, vec!["Live".to_string()]);
}

fn release(title: &str, official: bool) -> ReleaseInfo {
    ReleaseInfo { id: format!("id-{}", title), title: title.to_string(), official }
}

#[test]
fn recordings_are_matched_by_their_first_release() {
    let albums = ArtistAlbums { officials: vec!["One".into()], others: vec!["Live".into()] };
    let r = RecordingInfo {
        title: "Song".into(),
        artist: "Band".into(),
        artist_id: "b1".into(),
        releases: vec![release("Live", false), release("One", true)],
    };
    let info = match_recording(&r, &albums).unwrap();
    assert_eq!(info.title, "Song");
    assert_eq!(info.artist, "Band");
    assert_eq!(info.album, "Live");
    let not_first = RecordingInfo { releases: vec![release("Other", true), release("One", true)], ..r };
    assert!(match_recording(&not_first, &albums).is_none());
    let unofficial = RecordingInfo {
        title: "S".into(),
        artist: "B".into(),
        artist_id: "b".into(),
        releases: vec![release("One", false)],
    };
    assert!(match_recording(&unofficial, &albums).is_none());
    let none = RecordingInfo { title: "S".into(), artist: "B".into(), artist_id: "b".into(), releases: vec![] };
    assert!(match_recording(&none, &albums).is_none());
    assert!(any_official(&vec![release("x", false), release("y", true)]));
    assert!(!any_official(&vec![]));
    let u = unknown_song_info();
    assert_eq!((u.title.as_str(), u.artist.as_str(), u.album.as_str()), ("Unknown", "Unknown", "Unknown"));
}

#[test]
fn cover_names_follow_the_detected_type() {
    let png = [0x89u8, 0x50, 0x4E, 0x47, 0x0D, 0x0A, 0x1A, 0x0A, 0, 0, 0, 0];
    let jpeg = [0xFFu8, 0xD8, 0xFF, 0xAA];
    assert_eq!(cover_image_name("Song", &png), "cover_image_Song.png");
    assert_eq!(cover_image_name("Song", &jpeg), "cover_image_Song.jpg");
    assert_eq!(cover_image_name("Song", &[0u8, 1, 2]), "cover_image_Song.png");
    assert_eq!(cover_image_name_for("X", Some("gif".into())), "cover_image_X.gif");
    assert_eq!(cover_image_name_for("X", None), "cover_image_X.png");
}

#[test]
fn search_takes_the_first_accepted_recording() {
    let albums = ArtistAlbums { officials: vec!["One".into()], others: vec![] };
    let miss = RecordingInfo {
        title: "Miss".into(),
        artist: "B".into(),
        artist_id: "b".into(),
        releases: vec![release("Other", true)],
    };
    let hit = RecordingInfo {
        title: "Hit".into(),
        artist: "B".into(),
        artist_id: "b".into(),
        releases: vec![release("One", true)],
    };
    let mut search = MatchSearch::new(vec!["i1".into(), "i2".into(), "i3".into()]);
    assert_eq!(search.next_id(), Some("i1".to_string()));
    assert!(!search.on_candidate(&miss, &albums));
    assert_eq!(search.next_id(), Some("i2".to_string()));
    assert!(search.on_candidate(&hit, &albums));
    assert_eq!(search.next_id(), None);
    let info = search.result();
    assert_eq!((info.title.as_str(), info.album.as_str()), ("Hit", "One"));

    let mut none = MatchSearch::new(vec!["i1".into()]);
    assert!(!none.on_candidate(&miss, &albums));
    assert_eq!(none.next_id(), None);
    assert_eq!(none.result().title, "Unknown");
    assert_eq!(MatchSearch::new(vec![]).result().artist, "Unknown");
}
