//! The order in which a directory of songs is played: songs are grouped by
//! album, each album's songs are ordered by track number, and the albums are
//! ordered by their song lists.
use vstd::prelude::*;

use crate::sorting::{Ranked, comparable, lemma_sorted_unique, same_items, sort_ranked, strictly_sorted};
use crate::text::{
    lemma_lex_irreflexive, lemma_lex_total, lemma_lex_transitive, lemma_text_order, lex_precedes,
    text_eq, text_less, text_order, text_precedes,
};

verus! {

/// The tags of a song file that decide its place.
pub struct SongTags {
    pub album: Option<String>,
    pub track: Option<u32>,
}

/// A playable song file of the directory, with its tags if it has any.
pub struct SongFile {
    pub path: String,
    pub tags: Option<SongTags>,
}

pub struct SongTagsView {
    pub album: Option<Seq<char>>,
    pub track: Option<u32>,
}

pub struct SongFileView {
    pub path: Seq<char>,
    pub tags: Option<SongTagsView>,
}

impl View for SongTags {
    type V = SongTagsView;

    open spec fn view(&self) -> SongTagsView {
        SongTagsView {
            album: match self.album {
                Some(a) => Some(a@),
                None => None,
            },
            track: self.track,
        }
    }
}

impl View for SongFile {
    type V = SongFileView;

    open spec fn view(&self) -> SongFileView {
        SongFileView {
            path: self.path@,
            tags: match self.tags {
                Some(t) => Some(t@),
                None => None,
            },
        }
    }
}

/// The views of a sequence of song files.
pub open spec fn file_views(files: Seq<SongFile>) -> Seq<SongFileView> {
    files.map_values(|f: SongFile| f@)
}

/// A song without a track number of its own: it gets the next number of
/// the directory's counter.
pub open spec fn untracked(f: SongFileView) -> bool {
    match f.tags {
        None => true,
        Some(t) => t.track is None,
    }
}

/// The counter after `files`, starting from `start`: one more for each song
/// without a track number.
pub open spec fn counter_after(files: Seq<SongFileView>, start: int) -> int
    decreases files.len(),
{
    if files.len() == 0 {
        start
    } else {
        counter_after(files.drop_last(), start) + if untracked(files.last()) {
            1int
        } else {
            0int
        }
    }
}

/// The track number of the `i`-th song: its tag's, else the next number of
/// the counter.
pub open spec fn track_number(files: Seq<SongFileView>, start: int, i: int) -> int {
    if untracked(files[i]) {
        counter_after(files.take(i), start) + 1
    } else {
        files[i].tags->0.track->0 as int
    }
}

/// The album of a song: its tag's, the empty text where the tag has none,
/// and "None" where the song has no tags.
pub open spec fn album_name(f: SongFileView) -> Seq<char> {
    match f.tags {
        None => "None"@,
        Some(t) => match t.album {
            Some(a) => a,
            None => Seq::empty(),
        },
    }
}

/// Each album of `files` with its songs, each song with its track number; a
/// later song of the same album and path replaces an earlier one's number.
pub open spec fn album_map(files: Seq<SongFileView>, start: int) -> Map<
    Seq<char>,
    Map<Seq<char>, int>,
>
    decreases files.len(),
{
    if files.len() == 0 {
        Map::empty()
    } else {
        let prev = album_map(files.drop_last(), start);
        let f = files.last();
        let a = album_name(f);
        let songs = if prev.contains_key(a) {
            prev[a]
        } else {
            Map::empty()
        };
        prev.insert(a, songs.insert(f.path, track_number(files, start, files.len() - 1)))
    }
}

/// A song of an album, with its track number.
pub struct Track {
    pub number: u32,
    pub path: String,
}

/// An album with its songs.
pub struct Album {
    pub name: String,
    pub tracks: Vec<Track>,
}

impl DeepView for Track {
    type V = (u32, Seq<char>);

    open spec fn deep_view(&self) -> (u32, Seq<char>) {
        (self.number, self.path@)
    }
}

impl DeepView for Album {
    type V = (Seq<(u32, Seq<char>)>, Seq<char>);

    open spec fn deep_view(&self) -> (Seq<(u32, Seq<char>)>, Seq<char>) {
        (self.tracks.deep_view(), self.name@)
    }
}

/// The paths of a list of tracks.
pub open spec fn track_paths(tracks: Seq<(u32, Seq<char>)>) -> Seq<Seq<char>> {
    tracks.map_values(|t: (u32, Seq<char>)| t.1)
}

/// Tracks come by number, and by path where the numbers are equal.
pub open spec fn track_precedes(a: (u32, Seq<char>), b: (u32, Seq<char>)) -> bool {
    a.0 < b.0 || (a.0 == b.0 && text_precedes(a.1, b.1))
}

/// Albums come by their lists of paths, and by name where the lists are
/// equal.
pub open spec fn album_precedes(
    a: (Seq<(u32, Seq<char>)>, Seq<char>),
    b: (Seq<(u32, Seq<char>)>, Seq<char>),
) -> bool {
    lex_precedes(track_paths(a.0), track_paths(b.0), text_order()) || (track_paths(a.0)
        == track_paths(b.0) && text_precedes(a.1, b.1))
}

impl Ranked for Track {
    open spec fn precedes(a: (u32, Seq<char>), b: (u32, Seq<char>)) -> bool {
        track_precedes(a, b)
    }

    proof fn lemma_precedes_order() {
        lemma_text_order();
        let lt = text_order();
        assert forall|x: (u32, Seq<char>)| !#[trigger] track_precedes(x, x) by {
            assert(!lt(x.1, x.1));
        }
        assert forall|x: (u32, Seq<char>), y: (u32, Seq<char>), z: (u32, Seq<char>)|
            #[trigger] track_precedes(x, y) && #[trigger] track_precedes(y, z) implies track_precedes(
            x,
            z,
        ) by {
            if x.0 == y.0 && y.0 == z.0 {
                assert(lt(x.1, y.1) && lt(y.1, z.1));
            }
        }
    }

    fn goes_before(&self, other: &Track) -> (r: bool) {
        self.number < other.number || (self.number == other.number && text_less(
            self.path.as_str(),
            other.path.as_str(),
        ))
    }
}

impl Ranked for Album {
    open spec fn precedes(
        a: (Seq<(u32, Seq<char>)>, Seq<char>),
        b: (Seq<(u32, Seq<char>)>, Seq<char>),
    ) -> bool {
        album_precedes(a, b)
    }

    proof fn lemma_precedes_order() {
        lemma_text_order();
        let lt = text_order();
        assert forall|x: (Seq<(u32, Seq<char>)>, Seq<char>)| !#[trigger] album_precedes(x, x) by {
            lemma_lex_irreflexive(track_paths(x.0), lt);
            assert(!lt(x.1, x.1));
        }
        assert forall|
            x: (Seq<(u32, Seq<char>)>, Seq<char>),
            y: (Seq<(u32, Seq<char>)>, Seq<char>),
            z: (Seq<(u32, Seq<char>)>, Seq<char>),
        | #[trigger] album_precedes(x, y) && #[trigger] album_precedes(y, z) implies album_precedes(
            x,
            z,
        ) by {
            let (px, py, pz) = (track_paths(x.0), track_paths(y.0), track_paths(z.0));
            if px == py && py == pz {
                lemma_lex_irreflexive(px, lt);
                assert(lt(x.1, y.1) && lt(y.1, z.1));
            } else if px == py {
                assert(lex_precedes(py, pz, lt));
            } else if py == pz {
                assert(lex_precedes(px, py, lt));
            } else {
                lemma_lex_transitive(px, py, pz, lt);
            }
        }
    }

    fn goes_before(&self, other: &Album) -> (r: bool) {
        let ghost lt = text_order();
        let ghost pa = track_paths(self.tracks.deep_view());
        let ghost pb = track_paths(other.tracks.deep_view());
        proof {
            assert(pa.skip(0) =~= pa);
            assert(pb.skip(0) =~= pb);
        }
        let mut i: usize = 0;
        while i < self.tracks.len() && i < other.tracks.len()
            invariant
                lt == text_order(),
                pa == track_paths(self.tracks.deep_view()),
                pb == track_paths(other.tracks.deep_view()),
                i <= self.tracks.len(),
                i <= other.tracks.len(),
                pa.take(i as int) == pb.take(i as int),
                lex_precedes(pa, pb, lt) == lex_precedes(pa.skip(i as int), pb.skip(i as int), lt),
            decreases self.tracks.len() - i,
        {
            let a = &self.tracks[i].path;
            let b = &other.tracks[i].path;
            proof {
                assert(pa[i as int] == a@);
                assert(pb[i as int] == b@);
                assert(pa.skip(i as int)[0] == a@);
                assert(pb.skip(i as int)[0] == b@);
            }
            if !text_eq(a.as_str(), b.as_str()) {
                proof {
                    if pa == pb {
                        assert(pa[i as int] == pb[i as int]);
                    }
                }
                return text_less(a.as_str(), b.as_str());
            }
            proof {
                assert(pa.skip(i as int).drop_first() =~= pa.skip(i + 1));
                assert(pb.skip(i as int).drop_first() =~= pb.skip(i + 1));
                assert(pa.take(i + 1) =~= pa.take(i as int).push(pa[i as int]));
                assert(pb.take(i + 1) =~= pb.take(i as int).push(pb[i as int]));
            }
            i = i + 1;
        }
        if self.tracks.len() != other.tracks.len() {
            proof {
                if pa == pb {
                    assert(pa.len() == pb.len());
                }
            }
            return self.tracks.len() < other.tracks.len();
        }
        proof {
            assert(pa =~= pa.take(i as int));
            assert(pb =~= pb.take(i as int));
            lemma_text_order();
            lemma_lex_irreflexive(pa, lt);
        }
        text_less(self.name.as_str(), other.name.as_str())
    }
}

/// `tracks` lists the songs of `songs`, each once, with its track number.
pub open spec fn lists_songs(songs: Map<Seq<char>, int>, tracks: Seq<(u32, Seq<char>)>) -> bool {
    &&& forall|k: int|
        0 <= k < tracks.len() ==> songs.contains_key(#[trigger] tracks[k].1) && songs[tracks[k].1]
            == tracks[k].0 as int
    &&& forall|p: Seq<char>|
        #[trigger] songs.contains_key(p) ==> exists|k: int| 0 <= k < tracks.len() && #[trigger] tracks[k].1 == p
    &&& forall|k1: int, k2: int|
        0 <= k1 < tracks.len() && 0 <= k2 < tracks.len() && k1 != k2 ==> #[trigger] tracks[k1].1
            != #[trigger] tracks[k2].1
}

/// `albums` lists the albums of `m`, each once, each with its songs.
pub open spec fn albums_match(
    m: Map<Seq<char>, Map<Seq<char>, int>>,
    albums: Seq<(Seq<(u32, Seq<char>)>, Seq<char>)>,
) -> bool {
    &&& forall|g: int|
        0 <= g < albums.len() ==> m.contains_key(#[trigger] albums[g].1) && lists_songs(
            m[albums[g].1],
            albums[g].0,
        )
    &&& forall|a: Seq<char>|
        #[trigger] m.contains_key(a) ==> exists|g: int| 0 <= g < albums.len() && #[trigger] albums[g].1 == a
    &&& forall|g1: int, g2: int|
        0 <= g1 < albums.len() && 0 <= g2 < albums.len() && g1 != g2 ==> #[trigger] albums[g1].1
            != #[trigger] albums[g2].1
}

/// `m` with song `p` of album `a` numbered `t`.
pub open spec fn with_song(
    m: Map<Seq<char>, Map<Seq<char>, int>>,
    a: Seq<char>,
    p: Seq<char>,
    t: int,
) -> Map<Seq<char>, Map<Seq<char>, int>> {
    let songs = if m.contains_key(a) {
        m[a]
    } else {
        Map::empty()
    };
    m.insert(a, songs.insert(p, t))
}

fn add_song(
    albums: &mut Vec<Album>,
    Ghost(m): Ghost<Map<Seq<char>, Map<Seq<char>, int>>>,
    name: String,
    path: String,
    number: u32,
)
    requires
        albums_match(m, old(albums).deep_view()),
    ensures
        albums_match(with_song(m, name@, path@, number as int), final(albums).deep_view()),
{
    let ghost a = name@;
    let ghost p = path@;
    let ghost m2 = with_song(m, a, p, number as int);
    let ghost before = albums.deep_view();
    let mut g: usize = 0;
    while g < albums.len() && !text_eq(albums[g].name.as_str(), name.as_str())
        invariant
            g <= albums.len(),
            albums.deep_view() == before,
            a == name@,
            forall|h: int| 0 <= h < g ==> #[trigger] before[h].1 != a,
        decreases albums.len() - g,
    {
        g = g + 1;
    }
    if g < albums.len() {
        proof {
            assert(before[g as int].1 == a);
            assert(m.contains_key(a));
            assert(lists_songs(m[a], before[g as int].0));
        }
        let mut album = albums.remove(g);
        let ghost old_tracks = album.tracks.deep_view();
        proof {
            assert(before[g as int] == album.deep_view());
        }
        let mut k: usize = 0;
        while k < album.tracks.len() && !text_eq(album.tracks[k].path.as_str(), path.as_str())
            invariant
                k <= album.tracks.len(),
                album.tracks.deep_view() == old_tracks,
                p == path@,
                forall|h: int| 0 <= h < k ==> #[trigger] old_tracks[h].1 != p,
            decreases album.tracks.len() - k,
        {
            k = k + 1;
        }
        if k < album.tracks.len() {
            proof {
                assert(old_tracks[k as int].1 == p);
            }
            album.tracks.set(k, Track { number, path });
            proof {
                assert(album.tracks.deep_view() =~= old_tracks.update(k as int, (number, p)));
            }
        } else {
            album.tracks.push(Track { number, path });
            proof {
                assert(album.tracks.deep_view() =~= old_tracks.push((number, p)));
            }
        }
        let ghost new_tracks = album.tracks.deep_view();
        proof {
            let songs2 = m2[a];
            assert(m.contains_key(a));
            assert(songs2 == m[a].insert(p, number as int));
            assert forall|j: int| 0 <= j < new_tracks.len() implies songs2.contains_key(
                #[trigger] new_tracks[j].1,
            ) && songs2[new_tracks[j].1] == new_tracks[j].0 as int by {
                if j < old_tracks.len() && j != k {
                    assert(new_tracks[j] == old_tracks[j]);
                    assert(old_tracks[j].1 != p);
                }
            }
            assert forall|q: Seq<char>| #[trigger] songs2.contains_key(q) implies exists|j: int|
                0 <= j < new_tracks.len() && #[trigger] new_tracks[j].1 == q by {
                if q == p {
                    assert(new_tracks[k as int].1 == q);
                } else {
                    assert(m[a].contains_key(q));
                    let j = choose|j: int| 0 <= j < old_tracks.len() && #[trigger] old_tracks[j].1 == q;
                    assert(new_tracks[j].1 == q);
                }
            }
            assert forall|k1: int, k2: int|
                0 <= k1 < new_tracks.len() && 0 <= k2 < new_tracks.len() && k1 != k2 implies #[trigger] new_tracks[k1].1
                != #[trigger] new_tracks[k2].1 by {
                if k1 != k && k2 != k {
                    assert(new_tracks[k1] == old_tracks[k1] && new_tracks[k2] == old_tracks[k2]);
                } else if k1 == k {
                    assert(new_tracks[k2] == old_tracks[k2]);
                    assert(old_tracks[k2].1 != p || k2 >= k);
                } else {
                    assert(new_tracks[k1] == old_tracks[k1]);
                    assert(old_tracks[k1].1 != p || k1 >= k);
                }
            }
            assert(lists_songs(songs2, new_tracks));
        }
        albums.insert(g, album);
        proof {
            let after = albums.deep_view();
            assert(after =~= before.update(g as int, (new_tracks, a)));
            assert forall|h: int| 0 <= h < after.len() implies m2.contains_key(#[trigger] after[h].1)
                && lists_songs(m2[after[h].1], after[h].0) by {
                if h != g {
                    assert(after[h] == before[h]);
                    assert(before[h].1 != before[g as int].1);
                }
            }
            assert forall|b: Seq<char>| #[trigger] m2.contains_key(b) implies exists|h: int|
                0 <= h < after.len() && #[trigger] after[h].1 == b by {
                if b == a {
                    assert(after[g as int].1 == b);
                } else {
                    assert(m.contains_key(b));
                    let h = choose|h: int| 0 <= h < before.len() && #[trigger] before[h].1 == b;
                    assert(after[h].1 == b);
                }
            }
            assert forall|g1: int, g2: int|
                0 <= g1 < after.len() && 0 <= g2 < after.len() && g1 != g2 implies #[trigger] after[g1].1
                != #[trigger] after[g2].1 by {
                assert(after[g1].1 == before[g1].1 && after[g2].1 == before[g2].1);
            }
        }
    } else {
        let mut tracks: Vec<Track> = Vec::new();
        tracks.push(Track { number, path });
        let ghost new_tracks = tracks.deep_view();
        albums.push(Album { name, tracks });
        proof {
            let after = albums.deep_view();
            assert(new_tracks =~= seq![(number, p)]);
            assert(after =~= before.push((new_tracks, a)));
            assert(!m.contains_key(a)) by {
                if m.contains_key(a) {
                    let h = choose|h: int| 0 <= h < before.len() && #[trigger] before[h].1 == a;
                }
            }
            let songs2 = m2[a];
            assert(songs2 =~= Map::<Seq<char>, int>::empty().insert(p, number as int));
            assert(lists_songs(songs2, new_tracks)) by {
                assert forall|q: Seq<char>| #[trigger] songs2.contains_key(q) implies exists|j: int|
                    0 <= j < new_tracks.len() && #[trigger] new_tracks[j].1 == q by {
                    assert(new_tracks[0].1 == q);
                }
            }
            assert forall|h: int| 0 <= h < after.len() implies m2.contains_key(#[trigger] after[h].1)
                && lists_songs(m2[after[h].1], after[h].0) by {
                if h < before.len() {
                    assert(after[h] == before[h]);
                }
            }
            assert forall|b: Seq<char>| #[trigger] m2.contains_key(b) implies exists|h: int|
                0 <= h < after.len() && #[trigger] after[h].1 == b by {
                if b == a {
                    assert(after[before.len() as int].1 == b);
                } else {
                    let h = choose|h: int| 0 <= h < before.len() && #[trigger] before[h].1 == b;
                    assert(after[h].1 == b);
                }
            }
            assert forall|g1: int, g2: int|
                0 <= g1 < after.len() && 0 <= g2 < after.len() && g1 != g2 implies #[trigger] after[g1].1
                != #[trigger] after[g2].1 by {
                if g1 < before.len() && g2 < before.len() {
                    assert(after[g1] == before[g1] && after[g2] == before[g2]);
                } else if g1 < before.len() {
                    assert(after[g1] == before[g1]);
                } else {
                    assert(after[g2] == before[g2]);
                }
            }
        }
    }
}

proof fn lemma_counter_prefix(fv: Seq<SongFileView>, start: int, i: int)
    requires
        0 <= i <= fv.len(),
    ensures
        start <= counter_after(fv.take(i), start) <= counter_after(fv, start),
    decreases fv.len(),
{
    if i < fv.len() {
        lemma_counter_prefix(fv.drop_last(), start, i);
        assert(fv.drop_last().take(i) =~= fv.take(i));
    } else {
        assert(fv.take(i) =~= fv);
        if fv.len() > 0 {
            lemma_counter_prefix(fv.drop_last(), start, 0);
        } else {
            assert(fv.take(i) =~= Seq::<SongFileView>::empty());
        }
    }
}

/// The albums of `files`, each once, with their songs; songs without a track
/// number are numbered on from `start`.
fn group_by_album(files: &Vec<SongFile>, start: u32) -> (albums: Vec<Album>)
    requires
        counter_after(file_views(files@), start as int) <= u32::MAX,
    ensures
        albums_match(album_map(file_views(files@), start as int), albums.deep_view()),
{
    let ghost fv = file_views(files@);
    let mut albums: Vec<Album> = Vec::new();
    let mut counter: u32 = start;
    let mut i: usize = 0;
    proof {
        assert(fv.take(0) =~= Seq::<SongFileView>::empty());
        assert(albums.deep_view() =~= Seq::empty());
    }
    while i < files.len()
        invariant
            fv == file_views(files@),
            i <= files.len(),
            counter == counter_after(fv.take(i as int), start as int),
            counter_after(fv, start as int) <= u32::MAX,
            albums_match(album_map(fv.take(i as int), start as int), albums.deep_view()),
        decreases files.len() - i,
    {
        let f = &files[i];
        let ghost pre = fv.take(i as int);
        let ghost cur = fv.take(i + 1);
        proof {
            lemma_counter_prefix(fv, start as int, i + 1);
            assert(cur.drop_last() =~= pre);
            assert(cur.take(i as int) =~= pre);
            assert(fv[i as int] == f@);
            assert(cur.last() == f@);
        }
        let name: String = match &f.tags {
            None => String::from_str("None"),
            Some(t) => match &t.album {
                Some(a) => a.clone(),
                None => String::new(),
            },
        };
        let number: u32 = match &f.tags {
            Some(t) => match t.track {
                Some(n) => n,
                None => {
                    counter = counter + 1;
                    counter
                },
            },
            None => {
                counter = counter + 1;
                counter
            },
        };
        proof {
            assert(name@ == album_name(f@));
            assert(number as int == track_number(cur, start as int, i as int));
            assert(counter == counter_after(cur, start as int));
        }
        add_song(&mut albums, Ghost(album_map(pre, start as int)), name, f.path.clone(), number);
        i = i + 1;
    }
    proof {
        assert(fv.take(files.len() as int) =~= fv);
    }
    albums
}

/// `albums` is the arrangement of `m`: every album once, with its songs in
/// track order, and the albums in the order of their song lists.
pub open spec fn album_arrangement(
    m: Map<Seq<char>, Map<Seq<char>, int>>,
    albums: Seq<(Seq<(u32, Seq<char>)>, Seq<char>)>,
) -> bool {
    &&& albums_match(m, albums)
    &&& forall|g: int| 0 <= g < albums.len() ==> strictly_sorted::<Track>(#[trigger] albums[g].0)
    &&& strictly_sorted::<Album>(albums)
}

/// The songs of `albums`, album after album.
pub open spec fn playlist(albums: Seq<(Seq<(u32, Seq<char>)>, Seq<char>)>) -> Seq<Seq<char>>
    decreases albums.len(),
{
    if albums.len() == 0 {
        Seq::empty()
    } else {
        playlist(albums.drop_last()) + track_paths(albums.last().0)
    }
}

/// `order` is the play order of the songs `files`, whose untracked songs are
/// numbered on from `start`.
pub open spec fn directory_order(files: Seq<SongFileView>, start: int, order: Seq<Seq<char>>) -> bool {
    exists|albums: Seq<(Seq<(u32, Seq<char>)>, Seq<char>)>|
        album_arrangement(album_map(files, start), albums) && order == playlist(albums)
}

proof fn lemma_lists_songs_same_items(
    songs: Map<Seq<char>, int>,
    t: Seq<(u32, Seq<char>)>,
    s: Seq<(u32, Seq<char>)>,
)
    requires
        lists_songs(songs, t),
        same_items(s, t),
        strictly_sorted::<Track>(s),
    ensures
        lists_songs(songs, s),
{
    <Track as Ranked>::lemma_precedes_order();
    assert forall|k: int| 0 <= k < s.len() implies songs.contains_key(#[trigger] s[k].1)
        && songs[s[k].1] == s[k].0 as int by {
        assert(s.contains(s[k]));
        assert(t.contains(s[k]));
        let j = choose|j: int| 0 <= j < t.len() && t[j] == s[k];
        assert(t[j].1 == s[k].1);
    }
    assert forall|p: Seq<char>| #[trigger] songs.contains_key(p) implies exists|k: int|
        0 <= k < s.len() && #[trigger] s[k].1 == p by {
        let j = choose|j: int| 0 <= j < t.len() && #[trigger] t[j].1 == p;
        assert(t.contains(t[j]));
        assert(s.contains(t[j]));
        let k = choose|k: int| 0 <= k < s.len() && s[k] == t[j];
        assert(s[k].1 == p);
    }
    assert forall|k1: int, k2: int|
        0 <= k1 < s.len() && 0 <= k2 < s.len() && k1 != k2 implies #[trigger] s[k1].1
        != #[trigger] s[k2].1 by {
        if s[k1].1 == s[k2].1 {
            assert(songs[s[k1].1] == s[k1].0 as int);
            assert(songs[s[k2].1] == s[k2].0 as int);
            assert(s[k1] == s[k2]);
            if k1 < k2 {
                assert(track_precedes(s[k1], s[k2]));
            } else {
                assert(track_precedes(s[k2], s[k1]));
            }
        }
    }
}

proof fn lemma_albums_match_same_items(
    m: Map<Seq<char>, Map<Seq<char>, int>>,
    a: Seq<(Seq<(u32, Seq<char>)>, Seq<char>)>,
    b: Seq<(Seq<(u32, Seq<char>)>, Seq<char>)>,
)
    requires
        albums_match(m, a),
        same_items(b, a),
        strictly_sorted::<Album>(b),
    ensures
        albums_match(m, b),
{
    <Album as Ranked>::lemma_precedes_order();
    assert forall|g: int| 0 <= g < b.len() implies m.contains_key(#[trigger] b[g].1) && lists_songs(
        m[b[g].1],
        b[g].0,
    ) by {
        assert(b.contains(b[g]));
        assert(a.contains(b[g]));
        let j = choose|j: int| 0 <= j < a.len() && a[j] == b[g];
        assert(a[j].1 == b[g].1);
    }
    assert forall|n: Seq<char>| #[trigger] m.contains_key(n) implies exists|g: int|
        0 <= g < b.len() && #[trigger] b[g].1 == n by {
        let j = choose|j: int| 0 <= j < a.len() && #[trigger] a[j].1 == n;
        assert(a.contains(a[j]));
        assert(b.contains(a[j]));
        let g = choose|g: int| 0 <= g < b.len() && b[g] == a[j];
        assert(b[g].1 == n);
    }
    assert forall|g1: int, g2: int|
        0 <= g1 < b.len() && 0 <= g2 < b.len() && g1 != g2 implies #[trigger] b[g1].1
        != #[trigger] b[g2].1 by {
        if b[g1].1 == b[g2].1 {
            assert(b.contains(b[g1]) && b.contains(b[g2]));
            assert(a.contains(b[g1]) && a.contains(b[g2]));
            let j1 = choose|j: int| 0 <= j < a.len() && a[j] == b[g1];
            let j2 = choose|j: int| 0 <= j < a.len() && a[j] == b[g2];
            assert(a[j1].1 == a[j2].1);
            assert(j1 == j2);
            assert(b[g1] == b[g2]);
            if g1 < g2 {
                assert(album_precedes(b[g1], b[g2]));
            } else {
                assert(album_precedes(b[g2], b[g1]));
            }
        }
    }
}

proof fn lemma_tracks_comparable(songs: Map<Seq<char>, int>, t: Seq<(u32, Seq<char>)>)
    requires
        lists_songs(songs, t),
    ensures
        comparable::<Track>(t),
{
    lemma_text_order();
    let lt = text_order();
    assert forall|i: int, j: int|
        0 <= i < t.len() && 0 <= j < t.len() && i != j implies track_precedes(
        #[trigger] t[i],
        #[trigger] t[j],
    ) || track_precedes(t[j], t[i]) by {
        assert(t[i].1 != t[j].1);
        assert(t[i].1 == t[j].1 || lt(t[i].1, t[j].1) || lt(t[j].1, t[i].1));
    }
}

proof fn lemma_albums_comparable(
    m: Map<Seq<char>, Map<Seq<char>, int>>,
    a: Seq<(Seq<(u32, Seq<char>)>, Seq<char>)>,
)
    requires
        albums_match(m, a),
    ensures
        comparable::<Album>(a),
{
    lemma_text_order();
    let lt = text_order();
    assert forall|i: int, j: int|
        0 <= i < a.len() && 0 <= j < a.len() && i != j implies album_precedes(
        #[trigger] a[i],
        #[trigger] a[j],
    ) || album_precedes(a[j], a[i]) by {
        assert(a[i].1 != a[j].1);
        let (pi, pj) = (track_paths(a[i].0), track_paths(a[j].0));
        lemma_lex_total(pi, pj, lt);
        assert(a[i].1 == a[j].1 || lt(a[i].1, a[j].1) || lt(a[j].1, a[i].1));
    }
}

/// The play order of the songs `files` of a directory with `entry_count`
/// entries: songs without a track number are numbered on from the entry
/// count, songs are grouped by album and ordered by track number within an
/// album, and albums are ordered by their song lists.
pub fn order_songs(files: &Vec<SongFile>, entry_count: usize) -> (order: Vec<String>)
    requires
        counter_after(file_views(files@), (entry_count as u32) as int) <= u32::MAX,
    ensures
        directory_order(file_views(files@), (entry_count as u32) as int, crate::queue::texts(order@)),
{
    let start: u32 = entry_count as u32;
    let ghost fv = file_views(files@);
    let ghost m = album_map(fv, start as int);
    let mut albums = group_by_album(files, start);
    let mut i: usize = 0;
    while i < albums.len()
        invariant
            albums_match(m, albums.deep_view()),
            i <= albums.len(),
            forall|g: int| 0 <= g < i ==> strictly_sorted::<Track>(#[trigger] albums.deep_view()[g].0),
        decreases albums.len() - i,
    {
        let ghost before = albums.deep_view();
        let album = albums.remove(i);
        proof {
            assert(before[i as int] == album.deep_view());
            assert(m.contains_key(before[i as int].1));
            assert(lists_songs(m[album.name@], album.tracks.deep_view()));
            lemma_tracks_comparable(m[album.name@], album.tracks.deep_view());
        }
        let ghost unsorted = album.tracks.deep_view();
        let tracks = sort_ranked(album.tracks);
        proof {
            lemma_lists_songs_same_items(m[album.name@], unsorted, tracks.deep_view());
        }
        let ghost sorted_view = tracks.deep_view();
        albums.insert(i, Album { name: album.name, tracks });
        proof {
            let after = albums.deep_view();
            assert(after =~= before.update(i as int, (sorted_view, before[i as int].1)));
            assert forall|g: int| 0 <= g < after.len() implies m.contains_key(#[trigger] after[g].1)
                && lists_songs(m[after[g].1], after[g].0) by {
                if g != i {
                    assert(after[g] == before[g]);
                }
            }
            assert forall|n: Seq<char>| #[trigger] m.contains_key(n) implies exists|g: int|
                0 <= g < after.len() && #[trigger] after[g].1 == n by {
                let g = choose|g: int| 0 <= g < before.len() && #[trigger] before[g].1 == n;
                assert(after[g].1 == n);
            }
            assert forall|g1: int, g2: int|
                0 <= g1 < after.len() && 0 <= g2 < after.len() && g1 != g2 implies #[trigger] after[g1].1
                != #[trigger] after[g2].1 by {
                assert(after[g1].1 == before[g1].1 && after[g2].1 == before[g2].1);
            }
            assert forall|g: int| 0 <= g < i + 1 implies strictly_sorted::<Track>(
                #[trigger] after[g].0,
            ) by {
                if g < i {
                    assert(after[g] == before[g]);
                }
            }
        }
        i = i + 1;
    }
    proof {
        lemma_albums_comparable(m, albums.deep_view());
    }
    let ghost grouped = albums.deep_view();
    let sorted = sort_ranked(albums);
    let ghost arranged = sorted.deep_view();
    proof {
        lemma_albums_match_same_items(m, grouped, arranged);
        assert forall|g: int| 0 <= g < arranged.len() implies strictly_sorted::<Track>(
            #[trigger] arranged[g].0,
        ) by {
            assert(arranged.contains(arranged[g]));
            let j = choose|j: int| 0 <= j < grouped.len() && grouped[j] == arranged[g];
        }
        assert(album_arrangement(m, arranged));
    }
    let mut order: Vec<String> = Vec::new();
    let mut g: usize = 0;
    proof {
        assert(arranged.take(0) =~= Seq::<(Seq<(u32, Seq<char>)>, Seq<char>)>::empty());
        assert(crate::queue::texts(order@) =~= Seq::empty());
    }
    while g < sorted.len()
        invariant
            arranged == sorted.deep_view(),
            g <= sorted.len(),
            crate::queue::texts(order@) == playlist(arranged.take(g as int)),
        decreases sorted.len() - g,
    {
        let tracks = &sorted[g].tracks;
        let ghost tv = tracks.deep_view();
        proof {
            assert(arranged[g as int].0 == tv);
            assert(track_paths(tv).take(0) =~= Seq::<Seq<char>>::empty());
            assert(playlist(arranged.take(g as int)) + track_paths(tv).take(0) =~= playlist(
                arranged.take(g as int),
            ));
        }
        let mut k: usize = 0;
        while k < tracks.len()
            invariant
                tv == tracks.deep_view(),
                k <= tracks.len(),
                crate::queue::texts(order@) == playlist(arranged.take(g as int)) + track_paths(tv).take(
                    k as int,
                ),
            decreases tracks.len() - k,
        {
            let ghost before = order@;
            order.push(tracks[k].path.clone());
            proof {
                assert(tv[k as int].1 == tracks[k as int].path@);
                assert(crate::queue::texts(order@) =~= crate::queue::texts(before).push(
                    tracks[k as int].path@,
                ));
                assert(track_paths(tv).take(k + 1) =~= track_paths(tv).take(k as int).push(
                    tv[k as int].1,
                ));
            }
            k = k + 1;
        }
        proof {
            assert(arranged.take(g + 1).drop_last() =~= arranged.take(g as int));
            assert(track_paths(tv).take(k as int) =~= track_paths(tv));
        }
        g = g + 1;
    }
    proof {
        assert(arranged.take(sorted.len() as int) =~= arranged);
    }
    order
}

proof fn lemma_lists_songs_same(
    songs: Map<Seq<char>, int>,
    s: Seq<(u32, Seq<char>)>,
    t: Seq<(u32, Seq<char>)>,
)
    requires
        lists_songs(songs, s),
        lists_songs(songs, t),
    ensures
        same_items(s, t),
{
    assert forall|v: (u32, Seq<char>)| s.contains(v) implies t.contains(v) by {
        let k = choose|k: int| 0 <= k < s.len() && s[k] == v;
        assert(songs.contains_key(s[k].1));
        let j = choose|j: int| 0 <= j < t.len() && #[trigger] t[j].1 == v.1;
        assert(t[j] == v);
    }
    assert forall|v: (u32, Seq<char>)| t.contains(v) implies s.contains(v) by {
        let k = choose|k: int| 0 <= k < t.len() && t[k] == v;
        assert(songs.contains_key(t[k].1));
        let j = choose|j: int| 0 <= j < s.len() && #[trigger] s[j].1 == v.1;
        assert(s[j] == v);
    }
}

proof fn lemma_arrangement_unique(
    m: Map<Seq<char>, Map<Seq<char>, int>>,
    a: Seq<(Seq<(u32, Seq<char>)>, Seq<char>)>,
    b: Seq<(Seq<(u32, Seq<char>)>, Seq<char>)>,
)
    requires
        album_arrangement(m, a),
        album_arrangement(m, b),
    ensures
        a == b,
{
    assert forall|x: (Seq<(u32, Seq<char>)>, Seq<char>)| a.contains(x) implies b.contains(x) by {
        let i = choose|i: int| 0 <= i < a.len() && a[i] == x;
        assert(m.contains_key(a[i].1));
        let j = choose|j: int| 0 <= j < b.len() && #[trigger] b[j].1 == x.1;
        assert(m.contains_key(b[j].1));
        lemma_lists_songs_same(m[x.1], a[i].0, b[j].0);
        assert(strictly_sorted::<Track>(a[i].0));
        assert(strictly_sorted::<Track>(b[j].0));
        lemma_sorted_unique::<Track>(a[i].0, b[j].0);
        assert(b[j] == x);
    }
    assert forall|x: (Seq<(u32, Seq<char>)>, Seq<char>)| b.contains(x) implies a.contains(x) by {
        let i = choose|i: int| 0 <= i < b.len() && b[i] == x;
        assert(m.contains_key(b[i].1));
        let j = choose|j: int| 0 <= j < a.len() && #[trigger] a[j].1 == x.1;
        assert(m.contains_key(a[j].1));
        lemma_lists_songs_same(m[x.1], b[i].0, a[j].0);
        assert(strictly_sorted::<Track>(b[i].0));
        assert(strictly_sorted::<Track>(a[j].0));
        lemma_sorted_unique::<Track>(b[i].0, a[j].0);
        assert(a[j] == x);
    }
    lemma_sorted_unique::<Album>(a, b);
}

/// The play order of a directory depends on its songs alone: two orders of
/// the same songs are equal.
pub proof fn lemma_directory_order_unique(
    files: Seq<SongFileView>,
    start: int,
    first: Seq<Seq<char>>,
    second: Seq<Seq<char>>,
)
    requires
        directory_order(files, start, first),
        directory_order(files, start, second),
    ensures
        first == second,
{
    let m = album_map(files, start);
    let a = choose|a: Seq<(Seq<(u32, Seq<char>)>, Seq<char>)>|
        album_arrangement(m, a) && first == playlist(a);
    let b = choose|b: Seq<(Seq<(u32, Seq<char>)>, Seq<char>)>|
        album_arrangement(m, b) && second == playlist(b);
    lemma_arrangement_unique(m, a, b);
}

proof fn lemma_album_map_keeps(files: Seq<SongFileView>, start: int, i: int)
    requires
        0 <= i < files.len(),
    ensures
        album_map(files, start).contains_key(album_name(files[i])),
        album_map(files, start)[album_name(files[i])].contains_key(files[i].path),
    decreases files.len(),
{
    if i < files.len() - 1 {
        lemma_album_map_keeps(files.drop_last(), start, i);
        assert(files.drop_last()[i] == files[i]);
    }
}

proof fn lemma_album_map_songs(files: Seq<SongFileView>, start: int, a: Seq<char>, p: Seq<char>)
    requires
        album_map(files, start).contains_key(a),
        album_map(files, start)[a].contains_key(p),
    ensures
        exists|i: int|
            0 <= i < files.len() && #[trigger] files[i].path == p && album_name(files[i]) == a,
    decreases files.len(),
{
    let prev = album_map(files.drop_last(), start);
    let last = files.last();
    if a == album_name(last) && p == last.path {
        assert(files[files.len() - 1].path == p);
    } else {
        assert(prev.contains_key(a));
        assert(prev[a].contains_key(p));
        lemma_album_map_songs(files.drop_last(), start, a, p);
        let i = choose|i: int|
            0 <= i < files.drop_last().len() && #[trigger] files.drop_last()[i].path == p
                && album_name(files.drop_last()[i]) == a;
        assert(files[i] == files.drop_last()[i]);
        assert(files[i].path == p);
    }
}

proof fn lemma_playlist_contains(albums: Seq<(Seq<(u32, Seq<char>)>, Seq<char>)>, g: int, k: int)
    requires
        0 <= g < albums.len(),
        0 <= k < albums[g].0.len(),
    ensures
        playlist(albums).contains(albums[g].0[k].1),
    decreases albums.len(),
{
    let prev = playlist(albums.drop_last());
    let last = track_paths(albums.last().0);
    if g == albums.len() - 1 {
        assert((prev + last)[prev.len() + k] == last[k]);
    } else {
        lemma_playlist_contains(albums.drop_last(), g, k);
        let j = choose|j: int| 0 <= j < prev.len() && prev[j] == albums[g].0[k].1;
        assert((prev + last)[j] == prev[j]);
    }
}

proof fn lemma_playlist_from(albums: Seq<(Seq<(u32, Seq<char>)>, Seq<char>)>, p: Seq<char>)
    requires
        playlist(albums).contains(p),
    ensures
        exists|g: int, k: int|
            0 <= g < albums.len() && 0 <= k < albums[g].0.len() && #[trigger] albums[g].0[k].1 == p,
    decreases albums.len(),
{
    let prev = playlist(albums.drop_last());
    let last = track_paths(albums.last().0);
    let j = choose|j: int| 0 <= j < (prev + last).len() && (prev + last)[j] == p;
    if j < prev.len() {
        assert(prev[j] == p);
        lemma_playlist_from(albums.drop_last(), p);
        let (g, k) = choose|g: int, k: int|
            0 <= g < albums.drop_last().len() && 0 <= k < albums.drop_last()[g].0.len()
                && #[trigger] albums.drop_last()[g].0[k].1 == p;
        assert(albums[g] == albums.drop_last()[g]);
        assert(albums[g].0[k].1 == p);
    } else {
        let g = albums.len() - 1;
        assert(albums[g].0[j - prev.len()].1 == p);
    }
}

/// The play order of a directory holds each song of the directory, and
/// nothing else.
pub proof fn lemma_directory_order_songs(files: Seq<SongFileView>, start: int, order: Seq<Seq<char>>)
    requires
        directory_order(files, start, order),
    ensures
        forall|i: int| 0 <= i < files.len() ==> order.contains(#[trigger] files[i].path),
        forall|p: Seq<char>|
            order.contains(p) ==> exists|i: int| 0 <= i < files.len() && #[trigger] files[i].path == p,
{
    let m = album_map(files, start);
    let a = choose|a: Seq<(Seq<(u32, Seq<char>)>, Seq<char>)>|
        album_arrangement(m, a) && order == playlist(a);
    assert forall|i: int| 0 <= i < files.len() implies order.contains(#[trigger] files[i].path) by {
        lemma_album_map_keeps(files, start, i);
        let n = album_name(files[i]);
        let g = choose|g: int| 0 <= g < a.len() && #[trigger] a[g].1 == n;
        assert(m.contains_key(a[g].1));
        assert(m[n].contains_key(files[i].path));
        let k = choose|k: int| 0 <= k < a[g].0.len() && #[trigger] a[g].0[k].1 == files[i].path;
        lemma_playlist_contains(a, g, k);
    }
    assert forall|p: Seq<char>| order.contains(p) implies exists|i: int|
        0 <= i < files.len() && #[trigger] files[i].path == p by {
        lemma_playlist_from(a, p);
        let (g, k) = choose|g: int, k: int|
            0 <= g < a.len() && 0 <= k < a[g].0.len() && #[trigger] a[g].0[k].1 == p;
        assert(m.contains_key(a[g].1));
        assert(lists_songs(m[a[g].1], a[g].0));
        assert(m[a[g].1].contains_key(a[g].0[k].1));
        lemma_album_map_songs(files, start, a[g].1, p);
    }
}

/// Whether a file with extension `ext` is played: flac, mp3, wav and ogg
/// files are.
pub fn is_playable_extension(ext: &str) -> (r: bool)
    ensures
        r == (ext@ == "flac"@ || ext@ == "mp3"@ || ext@ == "wav"@ || ext@ == "ogg"@),
{
    text_eq(ext, "flac") || text_eq(ext, "mp3") || text_eq(ext, "wav") || text_eq(ext, "ogg")
}

/// Whether the songs without a track number of `files` can be numbered on
/// from `entry_count` (as a `u32`) without passing `u32::MAX`.
pub fn numbering_fits(files: &Vec<SongFile>, entry_count: usize) -> (r: bool)
    ensures
        r == (counter_after(file_views(files@), (entry_count as u32) as int) <= u32::MAX),
{
    let ghost fv = file_views(files@);
    let ghost start = (entry_count as u32) as int;
    let mut counter: u64 = (entry_count as u32) as u64;
    let mut i: usize = 0;
    proof {
        assert(fv.take(0) =~= Seq::<SongFileView>::empty());
    }
    while i < files.len()
        invariant
            fv == file_views(files@),
            i <= files.len(),
            counter == counter_after(fv.take(i as int), start),
            counter <= u32::MAX,
            start == (entry_count as u32) as int,
        decreases files.len() - i,
    {
        let ghost cur = fv.take(i + 1);
        proof {
            assert(cur.drop_last() =~= fv.take(i as int));
            assert(cur.last() == files[i as int]@);
        }
        let untracked = match &files[i].tags {
            None => true,
            Some(t) => t.track.is_none(),
        };
        if untracked {
            counter = counter + 1;
        }
        if counter > u32::MAX as u64 {
            proof {
                lemma_counter_prefix(fv, start, i + 1);
            }
            return false;
        }
        i = i + 1;
    }
    proof {
        assert(fv.take(files.len() as int) =~= fv);
    }
    true
}

/// No item of `s` occurs twice.
pub open spec fn no_repeats<A>(s: Seq<A>) -> bool {
    forall|i: int, j: int| 0 <= i < j < s.len() ==> s[i] != s[j]
}

/// Each path stands at one place of one album only.
pub open spec fn paths_unique(albums: Seq<(Seq<(u32, Seq<char>)>, Seq<char>)>) -> bool {
    forall|g1: int, k1: int, g2: int, k2: int|
        0 <= g1 < albums.len() && 0 <= k1 < albums[g1].0.len() && 0 <= g2 < albums.len() && 0
            <= k2 < albums[g2].0.len() && #[trigger] albums[g1].0[k1].1 == #[trigger] albums[g2].0[k2].1
            ==> g1 == g2 && k1 == k2
}

proof fn lemma_playlist_no_repeats(albums: Seq<(Seq<(u32, Seq<char>)>, Seq<char>)>)
    requires
        paths_unique(albums),
    ensures
        no_repeats(playlist(albums)),
    decreases albums.len(),
{
    if albums.len() > 0 {
        let front = albums.drop_last();
        let g = albums.len() - 1;
        assert forall|g1: int, k1: int, g2: int, k2: int|
            0 <= g1 < front.len() && 0 <= k1 < front[g1].0.len() && 0 <= g2 < front.len() && 0
                <= k2 < front[g2].0.len() && #[trigger] front[g1].0[k1].1 == #[trigger] front[g2].0[k2].1
            implies g1 == g2 && k1 == k2 by {
            assert(front[g1] == albums[g1] && front[g2] == albums[g2]);
        }
        lemma_playlist_no_repeats(front);
        let prev = playlist(front);
        let last = track_paths(albums.last().0);
        let all = prev + last;
        assert forall|i: int, j: int| 0 <= i < j < all.len() implies all[i] != all[j] by {
            if j < prev.len() {
                assert(all[i] == prev[i] && all[j] == prev[j]);
            } else if i >= prev.len() {
                let (k1, k2) = (i - prev.len(), j - prev.len());
                assert(all[i] == albums[g].0[k1].1 && all[j] == albums[g].0[k2].1);
            } else {
                let k2 = j - prev.len();
                assert(all[j] == albums[g].0[k2].1);
                if all[i] == all[j] {
                    assert(prev.contains(prev[i]));
                    lemma_playlist_from(front, prev[i]);
                    let (g1, k1) = choose|g1: int, k1: int|
                        0 <= g1 < front.len() && 0 <= k1 < front[g1].0.len()
                            && #[trigger] front[g1].0[k1].1 == prev[i];
                    assert(front[g1] == albums[g1]);
                    assert(albums[g1].0[k1].1 == albums[g].0[k2].1);
                }
            }
        }
    }
}

/// Where the song files have distinct paths, the play order holds no song
/// twice.
pub proof fn lemma_directory_order_no_repeats(
    files: Seq<SongFileView>,
    start: int,
    order: Seq<Seq<char>>,
)
    requires
        directory_order(files, start, order),
        forall|i: int, j: int| 0 <= i < j < files.len() ==> files[i].path != files[j].path,
    ensures
        no_repeats(order),
{
    let m = album_map(files, start);
    let a = choose|a: Seq<(Seq<(u32, Seq<char>)>, Seq<char>)>|
        album_arrangement(m, a) && order == playlist(a);
    assert forall|g1: int, k1: int, g2: int, k2: int|
        0 <= g1 < a.len() && 0 <= k1 < a[g1].0.len() && 0 <= g2 < a.len() && 0 <= k2 < a[g2].0.len()
            && #[trigger] a[g1].0[k1].1 == #[trigger] a[g2].0[k2].1 implies g1 == g2 && k1 == k2 by {
        let p = a[g1].0[k1].1;
        assert(m.contains_key(a[g1].1) && lists_songs(m[a[g1].1], a[g1].0));
        assert(m.contains_key(a[g2].1) && lists_songs(m[a[g2].1], a[g2].0));
        assert(m[a[g1].1].contains_key(a[g1].0[k1].1));
        assert(m[a[g2].1].contains_key(a[g2].0[k2].1));
        lemma_album_map_songs(files, start, a[g1].1, p);
        lemma_album_map_songs(files, start, a[g2].1, p);
        let i1 = choose|i: int|
            0 <= i < files.len() && #[trigger] files[i].path == p && album_name(files[i]) == a[g1].1;
        let i2 = choose|i: int|
            0 <= i < files.len() && #[trigger] files[i].path == p && album_name(files[i]) == a[g2].1;
        if i1 != i2 {
            if i1 < i2 {
                assert(files[i1].path != files[i2].path);
            } else {
                assert(files[i2].path != files[i1].path);
            }
        }
        assert(a[g1].1 == a[g2].1);
        if g1 != g2 {
            assert(a[g1].1 != a[g2].1);
        }
    }
    lemma_playlist_no_repeats(a);
}

/// A song file without a track number of its own: no tags, or tags without
/// a track.
pub open spec fn lacks_track_number() -> spec_fn(SongFileView) -> bool {
    |f: SongFileView| f.tags is None || f.tags->0.track is None
}

proof fn lemma_counter_counts(files: Seq<SongFileView>, start: int)
    ensures
        counter_after(files, start) == start + files.filter(lacks_track_number()).len(),
    decreases files.len(),
{
    reveal(Seq::filter);
    if files.len() > 0 {
        lemma_counter_counts(files.drop_last(), start);
    }
}

/// A song's track number is its tag's track where it has one; every other
/// song, tagged or not, takes the directory counter: the start (the entry
/// count) plus the number of earlier songs without a track number, plus one.
pub proof fn lemma_track_numbers(files: Seq<SongFileView>, start: int, i: int)
    requires
        0 <= i < files.len(),
    ensures
        files[i].tags matches Some(t) && t.track is Some ==> track_number(files, start, i)
            == files[i].tags->0.track->0 as int,
        (files[i].tags is None || files[i].tags->0.track is None) ==> track_number(files, start, i)
            == start + files.take(i).filter(lacks_track_number()).len() + 1,
{
    lemma_counter_counts(files.take(i), start);
}

proof fn lemma_album_map_numbers(files: Seq<SongFileView>, start: int, i: int)
    requires
        0 <= i < files.len(),
        forall|a: int, b: int| 0 <= a < b < files.len() ==> files[a].path != files[b].path,
    ensures
        album_map(files, start).contains_key(album_name(files[i])),
        album_map(files, start)[album_name(files[i])].contains_key(files[i].path),
        album_map(files, start)[album_name(files[i])][files[i].path] == track_number(files, start, i),
    decreases files.len(),
{
    lemma_album_map_keeps(files, start, i);
    let last = files.len() - 1;
    if i < last {
        let front = files.drop_last();
        assert forall|a: int, b: int| 0 <= a < b < front.len() implies front[a].path
            != front[b].path by {
            assert(front[a] == files[a] && front[b] == files[b]);
        }
        assert(front[i] == files[i]);
        lemma_album_map_numbers(front, start, i);
        assert(front.take(i) =~= files.take(i));
        assert(files[i].path != files[last].path);
    }
}

proof fn lemma_playlist_index(albums: Seq<(Seq<(u32, Seq<char>)>, Seq<char>)>, g: int, k: int)
    requires
        0 <= g < albums.len(),
        0 <= k < albums[g].0.len(),
    ensures
        playlist(albums.take(g)).len() + k < playlist(albums).len(),
        playlist(albums)[playlist(albums.take(g)).len() + k] == albums[g].0[k].1,
    decreases albums.len(),
{
    let front = albums.drop_last();
    let prev = playlist(front);
    let last = track_paths(albums.last().0);
    if g == albums.len() - 1 {
        assert(albums.take(g) =~= front);
    } else {
        lemma_playlist_index(front, g, k);
        assert(front.take(g) =~= albums.take(g));
        assert(front[g] == albums[g]);
    }
}

/// Within an album of a directory whose songs have distinct paths, a song
/// with a lower track number plays before one with a higher track number.
pub proof fn lemma_lower_track_plays_first(
    files: Seq<SongFileView>,
    start: int,
    order: Seq<Seq<char>>,
    i: int,
    j: int,
)
    requires
        directory_order(files, start, order),
        forall|a: int, b: int| 0 <= a < b < files.len() ==> files[a].path != files[b].path,
        0 <= i < files.len(),
        0 <= j < files.len(),
        album_name(files[i]) == album_name(files[j]),
        track_number(files, start, i) < track_number(files, start, j),
    ensures
        exists|x: int, y: int|
            0 <= x < y < order.len() && order[x] == files[i].path && order[y] == files[j].path,
{
    let m = album_map(files, start);
    let arr = choose|a: Seq<(Seq<(u32, Seq<char>)>, Seq<char>)>|
        album_arrangement(m, a) && order == playlist(a);
    let name = album_name(files[i]);
    lemma_album_map_numbers(files, start, i);
    lemma_album_map_numbers(files, start, j);
    let g = choose|g: int| 0 <= g < arr.len() && #[trigger] arr[g].1 == name;
    assert(m.contains_key(arr[g].1) && lists_songs(m[arr[g].1], arr[g].0));
    let tracks = arr[g].0;
    let ki = choose|k: int| 0 <= k < tracks.len() && #[trigger] tracks[k].1 == files[i].path;
    let kj = choose|k: int| 0 <= k < tracks.len() && #[trigger] tracks[k].1 == files[j].path;
    assert(tracks[ki].0 as int == track_number(files, start, i));
    assert(tracks[kj].0 as int == track_number(files, start, j));
    assert(strictly_sorted::<Track>(arr[g].0));
    if kj < ki {
        assert(track_precedes(tracks[kj], tracks[ki]));
    }
    assert(ki != kj);
    lemma_playlist_index(arr, g, ki);
    lemma_playlist_index(arr, g, kj);
    let base = playlist(arr.take(g)).len() as int;
    assert(order[base + ki] == files[i].path && order[base + kj] == files[j].path);
}

} // verus!
