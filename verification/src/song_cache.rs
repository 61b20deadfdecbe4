//! The song cards of the desktop shell: the cache of known songs by path,
//! and how a card's title and thumbnail name are chosen.
use vstd::prelude::*;

use crate::paths::{path_key, same_path};
use crate::text::{is_separator, text_eq, without_separators};

verus! {

/// What the shell shows of a song.
#[derive(Debug)]
pub struct Song {
    pub path: String,
    pub title: String,
    pub thumbnail: String,
}

pub struct SongView {
    pub path: Seq<char>,
    pub title: Seq<char>,
    pub thumbnail: Seq<char>,
}

impl View for Song {
    type V = SongView;

    open spec fn view(&self) -> SongView {
        SongView { path: self.path@, title: self.title@, thumbnail: self.thumbnail@ }
    }
}

impl Song {
    /// A copy of the song.
    pub fn duplicate(&self) -> (s: Song)
        ensures
            s@ == self@,
    {
        Song { path: self.path.clone(), title: self.title.clone(), thumbnail: self.thumbnail.clone() }
    }
}

/// The known songs, by path; paths are compared by their components (see
/// `crate::paths`), as `std::path::Path` compares them.
pub struct SongCache {
    entries: Vec<(String, Song)>,
}

/// The components of a path, as a map key.
pub type PathKeyView = (bool, bool, Seq<Seq<char>>);

/// The cache held by `entries`, where no two paths have the same
/// components.
pub open spec fn entries_map(entries: Seq<(String, Song)>) -> Map<PathKeyView, SongView>
    decreases entries.len(),
{
    if entries.len() == 0 {
        Map::empty()
    } else {
        entries_map(entries.drop_last()).insert(
            path_key(entries.last().0@),
            entries.last().1@,
        )
    }
}

/// No two entries have paths with the same components.
pub open spec fn keys_distinct(entries: Seq<(String, Song)>) -> bool {
    forall|i: int, j: int|
        0 <= i < entries.len() && 0 <= j < entries.len() && i != j ==> path_key(
            #[trigger] entries[i].0@,
        ) != path_key(#[trigger] entries[j].0@)
}

/// The path text kept for each set of components: the first path recorded
/// with them.
pub open spec fn kept_paths(entries: Seq<(String, Song)>) -> Map<PathKeyView, Seq<char>>
    decreases entries.len(),
{
    if entries.len() == 0 {
        Map::empty()
    } else {
        let prev = kept_paths(entries.drop_last());
        let k = path_key(entries.last().0@);
        if prev.contains_key(k) {
            prev
        } else {
            prev.insert(k, entries.last().0@)
        }
    }
}

proof fn lemma_kept_paths(entries: Seq<(String, Song)>)
    requires
        keys_distinct(entries),
    ensures
        forall|i: int|
            0 <= i < entries.len() ==> kept_paths(entries).contains_key(
                path_key(#[trigger] entries[i].0@),
            ) && kept_paths(entries)[path_key(entries[i].0@)] == entries[i].0@,
        forall|k: PathKeyView|
            #[trigger] kept_paths(entries).contains_key(k) ==> exists|i: int|
                0 <= i < entries.len() && path_key(#[trigger] entries[i].0@) == k,
    decreases entries.len(),
{
    if entries.len() > 0 {
        let prefix = entries.drop_last();
        let last = entries.len() - 1;
        assert forall|i: int, j: int|
            0 <= i < prefix.len() && 0 <= j < prefix.len() && i != j implies path_key(
            #[trigger] prefix[i].0@,
        ) != path_key(#[trigger] prefix[j].0@) by {
            assert(prefix[i] == entries[i] && prefix[j] == entries[j]);
        }
        lemma_kept_paths(prefix);
        assert(!kept_paths(prefix).contains_key(path_key(entries[last].0@))) by {
            if kept_paths(prefix).contains_key(path_key(entries[last].0@)) {
                let i = choose|i: int|
                    0 <= i < prefix.len() && path_key(#[trigger] prefix[i].0@) == path_key(
                        entries[last].0@,
                    );
                assert(prefix[i] == entries[i]);
            }
        }
        assert forall|i: int| 0 <= i < entries.len() implies kept_paths(entries).contains_key(
            path_key(#[trigger] entries[i].0@),
        ) && kept_paths(entries)[path_key(entries[i].0@)] == entries[i].0@ by {
            if i < last {
                assert(prefix[i] == entries[i]);
                assert(path_key(entries[i].0@) != path_key(entries[last].0@));
            }
        }
        assert forall|k: PathKeyView| #[trigger] kept_paths(entries).contains_key(k) implies exists|i: int|
            0 <= i < entries.len() && path_key(#[trigger] entries[i].0@) == k by {
            if k != path_key(entries[last].0@) {
                let i = choose|i: int| 0 <= i < prefix.len() && path_key(#[trigger] prefix[i].0@) == k;
                assert(entries[i] == prefix[i]);
                assert(path_key(entries[i].0@) == k);
            } else {
                assert(path_key(entries[last].0@) == k);
            }
        }
    }
}

proof fn lemma_kept_paths_texts(a: Seq<(String, Song)>, b: Seq<(String, Song)>)
    requires
        a.len() == b.len(),
        forall|i: int| 0 <= i < a.len() ==> #[trigger] a[i].0@ == b[i].0@,
    ensures
        kept_paths(a) == kept_paths(b),
    decreases a.len(),
{
    if a.len() > 0 {
        assert forall|i: int| 0 <= i < a.len() - 1 implies #[trigger] a.drop_last()[i].0@
            == b.drop_last()[i].0@ by {
            assert(a.drop_last()[i] == a[i] && b.drop_last()[i] == b[i]);
        }
        lemma_kept_paths_texts(a.drop_last(), b.drop_last());
        assert(a.last().0@ == b.last().0@);
    }
}

impl View for SongCache {
    type V = Map<PathKeyView, SongView>;

    closed spec fn view(&self) -> Map<PathKeyView, SongView> {
        entries_map(self.entries@)
    }
}

proof fn lemma_entries_map(entries: Seq<(String, Song)>)
    requires
        keys_distinct(entries),
    ensures
        forall|i: int|
            0 <= i < entries.len() ==> entries_map(entries).contains_key(
                path_key(#[trigger] entries[i].0@),
            ) && entries_map(entries)[path_key(entries[i].0@)] == entries[i].1@,
        forall|k: PathKeyView|
            #[trigger] entries_map(entries).contains_key(k) ==> exists|i: int|
                0 <= i < entries.len() && path_key(#[trigger] entries[i].0@) == k,
    decreases entries.len(),
{
    if entries.len() > 0 {
        let prefix = entries.drop_last();
        let last = entries.len() - 1;
        assert forall|i: int, j: int|
            0 <= i < prefix.len() && 0 <= j < prefix.len() && i != j implies path_key(
            #[trigger] prefix[i].0@,
        ) != path_key(#[trigger] prefix[j].0@) by {
            assert(prefix[i] == entries[i] && prefix[j] == entries[j]);
        }
        lemma_entries_map(prefix);
        assert forall|i: int| 0 <= i < entries.len() implies entries_map(entries).contains_key(
            path_key(#[trigger] entries[i].0@),
        ) && entries_map(entries)[path_key(entries[i].0@)] == entries[i].1@ by {
            if i < last {
                assert(prefix[i] == entries[i]);
                assert(path_key(entries[i].0@) != path_key(entries[last].0@));
            }
        }
        assert forall|k: PathKeyView| #[trigger] entries_map(entries).contains_key(k) implies exists|i: int|
            0 <= i < entries.len() && path_key(#[trigger] entries[i].0@) == k by {
            if k != path_key(entries[last].0@) {
                assert(entries_map(prefix).contains_key(k));
                let i = choose|i: int| 0 <= i < prefix.len() && path_key(#[trigger] prefix[i].0@) == k;
                assert(entries[i] == prefix[i]);
                assert(path_key(entries[i].0@) == k);
            } else {
                assert(path_key(entries[last].0@) == k);
            }
        }
    }
}

impl SongCache {
    #[verifier::type_invariant]
    closed spec fn distinct_paths(self) -> bool {
        keys_distinct(self.entries@)
    }

    /// The path text that the cache keeps for each set of components.
    pub closed spec fn paths(&self) -> Map<PathKeyView, Seq<char>> {
        kept_paths(self.entries@)
    }

    /// An empty cache.
    pub fn new() -> (c: SongCache)
        ensures
            c@ == Map::<PathKeyView, SongView>::empty(),
            c.paths() == Map::<PathKeyView, Seq<char>>::empty(),
    {
        let c = SongCache { entries: Vec::new() };
        assert(c.paths() =~= Map::empty());
        c
    }

    /// The cache of `entries`, recorded in order (see `insert`).
    pub fn from_entries(entries: Vec<(String, Song)>) -> (c: SongCache)
        ensures
            c@ == entries_map(entries@),
            c.paths() == kept_paths(entries@),
    {
        let mut c = SongCache::new();
        let mut i: usize = 0;
        proof {
            assert(entries@.take(0) =~= Seq::<(String, Song)>::empty());
        }
        while i < entries.len()
            invariant
                i <= entries.len(),
                c@ == entries_map(entries@.take(i as int)),
                c.paths() == kept_paths(entries@.take(i as int)),
            decreases entries.len() - i,
        {
            let key = entries[i].0.clone();
            let song = entries[i].1.duplicate();
            c.insert(key, song);
            proof {
                assert(entries@.take(i + 1).drop_last() =~= entries@.take(i as int));
            }
            i = i + 1;
        }
        proof {
            assert(entries@.take(entries.len() as int) =~= entries@);
        }
        c
    }

    /// The cached song of the path `path`, if there is one.
    pub fn lookup(&self, path: &str) -> (r: Option<Song>)
        ensures
            match r {
                Some(s) => self@.contains_key(path_key(path@)) && s@ == self@[path_key(path@)],
                None => !self@.contains_key(path_key(path@)),
            },
    {
        let mut i: usize = 0;
        while i < self.entries.len()
            invariant
                i <= self.entries.len(),
                forall|k: int| 0 <= k < i ==> path_key(#[trigger] self.entries@[k].0@) != path_key(path@),
            decreases self.entries.len() - i,
        {
            if same_path(self.entries[i].0.as_str(), path) {
                proof {
                    use_type_invariant(self);
                    lemma_entries_map(self.entries@);
                    assert(path_key(self.entries@[i as int].0@) == path_key(path@));
                }
                return Some(self.entries[i].1.duplicate());
            }
            i = i + 1;
        }
        proof {
            use_type_invariant(self);
            lemma_entries_map(self.entries@);
            if self@.contains_key(path_key(path@)) {
                let k = choose|k: int|
                    0 <= k < self.entries.len() && path_key(#[trigger] self.entries@[k].0@) == path_key(path@);
                assert(path_key(self.entries@[k].0@) != path_key(path@));
            }
        }
        None
    }

    /// Records `song` as the song of `path`. Where the cache already holds a
    /// path with the same components, that entry keeps its path and takes
    /// the new song.
    pub fn insert(&mut self, path: String, song: Song)
        ensures
            final(self)@ == old(self)@.insert(path_key(path@), song@),
            final(self).paths() == if old(self).paths().contains_key(path_key(path@)) {
                old(self).paths()
            } else {
                old(self).paths().insert(path_key(path@), path@)
            },
    {
        proof {
            use_type_invariant(&*self);
            lemma_entries_map(self.entries@);
            lemma_kept_paths(self.entries@);
        }
        let ghost before = self.entries@;
        let ghost pk = path_key(path@);
        let ghost pt = path@;
        let ghost sv = song@;
        let mut i: usize = 0;
        while i < self.entries.len() && !same_path(self.entries[i].0.as_str(), path.as_str())
            invariant
                i <= self.entries.len(),
                self.entries@ == before,
                pk == path_key(path@),
                forall|k: int| 0 <= k < i ==> path_key(#[trigger] before[k].0@) != pk,
            decreases self.entries.len() - i,
        {
            i = i + 1;
        }
        proof {
            if i < before.len() {
                assert(path_key(before[i as int].0@) == pk);
            }
        }
        let mut entries: Vec<(String, Song)> = Vec::new();
        std::mem::swap(&mut entries, &mut self.entries);
        if i < entries.len() {
            let key = entries[i].0.clone();
            entries.set(i, (key, song));
            proof {
                let after = entries@;
                assert forall|j: int| 0 <= j < after.len() implies #[trigger] after[j].0@
                    == before[j].0@ by {
                    if j != i {
                        assert(after[j] == before[j]);
                    }
                }
                lemma_kept_paths_texts(after, before);
                assert(kept_paths(before).contains_key(pk));
                assert(path_key(after[i as int].0@) == pk && after[i as int].1@ == sv);
                assert forall|a: int, b: int|
                    0 <= a < after.len() && 0 <= b < after.len() && a != b implies path_key(
                    #[trigger] after[a].0@,
                ) != path_key(#[trigger] after[b].0@) by {
                    if a != i {
                        assert(after[a] == before[a]);
                    }
                    if b != i {
                        assert(after[b] == before[b]);
                    }
                }
                lemma_entries_map(after);
                assert(entries_map(after) =~= entries_map(before).insert(pk, sv)) by {
                    assert forall|k: PathKeyView| #[trigger] entries_map(after).contains_key(k)
                        <==> entries_map(before).insert(pk, sv).contains_key(k) by {
                        if entries_map(after).contains_key(k) {
                            let j = choose|j: int| 0 <= j < after.len() && path_key(#[trigger] after[j].0@) == k;
                            if j != i {
                                assert(after[j] == before[j]);
                            }
                        }
                        if entries_map(before).contains_key(k) {
                            let j = choose|j: int| 0 <= j < before.len() && path_key(#[trigger] before[j].0@) == k;
                            if j != i {
                                assert(after[j] == before[j]);
                            }
                        }
                    }
                    assert forall|k: PathKeyView| #[trigger] entries_map(after).contains_key(k)
                        implies entries_map(after)[k] == entries_map(before).insert(pk, sv)[k] by {
                        let j = choose|j: int| 0 <= j < after.len() && path_key(#[trigger] after[j].0@) == k;
                        if j != i {
                            assert(after[j] == before[j]);
                        }
                    }
                }
            }
        } else {
            entries.push((path, song));
            proof {
                let after = entries@;
                assert(after.drop_last() =~= before);
                assert(!kept_paths(before).contains_key(pk)) by {
                    if kept_paths(before).contains_key(pk) {
                        let j = choose|j: int| 0 <= j < before.len() && path_key(#[trigger] before[j].0@) == pk;
                    }
                }
                assert(after.last().0@ == pt);
                assert forall|a: int, b: int|
                    0 <= a < after.len() && 0 <= b < after.len() && a != b implies path_key(
                    #[trigger] after[a].0@,
                ) != path_key(#[trigger] after[b].0@) by {
                    if a < before.len() {
                        assert(after[a] == before[a]);
                    }
                    if b < before.len() {
                        assert(after[b] == before[b]);
                    }
                }
            }
        }
        self.entries = entries;
    }

    /// The cached songs with their paths.
    pub fn entries(&self) -> (e: &Vec<(String, Song)>)
        ensures
            entries_map(e@) == self@,
            kept_paths(e@) == self.paths(),
            keys_distinct(e@),
    {
        proof {
            use_type_invariant(self);
        }
        &self.entries
    }
}

/// A later lookup of a path gives the song last recorded for a path with
/// the same components, and recording a song leaves paths with other
/// components as they were.
pub proof fn lemma_cache_read_after_write(
    cache: Map<PathKeyView, SongView>,
    path: Seq<char>,
    song: SongView,
    lookup: Seq<char>,
)
    ensures
        path_key(lookup) == path_key(path) ==> cache.insert(path_key(path), song).contains_key(
            path_key(lookup),
        ) && cache.insert(path_key(path), song)[path_key(lookup)] == song,
        path_key(lookup) != path_key(path) ==> (cache.insert(path_key(path), song).contains_key(
            path_key(lookup),
        ) == cache.contains_key(path_key(lookup)) && (cache.contains_key(path_key(lookup))
            ==> cache.insert(path_key(path), song)[path_key(lookup)] == cache[path_key(lookup)])),
{
}

/// The extension of a thumbnail of the given picture type: png for
/// "image/png", jpg for "image/jpeg" and "image/jpg", bin for any other.
pub open spec fn thumbnail_extension_of(mime: Seq<char>) -> Seq<char> {
    if mime == "image/png"@ {
        "png"@
    } else if mime == "image/jpeg"@ || mime == "image/jpg"@ {
        "jpg"@
    } else {
        "bin"@
    }
}

/// The extension of a thumbnail of the picture type `mime`.
pub fn thumbnail_extension(mime: &str) -> (ext: String)
    ensures
        ext@ == thumbnail_extension_of(mime@),
{
    if text_eq(mime, "image/png") {
        String::from_str("png")
    } else if text_eq(mime, "image/jpeg") || text_eq(mime, "image/jpg") {
        String::from_str("jpg")
    } else {
        String::from_str("bin")
    }
}

/// The base name of a song's thumbnail: its title without slashes and
/// backslashes.
pub fn thumbnail_base_name(title: &str) -> (name: String)
    ensures
        name@ == title@.filter(|c: char| !is_separator(c)),
{
    without_separators(title)
}

/// A song's title: its tag's title, else its file name.
pub fn song_title(tag_title: Option<String>, file_name: String) -> (title: String)
    ensures
        title@ == match tag_title {
            Some(t) => t@,
            None => file_name@,
        },
{
    match tag_title {
        Some(t) => t,
        None => file_name,
    }
}

/// The tags of a song file that a card is made from: its title, and the
/// picture type of its first picture, if it has a picture.
pub struct CardTags {
    pub title: Option<String>,
    pub picture_mime: Option<String>,
}

/// The thumbnail of a card.
pub enum Thumbnail {
    /// The default thumbnail.
    Default,
    /// The song's own picture, saved under `base_name` with `extension`.
    Picture { base_name: String, extension: String },
}

/// How a card is made: its title, and the base name and extension of its
/// thumbnail (`None` for the default thumbnail).
pub open spec fn card_plan(
    tags: Option<(Option<Seq<char>>, Option<Seq<char>>)>,
    file_name: Seq<char>,
) -> (Seq<char>, Option<(Seq<char>, Seq<char>)>) {
    match tags {
        None => (file_name, None),
        Some((title, mime)) => {
            let t = match title {
                Some(x) => x,
                None => file_name,
            };
            match mime {
                None => (t, None),
                Some(m) => (
                    t,
                    Some((t.filter(|c: char| !is_separator(c)), thumbnail_extension_of(m))),
                ),
            }
        },
    }
}

/// The view of card tags.
pub open spec fn card_tags_view(tags: Option<CardTags>) -> Option<
    (Option<Seq<char>>, Option<Seq<char>>),
> {
    match tags {
        None => None,
        Some(t) => Some(
            (
                match t.title {
                    Some(x) => Some(x@),
                    None => None,
                },
                match t.picture_mime {
                    Some(m) => Some(m@),
                    None => None,
                },
            ),
        ),
    }
}

/// The view of a thumbnail.
pub open spec fn thumbnail_view(t: Thumbnail) -> Option<(Seq<char>, Seq<char>)> {
    match t {
        Thumbnail::Default => None,
        Thumbnail::Picture { base_name, extension } => Some((base_name@, extension@)),
    }
}

/// The title and thumbnail of the card of a song with tags `tags` (`None`
/// where the file has none) and file name `file_name`.
pub fn plan_card(tags: Option<CardTags>, file_name: String) -> (plan: (String, Thumbnail))
    ensures
        (plan.0@, thumbnail_view(plan.1)) == card_plan(card_tags_view(tags), file_name@),
{
    match tags {
        None => (file_name, Thumbnail::Default),
        Some(t) => {
            let title = song_title(t.title, file_name);
            match t.picture_mime {
                None => (title, Thumbnail::Default),
                Some(m) => {
                    let base_name = thumbnail_base_name(title.as_str());
                    let extension = thumbnail_extension(m.as_str());
                    (title, Thumbnail::Picture { base_name, extension })
                },
            }
        },
    }
}

/// A card's title is the tag's title whenever the song has tags with a
/// title, picture or not, and the file name otherwise; the thumbnail is the
/// default one unless the tags hold a picture, which is then saved under
/// the title without slashes and backslashes, with the extension of its
/// picture type.
pub proof fn lemma_card_title_and_thumbnail(
    tags: Option<(Option<Seq<char>>, Option<Seq<char>>)>,
    file_name: Seq<char>,
)
    ensures
        tags matches Some((Some(t), _)) ==> card_plan(tags, file_name).0 == t,
        (tags is None || tags matches Some((None, _))) ==> card_plan(tags, file_name).0
            == file_name,
        (tags is None || tags matches Some((_, None))) ==> card_plan(tags, file_name).1 is None,
        tags matches Some((_, Some(m))) ==> card_plan(tags, file_name).1 == Some(
            (
                card_plan(tags, file_name).0.filter(|c: char| c != '/' && c != '\\'),
                if m == "image/png"@ {
                    "png"@
                } else if m == "image/jpeg"@ || m == "image/jpg"@ {
                    "jpg"@
                } else {
                    "bin"@
                },
            ),
        ),
{
    let keep = |c: char| c != '/' && c != '\\';
    assert(keep =~= (|c: char| !is_separator(c)));
}

} // verus!
