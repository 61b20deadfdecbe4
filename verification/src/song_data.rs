//! Identifying a song: the recordings that an AcoustID lookup names, the
//! albums of an artist, whether a recording belongs to one of them, and the
//! file name of a downloaded cover.
use vstd::prelude::*;

use crate::queue::{opt_text, texts};
use crate::text::contains_text;

verus! {

/// A recording of an AcoustID result: its id, if it has one as a string,
/// and whether its duration is close enough to the song's (a recording
/// without a duration is).
pub struct AcoustidRecording {
    pub id: Option<String>,
    pub duration_ok: bool,
}

/// The `recordings` field of an AcoustID result.
pub enum RecordingsField {
    /// The result has no such field.
    Absent,
    /// The field is there, but not a list.
    NotAList,
    /// The recordings.
    List(Vec<AcoustidRecording>),
}

/// An AcoustID result.
pub struct AcoustidResult {
    pub recordings: RecordingsField,
}

pub struct RecordingView {
    pub id: Option<Seq<char>>,
    pub duration_ok: bool,
}

pub enum RecordingsFieldView {
    Absent,
    NotAList,
    List(Seq<RecordingView>),
}

impl View for AcoustidRecording {
    type V = RecordingView;

    open spec fn view(&self) -> RecordingView {
        RecordingView {
            id: match self.id {
                Some(i) => Some(i@),
                None => None,
            },
            duration_ok: self.duration_ok,
        }
    }
}

impl View for AcoustidResult {
    type V = RecordingsFieldView;

    open spec fn view(&self) -> RecordingsFieldView {
        match self.recordings {
            RecordingsField::Absent => RecordingsFieldView::Absent,
            RecordingsField::NotAList => RecordingsFieldView::NotAList,
            RecordingsField::List(v) => RecordingsFieldView::List(
                v@.map_values(|r: AcoustidRecording| r@),
            ),
        }
    }
}

/// The ids of the recordings whose duration fits, in order; `None` where a
/// recording has no id.
pub open spec fn recording_ids(recs: Seq<RecordingView>) -> Option<Seq<Seq<char>>>
    decreases recs.len(),
{
    if recs.len() == 0 {
        Some(Seq::empty())
    } else {
        match recording_ids(recs.drop_last()) {
            None => None,
            Some(prev) => match recs.last().id {
                None => None,
                Some(id) => Some(
                    if recs.last().duration_ok {
                        prev.push(id)
                    } else {
                        prev
                    },
                ),
            },
        }
    }
}

/// The ids of the fitting recordings of all results, result after result;
/// `None` where a result's recordings are not a list or a recording has no
/// id.
pub open spec fn result_ids(results: Seq<RecordingsFieldView>) -> Option<Seq<Seq<char>>>
    decreases results.len(),
{
    if results.len() == 0 {
        Some(Seq::empty())
    } else {
        match result_ids(results.drop_last()) {
            None => None,
            Some(prev) => match results.last() {
                RecordingsFieldView::Absent => Some(prev),
                RecordingsFieldView::NotAList => None,
                RecordingsFieldView::List(recs) => match recording_ids(recs) {
                    None => None,
                    Some(ids) => Some(prev + ids),
                },
            },
        }
    }
}

fn ids_of_recordings(recs: &Vec<AcoustidRecording>) -> (r: Option<Vec<String>>)
    ensures
        match r {
            Some(v) => recording_ids(recs@.map_values(|x: AcoustidRecording| x@)) == Some(texts(v@)),
            None => recording_ids(recs@.map_values(|x: AcoustidRecording| x@)) is None,
        },
{
    let ghost rv = recs@.map_values(|x: AcoustidRecording| x@);
    let mut ids: Vec<String> = Vec::new();
    let mut i: usize = 0;
    proof {
        assert(rv.take(0) =~= Seq::<RecordingView>::empty());
        assert(texts(ids@) =~= Seq::empty());
    }
    while i < recs.len()
        invariant
            rv == recs@.map_values(|x: AcoustidRecording| x@),
            i <= recs.len(),
            recording_ids(rv.take(i as int)) == Some(texts(ids@)),
        decreases recs.len() - i,
    {
        let rec = &recs[i];
        proof {
            assert(rv.take(i + 1).drop_last() =~= rv.take(i as int));
            assert(rv.take(i + 1).last() == rec@);
        }
        match &rec.id {
            None => {
                proof {
                    lemma_recording_ids_none(rv, i + 1);
                }
                return None;
            },
            Some(id) => {
                if rec.duration_ok {
                    let ghost before = ids@;
                    ids.push(id.clone());
                    proof {
                        assert(texts(ids@) =~= texts(before).push(id@));
                    }
                }
            },
        }
        i = i + 1;
    }
    proof {
        assert(rv.take(recs.len() as int) =~= rv);
    }
    Some(ids)
}

proof fn lemma_recording_ids_none(recs: Seq<RecordingView>, i: int)
    requires
        0 <= i <= recs.len(),
        recording_ids(recs.take(i)) is None,
    ensures
        recording_ids(recs) is None,
    decreases recs.len() - i,
{
    if i < recs.len() {
        assert(recs.take(i + 1).drop_last() =~= recs.take(i));
        lemma_recording_ids_none(recs, i + 1);
    } else {
        assert(recs.take(i) =~= recs);
    }
}

proof fn lemma_result_ids_none(results: Seq<RecordingsFieldView>, i: int)
    requires
        0 <= i <= results.len(),
        result_ids(results.take(i)) is None,
    ensures
        result_ids(results) is None,
    decreases results.len() - i,
{
    if i < results.len() {
        assert(results.take(i + 1).drop_last() =~= results.take(i));
        lemma_result_ids_none(results, i + 1);
    } else {
        assert(results.take(i) =~= results);
    }
}

fn ids_of_results(results: &Vec<AcoustidResult>) -> (ids: Option<Vec<String>>)
    ensures
        match ids {
            Some(v) => result_ids(results@.map_values(|x: AcoustidResult| x@)) == Some(texts(v@)),
            None => result_ids(results@.map_values(|x: AcoustidResult| x@)) is None,
        },
{
    let ghost rv = results@.map_values(|x: AcoustidResult| x@);
    let mut ids: Vec<String> = Vec::new();
    let mut i: usize = 0;
    proof {
        assert(rv.take(0) =~= Seq::<RecordingsFieldView>::empty());
        assert(texts(ids@) =~= Seq::empty());
    }
    while i < results.len()
        invariant
            rv == results@.map_values(|x: AcoustidResult| x@),
            i <= results.len(),
            result_ids(rv.take(i as int)) == Some(texts(ids@)),
        decreases results.len() - i,
    {
        let result = &results[i];
        proof {
            assert(rv.take(i + 1).drop_last() =~= rv.take(i as int));
            assert(rv.take(i + 1).last() == result@);
        }
        match &result.recordings {
            RecordingsField::Absent => {},
            RecordingsField::NotAList => {
                proof {
                    lemma_result_ids_none(rv, i + 1);
                }
                return None;
            },
            RecordingsField::List(recs) => {
                match ids_of_recordings(recs) {
                    None => {
                        proof {
                            lemma_result_ids_none(rv, i + 1);
                        }
                        return None;
                    },
                    Some(mut more) => {
                        let ghost before = ids@;
                        let ghost added = more@;
                        ids.append(&mut more);
                        proof {
                            assert(texts(ids@) =~= texts(before) + texts(added));
                        }
                    },
                }
            },
        }
        i = i + 1;
    }
    proof {
        assert(rv.take(results.len() as int) =~= rv);
    }
    Some(ids)
}

/// The MusicBrainz ids that an AcoustID lookup names: `results` is `None`
/// where the lookup has no list of results.
pub fn get_musicbrainz_id(results: Option<Vec<AcoustidResult>>) -> (ids: Option<Vec<String>>)
    ensures
        match results {
            None => ids is None,
            Some(rs) => match ids {
                Some(v) => result_ids(rs@.map_values(|x: AcoustidResult| x@)) == Some(texts(v@)),
                None => result_ids(rs@.map_values(|x: AcoustidResult| x@)) is None,
            },
        },
{
    match results {
        None => None,
        Some(rs) => ids_of_results(&rs),
    }
}

/// The recordings of all results that have a list of them, result after
/// result, in document order.
pub open spec fn listed_recordings(results: Seq<RecordingsFieldView>) -> Seq<RecordingView>
    decreases results.len(),
{
    if results.len() == 0 {
        Seq::empty()
    } else {
        let prev = listed_recordings(results.drop_last());
        match results.last() {
            RecordingsFieldView::List(recs) => prev + recs,
            _ => prev,
        }
    }
}

/// The recordings whose duration fits.
pub open spec fn fits() -> spec_fn(RecordingView) -> bool {
    |r: RecordingView| r.duration_ok
}

/// The id of a recording.
pub open spec fn id_of() -> spec_fn(RecordingView) -> Seq<char> {
    |r: RecordingView| r.id->0
}

proof fn lemma_recording_ids_are_fitting(recs: Seq<RecordingView>)
    ensures
        recording_ids(recs) is Some <==> forall|k: int| 0 <= k < recs.len() ==> #[trigger] recs[k].id is Some,
        recording_ids(recs) is Some ==> recording_ids(recs) == Some(
            recs.filter(fits()).map_values(id_of()),
        ),
    decreases recs.len(),
{
    reveal(Seq::filter);
    if recs.len() > 0 {
        let front = recs.drop_last();
        lemma_recording_ids_are_fitting(front);
        assert forall|k: int| 0 <= k < front.len() implies front[k] == recs[k] by {}
        if recording_ids(front) is Some && recs.last().id is Some {
            let prev = front.filter(fits()).map_values(id_of());
            if recs.last().duration_ok {
                assert(recs.filter(fits()) == front.filter(fits()).push(recs.last()));
                assert(recs.filter(fits()).map_values(id_of()) =~= prev.push(recs.last().id->0));
            } else {
                assert(recs.filter(fits()) == front.filter(fits()));
            }
        }
        if !(recording_ids(front) is Some) {
            let k = choose|k: int| 0 <= k < front.len() && !(#[trigger] front[k].id is Some);
            assert(recs[k] == front[k]);
        }
        if recording_ids(recs) is Some {
            assert forall|k: int| 0 <= k < recs.len() implies #[trigger] recs[k].id is Some by {
                if k < front.len() {
                    assert(front[k] == recs[k]);
                }
            }
        }
    }
}

/// The ids found in an AcoustID lookup are exactly the ids of all
/// recordings of all results whose duration fits, in document order; there
/// are none (`None`) exactly where some result's recordings are not a list
/// or some listed recording has no id.
pub proof fn lemma_result_ids_are_all_fitting(results: Seq<RecordingsFieldView>)
    ensures
        result_ids(results) is Some <==> (forall|i: int|
            0 <= i < results.len() ==> !(#[trigger] results[i] is NotAList)) && (forall|k: int|
            0 <= k < listed_recordings(results).len() ==> #[trigger] listed_recordings(
                results,
            )[k].id is Some),
        result_ids(results) is Some ==> result_ids(results) == Some(
            listed_recordings(results).filter(fits()).map_values(id_of()),
        ),
    decreases results.len(),
{
    if results.len() > 0 {
        let front = results.drop_last();
        lemma_result_ids_are_all_fitting(front);
        let lf = listed_recordings(front);
        let all = listed_recordings(results);
        assert forall|i: int| 0 <= i < front.len() implies front[i] == results[i] by {}
        match results.last() {
            RecordingsFieldView::List(recs) => {
                lemma_recording_ids_are_fitting(recs);
                assert(all == lf + recs);
                assert forall|k: int| 0 <= k < lf.len() implies all[k] == lf[k] by {}
                assert forall|k: int| 0 <= k < recs.len() implies all[lf.len() + k] == recs[k] by {}
                Seq::filter_distributes_over_add(lf, recs, fits());
                assert((lf.filter(fits()) + recs.filter(fits())).map_values(id_of()) =~= lf.filter(
                    fits(),
                ).map_values(id_of()) + recs.filter(fits()).map_values(id_of()));
                if !(result_ids(front) is Some) {
                    if exists|i: int| 0 <= i < front.len() && #[trigger] front[i] is NotAList {
                        let i = choose|i: int| 0 <= i < front.len() && #[trigger] front[i] is NotAList;
                        assert(results[i] is NotAList);
                    } else {
                        let k = choose|k: int| 0 <= k < lf.len() && !(#[trigger] lf[k].id is Some);
                        assert(all[k] == lf[k]);
                    }
                } else if !(recording_ids(recs) is Some) {
                    let k = choose|k: int| 0 <= k < recs.len() && !(#[trigger] recs[k].id is Some);
                    assert(all[lf.len() + k] == recs[k]);
                } else {
                    assert forall|k: int| 0 <= k < all.len() implies #[trigger] all[k].id is Some by {
                        if k < lf.len() {
                            assert(all[k] == lf[k]);
                        } else {
                            assert(all[k] == recs[k - lf.len()]);
                        }
                    }
                }
            },
            RecordingsFieldView::NotAList => {
                assert(results[results.len() - 1] is NotAList);
            },
            RecordingsFieldView::Absent => {
                assert(all == lf);
                if !(result_ids(front) is Some) {
                    if exists|i: int| 0 <= i < front.len() && #[trigger] front[i] is NotAList {
                        let i = choose|i: int| 0 <= i < front.len() && #[trigger] front[i] is NotAList;
                        assert(results[i] is NotAList);
                    }
                }
            },
        }
    } else {
        reveal(Seq::filter);
        assert(listed_recordings(results).filter(fits()).map_values(id_of()) =~= Seq::empty());
    }
}

/// A release group of an artist: its title, whether its primary type is
/// album, and whether it has secondary types.
pub struct ReleaseGroupInfo {
    pub title: String,
    pub is_album: bool,
    pub has_secondary_types: bool,
}

pub struct ReleaseGroupView {
    pub title: Seq<char>,
    pub is_album: bool,
    pub has_secondary_types: bool,
}

impl View for ReleaseGroupInfo {
    type V = ReleaseGroupView;

    open spec fn view(&self) -> ReleaseGroupView {
        ReleaseGroupView {
            title: self.title@,
            is_album: self.is_album,
            has_secondary_types: self.has_secondary_types,
        }
    }
}

/// The titles of the albums of `groups` with (`secondary`) or without
/// secondary types, in order.
pub open spec fn album_titles(groups: Seq<ReleaseGroupView>, secondary: bool) -> Seq<Seq<char>>
    decreases groups.len(),
{
    if groups.len() == 0 {
        Seq::empty()
    } else {
        let prev = album_titles(groups.drop_last(), secondary);
        let g = groups.last();
        if g.is_album && g.has_secondary_types == secondary {
            prev.push(g.title)
        } else {
            prev
        }
    }
}

/// An artist's albums: the plain ones, and those with secondary types.
pub struct ArtistAlbums {
    pub officials: Vec<String>,
    pub others: Vec<String>,
}

/// The albums among an artist's release groups: those without secondary
/// types as officials, those with as others.
pub fn classify_release_groups(groups: &Vec<ReleaseGroupInfo>) -> (albums: ArtistAlbums)
    ensures
        texts(albums.officials@) == album_titles(
            groups@.map_values(|g: ReleaseGroupInfo| g@),
            false,
        ),
        texts(albums.others@) == album_titles(groups@.map_values(|g: ReleaseGroupInfo| g@), true),
{
    let ghost gv = groups@.map_values(|g: ReleaseGroupInfo| g@);
    let mut officials: Vec<String> = Vec::new();
    let mut others: Vec<String> = Vec::new();
    let mut i: usize = 0;
    proof {
        assert(gv.take(0) =~= Seq::<ReleaseGroupView>::empty());
        assert(texts(officials@) =~= Seq::empty());
        assert(texts(others@) =~= Seq::empty());
    }
    while i < groups.len()
        invariant
            gv == groups@.map_values(|g: ReleaseGroupInfo| g@),
            i <= groups.len(),
            texts(officials@) == album_titles(gv.take(i as int), false),
            texts(others@) == album_titles(gv.take(i as int), true),
        decreases groups.len() - i,
    {
        let g = &groups[i];
        proof {
            assert(gv.take(i + 1).drop_last() =~= gv.take(i as int));
            assert(gv.take(i + 1).last() == g@);
        }
        if g.is_album && !g.has_secondary_types {
            let ghost before = officials@;
            officials.push(g.title.clone());
            proof {
                assert(texts(officials@) =~= texts(before).push(g.title@));
            }
        } else if g.is_album && g.has_secondary_types {
            let ghost before = others@;
            others.push(g.title.clone());
            proof {
                assert(texts(others@) =~= texts(before).push(g.title@));
            }
        }
        i = i + 1;
    }
    proof {
        assert(gv.take(groups.len() as int) =~= gv);
    }
    ArtistAlbums { officials, others }
}

/// A release of a recording: its id, title, and whether its status is
/// official.
pub struct ReleaseInfo {
    pub id: String,
    pub title: String,
    pub official: bool,
}

/// A recording with its artist and releases.
pub struct RecordingInfo {
    pub title: String,
    pub artist: String,
    pub artist_id: String,
    pub releases: Vec<ReleaseInfo>,
}

/// Whether some release of the recording is official.
pub open spec fn has_official_release(releases: Seq<ReleaseInfo>) -> bool {
    exists|i: int| 0 <= i < releases.len() && #[trigger] releases[i].official
}

/// Whether any of `releases` is official.
pub fn any_official(releases: &Vec<ReleaseInfo>) -> (r: bool)
    ensures
        r == has_official_release(releases@),
{
    let mut i: usize = 0;
    while i < releases.len()
        invariant
            i <= releases.len(),
            forall|k: int| 0 <= k < i ==> !#[trigger] releases@[k].official,
        decreases releases.len() - i,
    {
        if releases[i].official {
            assert(releases@[i as int].official);
            return true;
        }
        i = i + 1;
    }
    false
}

/// What identifies a song: its title, artist and album.
pub struct SongInfo {
    pub title: String,
    pub artist: String,
    pub album: String,
}

/// A recording is taken where one of its releases is official and its first
/// release's title is one of the artist's albums.
pub open spec fn accepted(rec: RecordingInfo, albums: ArtistAlbums) -> bool {
    &&& has_official_release(rec.releases@)
    &&& texts(albums.officials@).contains(rec.releases@[0].title@) || texts(
        albums.others@,
    ).contains(rec.releases@[0].title@)
}

/// The song that a recording identifies, where it is taken: its title, its
/// artist, and its first release's title as album.
pub fn match_recording(rec: &RecordingInfo, albums: &ArtistAlbums) -> (info: Option<SongInfo>)
    ensures
        info is Some <==> accepted(*rec, *albums),
        info matches Some(s) ==> s.title@ == rec.title@ && s.artist@ == rec.artist@ && s.album@
            == rec.releases@[0].title@,
{
    if !any_official(&rec.releases) {
        return None;
    }
    let first = &rec.releases[0];
    if contains_text(&albums.officials, first.title.as_str()) || contains_text(
        &albums.others,
        first.title.as_str(),
    ) {
        Some(
            SongInfo {
                title: rec.title.clone(),
                artist: rec.artist.clone(),
                album: first.title.clone(),
            },
        )
    } else {
        None
    }
}

/// The song info of a song that could not be identified.
pub fn unknown_song_info() -> (info: SongInfo)
    ensures
        info.title@ == "Unknown"@,
        info.artist@ == "Unknown"@,
        info.album@ == "Unknown"@,
{
    SongInfo {
        title: String::from_str("Unknown"),
        artist: String::from_str("Unknown"),
        album: String::from_str("Unknown"),
    }
}

/// The song a taken recording identifies: its title, artist, and its first
/// release's title.
pub open spec fn info_of(rec: RecordingInfo) -> (Seq<char>, Seq<char>, Seq<char>) {
    (rec.title@, rec.artist@, rec.releases@[0].title@)
}

/// The search through the MusicBrainz ids of a song for the first recording
/// that is taken.
pub struct MatchSearch {
    ids: Vec<String>,
    next: usize,
    found: Option<SongInfo>,
}

pub struct MatchSearchView {
    pub ids: Seq<Seq<char>>,
    pub next: int,
    pub found: Option<(Seq<char>, Seq<char>, Seq<char>)>,
}

impl View for MatchSearch {
    type V = MatchSearchView;

    closed spec fn view(&self) -> MatchSearchView {
        MatchSearchView {
            ids: texts(self.ids@),
            next: self.next as int,
            found: match self.found {
                Some(f) => Some((f.title@, f.artist@, f.album@)),
                None => None,
            },
        }
    }
}

/// The search after the recording of the next id, with its artist's
/// albums: where the recording is taken, it is found; else the search
/// moves to the next id.
pub open spec fn search_step(s: MatchSearchView, rec: RecordingInfo, albums: ArtistAlbums) -> MatchSearchView {
    if accepted(rec, albums) {
        MatchSearchView { found: Some(info_of(rec)), ..s }
    } else {
        MatchSearchView { next: s.next + 1, ..s }
    }
}

/// The search run over `candidates`, one per id, until a recording is
/// found.
pub open spec fn run_search(
    s: MatchSearchView,
    candidates: Seq<(RecordingInfo, ArtistAlbums)>,
) -> MatchSearchView
    decreases candidates.len(),
{
    if candidates.len() == 0 || s.found is Some {
        s
    } else {
        run_search(search_step(s, candidates[0].0, candidates[0].1), candidates.drop_first())
    }
}

/// The song of the first taken recording among `candidates`, if any.
pub open spec fn first_accepted(candidates: Seq<(RecordingInfo, ArtistAlbums)>) -> Option<
    (Seq<char>, Seq<char>, Seq<char>),
>
    decreases candidates.len(),
{
    if candidates.len() == 0 {
        None
    } else if accepted(candidates[0].0, candidates[0].1) {
        Some(info_of(candidates[0].0))
    } else {
        first_accepted(candidates.drop_first())
    }
}

/// A search that has found nothing yet ends with the first taken recording
/// of the candidates it is given, and with nothing where none is taken.
pub proof fn lemma_first_accepted_wins(
    s: MatchSearchView,
    candidates: Seq<(RecordingInfo, ArtistAlbums)>,
)
    requires
        s.found is None,
    ensures
        run_search(s, candidates).found == first_accepted(candidates),
    decreases candidates.len(),
{
    if candidates.len() > 0 {
        let next = search_step(s, candidates[0].0, candidates[0].1);
        if accepted(candidates[0].0, candidates[0].1) {
            assert(run_search(next, candidates.drop_first()) == next);
        } else {
            lemma_first_accepted_wins(next, candidates.drop_first());
        }
    }
}

impl MatchSearch {
    /// A search through `ids`, starting at the first.
    pub fn new(ids: Vec<String>) -> (s: MatchSearch)
        ensures
            s@ == (MatchSearchView { ids: texts(ids@), next: 0, found: None }),
    {
        MatchSearch { ids, next: 0, found: None }
    }

    /// The id whose recording is to be looked at next: none once a
    /// recording is found or the ids are used up.
    pub fn next_id(&self) -> (id: Option<String>)
        ensures
            match id {
                Some(i) => self@.found is None && 0 <= self@.next < self@.ids.len() && i@
                    == self@.ids[self@.next],
                None => self@.found is Some || self@.next >= self@.ids.len(),
            },
    {
        if self.found.is_none() && self.next < self.ids.len() {
            Some(self.ids[self.next].clone())
        } else {
            None
        }
    }

    /// Looks at the recording of the id `next_id` gave, with its artist's
    /// albums; returns whether it is taken.
    pub fn on_candidate(&mut self, rec: &RecordingInfo, albums: &ArtistAlbums) -> (taken: bool)
        requires
            old(self)@.found is None,
            old(self)@.next < old(self)@.ids.len(),
        ensures
            taken == accepted(*rec, *albums),
            final(self)@ == search_step(old(self)@, *rec, *albums),
    {
        match match_recording(rec, albums) {
            Some(info) => {
                self.found = Some(info);
                true
            },
            None => {
                assert(texts(self.ids@).len() == self.ids.len());
                self.next = self.next + 1;
                false
            },
        }
    }

    /// The song found, or Unknown for all three where none was.
    pub fn result(&self) -> (info: SongInfo)
        ensures
            (info.title@, info.artist@, info.album@) == match self@.found {
                Some(f) => f,
                None => ("Unknown"@, "Unknown"@, "Unknown"@),
            },
    {
        match &self.found {
            Some(f) => SongInfo {
                title: f.title.clone(),
                artist: f.artist.clone(),
                album: f.album.clone(),
            },
            None => unknown_song_info(),
        }
    }
}

/// The extension that `infer` gives the file type of `bytes`, if it knows
/// the type.
pub uninterp spec fn inferred_extension(bytes: Seq<u8>) -> Option<Seq<char>>;

/// Calls `infer::get`, which matches the leading bytes of `bytes` against
/// its table of file signatures, and hands back the extension of the type
/// it finds. The table is not restated here: the result is only named, as
/// a function of the bytes alone.
#[verifier::external_body]
fn infer_extension(bytes: &[u8]) -> (ext: Option<String>)
    ensures
        opt_text(ext) == inferred_extension(bytes@),
{
    match infer::get(bytes) {
        Some(kind) => Some(kind.extension().to_string()),
        None => None,
    }
}

/// The file name of the cover of `name`: "cover_image_", the name, a dot,
/// and the extension (png where the type is not known).
pub open spec fn cover_file_name(name: Seq<char>, ext: Option<Seq<char>>) -> Seq<char> {
    "cover_image_"@ + name + "."@ + match ext {
        Some(e) => e,
        None => "png"@,
    }
}

/// The file name of the cover of `name`, whose file type has the extension
/// `ext` if it is known.
pub fn cover_image_name_for(name: &str, ext: Option<String>) -> (file: String)
    ensures
        file@ == cover_file_name(name@, opt_text(ext)),
{
    let mut file = String::from_str("cover_image_");
    file.append(name);
    file.append(".");
    match ext {
        Some(e) => file.append(e.as_str()),
        None => file.append("png"),
    }
    file
}

/// The file name of the cover of `name`, downloaded as `image`.
pub fn cover_image_name(name: &str, image: &[u8]) -> (file: String)
    ensures
        file@ == cover_file_name(name@, inferred_extension(image@)),
{
    let ext = infer_extension(image);
    cover_image_name_for(name, ext)
}

} // verus!
