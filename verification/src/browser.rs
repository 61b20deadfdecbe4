//! The directory browser of the desktop shell: which entries of a folder are
//! listed, and the button that stands for each.
use vstd::prelude::*;

use crate::text::{after_last_slash, last_segment, occurs_in, text_contains};

verus! {

/// An entry of a folder: its path, whether it is a directory, and its
/// extension if it has one.
pub struct FolderEntry {
    pub path: String,
    pub is_dir: bool,
    pub extension: Option<String>,
}

/// The button of a listed entry.
#[derive(Debug)]
pub struct ButtonPayload {
    pub id: String,
    pub text: String,
    pub class: String,
}

pub struct FolderEntryView {
    pub path: Seq<char>,
    pub is_dir: bool,
    pub extension: Option<Seq<char>>,
}

impl View for FolderEntry {
    type V = FolderEntryView;

    open spec fn view(&self) -> FolderEntryView {
        FolderEntryView {
            path: self.path@,
            is_dir: self.is_dir,
            extension: match self.extension {
                Some(e) => Some(e@),
                None => None,
            },
        }
    }
}

/// The extensions of playable files, run together: an extension is
/// accepted where it occurs in this text.
pub open spec fn accepted_extensions() -> Seq<char> {
    "mp3wavflacogg"@
}

/// Directories are listed; other entries where their extension ("txt" where
/// they have none) occurs in `accepted_extensions`.
pub open spec fn listed(e: FolderEntryView) -> bool {
    e.is_dir || occurs_in(
        match e.extension {
            Some(x) => x,
            None => "txt"@,
        },
        accepted_extensions(),
    )
}

/// The button of an entry: its path as id, the part of the path after the
/// last `/` as text, and the class of the folder buttons.
pub open spec fn button_of(path: Seq<char>) -> (Seq<char>, Seq<char>, Seq<char>) {
    (path, after_last_slash(path), "LeftDirectoryButton"@)
}

/// The buttons of the listed entries of `entries`, in order.
pub open spec fn buttons_of(entries: Seq<FolderEntryView>) -> Seq<(Seq<char>, Seq<char>, Seq<char>)>
    decreases entries.len(),
{
    if entries.len() == 0 {
        Seq::empty()
    } else if listed(entries.last()) {
        buttons_of(entries.drop_last()).push(button_of(entries.last().path))
    } else {
        buttons_of(entries.drop_last())
    }
}

/// The views of buttons.
pub open spec fn button_views(b: Seq<ButtonPayload>) -> Seq<(Seq<char>, Seq<char>, Seq<char>)> {
    b.map_values(|p: ButtonPayload| (p.id@, p.text@, p.class@))
}

/// Whether an entry is listed.
pub fn is_listed(entry: &FolderEntry) -> (r: bool)
    ensures
        r == listed(entry@),
{
    if entry.is_dir {
        return true;
    }
    match &entry.extension {
        Some(e) => text_contains("mp3wavflacogg", e.as_str()),
        None => text_contains("mp3wavflacogg", "txt"),
    }
}

/// The button of the entry at `path`.
pub fn directory_button(path: String) -> (b: ButtonPayload)
    ensures
        (b.id@, b.text@, b.class@) == button_of(path@),
{
    let text = last_segment(path.as_str());
    ButtonPayload { id: path, text, class: String::from_str("LeftDirectoryButton") }
}

/// The buttons of the listed entries of a folder, in the folder's order.
pub fn pull_paths(entries: Vec<FolderEntry>) -> (buttons: Vec<ButtonPayload>)
    ensures
        button_views(buttons@) == buttons_of(entries@.map_values(|e: FolderEntry| e@)),
{
    let ghost ev = entries@.map_values(|e: FolderEntry| e@);
    let mut buttons: Vec<ButtonPayload> = Vec::new();
    let mut i: usize = 0;
    proof {
        assert(ev.take(0) =~= Seq::<FolderEntryView>::empty());
        assert(button_views(buttons@) =~= Seq::empty());
    }
    while i < entries.len()
        invariant
            ev == entries@.map_values(|e: FolderEntry| e@),
            i <= entries.len(),
            button_views(buttons@) == buttons_of(ev.take(i as int)),
        decreases entries.len() - i,
    {
        let entry = &entries[i];
        proof {
            assert(ev.take(i + 1).drop_last() =~= ev.take(i as int));
            assert(ev.take(i + 1).last() == entry@);
        }
        if is_listed(entry) {
            let ghost before = buttons@;
            buttons.push(directory_button(entry.path.clone()));
            proof {
                assert(button_views(buttons@) =~= button_views(before).push(
                    button_of(entry.path@),
                ));
            }
        }
        i = i + 1;
    }
    proof {
        assert(ev.take(entries.len() as int) =~= ev);
    }
    buttons
}

/// Directories, and files whose extension is mp3, wav, flac or ogg, are
/// listed; a file without an extension is not.
pub proof fn lemma_playable_entries_listed(e: FolderEntryView)
    ensures
        e.is_dir ==> listed(e),
        (e.extension == Some("mp3"@) || e.extension == Some("wav"@) || e.extension == Some(
            "flac"@,
        ) || e.extension == Some("ogg"@)) ==> listed(e),
        !e.is_dir && e.extension is None ==> !listed(e),
{
    reveal_strlit("mp3wavflacogg");
    reveal_strlit("mp3");
    reveal_strlit("wav");
    reveal_strlit("flac");
    reveal_strlit("ogg");
    reveal_strlit("txt");
    let all = accepted_extensions();
    assert(all.subrange(0, 0int + "mp3"@.len()) =~= "mp3"@);
    assert(all.subrange(3, 3int + "wav"@.len()) =~= "wav"@);
    assert(all.subrange(6, 6int + "flac"@.len()) =~= "flac"@);
    assert(all.subrange(10, 10int + "ogg"@.len()) =~= "ogg"@);
    assert(occurs_in("mp3"@, all));
    assert(occurs_in("wav"@, all));
    assert(occurs_in("flac"@, all));
    assert(occurs_in("ogg"@, all));
    if occurs_in("txt"@, all) {
        let i = choose|i: int|
            0 <= i <= all.len() - "txt"@.len() && #[trigger] all.subrange(i, i + "txt"@.len())
                == "txt"@;
        assert(all.subrange(i, i + 3)[0] == 't');
        assert(all[i] == 't');
    }
}

/// Every listed entry of a folder gets its button.
pub proof fn lemma_listed_entries_get_buttons(entries: Seq<FolderEntryView>, i: int)
    requires
        0 <= i < entries.len(),
        listed(entries[i]),
    ensures
        buttons_of(entries).contains(button_of(entries[i].path)),
    decreases entries.len(),
{
    let prev = buttons_of(entries.drop_last());
    if i == entries.len() - 1 {
        assert(buttons_of(entries) == prev.push(button_of(entries[i].path)));
        assert(buttons_of(entries)[prev.len() as int] == button_of(entries[i].path));
    } else {
        assert(entries.drop_last()[i] == entries[i]);
        lemma_listed_entries_get_buttons(entries.drop_last(), i);
        let k = choose|k: int| 0 <= k < prev.len() && prev[k] == button_of(entries[i].path);
        if listed(entries.last()) {
            assert(buttons_of(entries)[k] == prev[k]);
        }
    }
}

} // verus!
