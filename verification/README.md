# clean_music

The logic of a small music player, verified with Verus.

- `src/queue.rs`: the play queue and the two steps of its playback monitor
  (a song ended, an index update arrived), as state plus the actions that
  the audio side performs.
- `src/player.rs`: the numeric player commands and what they do to the queue.
- `src/library.rs`: the play order of a directory of songs (by album, by
  track number, albums by their song lists), with the proof that the order
  is determined by the directory's songs and holds each of them.
- `src/sorting.rs`, `src/text.rs`: sorting by a strict order, and text
  equality, order, search and filtering.
- `src/browser.rs`, `src/song_cache.rs`: the folder browser and the song
  cards of the Tauri shell; `src/paths.rs` compares paths by their
  components, as the song cache keys them.
- `src/song_data.rs`, `src/song_determiner.rs`, `src/desktop.rs`: song
  identification (AcoustID results, MusicBrainz albums, cover names) and the
  egui window's decisions.

`app/` holds the threads, audio output, file access, network requests and
user interfaces around the library.
