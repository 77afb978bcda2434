# ChronoSub

Subtitle synchronisation: the audio of a video is held against the timing of an
SRT file, and the file is written again with the constant offset between them
applied, so that the subtitles meet the audio.

The library under `src/` is verified with Verus. It holds what can be stated
exactly:

- `subtitle`: SRT files, read, shifted and written; `subtitle_laws` states what
  holds of these together, such as that a written file reads back.
- `signal`: subtitle timing as a sampled on/off signal.
- `engine`: which track is decoded and how the decoding goes on, how audio is cut
  into energy windows, how a correlation peak becomes a lag, and what the
  corrected file holds.
- `alignment`: how well subtitles and audio match at a lag, and that subtitles
  corrected by their best lag match the audio where they are.
- `updater`: versions, and what is said about newer releases.
- `window`: the state of the desktop window, and how events change it.
- `text`, `numbers`, `text_facts`: strings and numerals, and facts about them.

`app/` is the desktop program round it: decoding with symphonia, transforms with
rustfft, the release request with ureq, and the window with eframe. Samples,
energies and correlation values are floating point and stay there.

`tests/` runs the library. `extras/build.sh` builds the program with the commit
count of the repository in its version.
