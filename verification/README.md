# srt_align

Subtitles in SRT form for a text read aloud in an audio recording. A speech
recogniser cuts the recording into timed segments; every segment is aligned
with a line of the text, and the SRT document gets one entry per text line.

- `src/` is the verified library (Verus): time codes and the SRT document,
  the time span of every line (from its segments, or from its neighbours when
  it received none), the band and the backtracking of the alignment, the
  bigram similarity of two texts as an exact fraction, and the reading of the
  text's lines.
- `app/` is the program around it: arguments, files, audio decoding
  (symphonia), speech recognition (whisper-rs) and the floating-point dynamic
  time warping that compares similarity costs.
- `tests/` runs the library on concrete inputs.
