# transcriptor

Local transcription and translation of poor-quality Spanish phone calls into
English, with the decisions of the program proved correct with Verus.

- `src/` is the verified library: text clean-up of recognizer output, agreement
  between two recognizers and repair of blocks caught in a repetition loop,
  sentence splitting before translation, speaker renumbering and naming, stretches
  of speech, export to plain text, subtitles and Rich Text, the folder browser's
  rules, and the course of a run as a state machine (`run.rs`) with its laws.
- `app/` is the program around it: decoding with ffmpeg, the speech, voice-activity,
  diarization and translation models, the desktop window and the command-line tool,
  and everything that works in seconds (floating point).
- `tests/` runs the library on concrete values.
