# videotrim

Cuts filler words, long silences, false starts and off-topic rambling out of
a talking-head video, on your own machine: ffmpeg extracts the audio, Whisper
transcribes it, a local Ollama model plans the cuts, and ffmpeg slices and
joins the kept ranges.

Layout:

- `src/` — the verified library (Verus). Times are whole nanoseconds.
  - `editor.rs`: ordering the cuts by start time and splitting the timeline
    into kept and removed ranges, with the laws proved about the split
    (every instant is cut or kept, no kept instant is cut, shared numbering).
  - `render.rs`: clip paths, ffmpeg arguments, the concatenation list.
  - `audio.rs`, `llm.rs`, `transcibe.rs`: audio extraction arguments and
    duration, the planning prompt and the empty-plan check, Whisper model
    locations and transcript segments.
  - `text.rs`: decimal numbers, seconds, replacement, file extensions.
- `app/` — the command-line program: argument parsing, running ffmpeg,
  reading the WAV file, Whisper, Ollama, JSON, the progress spinner.
- `tests/` — tests of the library.
