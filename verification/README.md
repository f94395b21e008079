# audio_fixer

A video re-muxer that downmixes 5.1 audio to 4.1 and normalises containers
to MP4. The decisions it takes are a verified library; the program around
them runs the external tools.

- `src/` — the library, verified with Verus:
  - `ffprobe` — stream classification (5.1 detection, descriptions), file
    health before probing, prober error text, retry back-off;
  - `ffmpeg` — encoder arguments and the conversion procedure as a state
    machine (stream copy first, fallback to transcode, forced modes);
  - `scanner` — extension handling and selection of the files to process,
    sorted by path components without duplicates;
  - `cli` — output paths (each input of a run gets its own: when two
    inputs would share `<stem>.mp4`, the later one gets `<stem>_<ext>.mp4`),
    the action taken for each file, run counters, worker arguments for
    detached runs;
  - `logger` — Gregorian date of a Unix day, timestamps, ANSI stripping,
    log lines and the log file location;
  - `paths`, `text` — path and string helpers.
- `app/` — the command-line program: argument parsing, running `ffprobe`
  and `ffmpeg`, walking directories, the log file, progress display.
- `tests/` — tests of the library.
