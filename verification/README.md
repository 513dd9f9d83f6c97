# midi_forge

A compiler from MNF (MIDI Note Format) text scores to Standard MIDI Files,
written in Verus: the parser and the encoder are proved against
specifications of what they return.

```
bpm 140
time 4/4

track Piano
  instrument 0
  channel 1
  C4 q 80
  { E4 q 85, G4 q 85 }
  C5 h. 90
end
```

## Layout

- `src/text.rs` — characters of strings: Unicode whitespace, trimming,
  comments (a `#` that is no sharp sign, as the one in `C#4` is), words
  (separated by spaces and tabs), decimal numbers as `str::parse` reads them.
- `src/model.rs` — `Song`, `Track`, `TrackEvent`, `ChordEvent`, `NoteEvent`,
  `EventKind`, their values, and what a well-formed song is.
- `src/parser.rs` — `parse_pitch`, `parse_duration`, `parse_note_event` and
  `parse`, each equal to a spec function over the input's characters
  (`spec_parse_pitch`, …, `spec_parse`), error messages included; laws:
  accepted songs are well formed, the pitch formula, enharmonic spellings,
  case-insensitive pitches, comments, line-numbered event
  errors, header directives refused inside a track.
- `src/encoder.rs` — big-endian integers, variable-length quantities, track
  chunks, a stable sort by tick, and `encode_midi`, equal to `midi_file`;
  laws: byte and VLQ read-back (also as a sum of powers of 128), delta times, sort order and stability, chunk
  layout, chord timing.
- `app/main.rs` — the command line: `midi_forge <input.mnf> [output.mid]`.
- `tests/` — scenarios for the parser and the encoder.
