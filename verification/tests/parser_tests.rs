use midi_forge::model::{EventKind, NoteEvent, Song, TrackEvent};
use midi_forge::parser::{parse, parse_duration, parse_note_event, parse_pitch};

#[test]
fn middle_c_is_60() {
    assert_eq!(parse_pitch("C4"), Ok(60));
    assert_eq!(parse_pitch("c4"), Ok(60));
    assert_eq!(parse_pitch("  C4 "), Ok(60));
}

#[test]
fn pitch_formula() {
    assert_eq!(parse_pitch("D#3"), Ok(51));
    assert_eq!(parse_pitch("Eb5"), Ok(75));
    assert_eq!(parse_pitch("A4"), Ok(69));
    assert_eq!(parse_pitch("B0"), Ok(23));
    assert_eq!(parse_pitch("F#9"), Ok(126));
}

#[test]
fn midi_range_limits() {
    assert_eq!(parse_pitch("C-1"), Ok(0));
    assert_eq!(parse_pitch("G-1"), Ok(7));
    assert_eq!(parse_pitch("G9"), Ok(127));
    assert_eq!(parse_pitch("G#9"), Err("note 'G#9' out of MIDI range".to_string()));
    assert_eq!(parse_pitch("B-2"), Err("note 'B-2' out of MIDI range".to_string()));
    assert_eq!(parse_pitch("C10"), Err("note 'C10' out of MIDI range".to_string()));
}

#[test]
fn enharmonic_spellings_agree() {
    for octave in ["-1", "0", "3", "4", "8"] {
        for (sharp, flat) in [("C#", "Db"), ("D#", "Eb"), ("F#", "Gb"), ("G#", "Ab"), ("A#", "Bb")] {
            let a = parse_pitch(&format!("{}{}", sharp, octave));
            let b = parse_pitch(&format!("{}{}", flat, octave));
            assert!(a.is_ok());
            assert_eq!(a, b);
        }
    }
    assert_eq!(parse_pitch("DB4"), Ok(61));
    assert_eq!(parse_pitch("bb2"), Ok(46));
}

#[test]
fn accidentals_on_every_letter() {
    assert_eq!(parse_pitch("Cb4"), Ok(59));
    assert_eq!(parse_pitch("cb4"), Ok(59));
    assert_eq!(parse_pitch("E#4"), Ok(65));
    assert_eq!(parse_pitch("Fb4"), Ok(64));
    assert_eq!(parse_pitch("B#4"), Ok(72));
    assert_eq!(parse_pitch("Cb-1"), Err("note 'Cb-1' out of MIDI range".to_string()));
    assert_eq!(parse_pitch("B#-1"), Ok(12));
}

#[test]
fn pitch_errors() {
    assert_eq!(parse_pitch("C"), Err("pitch 'C' too short".to_string()));
    assert_eq!(parse_pitch(""), Err("pitch '' too short".to_string()));
    assert_eq!(parse_pitch("Cx"), Err("bad octave in 'Cx'".to_string()));
    assert_eq!(parse_pitch("C99999999999"), Err("bad octave in 'C99999999999'".to_string()));
    assert_eq!(parse_pitch("H4"), Err("unknown note name 'H'".to_string()));
    assert_eq!(parse_pitch("Cx4"), Err("unknown note name 'CX'".to_string()));
    assert_eq!(parse_pitch("C#b4"), Err("unknown note name 'C#B'".to_string()));
    assert_eq!(parse_pitch("C+4"), Err("unknown note name 'C+'".to_string()));
    assert_eq!(parse_pitch("é4"), Err("unknown note name 'É'".to_string()));
}

#[test]
fn named_durations() {
    assert_eq!(parse_duration("w", 480), Ok(1920));
    assert_eq!(parse_duration("h", 480), Ok(960));
    assert_eq!(parse_duration("q", 480), Ok(480));
    assert_eq!(parse_duration("e", 480), Ok(240));
    assert_eq!(parse_duration("s", 480), Ok(120));
    assert_eq!(parse_duration("Q", 480), Ok(480));
    assert_eq!(parse_duration("s", 6), Ok(1));
}

#[test]
fn dotted_durations() {
    assert_eq!(parse_duration("q.", 480), Ok(720));
    assert_eq!(parse_duration("h.", 480), Ok(1440));
    assert_eq!(parse_duration("e.", 480), Ok(360));
    assert_eq!(parse_duration("s.", 6), Ok(1));
}

#[test]
fn raw_tick_durations() {
    assert_eq!(parse_duration("960", 480), Ok(960));
    assert_eq!(parse_duration("0", 480), Ok(0));
    assert_eq!(parse_duration("+7", 480), Ok(7));
    assert_eq!(parse_duration("4294967295", 1), Ok(4294967295));
}

#[test]
fn duration_errors() {
    assert_eq!(parse_duration("x", 480), Err("unknown duration 'x'".to_string()));
    assert_eq!(parse_duration("960.", 480), Err("unknown duration '960'".to_string()));
    assert_eq!(parse_duration("x.", 480), Err("unknown duration 'x'".to_string()));
    assert_eq!(parse_duration("q..", 480), Err("unknown duration 'q.'".to_string()));
    assert_eq!(parse_duration("4294967296", 480), Err("unknown duration '4294967296'".to_string()));
    assert_eq!(parse_duration("-1", 480), Err("unknown duration '-1'".to_string()));
}

#[test]
fn note_event_with_velocity() {
    let ne = parse_note_event(&["C4", "q", "80"], 480).unwrap();
    assert_eq!(ne, NoteEvent { kind: EventKind::Note { pitch: 60, velocity: 80 }, duration_ticks: 480 });
}

#[test]
fn note_event_default_velocity() {
    let ne = parse_note_event(&["D#5", "e."], 480).unwrap();
    assert_eq!(ne, NoteEvent { kind: EventKind::Note { pitch: 75, velocity: 100 }, duration_ticks: 360 });
}

#[test]
fn rest_event() {
    let ne = parse_note_event(&["REST", "h", "12"], 480).unwrap();
    assert_eq!(ne, NoteEvent { kind: EventKind::Rest, duration_ticks: 960 });
}

#[test]
fn note_event_errors() {
    assert_eq!(parse_note_event(&["C4"], 480), Err("too few tokens: [\"C4\"]".to_string()));
    assert_eq!(parse_note_event(&[], 480), Err("too few tokens: []".to_string()));
    assert_eq!(parse_note_event(&["C4", "q", "loud"], 480), Err("bad velocity 'loud'".to_string()));
    assert_eq!(
        parse_note_event(&["C4", "q", "128"], 480),
        Err("velocity '128' out of range 0-127".to_string())
    );
    assert_eq!(parse_note_event(&["Z4", "x", "300"], 480), Err("bad velocity '300'".to_string()));
    assert_eq!(parse_note_event(&["Z4", "x"], 480), Err("unknown duration 'x'".to_string()));
    assert_eq!(parse_note_event(&["Z4", "q"], 480), Err("unknown note name 'Z'".to_string()));
    assert_eq!(parse_note_event(&["rest", "x", "1000"], 480), Err("bad velocity '1000'".to_string()));
}

fn parse_ok(src: &str) -> Song {
    match parse(src) {
        Ok(s) => s,
        Err(e) => panic!("unexpected error: {}", e),
    }
}

fn parse_err(src: &str) -> String {
    match parse(src) {
        Ok(_) => panic!("expected an error"),
        Err(e) => e,
    }
}

const HELLO: &str = "# My first MNF score
bpm 120
time 4/4

track Lead
  instrument 0    # Acoustic Grand Piano
  channel 1
  C4 q 80
  E4 q 80
  G4 q 80
  C5 h 90
  rest h
end
";

#[test]
fn quick_start_score() {
    let song = parse_ok(HELLO);
    assert_eq!((song.bpm, song.time_num, song.time_den, song.tpq), (120, 4, 4, 480));
    assert_eq!(song.tracks.len(), 1);
    let t = &song.tracks[0];
    assert_eq!((t.name.as_str(), t.instrument, t.channel), ("Lead", 0, 1));
    assert_eq!(t.events.len(), 5);
    match &t.events[3] {
        TrackEvent::Single(ne) => assert_eq!(
            *ne,
            NoteEvent { kind: EventKind::Note { pitch: 72, velocity: 90 }, duration_ticks: 960 }
        ),
        _ => panic!("expected a single note"),
    }
    match &t.events[4] {
        TrackEvent::Single(ne) => assert_eq!(ne.kind, EventKind::Rest),
        _ => panic!("expected a rest"),
    }
}

const WALTZ: &str = "# Waltz — 3/4 time, violin melody over piano accompaniment
bpm 160
time 3/4

track Melody
  instrument 40   # violin
  channel 1
  E5 q 85
  D5 q 75
  C5 q 75
  B4 h 90
  G4 q 70
  A4 q. 80
  B4 e  80
  C5 h. 95
end

track Accompaniment
  instrument 0    # piano
  channel 2
  { C3 q 60, E3 q 60, G3 q 60 }
  { C3 q 55, E3 q 55, G3 q 55 }
  { C3 q 55, E3 q 55, G3 q 55 }
end
";

#[test]
fn waltz_score() {
    let song = parse_ok(WALTZ);
    assert_eq!((song.bpm, song.time_num, song.time_den), (160, 3, 4));
    assert_eq!(song.tracks.len(), 2);
    assert_eq!(song.tracks[0].name, "Melody");
    assert_eq!(song.tracks[0].instrument, 40);
    assert_eq!(song.tracks[0].events.len(), 8);
    let acc = &song.tracks[1];
    assert_eq!((acc.name.as_str(), acc.instrument, acc.channel), ("Accompaniment", 0, 2));
    assert_eq!(acc.events.len(), 3);
    match &acc.events[1] {
        TrackEvent::Chord(c) => {
            let pitches: Vec<u8> = c
                .notes
                .iter()
                .map(|n| match n.kind {
                    EventKind::Note { pitch, .. } => pitch,
                    EventKind::Rest => 255,
                })
                .collect();
            assert_eq!(pitches, vec![48, 52, 55]);
        },
        _ => panic!("expected a chord"),
    }
}

#[test]
fn header_directives_and_defaults() {
    let song = parse_ok("BPM 56\nTime 6/8\ntpq 960\ntrack\nend\n");
    assert_eq!((song.bpm, song.time_num, song.time_den, song.tpq), (56, 6, 8, 960));
    assert_eq!(song.tracks[0].name, "Unnamed");
    assert_eq!((song.tracks[0].instrument, song.tracks[0].channel), (0, 1));
    assert!(song.tracks[0].events.is_empty());
}

#[test]
fn track_name_joins_words() {
    let song = parse_ok("track   Lead   Guitar \n E4 q 90\nEND");
    assert_eq!(song.tracks[0].name, "Lead Guitar");
}

#[test]
fn tpq_applies_to_named_durations() {
    let song = parse_ok("tpq 96\ntrack T\n C4 q\n C4 w.\nend");
    match (&song.tracks[0].events[0], &song.tracks[0].events[1]) {
        (TrackEvent::Single(a), TrackEvent::Single(b)) => {
            assert_eq!(a.duration_ticks, 96);
            assert_eq!(b.duration_ticks, 576);
        },
        _ => panic!("expected single notes"),
    }
}

#[test]
fn chord_forms() {
    let song = parse_ok("track T\n{ C4 h, E4 q 70 }\n{{ rest q, , G4 e }}\n{ , }\n{C4 q}\nend");
    let ev = &song.tracks[0].events;
    assert_eq!(ev.len(), 3);
    match &ev[0] {
        TrackEvent::Chord(c) => {
            assert_eq!(c.notes.len(), 2);
            assert_eq!(c.notes[1], NoteEvent { kind: EventKind::Note { pitch: 64, velocity: 70 }, duration_ticks: 480 });
        },
        _ => panic!("expected a chord"),
    }
    match &ev[1] {
        TrackEvent::Chord(c) => {
            assert_eq!(c.notes.len(), 2);
            assert_eq!(c.notes[0].kind, EventKind::Rest);
        },
        _ => panic!("expected a chord"),
    }
    match &ev[2] {
        TrackEvent::Chord(c) => assert_eq!(c.notes.len(), 1),
        _ => panic!("expected a chord"),
    }
}

#[test]
fn comments_and_blank_lines() {
    let song = parse_ok("\n   \n# only a comment\r\nbpm 90 # tempo\r\ntrack A # name\r\n C4 q # note\r\n#C5 q\r\nend\r\n");
    assert_eq!(song.bpm, 90);
    assert_eq!(song.tracks[0].name, "A");
    assert_eq!(song.tracks[0].events.len(), 1);
}

#[test]
fn missing_end() {
    assert_eq!(parse_err("track A\nC4 q\n"), "unterminated track block (missing 'end')");
}

#[test]
fn no_tracks() {
    assert_eq!(parse_err(""), "no tracks found in file");
    assert_eq!(parse_err("bpm 100\n# nothing else"), "no tracks found in file");
}

#[test]
fn unknown_top_level_keyword() {
    assert_eq!(parse_err("bpm 100\nTempo 3\n"), "line 2: unexpected token 'tempo'");
}

#[test]
fn header_directive_inside_track() {
    assert_eq!(parse_err("track A\nbpm 120\nend"), "line 2: bad octave in 'bpm'");
    assert_eq!(parse_err("track A\ntime 3/4\nend"), "line 2: unknown duration '3/4'");
}

#[test]
fn header_value_errors() {
    assert_eq!(parse_err("bpm\ntrack A\nend"), "line 1: missing bpm value");
    assert_eq!(parse_err("bpm fast\ntrack A\nend"), "line 1: bad bpm");
    assert_eq!(parse_err("bpm 0\ntrack A\nend"), "line 1: bpm must be 1-999");
    assert_eq!(parse_err("bpm 1000\ntrack A\nend"), "line 1: bpm must be 1-999");
    assert_eq!(parse_err("tpq 0\ntrack A\nend"), "line 1: tpq must be 1-32767");
    assert_eq!(parse_err("tpq 70000\ntrack A\nend"), "line 1: bad tpq");
    assert_eq!(parse_err("\ntime\n"), "line 2: missing time signature");
    assert_eq!(parse_err("time 3\n"), "line 1: time signature must be N/D");
    assert_eq!(parse_err("time 3/4/4\n"), "line 1: time signature must be N/D");
    assert_eq!(parse_err("time x/4\n"), "line 1: bad time numerator");
    assert_eq!(parse_err("time 3/y\n"), "line 1: bad time denominator");
    assert_eq!(parse_err("time 0/4\n"), "line 1: time numerator must be 1-99");
    assert_eq!(parse_err("time 3/6\n"), "line 1: time denominator must be 1, 2, 4, 8, 16 or 32");
}

#[test]
fn track_value_errors() {
    assert_eq!(parse_err("track A\ninstrument\nend"), "line 2: missing instrument value");
    assert_eq!(parse_err("track A\ninstrument piano\nend"), "line 2: bad instrument");
    assert_eq!(parse_err("track A\ninstrument 128\nend"), "line 2: instrument must be 0-127");
    assert_eq!(parse_err("track A\nchannel\nend"), "line 2: missing channel value");
    assert_eq!(parse_err("track A\nchannel 300\nend"), "line 2: bad channel");
    assert_eq!(parse_err("track A\nchannel 0\nend"), "line 2: channel must be 1-16");
    assert_eq!(parse_err("track A\nchannel 17\nend"), "line 2: channel must be 1-16");
}

#[test]
fn event_errors_carry_line_numbers() {
    assert_eq!(parse_err("track A\n\n C4\nend"), "line 3: too few tokens: [\"C4\"]");
    assert_eq!(parse_err("track A\nC4 q 200\nend"), "line 2: velocity '200' out of range 0-127");
    assert_eq!(parse_err("track A\n{ C4 q, X4 q }\nend"), "line 2: unknown note name 'X'");
    assert_eq!(parse_err("track A\nC4 z\nend"), "line 2: unknown duration 'z'");
}

#[test]
fn kelvin_sign_lowercases_to_k() {
    let song = parse_ok("trac\u{212A} A\nend");
    assert_eq!(song.tracks[0].name, "A");
}

#[test]
fn header_directive_after_a_track() {
    assert_eq!(
        parse_err("track A\nend\nbpm 100\ntrack B\nend"),
        "line 3: header directives must come before the first track"
    );
    assert_eq!(
        parse_err("track A\nend\n  TIME 3/4"),
        "line 3: header directives must come before the first track"
    );
}

const README_SCORE: &str = "bpm 140
time 4/4

track Piano
  instrument 0
  channel 1
  C4 q 80
  { E4 q 85, G4 q 85 }
  C5 h. 90
end
";

#[test]
fn readme_score() {
    let song = parse_ok(README_SCORE);
    assert_eq!(song.bpm, 140);
    let ev = &song.tracks[0].events;
    assert_eq!(ev.len(), 3);
    match &ev[2] {
        TrackEvent::Single(ne) => assert_eq!(ne.duration_ticks, 1440),
        _ => panic!("expected a single note"),
    }
}

const MOONLIGHT: &str = "# Moonlight sketch — two tracks
bpm 56
time 3/4
tpq 480

track Melody
  instrument 0    # Acoustic Grand Piano
  channel 1
  # Bar 1
  G#4 q 75
  A4  q 70
  B4  q 70
  # Bar 2
  C5  h. 85
  # Bar 3 — chord
  { E5 q 90, G#5 q 90 }
  rest h
end

track Bass
  instrument 42   # Cello
  channel 2
  C3  h  60
  G2  q  55
  F2  h. 65
  C3  h. 70
end
";

#[test]
fn two_track_sketch() {
    let song = parse_ok(MOONLIGHT);
    assert_eq!((song.bpm, song.time_num, song.time_den, song.tpq), (56, 3, 4, 480));
    assert_eq!(song.tracks.len(), 2);
    assert_eq!(song.tracks[0].events.len(), 6);
    assert_eq!(song.tracks[1].instrument, 42);
    match &song.tracks[0].events[0] {
        TrackEvent::Single(ne) => assert_eq!(ne.kind, EventKind::Note { pitch: 68, velocity: 75 }),
        _ => panic!("expected a single note"),
    }
    let bytes = midi_forge::encoder::encode_midi(&song);
    assert_eq!(&bytes[0..4], b"MThd");
    assert_eq!(&bytes[10..12], &[0, 3]);
}

#[test]
fn chord_advances_by_longest_note() {
    let song = parse_ok("track T\n{ C4 h, E4 q 70 }\nG4 q\nend");
    let bytes = midi_forge::encoder::encode_midi(&song);
    // the single G4 starts where the half-note C4 ends: 960 ticks in
    let track = &bytes[41..];
    let on_g4 = [0x90u8, 67, 100];
    let pos = track.windows(3).position(|w| w == on_g4).unwrap();
    // the delta before it is 0 (after C4's Note Off at 960), and the Note Off
    // of C4 comes right before with delta 480 from E4's Note Off at 480
    assert_eq!(&track[pos - 6..pos], &[0x83, 0x60, 0x80, 60, 0, 0x00]);
}

#[test]
fn sharps_in_a_score() {
    let song = parse_ok("track A\n  C#4 q 80\n  { F#4 e, D#5 e. 110 } # chord\nend");
    match &song.tracks[0].events[0] {
        TrackEvent::Single(ne) => assert_eq!(
            *ne,
            NoteEvent { kind: EventKind::Note { pitch: 61, velocity: 80 }, duration_ticks: 480 }
        ),
        _ => panic!("expected a single note"),
    }
    match &song.tracks[0].events[1] {
        TrackEvent::Chord(c) => {
            assert_eq!(c.notes[0].kind, EventKind::Note { pitch: 66, velocity: 100 });
            assert_eq!(c.notes[1], NoteEvent { kind: EventKind::Note { pitch: 75, velocity: 110 }, duration_ticks: 360 });
        },
        _ => panic!("expected a chord"),
    }
}

#[test]
fn hash_is_a_comment_unless_a_sharp() {
    let song = parse_ok("bpm 120#x\ntrack A\n  C4 q 75#loud\n  rest q#x\n{C#4 q,D#4 q}\n#E4 q\nend");
    assert_eq!(song.bpm, 120);
    let ev = &song.tracks[0].events;
    assert_eq!(ev.len(), 3);
    match &ev[0] {
        TrackEvent::Single(ne) => assert_eq!(ne.kind, EventKind::Note { pitch: 60, velocity: 75 }),
        _ => panic!("expected a single note"),
    }
    match &ev[2] {
        TrackEvent::Chord(c) => {
            assert_eq!(c.notes[0].kind, EventKind::Note { pitch: 61, velocity: 100 });
            assert_eq!(c.notes[1].kind, EventKind::Note { pitch: 63, velocity: 100 });
        },
        _ => panic!("expected a chord"),
    }
    assert_eq!(parse_err("bpm#x 90\ntrack A\nend"), "line 1: missing bpm value");
    assert_eq!(parse_err("track A\nXC#4 q\nend"), "line 2: too few tokens: [\"XC\"]");
    let song = parse_ok("track C# Lead\nend");
    assert_eq!(song.tracks[0].name, "C# Lead");
}

#[test]
fn only_space_and_tab_separate_words() {
    assert_eq!(parse_err("track A\nC4\u{A0}q 80\nend"), "line 2: bad octave in 'C4\u{A0}q'");
    let song = parse_ok("track A\n\u{A0}C4\tq  80\u{3000}\nend");
    assert_eq!(song.tracks[0].events.len(), 1);
}
