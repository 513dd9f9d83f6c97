use midi_forge::encoder::{encode_midi, write_track_chunk, write_u16_be, write_u32_be, write_var_len};
use midi_forge::model::{ChordEvent, EventKind, NoteEvent, Song, Track, TrackEvent};

fn vlq(v: u32) -> Vec<u8> {
    let mut buf = Vec::new();
    write_var_len(&mut buf, v);
    buf
}

#[test]
fn u16_big_endian() {
    let mut buf = Vec::new();
    write_u16_be(&mut buf, 0x01E0);
    assert_eq!(buf, vec![0x01, 0xE0]);
}

#[test]
fn u32_big_endian() {
    let mut buf = vec![0xAA];
    write_u32_be(&mut buf, 0x0007A120);
    assert_eq!(buf, vec![0xAA, 0x00, 0x07, 0xA1, 0x20]);
}

#[test]
fn var_len_documented_values() {
    assert_eq!(vlq(0), vec![0x00]);
    assert_eq!(vlq(127), vec![0x7F]);
    assert_eq!(vlq(128), vec![0x81, 0x00]);
    assert_eq!(vlq(0x3FFF), vec![0xFF, 0x7F]);
    assert_eq!(vlq(0x4000), vec![0x81, 0x80, 0x00]);
    assert_eq!(vlq(0x0FFF_FFFF), vec![0xFF, 0xFF, 0xFF, 0x7F]);
    assert_eq!(vlq(0xFFFF_FFFF), vec![0x8F, 0xFF, 0xFF, 0xFF, 0x7F]);
}

#[test]
fn var_len_reads_back() {
    for v in [0u32, 1, 100, 127, 128, 480, 960, 16383, 16384, 2_097_151, 2_097_152, 0x0FFF_FFFF] {
        let bytes = vlq(v);
        let mut value: u64 = 0;
        for (i, b) in bytes.iter().enumerate() {
            value = value * 128 + (*b & 0x7F) as u64;
            assert_eq!(*b >= 0x80, i + 1 < bytes.len());
        }
        assert_eq!(value, v as u64);
        assert!(bytes.len() <= 4);
        assert!(bytes.len() == 1 || bytes[0] != 0x80);
    }
}

#[test]
fn track_chunk_with_deltas() {
    let mut out = Vec::new();
    let events = vec![(0u32, vec![0x90, 60, 80]), (480, vec![0x80, 60, 0]), (480, vec![0x90, 64, 80])];
    write_track_chunk(&mut out, &events);
    assert_eq!(
        out,
        vec![
            b'M', b'T', b'r', b'k', 0, 0, 0, 17, 0x00, 0x90, 60, 80, 0x83, 0x60, 0x80, 60, 0, 0x00,
            0x90, 64, 80, 0x00, 0xFF, 0x2F, 0x00,
        ]
    );
}

#[test]
fn empty_track_chunk() {
    let mut out = vec![1, 2];
    write_track_chunk(&mut out, &[]);
    assert_eq!(out, vec![1, 2, b'M', b'T', b'r', b'k', 0, 0, 0, 4, 0x00, 0xFF, 0x2F, 0x00]);
}

fn note(pitch: u8, velocity: u8, duration_ticks: u32) -> NoteEvent {
    NoteEvent { kind: EventKind::Note { pitch, velocity }, duration_ticks }
}

fn lead_song() -> Song {
    let mut song = Song::default();
    song.tracks.push(Track {
        name: "Lead".to_string(),
        instrument: 0,
        channel: 1,
        events: vec![
            TrackEvent::Single(note(60, 80, 480)),
            TrackEvent::Single(note(64, 80, 480)),
            TrackEvent::Single(note(67, 80, 480)),
            TrackEvent::Single(note(72, 90, 960)),
            TrackEvent::Single(NoteEvent { kind: EventKind::Rest, duration_ticks: 960 }),
        ],
    });
    song
}

#[test]
fn encode_quick_start_song() {
    let bytes = encode_midi(&lead_song());
    assert_eq!(bytes.len(), 100);
    assert_eq!(&bytes[0..14], &[b'M', b'T', b'h', b'd', 0, 0, 0, 6, 0, 1, 0, 2, 0x01, 0xE0]);
    let tempo: Vec<u8> = vec![
        b'M', b'T', b'r', b'k', 0, 0, 0, 19, 0x00, 0xFF, 0x51, 0x03, 0x07, 0xA1, 0x20, 0x00, 0xFF,
        0x58, 0x04, 4, 2, 24, 8, 0x00, 0xFF, 0x2F, 0x00,
    ];
    assert_eq!(&bytes[14..41], tempo.as_slice());
    let track: Vec<u8> = vec![
        b'M', b'T', b'r', b'k', 0, 0, 0, 51, 0x00, 0xFF, 0x03, 4, b'L', b'e', b'a', b'd', 0x00,
        0xC0, 0, 0x00, 0x90, 60, 80, 0x83, 0x60, 0x80, 60, 0, 0x00, 0x90, 64, 80, 0x83, 0x60,
        0x80, 64, 0, 0x00, 0x90, 67, 80, 0x83, 0x60, 0x80, 67, 0, 0x00, 0x90, 72, 90, 0x87, 0x40,
        0x80, 72, 0, 0x00, 0xFF, 0x2F, 0x00,
    ];
    assert_eq!(&bytes[41..], track.as_slice());
}

#[test]
fn chord_notes_share_start_and_advance_by_longest() {
    let mut song = Song::default();
    song.tracks.push(Track {
        name: "P".to_string(),
        instrument: 5,
        channel: 2,
        events: vec![
            TrackEvent::Chord(ChordEvent { notes: vec![note(60, 70, 960), note(64, 70, 480)] }),
            TrackEvent::Single(note(67, 70, 480)),
        ],
    });
    let bytes = encode_midi(&song);
    let track = &bytes[41..];
    // name, program change on channel nibble 1, then the events sorted by tick:
    // on 60 @0, on 64 @0, off 64 @480, off 60 @960, on 67 @960, off 67 @1440
    let expected: Vec<u8> = vec![
        b'M', b'T', b'r', b'k', 0, 0, 0, 39, 0x00, 0xFF, 0x03, 1, b'P', 0x00, 0xC1, 5, 0x00, 0x91,
        60, 70, 0x00, 0x91, 64, 70, 0x83, 0x60, 0x81, 64, 0, 0x83, 0x60, 0x81, 60, 0, 0x00, 0x91,
        67, 70, 0x83, 0x60, 0x81, 67, 0, 0x00, 0xFF, 0x2F, 0x00,
    ];
    assert_eq!(track, expected.as_slice());
}

#[test]
fn time_signature_and_tempo() {
    let mut song = lead_song();
    song.bpm = 160;
    song.time_num = 3;
    song.time_den = 8;
    song.tpq = 960;
    let bytes = encode_midi(&song);
    assert_eq!(&bytes[12..14], &[0x03, 0xC0]);
    // 60_000_000 / 160 = 375000 = 0x05B8D8
    assert_eq!(&bytes[26..29], &[0x05, 0xB8, 0xD8]);
    assert_eq!(&bytes[33..37], &[3, 3, 24, 8]);
}

#[test]
fn unknown_denominator_is_written_as_quarter() {
    let mut song = lead_song();
    song.time_den = 3;
    let bytes = encode_midi(&song);
    assert_eq!(bytes[34], 2);
}

#[test]
fn header_counts_tempo_track() {
    let mut song = lead_song();
    song.tracks.push(Track { name: String::new(), instrument: 0, channel: 10, events: vec![] });
    let bytes = encode_midi(&song);
    assert_eq!(&bytes[10..12], &[0, 3]);
    // second track: empty name, program change on channel nibble 9
    let last = &bytes[bytes.len() - 19..];
    let expected: Vec<u8> = vec![
        b'M', b'T', b'r', b'k', 0, 0, 0, 11, 0x00, 0xFF, 0x03, 0, 0x00, 0xC9, 0, 0x00, 0xFF, 0x2F, 0x00,
    ];
    assert_eq!(last, expected.as_slice());
}

#[test]
fn can_encode_checks_requirements() {
    assert!(midi_forge::encoder::can_encode(&lead_song()));
    let mut song = lead_song();
    song.bpm = 0;
    assert!(!midi_forge::encoder::can_encode(&song));
    let mut song = lead_song();
    song.tracks[0].channel = 0;
    assert!(!midi_forge::encoder::can_encode(&song));
    let mut song = lead_song();
    song.tracks[0].events.push(TrackEvent::Single(note(60, 1, u32::MAX)));
    assert!(!midi_forge::encoder::can_encode(&song));
    let mut song = Song::default();
    song.tracks.push(Track {
        name: "Long".to_string(),
        instrument: 0,
        channel: 1,
        events: vec![TrackEvent::Chord(ChordEvent { notes: vec![note(60, 1, u32::MAX - 10), note(61, 1, 3)] })],
    });
    assert!(midi_forge::encoder::can_encode(&song));
}

#[test]
fn deltas_add_up_to_ticks() {
    let bytes = encode_midi(&lead_song());
    // walk the note track's events and add up the delta times
    let mut pos = 41 + 8;
    let mut tick: u64 = 0;
    let mut ticks = Vec::new();
    while pos < bytes.len() {
        let mut delta: u64 = 0;
        loop {
            let b = bytes[pos];
            pos += 1;
            delta = delta * 128 + (b & 0x7F) as u64;
            if b < 0x80 {
                break;
            }
        }
        tick += delta;
        ticks.push(tick);
        pos += match bytes[pos] {
            0xFF => 3 + bytes[pos + 2] as usize,
            0xC0..=0xCF => 2,
            _ => 3,
        };
    }
    assert_eq!(ticks, vec![0, 0, 0, 480, 480, 960, 960, 1440, 1440, 2400, 2400]);
}

#[test]
fn out_of_order_events_wrap_the_delta() {
    let mut out = Vec::new();
    let events = vec![(480u32, vec![0x90, 60, 80]), (0, vec![0x80, 60, 0])];
    write_track_chunk(&mut out, &events);
    assert_eq!(
        out,
        vec![
            b'M', b'T', b'r', b'k', 0, 0, 0, 17, 0x83, 0x60, 0x90, 60, 80, 0x8F, 0xFF, 0xFF, 0xFC,
            0x20, 0x80, 60, 0, 0x00, 0xFF, 0x2F, 0x00,
        ]
    );
}

#[test]
fn long_track_name_length_is_a_var_len() {
    let mut song = Song::default();
    song.tracks.push(Track { name: "n".repeat(200), instrument: 0, channel: 1, events: vec![] });
    let bytes = encode_midi(&song);
    let track = &bytes[41..];
    // data: name event (1 + 2 + 2 + 200), program change (3), end of track (4)
    assert_eq!(&track[0..8], &[b'M', b'T', b'r', b'k', 0, 0, 0, 212]);
    assert_eq!(&track[8..13], &[0x00, 0xFF, 0x03, 0x81, 0x48]);
    assert!(track[13..213].iter().all(|b| *b == b'n'));
    assert_eq!(&track[213..], &[0x00, 0xC0, 0, 0x00, 0xFF, 0x2F, 0x00]);
}
