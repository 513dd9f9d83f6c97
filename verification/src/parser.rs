//! MNF source text parser: source text becomes a `Song`.
//!
//! The format is line oriented: a `#` starts a comment that runs to the end
//! of the line, unless it is a sharp sign (right after a note letter that
//! starts a word, as in `C#4`); words are separated by spaces and tabs; blank lines are skipped, header directives (`bpm`, `time`, `tpq`) come before the first
//! `track … end` block, and each line inside a block is a directive
//! (`instrument`, `channel`, `end`), a chord in braces, or a note event.
//! Every function here is stated over the characters of its input; the spec
//! functions below say what each returns, errors included.

use vstd::prelude::*;

use crate::model::{
    default_song, event_ok, is_time_denominator, lemma_event_views_push, lemma_track_views_push,
    note_ok, song_ok, track_ok, ChordEvent, EventKind, EventModel, NoteEvent, Song, SongModel,
    Track, TrackEvent, TrackModel,
};
use crate::text::{
    all_digits, ascii_lower, ascii_lower_code, chars_of, decimal, digits_capped, digits_value,
    eq_ignore_case, equal_ignoring_case, is_decimal_digit, is_digit, is_keyword, is_note_letter,
    is_ws, keyword_is, lemma_comment_index, lemma_decimal, lemma_trim_noop, lemma_trimmed_has_words,
    lemma_uncommented_append, lemma_views_push, lowercase, lowers_to, message_with,
    message_with_str, parse_unsigned, parse_unsigned_chars, push_char, push_chars, push_decimal,
    slice_chars, split_chars, split_on, strip_comment, strip_delimiters, strip_leading,
    strip_trailing, text_of, to_lowercase, to_uppercase, trim, trim_chars, trim_end, trim_start,
    uncommented, uppercase, views, word_len, words, words_of,
};

verus! {

/// A result whose error message is taken by its characters.
pub open spec fn outcome<T>(r: Result<T, String>) -> Result<T, Seq<char>> {
    match r {
        Ok(v) => Ok(v),
        Err(e) => Err(e@),
    }
}

/// The characters of each string of `s`.
pub open spec fn str_views(s: Seq<&str>) -> Seq<Seq<char>> {
    s.map_values(|p: &str| p@)
}

// ─── Pitch ───────────────────────────────────────────────────────────────────

/// The number of decimal digits that end `s`.
pub open spec fn trailing_digits(s: Seq<char>) -> nat
    decreases s.len(),
{
    if s.len() > 0 && is_digit(s.last()) {
        1 + trailing_digits(s.drop_last())
    } else {
        0
    }
}

/// Semitone of a note letter above C, in either case.
pub open spec fn letter_semitone(c: char) -> Option<int> {
    let l = ascii_lower(c);
    if l == 'c' as u32 {
        Some(0)
    } else if l == 'd' as u32 {
        Some(2)
    } else if l == 'e' as u32 {
        Some(4)
    } else if l == 'f' as u32 {
        Some(5)
    } else if l == 'g' as u32 {
        Some(7)
    } else if l == 'a' as u32 {
        Some(9)
    } else if l == 'b' as u32 {
        Some(11)
    } else {
        None
    }
}

/// The shift of an accidental: `#` sharp, `b` (either case) flat.
pub open spec fn accidental(c: char) -> Option<int> {
    if c == '#' {
        Some(1)
    } else if ascii_lower(c) == 'b' as u32 {
        Some(-1)
    } else {
        None
    }
}

/// The semitone offset from C of a note name: a letter, or a letter and an
/// accidental (`Cb` is -1, `B#` is 12).
pub open spec fn note_base(n: Seq<char>) -> Option<int> {
    if n.len() == 1 {
        letter_semitone(n[0])
    } else if n.len() == 2 {
        match (letter_semitone(n[0]), accidental(n[1])) {
            (Some(l), Some(a)) => Some(l + a),
            _ => None,
        }
    } else {
        None
    }
}

/// What `parse_pitch` returns for the characters `s`: the trimmed token is a
/// note name, then an octave (a signed decimal that fits in `i32`), and the
/// MIDI note `(octave + 1) * 12 + semitone` must lie in `0..=127`.
pub open spec fn spec_parse_pitch(s: Seq<char>) -> Result<u8, Seq<char>> {
    let t = trim(s);
    if t.len() < 2 {
        Err("pitch '"@ + t + "' too short"@)
    } else {
        let d = trailing_digits(t);
        let k0 = t.len() - d;
        let neg = k0 > 0 && t[k0 - 1] == '-';
        let k = if neg {
            k0 - 1
        } else {
            k0
        };
        let mag = digits_value(t.skip(k0));
        if d == 0 || (neg && mag > 0x8000_0000) || (!neg && mag > 0x7FFF_FFFF) {
            Err("bad octave in '"@ + t + "'"@)
        } else {
            let octave = if neg {
                -mag
            } else {
                mag as int
            };
            match note_base(t.take(k)) {
                None => Err("unknown note name '"@ + uppercase(t.take(k)) + "'"@),
                Some(b) => {
                    let midi = (octave + 1) * 12 + b;
                    if 0 <= midi <= 127 {
                        Ok(midi as u8)
                    } else {
                        Err("note '"@ + t + "' out of MIDI range"@)
                    }
                },
            }
        }
    }
}

// ─── Duration ────────────────────────────────────────────────────────────────

/// The ticks of a duration symbol (`w h q e s`, either case) at `tpq`.
pub open spec fn symbol_ticks(core: Seq<char>, tpq: u16) -> Option<nat> {
    if core.len() != 1 {
        None
    } else {
        let l = ascii_lower(core[0]);
        if l == 'w' as u32 {
            Some(tpq as nat * 4)
        } else if l == 'h' as u32 {
            Some(tpq as nat * 2)
        } else if l == 'q' as u32 {
            Some(tpq as nat)
        } else if l == 'e' as u32 {
            Some(tpq as nat / 2)
        } else if l == 's' as u32 {
            Some(tpq as nat / 4)
        } else {
            None
        }
    }
}

/// What `parse_duration` returns for the characters `s`: a symbol, dotted
/// (`.` appended, `base + base / 2`) or not, or a plain tick count (never
/// dotted). An error names the token without its trailing `.`.
pub open spec fn spec_parse_duration(s: Seq<char>, tpq: u16) -> Result<u32, Seq<char>> {
    let t = trim(s);
    let dotted = t.len() > 0 && t.last() == '.';
    let core = if dotted {
        t.drop_last()
    } else {
        t
    };
    match symbol_ticks(core, tpq) {
        Some(b) => Ok(
            (if dotted {
                b + b / 2
            } else {
                b
            }) as u32,
        ),
        None => match parse_unsigned(t, 0xFFFF_FFFF) {
            Some(v) => Ok(v as u32),
            None => Err("unknown duration '"@ + core + "'"@),
        },
    }
}

// ─── Note events ─────────────────────────────────────────────────────────────

/// The velocity token `t`: a number in `0..=127`.
pub open spec fn spec_velocity(t: Seq<char>) -> Result<u8, Seq<char>> {
    match parse_unsigned(t, 255) {
        None => Err("bad velocity '"@ + t + "'"@),
        Some(v) => if v <= 127 {
            Ok(v as u8)
        } else {
            Err("velocity '"@ + t + "' out of range 0-127"@)
        },
    }
}

/// What `{:?}` formatting writes for a list of strings with these characters
/// (brackets, each string quoted and escaped, separated by `, `).
pub uninterp spec fn debug_list(parts: Seq<Seq<char>>) -> Seq<char>;

/// The word `rest`.
pub open spec fn rest_word() -> Seq<char> {
    seq!['r', 'e', 's', 't']
}

/// What `parse_note_event` returns for tokens `parts`: pitch (or `rest`),
/// duration and an optional velocity (100 by default); the velocity is read
/// first, then the duration, then the pitch.
pub open spec fn spec_parse_note_event(parts: Seq<Seq<char>>, tpq: u16) -> Result<NoteEvent, Seq<char>> {
    if parts.len() < 2 {
        Err("too few tokens: "@ + debug_list(parts))
    } else {
        let vel = if parts.len() >= 3 {
            spec_velocity(parts[2])
        } else {
            Ok(100u8)
        };
        match vel {
            Err(e) => Err(e),
            Ok(v) => match spec_parse_duration(parts[1], tpq) {
                Err(e) => Err(e),
                Ok(d) => if eq_ignore_case(parts[0], rest_word()) {
                    Ok(NoteEvent { kind: EventKind::Rest, duration_ticks: d })
                } else {
                    match spec_parse_pitch(parts[0]) {
                        Err(e) => Err(e),
                        Ok(p) => Ok(
                            NoteEvent { kind: EventKind::Note { pitch: p, velocity: v }, duration_ticks: d },
                        ),
                    }
                },
            },
        }
    }
}

// ─── Executable parsing of tokens ────────────────────────────────────────────

fn letter_semitone_of(c: char) -> (r: Option<i64>)
    ensures
        r matches Some(v) ==> letter_semitone(c) == Some(v as int),
        r is None ==> letter_semitone(c) is None,
{
    let l = ascii_lower_code(c);
    if l == 'c' as u32 {
        Some(0)
    } else if l == 'd' as u32 {
        Some(2)
    } else if l == 'e' as u32 {
        Some(4)
    } else if l == 'f' as u32 {
        Some(5)
    } else if l == 'g' as u32 {
        Some(7)
    } else if l == 'a' as u32 {
        Some(9)
    } else if l == 'b' as u32 {
        Some(11)
    } else {
        None
    }
}

fn note_base_of(n: &Vec<char>) -> (r: Option<i64>)
    ensures
        r matches Some(v) ==> note_base(n@) == Some(v as int),
        r is None ==> note_base(n@) is None,
{
    if n.len() == 1 {
        letter_semitone_of(n[0])
    } else if n.len() == 2 {
        let acc: Option<i64> = if n[1] == '#' {
            Some(1)
        } else if ascii_lower_code(n[1]) == 'b' as u32 {
            Some(-1)
        } else {
            None
        };
        match (letter_semitone_of(n[0]), acc) {
            (Some(l), Some(a)) => Some(l + a),
            _ => None,
        }
    } else {
        None
    }
}

fn pitch_of(s: &Vec<char>) -> (r: Result<u8, String>)
    ensures
        outcome(r) == spec_parse_pitch(s@),
{
    let t = trim_chars(s);
    let n = t.len();
    if n < 2 {
        return Err(message_with("pitch '", &t, "' too short"));
    }
    let mut k0 = n;
    assert(t@.take(n as int) =~= t@);
    while k0 > 0 && is_decimal_digit(t[k0 - 1])
        invariant
            k0 <= n == t.len(),
            trailing_digits(t@) == (n - k0) + trailing_digits(t@.take(k0 as int)),
        decreases k0,
    {
        assert(t@.take(k0 as int).drop_last() =~= t@.take(k0 - 1));
        k0 -= 1;
    }
    assert(trailing_digits(t@) == n - k0);
    if k0 == n {
        return Err(message_with("bad octave in '", &t, "'"));
    }
    let neg = k0 > 0 && t[k0 - 1] == '-';
    let k = if neg {
        k0 - 1
    } else {
        k0
    };
    let mag = match digits_capped(&t, k0, 0x8000_0000) {
        Some(v) => v,
        None => {
            assert(false) by {
                assert forall|i: int| 0 <= i < t@.skip(k0 as int).len() implies is_digit(
                    t@.skip(k0 as int)[i],
                ) by {
                    lemma_trailing_digits(t@, k0 + i);
                }
            }
            return Err(message_with("bad octave in '", &t, "'"));
        },
    };
    if (neg && mag > 0x8000_0000) || (!neg && mag > 0x7FFF_FFFF) {
        return Err(message_with("bad octave in '", &t, "'"));
    }
    let octave: i64 = if neg {
        -(mag as i64)
    } else {
        mag as i64
    };
    let note = slice_chars(&t, 0, k);
    assert(note@ =~= t@.take(k as int));
    match note_base_of(&note) {
        None => {
            let upper = to_uppercase(&note);
            Err(message_with_str("unknown note name '", upper.as_str(), "'"))
        },
        Some(b) => {
            let midi = (octave + 1) * 12 + b;
            if 0 <= midi && midi <= 127 {
                Ok(midi as u8)
            } else {
                Err(message_with("note '", &t, "' out of MIDI range"))
            }
        },
    }
}

proof fn lemma_trailing_digits(t: Seq<char>, j: int)
    requires
        0 <= j < t.len(),
        t.len() - trailing_digits(t) <= j,
    ensures
        is_digit(t[j]),
    decreases t.len(),
{
    assert(trailing_digits(t) > 0);
    if j < t.len() - 1 {
        lemma_trailing_digits(t.drop_last(), j);
        assert(t.drop_last()[j] == t[j]);
    }
}

fn symbol_ticks_of(core: &Vec<char>, tpq: u16) -> (r: Option<u32>)
    ensures
        r matches Some(v) ==> symbol_ticks(core@, tpq) == Some(v as nat),
        r is None ==> symbol_ticks(core@, tpq) is None,
{
    if core.len() != 1 {
        return None;
    }
    let l = ascii_lower_code(core[0]);
    let q = tpq as u32;
    if l == 'w' as u32 {
        Some(q * 4)
    } else if l == 'h' as u32 {
        Some(q * 2)
    } else if l == 'q' as u32 {
        Some(q)
    } else if l == 'e' as u32 {
        Some(q / 2)
    } else if l == 's' as u32 {
        Some(q / 4)
    } else {
        None
    }
}

fn duration_of(s: &Vec<char>, tpq: u16) -> (r: Result<u32, String>)
    ensures
        outcome(r) == spec_parse_duration(s@, tpq),
{
    let t = trim_chars(s);
    let n = t.len();
    let dotted = n > 0 && t[n - 1] == '.';
    let core = if dotted {
        slice_chars(&t, 0, n - 1)
    } else {
        slice_chars(&t, 0, n)
    };
    assert(core@ =~= (if dotted {
        t@.drop_last()
    } else {
        t@
    }));
    match symbol_ticks_of(&core, tpq) {
        Some(b) => Ok(
            if dotted {
                b + b / 2
            } else {
                b
            },
        ),
        None => match parse_unsigned_chars(&t, 0xFFFF_FFFF) {
            Some(v) => Ok(v),
            None => Err(message_with("unknown duration '", &core, "'")),
        },
    }
}

fn velocity_of(t: &Vec<char>) -> (r: Result<u8, String>)
    ensures
        outcome(r) == spec_velocity(t@),
{
    match parse_unsigned_chars(t, 255) {
        None => Err(message_with("bad velocity '", t, "'")),
        Some(v) => if v <= 127 {
            Ok(v as u8)
        } else {
            Err(message_with("velocity '", t, "' out of range 0-127"))
        },
    }
}

/// Formats the tokens as `{:?}` formats a list of strings.
#[verifier::external_body]
fn debug_tokens(parts: &Vec<Vec<char>>) -> (r: String)
    ensures
        r@ == debug_list(views(parts@)),
{
    let list: Vec<String> = parts.iter().map(|p| p.iter().collect()).collect();
    format!("{:?}", list)
}

fn note_event_of(parts: &Vec<Vec<char>>, tpq: u16) -> (r: Result<NoteEvent, String>)
    ensures
        outcome(r) == spec_parse_note_event(views(parts@), tpq),
{
    let ghost ps = views(parts@);
    if parts.len() < 2 {
        let d = debug_tokens(parts);
        let mut m = String::new();
        m.append("too few tokens: ");
        m.append(d.as_str());
        return Err(m);
    }
    assert(ps[0] == parts@[0]@ && ps[1] == parts@[1]@);
    let velocity: u8 = if parts.len() >= 3 {
        assert(ps[2] == parts@[2]@);
        match velocity_of(&parts[2]) {
            Ok(v) => v,
            Err(e) => return Err(e),
        }
    } else {
        100
    };
    let duration_ticks = match duration_of(&parts[1], tpq) {
        Ok(d) => d,
        Err(e) => return Err(e),
    };
    if equal_ignoring_case(&parts[0], &['r', 'e', 's', 't']) {
        Ok(NoteEvent { kind: EventKind::Rest, duration_ticks })
    } else {
        match pitch_of(&parts[0]) {
            Ok(pitch) => Ok(NoteEvent { kind: EventKind::Note { pitch, velocity }, duration_ticks }),
            Err(e) => Err(e),
        }
    }
}

fn token_chars(parts: &[&str]) -> (r: Vec<Vec<char>>)
    ensures
        views(r@) == str_views(parts@),
{
    let mut r: Vec<Vec<char>> = Vec::new();
    let mut i: usize = 0;
    while i < parts.len()
        invariant
            i <= parts.len(),
            views(r@) == str_views(parts@).take(i as int),
        decreases parts.len() - i,
    {
        let c = chars_of(parts[i]);
        proof {
            lemma_views_push(r@, c);
        }
        r.push(c);
        assert(views(r@) =~= str_views(parts@).take(i + 1));
        i += 1;
    }
    assert(str_views(parts@).take(i as int) =~= str_views(parts@));
    r
}

/// Parses a pitch token such as `C4`, `D#3`, `Eb5` or `G-1` into a MIDI note
/// number: `(octave + 1) * 12 + semitone`, with `C=0 D=2 E=4 F=5 G=7 A=9
/// B=11`, `#` one up and `b` one down; letters and the flat sign in either
/// case. The errors, in the order they are checked: fewer than two
/// characters; no octave number (or one outside `i32`); an unknown note name;
/// a note outside `0..=127`.
pub fn parse_pitch(s: &str) -> (r: Result<u8, String>)
    ensures
        outcome(r) == spec_parse_pitch(s@),
{
    let c = chars_of(s);
    pitch_of(&c)
}

/// Parses a duration token into ticks at `tpq`: `w h q e s` (either case)
/// are 4, 2, 1, 1/2 and 1/4 quarter notes; a trailing `.` makes a symbol
/// dotted (`base + base / 2`); a plain integer is a tick count as it is.
pub fn parse_duration(s: &str, tpq: u16) -> (r: Result<u32, String>)
    ensures
        outcome(r) == spec_parse_duration(s@, tpq),
{
    let c = chars_of(s);
    duration_of(&c, tpq)
}

/// Parses the tokens of a note event: pitch or `rest`, duration, and an
/// optional velocity in `0..=127` (100 when absent).
pub fn parse_note_event(parts: &[&str], tpq: u16) -> (r: Result<NoteEvent, String>)
    ensures
        outcome(r) == spec_parse_note_event(str_views(parts@), tpq),
{
    let p = token_chars(parts);
    note_event_of(&p, tpq)
}

// ─── Lines ───────────────────────────────────────────────────────────────────

/// Where the parser stands between two lines: the song so far and, inside a
/// `track … end` block, the track being read.
pub ghost struct ParseState {
    pub song: SongModel,
    pub current: Option<TrackModel>,
}

/// The value of an optional track.
pub open spec fn track_opt(t: Option<Track>) -> Option<TrackModel> {
    match t {
        Some(tr) => Some(tr@),
        None => None,
    }
}

/// An error message for line `n` (1-based).
pub open spec fn at_line(n: nat, msg: Seq<char>) -> Seq<char> {
    "line "@ + decimal(n) + ": "@ + msg
}

/// The words `ws` joined by single spaces.
pub open spec fn join_words(ws: Seq<Seq<char>>) -> Seq<char>
    decreases ws.len(),
{
    if ws.len() == 0 {
        seq![]
    } else if ws.len() == 1 {
        ws[0]
    } else {
        join_words(ws.drop_last()) + seq![' '] + ws.last()
    }
}

pub open spec fn kw_bpm() -> Seq<char> {
    seq!['b', 'p', 'm']
}

pub open spec fn kw_tpq() -> Seq<char> {
    seq!['t', 'p', 'q']
}

pub open spec fn kw_time() -> Seq<char> {
    seq!['t', 'i', 'm', 'e']
}

pub open spec fn kw_track() -> Seq<char> {
    seq!['t', 'r', 'a', 'c', 'k']
}

pub open spec fn kw_end() -> Seq<char> {
    seq!['e', 'n', 'd']
}

pub open spec fn kw_instrument() -> Seq<char> {
    seq!['i', 'n', 's', 't', 'r', 'u', 'm', 'e', 'n', 't']
}

pub open spec fn kw_channel() -> Seq<char> {
    seq!['c', 'h', 'a', 'n', 'n', 'e', 'l']
}

/// Whether `t` is one of the header directives `bpm`, `tpq`, `time`.
pub open spec fn is_header_directive(t: Seq<char>) -> bool {
    is_keyword(t, kw_bpm()) || is_keyword(t, kw_tpq()) || is_keyword(t, kw_time())
}

/// A header line (outside any track) of words `tokens`, the first of which
/// decides, case-insensitively: `bpm`, `tpq`, `time` set the song's fields
/// within their ranges, and only before the first track; `track` opens a
/// track named by the other words (`Unnamed` where there are none) with
/// instrument 0 on channel 1.
pub open spec fn header_line(st: ParseState, n: nat, tokens: Seq<Seq<char>>) -> Result<ParseState, Seq<char>> {
    let song = st.song;
    let t0 = tokens[0];
    if is_header_directive(t0) && song.tracks.len() > 0 {
        Err(at_line(n, "header directives must come before the first track"@))
    } else if is_keyword(t0, kw_bpm()) {
        if tokens.len() < 2 {
            Err(at_line(n, "missing bpm value"@))
        } else {
            match parse_unsigned(tokens[1], 0xFFFF_FFFF) {
                None => Err(at_line(n, "bad bpm"@)),
                Some(v) => if 1 <= v <= 999 {
                    Ok(ParseState { song: SongModel { bpm: v as u32, ..song }, current: st.current })
                } else {
                    Err(at_line(n, "bpm must be 1-999"@))
                },
            }
        }
    } else if is_keyword(t0, kw_tpq()) {
        if tokens.len() < 2 {
            Err(at_line(n, "missing tpq value"@))
        } else {
            match parse_unsigned(tokens[1], 0xFFFF) {
                None => Err(at_line(n, "bad tpq"@)),
                Some(v) => if 1 <= v <= 32767 {
                    Ok(ParseState { song: SongModel { tpq: v as u16, ..song }, current: st.current })
                } else {
                    Err(at_line(n, "tpq must be 1-32767"@))
                },
            }
        }
    } else if is_keyword(t0, kw_time()) {
        if tokens.len() < 2 {
            Err(at_line(n, "missing time signature"@))
        } else {
            let parts = split_on(tokens[1], '/');
            if parts.len() != 2 {
                Err(at_line(n, "time signature must be N/D"@))
            } else {
                match parse_unsigned(parts[0], 255) {
                    None => Err(at_line(n, "bad time numerator"@)),
                    Some(num) => match parse_unsigned(parts[1], 255) {
                        None => Err(at_line(n, "bad time denominator"@)),
                        Some(den) => if !(1 <= num <= 99) {
                            Err(at_line(n, "time numerator must be 1-99"@))
                        } else if !is_time_denominator(den as u8) {
                            Err(at_line(n, "time denominator must be 1, 2, 4, 8, 16 or 32"@))
                        } else {
                            Ok(
                                ParseState {
                                    song: SongModel { time_num: num as u8, time_den: den as u8, ..song },
                                    current: st.current,
                                },
                            )
                        },
                    },
                }
            }
        }
    } else if is_keyword(t0, kw_track()) {
        let name = if tokens.len() > 1 {
            join_words(tokens.skip(1))
        } else {
            "Unnamed"@
        };
        Ok(
            ParseState {
                song,
                current: Some(TrackModel { name, instrument: 0, channel: 1, events: seq![] }),
            },
        )
    } else {
        Err(at_line(n, "unexpected token '"@ + lowercase(t0) + "'"@))
    }
}

/// The notes of the first `i` comma-separated pieces of a chord: each piece
/// that has words is a note event; empty pieces are skipped.
pub open spec fn chord_notes(pieces: Seq<Seq<char>>, i: nat, tpq: u16) -> Result<Seq<NoteEvent>, Seq<char>>
    decreases i,
{
    if i == 0 {
        Ok(seq![])
    } else {
        match chord_notes(pieces, (i - 1) as nat, tpq) {
            Err(e) => Err(e),
            Ok(ns) => {
                let ws = words(pieces[i - 1]);
                if ws.len() == 0 {
                    Ok(ns)
                } else {
                    match spec_parse_note_event(ws, tpq) {
                        Err(e) => Err(e),
                        Ok(ne) => Ok(ns.push(ne)),
                    }
                }
            },
        }
    }
}

/// The track `tr` with one more event.
pub open spec fn with_event(tr: TrackModel, e: EventModel) -> TrackModel {
    TrackModel { events: tr.events.push(e), ..tr }
}

/// A line inside the block of track `tr`: `end` closes the track; `instrument`
/// and `channel` set its fields within their ranges; a line that starts with
/// `{` is a chord (braces stripped, notes separated by commas), added where
/// it has notes; any other line is a single note event.
pub open spec fn track_line(song: SongModel, tr: TrackModel, n: nat, line: Seq<char>, tokens: Seq<Seq<char>>) -> Result<ParseState, Seq<char>> {
    let t0 = tokens[0];
    if is_keyword(t0, kw_end()) {
        Ok(ParseState { song: SongModel { tracks: song.tracks.push(tr), ..song }, current: None })
    } else if is_keyword(t0, kw_instrument()) {
        if tokens.len() < 2 {
            Err(at_line(n, "missing instrument value"@))
        } else {
            match parse_unsigned(tokens[1], 255) {
                None => Err(at_line(n, "bad instrument"@)),
                Some(v) => if v <= 127 {
                    Ok(ParseState { song, current: Some(TrackModel { instrument: v as u8, ..tr }) })
                } else {
                    Err(at_line(n, "instrument must be 0-127"@))
                },
            }
        }
    } else if is_keyword(t0, kw_channel()) {
        if tokens.len() < 2 {
            Err(at_line(n, "missing channel value"@))
        } else {
            match parse_unsigned(tokens[1], 255) {
                None => Err(at_line(n, "bad channel"@)),
                Some(v) => if 1 <= v <= 16 {
                    Ok(ParseState { song, current: Some(TrackModel { channel: v as u8, ..tr }) })
                } else {
                    Err(at_line(n, "channel must be 1-16"@))
                },
            }
        }
    } else if line[0] == '{' {
        let pieces = split_on(strip_trailing(strip_leading(line, '{'), '}'), ',');
        match chord_notes(pieces, pieces.len(), song.tpq) {
            Err(e) => Err(at_line(n, e)),
            Ok(ns) => if ns.len() == 0 {
                Ok(ParseState { song, current: Some(tr) })
            } else {
                Ok(ParseState { song, current: Some(with_event(tr, EventModel::Chord(ns))) })
            },
        }
    } else {
        match spec_parse_note_event(tokens, song.tpq) {
            Err(e) => Err(at_line(n, e)),
            Ok(ne) => Ok(ParseState { song, current: Some(with_event(tr, EventModel::Single(ne))) }),
        }
    }
}

/// Line `n` (1-based) with text `raw`: a `#` that is no sharp sign starts a
/// comment, the rest is trimmed, a blank result
/// changes nothing, and otherwise the line is read as a header line or as a
/// line of the open track.
pub open spec fn parse_step(st: ParseState, n: nat, raw: Seq<char>) -> Result<ParseState, Seq<char>> {
    let line = trim(uncommented(raw));
    if line.len() == 0 {
        Ok(st)
    } else {
        match st.current {
            Some(tr) => track_line(st.song, tr, n, line, words(line)),
            None => header_line(st, n, words(line)),
        }
    }
}

/// The state after the first `i` lines, or the first error.
pub open spec fn parse_lines(lines: Seq<Seq<char>>, i: nat) -> Result<ParseState, Seq<char>>
    decreases i,
{
    if i == 0 {
        Ok(ParseState { song: default_song(), current: None })
    } else {
        match parse_lines(lines, (i - 1) as nat) {
            Err(e) => Err(e),
            Ok(st) => parse_step(st, i, lines[i - 1]),
        }
    }
}

/// What `parse` returns for the source text `src`: its lines (split at `\n`;
/// a `\r` before it, and a last empty line, are whitespace that trimming
/// removes) read in turn from the defaults, then an error where a track is
/// still open or no track was read.
pub open spec fn spec_parse(src: Seq<char>) -> Result<SongModel, Seq<char>> {
    let lines = split_on(src, '\n');
    match parse_lines(lines, lines.len()) {
        Err(e) => Err(e),
        Ok(st) => if st.current is Some {
            Err("unterminated track block (missing 'end')"@)
        } else if st.song.tracks.len() == 0 {
            Err("no tracks found in file"@)
        } else {
            Ok(st.song)
        },
    }
}

/// A parse result, the song taken by its value.
pub open spec fn song_outcome(r: Result<Song, String>) -> Result<SongModel, Seq<char>> {
    match r {
        Ok(s) => Ok(s@),
        Err(e) => Err(e@),
    }
}

// ─── Executable parsing of lines ─────────────────────────────────────────────

fn line_error(n: usize, msg: &str) -> (r: String)
    ensures
        r@ == at_line(n as nat, msg@),
{
    let mut r = String::new();
    r.append("line ");
    push_decimal(&mut r, n);
    r.append(": ");
    r.append(msg);
    assert(r@ =~= at_line(n as nat, msg@));
    r
}

fn join_from(tokens: &Vec<Vec<char>>, from: usize) -> (r: String)
    requires
        from < tokens.len(),
    ensures
        r@ == join_words(views(tokens@).skip(from as int)),
{
    let ghost ws = views(tokens@);
    let mut r = String::new();
    push_chars(&mut r, &tokens[from]);
    let mut j = from + 1;
    assert(ws.subrange(from as int, j as int) =~= seq![ws[from as int]]);
    assert(r@ =~= tokens@[from as int]@);
    while j < tokens.len()
        invariant
            from < j <= tokens.len(),
            ws == views(tokens@),
            r@ == join_words(ws.subrange(from as int, j as int)),
        decreases tokens.len() - j,
    {
        let ghost prev = r@;
        push_char(&mut r, ' ');
        push_chars(&mut r, &tokens[j]);
        assert(ws.subrange(from as int, j + 1).drop_last() =~= ws.subrange(from as int, j as int));
        assert(r@ =~= prev + seq![' '] + ws[j as int]);
        j += 1;
    }
    assert(ws.subrange(from as int, j as int) =~= ws.skip(from as int));
    r
}

fn header_line_exec(song: &mut Song, n: usize, tokens: &Vec<Vec<char>>) -> (r: Result<Option<Track>, String>)
    requires
        tokens.len() > 0,
    ensures
        match r {
            Ok(c) => header_line(
                ParseState { song: old(song)@, current: None },
                n as nat,
                views(tokens@),
            ) == Ok::<ParseState, Seq<char>>(ParseState { song: final(song)@, current: track_opt(c) }),
            Err(e) => header_line(
                ParseState { song: old(song)@, current: None },
                n as nat,
                views(tokens@),
            ) == Err::<ParseState, Seq<char>>(e@),
        },
{
    let ghost ws = views(tokens@);
    let t0 = &tokens[0];
    assert(ws[0] == t0@);
    if tokens.len() >= 2 {
        assert(ws[1] == tokens@[1]@);
    }
    let is_bpm = keyword_is(t0, &['b', 'p', 'm']);
    let is_tpq = keyword_is(t0, &['t', 'p', 'q']);
    let is_time = keyword_is(t0, &['t', 'i', 'm', 'e']);
    assert(is_bpm == is_keyword(ws[0], kw_bpm()));
    assert(is_tpq == is_keyword(ws[0], kw_tpq()));
    assert(is_time == is_keyword(ws[0], kw_time()));
    if (is_bpm || is_tpq || is_time) && song.tracks.len() > 0 {
        return Err(line_error(n, "header directives must come before the first track"));
    }
    if is_bpm {
        if tokens.len() < 2 {
            return Err(line_error(n, "missing bpm value"));
        }
        match parse_unsigned_chars(&tokens[1], 0xFFFF_FFFF) {
            None => Err(line_error(n, "bad bpm")),
            Some(v) => if 1 <= v && v <= 999 {
                song.bpm = v;
                Ok(None)
            } else {
                Err(line_error(n, "bpm must be 1-999"))
            },
        }
    } else if is_tpq {
        if tokens.len() < 2 {
            return Err(line_error(n, "missing tpq value"));
        }
        match parse_unsigned_chars(&tokens[1], 0xFFFF) {
            None => Err(line_error(n, "bad tpq")),
            Some(v) => if 1 <= v && v <= 32767 {
                song.tpq = v as u16;
                Ok(None)
            } else {
                Err(line_error(n, "tpq must be 1-32767"))
            },
        }
    } else if is_time {
        if tokens.len() < 2 {
            return Err(line_error(n, "missing time signature"));
        }
        let parts = split_chars(&tokens[1], '/');
        if parts.len() != 2 {
            return Err(line_error(n, "time signature must be N/D"));
        }
        assert(views(parts@)[0] == parts@[0]@ && views(parts@)[1] == parts@[1]@);
        let num = match parse_unsigned_chars(&parts[0], 255) {
            None => return Err(line_error(n, "bad time numerator")),
            Some(v) => v,
        };
        let den = match parse_unsigned_chars(&parts[1], 255) {
            None => return Err(line_error(n, "bad time denominator")),
            Some(v) => v,
        };
        if !(1 <= num && num <= 99) {
            return Err(line_error(n, "time numerator must be 1-99"));
        }
        if !(den == 1 || den == 2 || den == 4 || den == 8 || den == 16 || den == 32) {
            return Err(line_error(n, "time denominator must be 1, 2, 4, 8, 16 or 32"));
        }
        song.time_num = num as u8;
        song.time_den = den as u8;
        Ok(None)
    } else if keyword_is(t0, &['t', 'r', 'a', 'c', 'k']) {
        assert(!is_keyword(ws[0], kw_bpm()) && !is_keyword(ws[0], kw_tpq()) && !is_keyword(
            ws[0],
            kw_time(),
        ));
        assert(is_keyword(ws[0], kw_track()));
        let name = if tokens.len() > 1 {
            join_from(tokens, 1)
        } else {
            text_of("Unnamed")
        };
        let track = Track { name, instrument: 0, channel: 1, events: Vec::new() };
        assert(track@.events =~= Seq::<EventModel>::empty());
        Ok(Some(track))
    } else {
        assert(!is_keyword(ws[0], kw_bpm()) && !is_keyword(ws[0], kw_tpq()) && !is_keyword(
            ws[0],
            kw_time(),
        ) && !is_keyword(ws[0], kw_track()));
        let low = to_lowercase(t0);
        let m = message_with_str("unexpected token '", low.as_str(), "'");
        Err(line_error(n, m.as_str()))
    }
}

proof fn lemma_chord_notes_err(ps: Seq<Seq<char>>, i: nat, m: nat, tpq: u16)
    requires
        i <= m,
        chord_notes(ps, i, tpq) is Err,
    ensures
        chord_notes(ps, m, tpq) == chord_notes(ps, i, tpq),
    decreases m,
{
    if m > i {
        lemma_chord_notes_err(ps, i, (m - 1) as nat, tpq);
    }
}

proof fn lemma_parse_lines_err(ls: Seq<Seq<char>>, i: nat, m: nat)
    requires
        i <= m,
        parse_lines(ls, i) is Err,
    ensures
        parse_lines(ls, m) == parse_lines(ls, i),
    decreases m,
{
    if m > i {
        lemma_parse_lines_err(ls, i, (m - 1) as nat);
    }
}

fn chord_notes_exec(pieces: &Vec<Vec<char>>, tpq: u16) -> (r: Result<Vec<NoteEvent>, String>)
    ensures
        match r {
            Ok(v) => chord_notes(views(pieces@), pieces.len() as nat, tpq) == Ok::<
                Seq<NoteEvent>,
                Seq<char>,
            >(v@),
            Err(e) => chord_notes(views(pieces@), pieces.len() as nat, tpq) == Err::<
                Seq<NoteEvent>,
                Seq<char>,
            >(e@),
        },
{
    let ghost ps = views(pieces@);
    let mut notes: Vec<NoteEvent> = Vec::new();
    let mut i: usize = 0;
    while i < pieces.len()
        invariant
            i <= pieces.len(),
            ps == views(pieces@),
            chord_notes(ps, i as nat, tpq) == Ok::<Seq<NoteEvent>, Seq<char>>(notes@),
        decreases pieces.len() - i,
    {
        assert(ps[i as int] == pieces@[i as int]@);
        let ws = words_of(&pieces[i]);
        if ws.len() > 0 {
            match note_event_of(&ws, tpq) {
                Ok(ne) => notes.push(ne),
                Err(e) => {
                    proof {
                        lemma_chord_notes_err(ps, (i + 1) as nat, pieces.len() as nat, tpq);
                    }
                    return Err(e);
                },
            }
        }
        i += 1;
    }
    Ok(notes)
}

fn track_line_exec(
    song: &mut Song,
    tr: Track,
    n: usize,
    line: &Vec<char>,
    tokens: &Vec<Vec<char>>,
) -> (r: Result<Option<Track>, String>)
    requires
        tokens.len() > 0,
        line.len() > 0,
    ensures
        match r {
            Ok(c) => track_line(old(song)@, tr@, n as nat, line@, views(tokens@)) == Ok::<ParseState, Seq<char>>(
                ParseState { song: final(song)@, current: track_opt(c) },
            ),
            Err(e) => track_line(old(song)@, tr@, n as nat, line@, views(tokens@)) == Err::<
                ParseState,
                Seq<char>,
            >(e@),
        },
{
    let ghost ws = views(tokens@);
    let mut tr = tr;
    let t0 = &tokens[0];
    assert(ws[0] == t0@);
    if tokens.len() >= 2 {
        assert(ws[1] == tokens@[1]@);
    }
    if keyword_is(t0, &['e', 'n', 'd']) {
        assert(is_keyword(ws[0], kw_end()));
        proof {
            lemma_track_views_push(song.tracks@, tr);
        }
        song.tracks.push(tr);
        Ok(None)
    } else if keyword_is(t0, &['i', 'n', 's', 't', 'r', 'u', 'm', 'e', 'n', 't']) {
        assert(!is_keyword(ws[0], kw_end()));
        assert(is_keyword(ws[0], kw_instrument()));
        if tokens.len() < 2 {
            return Err(line_error(n, "missing instrument value"));
        }
        match parse_unsigned_chars(&tokens[1], 255) {
            None => Err(line_error(n, "bad instrument")),
            Some(v) => if v <= 127 {
                tr.instrument = v as u8;
                Ok(Some(tr))
            } else {
                Err(line_error(n, "instrument must be 0-127"))
            },
        }
    } else if keyword_is(t0, &['c', 'h', 'a', 'n', 'n', 'e', 'l']) {
        assert(!is_keyword(ws[0], kw_end()) && !is_keyword(ws[0], kw_instrument()));
        assert(is_keyword(ws[0], kw_channel()));
        if tokens.len() < 2 {
            return Err(line_error(n, "missing channel value"));
        }
        match parse_unsigned_chars(&tokens[1], 255) {
            None => Err(line_error(n, "bad channel")),
            Some(v) => if 1 <= v && v <= 16 {
                tr.channel = v as u8;
                Ok(Some(tr))
            } else {
                Err(line_error(n, "channel must be 1-16"))
            },
        }
    } else if line[0] == '{' {
        assert(!is_keyword(ws[0], kw_end()) && !is_keyword(ws[0], kw_instrument())
            && !is_keyword(ws[0], kw_channel()));
        let inner = strip_delimiters(line, '{', '}');
        let pieces = split_chars(&inner, ',');
        match chord_notes_exec(&pieces, song.tpq) {
            Err(e) => Err(line_error(n, e.as_str())),
            Ok(notes) => {
                if notes.len() == 0 {
                    Ok(Some(tr))
                } else {
                    let ev = TrackEvent::Chord(ChordEvent { notes });
                    proof {
                        lemma_event_views_push(tr.events@, ev);
                    }
                    tr.events.push(ev);
                    Ok(Some(tr))
                }
            },
        }
    } else {
        assert(!is_keyword(ws[0], kw_end()) && !is_keyword(ws[0], kw_instrument())
            && !is_keyword(ws[0], kw_channel()));
        match note_event_of(tokens, song.tpq) {
            Err(e) => Err(line_error(n, e.as_str())),
            Ok(ne) => {
                let ev = TrackEvent::Single(ne);
                proof {
                    lemma_event_views_push(tr.events@, ev);
                }
                tr.events.push(ev);
                Ok(Some(tr))
            },
        }
    }
}

fn parse_line(song: &mut Song, current: Option<Track>, n: usize, raw: &Vec<char>) -> (r: Result<
    Option<Track>,
    String,
>)
    ensures
        match r {
            Ok(c) => parse_step(
                ParseState { song: old(song)@, current: track_opt(current) },
                n as nat,
                raw@,
            ) == Ok::<ParseState, Seq<char>>(ParseState { song: final(song)@, current: track_opt(c) }),
            Err(e) => parse_step(
                ParseState { song: old(song)@, current: track_opt(current) },
                n as nat,
                raw@,
            ) == Err::<ParseState, Seq<char>>(e@),
        },
{
    let text = strip_comment(raw);
    let line = trim_chars(&text);
    if line.len() == 0 {
        return Ok(current);
    }
    proof {
        lemma_trimmed_has_words(text@);
    }
    let tokens = words_of(&line);
    match current {
        Some(tr) => track_line_exec(song, tr, n, &line, &tokens),
        None => header_line_exec(song, n, &tokens),
    }
}

/// Parses MNF source text into a song. Comments (from a `#` to the end of the
/// line, where the `#` is no sharp sign: one right after a note letter that
/// starts a word, as in `C#4`) and blank lines are skipped; header directives come before the first
/// track; a header directive inside a track block is read as a note event
/// and so refused. Errors name the line where they arise (1-based), except
/// for a track block left open and a file with no track.
pub fn parse(source: &str) -> (r: Result<Song, String>)
    ensures
        song_outcome(r) == spec_parse(source@),
{
    let chars = chars_of(source);
    let lines = split_chars(&chars, '\n');
    let ghost ls = views(lines@);
    let mut song = Song::default();
    let mut current: Option<Track> = None;
    let mut i: usize = 0;
    while i < lines.len()
        invariant
            i <= lines.len(),
            ls == views(lines@),
            ls == split_on(source@, '\n'),
            parse_lines(ls, i as nat) == Ok::<ParseState, Seq<char>>(
                ParseState { song: song@, current: track_opt(current) },
            ),
        decreases lines.len() - i,
    {
        assert(ls[i as int] == lines@[i as int]@);
        match parse_line(&mut song, current, i + 1, &lines[i]) {
            Ok(c) => current = c,
            Err(e) => {
                proof {
                    lemma_parse_lines_err(ls, (i + 1) as nat, lines.len() as nat);
                }
                return Err(e);
            },
        }
        i += 1;
    }
    if current.is_some() {
        return Err(text_of("unterminated track block (missing 'end')"));
    }
    if song.tracks.len() == 0 {
        return Err(text_of("no tracks found in file"));
    }
    Ok(song)
}

// ─── Laws ────────────────────────────────────────────────────────────────────

/// A parsed pitch is a MIDI note number, at most 127.
pub proof fn lemma_pitch_in_range(s: Seq<char>)
    ensures
        spec_parse_pitch(s) matches Ok(p) ==> p <= 127,
{
}

/// A parsed note event is one the format allows (pitch and velocity at most
/// 127).
pub proof fn lemma_note_event_ok(parts: Seq<Seq<char>>, tpq: u16)
    ensures
        spec_parse_note_event(parts, tpq) matches Ok(ne) ==> note_ok(ne),
{
    if parts.len() >= 2 {
        lemma_pitch_in_range(parts[0]);
    }
}

proof fn lemma_chord_notes_ok(pieces: Seq<Seq<char>>, i: nat, tpq: u16)
    ensures
        chord_notes(pieces, i, tpq) matches Ok(ns) ==> forall|j: int|
            0 <= j < ns.len() ==> note_ok(#[trigger] ns[j]),
    decreases i,
{
    if i > 0 {
        lemma_chord_notes_ok(pieces, (i - 1) as nat, tpq);
        lemma_note_event_ok(words(pieces[i - 1]), tpq);
    }
}

/// The header fields of `s` lie in the ranges the format allows, and its
/// tracks are well formed.
pub open spec fn header_ok(s: SongModel) -> bool {
    &&& 1 <= s.bpm <= 999
    &&& 1 <= s.time_num <= 99
    &&& is_time_denominator(s.time_den)
    &&& 1 <= s.tpq <= 32767
    &&& forall|i: int| 0 <= i < s.tracks.len() ==> track_ok(#[trigger] s.tracks[i])
}

/// A parser state whose song and open track are well formed.
pub open spec fn state_ok(st: ParseState) -> bool {
    &&& header_ok(st.song)
    &&& st.current matches Some(tr) ==> track_ok(tr)
}

proof fn lemma_with_event_ok(tr: TrackModel, e: EventModel)
    requires
        track_ok(tr),
        event_ok(e),
    ensures
        track_ok(with_event(tr, e)),
{
    let t2 = with_event(tr, e);
    assert forall|i: int| 0 <= i < t2.events.len() implies event_ok(#[trigger] t2.events[i]) by {
        if i < tr.events.len() {
            assert(t2.events[i] == tr.events[i]);
        }
    }
}

/// Every line keeps the parser's state well formed.
pub proof fn lemma_step_ok(st: ParseState, n: nat, raw: Seq<char>)
    requires
        state_ok(st),
    ensures
        parse_step(st, n, raw) matches Ok(st2) ==> state_ok(st2),
{
    let line = trim(uncommented(raw));
    if line.len() > 0 {
        let tokens = words(line);
        match st.current {
            Some(tr) => {
                let song = st.song;
                if is_keyword(tokens[0], kw_end()) {
                    let ts = song.tracks.push(tr);
                    assert forall|i: int| 0 <= i < ts.len() implies track_ok(#[trigger] ts[i]) by {
                        if i < song.tracks.len() {
                            assert(ts[i] == song.tracks[i]);
                        }
                    }
                } else if !is_keyword(tokens[0], kw_instrument()) && !is_keyword(
                    tokens[0],
                    kw_channel(),
                ) {
                    if line[0] == '{' {
                        let pieces = split_on(
                            strip_trailing(strip_leading(line, '{'), '}'),
                            ',',
                        );
                        lemma_chord_notes_ok(pieces, pieces.len(), song.tpq);
                        if let Ok(ns) = chord_notes(pieces, pieces.len(), song.tpq) {
                            if ns.len() > 0 {
                                lemma_with_event_ok(tr, EventModel::Chord(ns));
                            }
                        }
                    } else {
                        lemma_note_event_ok(tokens, song.tpq);
                        if let Ok(ne) = spec_parse_note_event(tokens, song.tpq) {
                            lemma_with_event_ok(tr, EventModel::Single(ne));
                        }
                    }
                }
            },
            None => {},
        }
    }
}

proof fn lemma_parse_lines_ok(ls: Seq<Seq<char>>, i: nat)
    ensures
        parse_lines(ls, i) matches Ok(st) ==> state_ok(st),
    decreases i,
{
    if i > 0 {
        lemma_parse_lines_ok(ls, (i - 1) as nat);
        if let Ok(st) = parse_lines(ls, (i - 1) as nat) {
            lemma_step_ok(st, i, ls[i - 1]);
        }
    }
}

/// What `parse` accepts is a song the format allows: BPM, time signature and
/// resolution in range, at least one track, channels `1..=16`, instruments,
/// pitches and velocities at most 127, no empty chord.
pub proof fn lemma_parsed_song_ok(src: Seq<char>)
    ensures
        spec_parse(src) matches Ok(s) ==> song_ok(s),
{
    let ls = split_on(src, '\n');
    lemma_parse_lines_ok(ls, ls.len());
}

/// A `#` that is no sharp sign starts a comment: adding `#` and any text to
/// a line that does not end with a note letter changes nothing.
pub proof fn lemma_comment_ignored(st: ParseState, n: nat, raw: Seq<char>, comment: Seq<char>)
    requires
        raw.len() == 0 || !is_note_letter(raw.last()),
    ensures
        parse_step(st, n, raw + seq!['#'] + comment) == parse_step(st, n, raw),
{
    lemma_uncommented_append(raw, comment);
}

/// A line whose first character is `#` is a comment and changes nothing.
pub proof fn lemma_comment_line(st: ParseState, n: nat, comment: Seq<char>)
    ensures
        parse_step(st, n, seq!['#'] + comment) == Ok::<ParseState, Seq<char>>(st),
{
    let t = seq!['#'] + comment;
    lemma_comment_index(t, 0, 0);
    assert(uncommented(t) =~= Seq::<char>::empty());
    assert(trim(Seq::<char>::empty()) =~= Seq::<char>::empty());
}

/// An octave number as text: its decimal digits, after `-` when it is
/// negative.
pub open spec fn octave_text(o: int) -> Seq<char> {
    if o < 0 {
        seq!['-'] + decimal((-o) as nat)
    } else {
        decimal(o as nat)
    }
}

proof fn lemma_trailing_digits_of(a: Seq<char>, d: Seq<char>)
    requires
        all_digits(d),
        a.len() == 0 || !is_digit(a.last()),
    ensures
        trailing_digits(a + d) == d.len(),
    decreases d.len(),
{
    if d.len() > 0 {
        assert((a + d).drop_last() =~= a + d.drop_last());
        lemma_trailing_digits_of(a, d.drop_last());
    } else {
        assert(a + d =~= a);
    }
}

/// A note name followed by an octave number `o` is the MIDI note
/// `(o + 1) * 12 + semitone`, where that lies in `0..=127`, and is refused as
/// out of range otherwise.
pub proof fn lemma_pitch_formula(name: Seq<char>, o: int)
    requires
        note_base(name) is Some,
        -0x8000_0000 <= o <= 0x7FFF_FFFF,
    ensures
        ({
            let t = name + octave_text(o);
            let midi = (o + 1) * 12 + note_base(name).unwrap();
            spec_parse_pitch(t) == if 0 <= midi <= 127 {
                Ok::<u8, Seq<char>>(midi as u8)
            } else {
                Err("note '"@ + t + "' out of MIDI range"@)
            }
        }),
{
    let m: nat = if o < 0 {
        (-o) as nat
    } else {
        o as nat
    };
    lemma_decimal(m);
    let dec = decimal(m);
    let t = name + octave_text(o);
    assert(!is_ws(name[0]) && !is_digit(name.last()) && name.last() != '-');
    assert(!is_ws(dec.last()));
    assert(t[0] == name[0]);
    assert(t.last() == dec.last());
    lemma_trim_noop(t);
    let a = if o < 0 {
        name + seq!['-']
    } else {
        name
    };
    assert(t =~= a + dec);
    lemma_trailing_digits_of(a, dec);
    let k0 = t.len() - dec.len();
    assert(t.skip(k0) =~= dec);
    assert(t.take(name.len() as int) =~= name);
    if o < 0 {
        assert(t[k0 - 1] == '-');
    } else {
        assert(t[k0 - 1] == name.last());
    }
}

/// Enharmonic spellings name the same semitone: C#/Db, D#/Eb, F#/Gb, G#/Ab
/// and A#/Bb, so with the same octave they give the same MIDI note.
pub proof fn lemma_enharmonic_spellings()
    ensures
        note_base(seq!['C', '#']) == Some(1int) && note_base(seq!['D', 'b']) == Some(1int),
        note_base(seq!['D', '#']) == Some(3int) && note_base(seq!['E', 'b']) == Some(3int),
        note_base(seq!['F', '#']) == Some(6int) && note_base(seq!['G', 'b']) == Some(6int),
        note_base(seq!['G', '#']) == Some(8int) && note_base(seq!['A', 'b']) == Some(8int),
        note_base(seq!['A', '#']) == Some(10int) && note_base(seq!['B', 'b']) == Some(10int),
{
}

proof fn lemma_trailing_digits_bound(s: Seq<char>)
    ensures
        trailing_digits(s) <= s.len(),
    decreases s.len(),
{
    if s.len() > 0 && is_digit(s.last()) {
        lemma_trailing_digits_bound(s.drop_last());
    }
}

proof fn lemma_case_char(a: char, b: char)
    requires
        ascii_lower(a) == ascii_lower(b),
    ensures
        is_ws(a) == is_ws(b),
        is_digit(a) || is_digit(b) ==> a == b,
        a == '-' || b == '-' ==> a == b,
        a == '#' || b == '#' ==> a == b,
        letter_semitone(a) == letter_semitone(b),
        accidental(a) == accidental(b),
{
}

proof fn lemma_case_trim_start(s: Seq<char>, t: Seq<char>)
    requires
        eq_ignore_case(s, t),
    ensures
        eq_ignore_case(trim_start(s), trim_start(t)),
    decreases s.len(),
{
    if s.len() > 0 {
        lemma_case_char(s[0], t[0]);
        if is_ws(s[0]) {
            assert forall|i: int| 0 <= i < s.drop_first().len() implies ascii_lower(
                s.drop_first()[i],
            ) == ascii_lower(t.drop_first()[i]) by {
                assert(ascii_lower(s[i + 1]) == ascii_lower(t[i + 1]));
            }
            lemma_case_trim_start(s.drop_first(), t.drop_first());
        }
    }
}

proof fn lemma_case_trim_end(s: Seq<char>, t: Seq<char>)
    requires
        eq_ignore_case(s, t),
    ensures
        eq_ignore_case(trim_end(s), trim_end(t)),
    decreases s.len(),
{
    if s.len() > 0 {
        lemma_case_char(s.last(), t.last());
        if is_ws(s.last()) {
            assert forall|i: int| 0 <= i < s.drop_last().len() implies ascii_lower(
                s.drop_last()[i],
            ) == ascii_lower(t.drop_last()[i]) by {
                assert(ascii_lower(s[i]) == ascii_lower(t[i]));
            }
            lemma_case_trim_end(s.drop_last(), t.drop_last());
        }
    }
}

proof fn lemma_case_trailing_digits(s: Seq<char>, t: Seq<char>)
    requires
        eq_ignore_case(s, t),
    ensures
        trailing_digits(s) == trailing_digits(t),
    decreases s.len(),
{
    if s.len() > 0 {
        lemma_case_char(s.last(), t.last());
        if is_digit(s.last()) {
            assert forall|i: int| 0 <= i < s.drop_last().len() implies ascii_lower(
                s.drop_last()[i],
            ) == ascii_lower(t.drop_last()[i]) by {
                assert(ascii_lower(s[i]) == ascii_lower(t[i]));
            }
            lemma_case_trailing_digits(s.drop_last(), t.drop_last());
        }
    }
}

/// `parse_pitch` ignores ASCII case: two tokens that differ only in the case
/// of ASCII letters give the same pitch.
pub proof fn lemma_pitch_ignores_case(s: Seq<char>, t: Seq<char>)
    requires
        eq_ignore_case(s, t),
    ensures
        spec_parse_pitch(s) is Ok ==> spec_parse_pitch(t) == spec_parse_pitch(s),
{
    lemma_case_trim_start(s, t);
    lemma_case_trim_end(trim_start(s), trim_start(t));
    let a = trim(s);
    let b = trim(t);
    if a.len() >= 2 {
        lemma_case_trailing_digits(a, b);
        lemma_trailing_digits_bound(a);
        let d = trailing_digits(a);
        let k0 = a.len() - d;
        if d > 0 {
            assert forall|j: int| k0 <= j < a.len() implies a[j] == b[j] by {
                lemma_trailing_digits(a, j);
                lemma_case_char(a[j], b[j]);
            }
            assert(a.skip(k0) =~= b.skip(k0));
            if k0 > 0 {
                lemma_case_char(a[k0 - 1], b[k0 - 1]);
            }
            let neg = k0 > 0 && a[k0 - 1] == '-';
            let k = if neg {
                k0 - 1
            } else {
                k0
            };
            let na = a.take(k);
            let nb = b.take(k);
            if na.len() >= 1 {
                lemma_case_char(na[0], nb[0]);
            }
            if na.len() == 2 {
                lemma_case_char(na[1], nb[1]);
            }
            assert(note_base(na) == note_base(nb));
        }
    }
}

/// Inside a track block, a line that is no directive and no chord is a note
/// event, and an error in it is reported as `line n: ` and the error.
pub proof fn lemma_track_event_error(song: SongModel, tr: TrackModel, n: nat, raw: Seq<char>)
    requires
        trim(uncommented(raw)).len() > 0,
        !is_keyword(words(trim(uncommented(raw)))[0], kw_end()),
        !is_keyword(words(trim(uncommented(raw)))[0], kw_instrument()),
        !is_keyword(words(trim(uncommented(raw)))[0], kw_channel()),
        trim(uncommented(raw))[0] != '{',
        spec_parse_note_event(words(trim(uncommented(raw))), song.tpq) is Err,
    ensures
        parse_step(ParseState { song, current: Some(tr) }, n, raw) == Err::<ParseState, Seq<char>>(
            at_line(n, spec_parse_note_event(words(trim(uncommented(raw))), song.tpq)->Err_0),
        ),
{
}

/// A header directive (`bpm`, `tpq`, `time`, in any case) inside a track
/// block is refused.
pub proof fn lemma_header_directive_in_track(song: SongModel, tr: TrackModel, n: nat, raw: Seq<char>)
    requires
        trim(uncommented(raw)).len() > 0,
        is_header_directive(words(trim(uncommented(raw)))[0]),
    ensures
        parse_step(ParseState { song, current: Some(tr) }, n, raw) is Err,
{
    let line = trim(uncommented(raw));
    lemma_trimmed_has_words(uncommented(raw));
    let tokens = words(line);
    let t0 = tokens[0];
    assert(t0 == line.take(word_len(line) as int));
    assert(t0.len() >= 3);
    assert(t0[0] == line[0]);
    let last = t0[t0.len() - 1];
    if is_keyword(t0, kw_bpm()) {
        assert(lowers_to(t0[0], 'b') && lowers_to(last, 'm'));
    } else if is_keyword(t0, kw_tpq()) {
        assert(lowers_to(t0[0], 't') && lowers_to(last, 'q'));
    } else {
        assert(lowers_to(t0[0], 't') && lowers_to(last, 'e'));
    }
    assert(!is_keyword(t0, kw_end()) && !is_keyword(t0, kw_instrument()) && !is_keyword(
        t0,
        kw_channel(),
    ));
    assert(!eq_ignore_case(t0, rest_word()));
    assert(!is_ws(t0[0]) && !is_ws(last) && !is_digit(last));
    lemma_trim_noop(t0);
    assert(trailing_digits(t0) == 0);
}

/// The named durations at any resolution `tpq`: `w` is four quarter notes,
/// `h` two, `q` one, `e` a half and `s` a quarter of one; a dot adds half
/// again (`h.` is three quarter notes).
pub proof fn lemma_named_durations(tpq: u16)
    ensures
        spec_parse_duration(seq!['w'], tpq) == Ok::<u32, Seq<char>>((4 * tpq) as u32),
        spec_parse_duration(seq!['h'], tpq) == Ok::<u32, Seq<char>>((2 * tpq) as u32),
        spec_parse_duration(seq!['q'], tpq) == Ok::<u32, Seq<char>>(tpq as u32),
        spec_parse_duration(seq!['e'], tpq) == Ok::<u32, Seq<char>>((tpq / 2) as u32),
        spec_parse_duration(seq!['s'], tpq) == Ok::<u32, Seq<char>>((tpq / 4) as u32),
        spec_parse_duration(seq!['w', '.'], tpq) == Ok::<u32, Seq<char>>((6 * tpq) as u32),
        spec_parse_duration(seq!['h', '.'], tpq) == Ok::<u32, Seq<char>>((3 * tpq) as u32),
        spec_parse_duration(seq!['q', '.'], tpq) == Ok::<u32, Seq<char>>((tpq + tpq / 2) as u32),
        spec_parse_duration(seq!['e', '.'], tpq) == Ok::<u32, Seq<char>>(
            (tpq / 2 + tpq / 4) as u32,
        ),
        spec_parse_duration(seq!['s', '.'], tpq) == Ok::<u32, Seq<char>>(
            (tpq / 4 + tpq / 8) as u32,
        ),
{
    lemma_trim_noop(seq!['w']);
    lemma_trim_noop(seq!['h']);
    lemma_trim_noop(seq!['q']);
    lemma_trim_noop(seq!['e']);
    lemma_trim_noop(seq!['s']);
    lemma_trim_noop(seq!['w', '.']);
    lemma_trim_noop(seq!['h', '.']);
    lemma_trim_noop(seq!['q', '.']);
    lemma_trim_noop(seq!['e', '.']);
    lemma_trim_noop(seq!['s', '.']);
    assert(seq!['w', '.'].drop_last() =~= seq!['w']);
    assert(seq!['h', '.'].drop_last() =~= seq!['h']);
    assert(seq!['q', '.'].drop_last() =~= seq!['q']);
    assert(seq!['e', '.'].drop_last() =~= seq!['e']);
    assert(seq!['s', '.'].drop_last() =~= seq!['s']);
}

/// A plain tick count is that many ticks, whatever `tpq` is.
pub proof fn lemma_tick_count_duration(n: nat, tpq: u16)
    requires
        n <= u32::MAX,
    ensures
        spec_parse_duration(decimal(n), tpq) == Ok::<u32, Seq<char>>(n as u32),
{
    lemma_decimal(n);
    let t = decimal(n);
    assert(is_digit(t[0]) && is_digit(t.last()));
    lemma_trim_noop(t);
}

/// The semitones of the note names: C 0, D 2, E 4, F 5, G 7, A 9, B 11; a
/// sharp is one above the letter and a flat one below.
pub proof fn lemma_note_names()
    ensures
        note_base(seq!['C']) == Some(0int),
        note_base(seq!['D']) == Some(2int),
        note_base(seq!['E']) == Some(4int),
        note_base(seq!['F']) == Some(5int),
        note_base(seq!['G']) == Some(7int),
        note_base(seq!['A']) == Some(9int),
        note_base(seq!['B']) == Some(11int),
        note_base(seq!['C', '#']) == Some(1int),
        note_base(seq!['C', 'b']) == Some(-1int),
        note_base(seq!['D', '#']) == Some(3int),
        note_base(seq!['D', 'b']) == Some(1int),
        note_base(seq!['E', '#']) == Some(5int),
        note_base(seq!['E', 'b']) == Some(3int),
        note_base(seq!['F', '#']) == Some(6int),
        note_base(seq!['F', 'b']) == Some(4int),
        note_base(seq!['G', '#']) == Some(8int),
        note_base(seq!['G', 'b']) == Some(6int),
        note_base(seq!['A', '#']) == Some(10int),
        note_base(seq!['A', 'b']) == Some(8int),
        note_base(seq!['B', '#']) == Some(12int),
        note_base(seq!['B', 'b']) == Some(10int),
{
}

/// A natural note letter followed by an octave `o` is the MIDI note
/// `(o + 1) * 12` plus the letter's semitone (C 0, D 2, E 4, F 5, G 7, A 9,
/// B 11), where that is at most 127.
pub proof fn lemma_natural_pitches(o: int)
    requires
        -1 <= o <= 9,
    ensures
        spec_parse_pitch(seq!['C'] + octave_text(o)) == Ok::<u8, Seq<char>>(((o + 1) * 12) as u8),
        spec_parse_pitch(seq!['D'] + octave_text(o)) == Ok::<u8, Seq<char>>(
            ((o + 1) * 12 + 2) as u8,
        ),
        spec_parse_pitch(seq!['E'] + octave_text(o)) == Ok::<u8, Seq<char>>(
            ((o + 1) * 12 + 4) as u8,
        ),
        spec_parse_pitch(seq!['F'] + octave_text(o)) == Ok::<u8, Seq<char>>(
            ((o + 1) * 12 + 5) as u8,
        ),
        spec_parse_pitch(seq!['G'] + octave_text(o)) == Ok::<u8, Seq<char>>(
            ((o + 1) * 12 + 7) as u8,
        ),
        o <= 8 ==> spec_parse_pitch(seq!['A'] + octave_text(o)) == Ok::<u8, Seq<char>>(
            ((o + 1) * 12 + 9) as u8,
        ),
        o <= 8 ==> spec_parse_pitch(seq!['B'] + octave_text(o)) == Ok::<u8, Seq<char>>(
            ((o + 1) * 12 + 11) as u8,
        ),
{
    lemma_note_names();
    lemma_pitch_formula(seq!['C'], o);
    lemma_pitch_formula(seq!['D'], o);
    lemma_pitch_formula(seq!['E'], o);
    lemma_pitch_formula(seq!['F'], o);
    lemma_pitch_formula(seq!['G'], o);
    lemma_pitch_formula(seq!['A'], o);
    lemma_pitch_formula(seq!['B'], o);
}

/// A `track` line opens a track with instrument 0, channel 1 and no events,
/// named by the words after `track` (`Unnamed` where there are none),
/// whatever tracks were read before; the song is left as it was.
pub proof fn lemma_track_opens_with_defaults(st: ParseState, n: nat, tokens: Seq<Seq<char>>)
    requires
        tokens.len() > 0,
        is_keyword(tokens[0], kw_track()),
    ensures
        header_line(st, n, tokens) == Ok::<ParseState, Seq<char>>(
            ParseState {
                song: st.song,
                current: Some(
                    TrackModel {
                        name: if tokens.len() > 1 {
                            join_words(tokens.skip(1))
                        } else {
                            "Unnamed"@
                        },
                        instrument: 0,
                        channel: 1,
                        events: seq![],
                    },
                ),
            },
        ),
{
    assert(!is_keyword(tokens[0], kw_bpm()) && !is_keyword(tokens[0], kw_tpq()) && !is_keyword(
        tokens[0],
        kw_time(),
    ));
}

/// Inside a track block, only an `instrument` line changes the track's
/// instrument and only a `channel` line its channel; its name never changes,
/// and a line that keeps the block open keeps the song as it was.
pub proof fn lemma_track_line_keeps_settings(
    song: SongModel,
    tr: TrackModel,
    n: nat,
    line: Seq<char>,
    tokens: Seq<Seq<char>>,
)
    requires
        tokens.len() > 0,
    ensures
        track_line(song, tr, n, line, tokens) matches Ok(st2) ==> (st2.current matches Some(t2)
            ==> {
            &&& t2.name == tr.name
            &&& !is_keyword(tokens[0], kw_instrument()) ==> t2.instrument == tr.instrument
            &&& !is_keyword(tokens[0], kw_channel()) ==> t2.channel == tr.channel
            &&& st2.song == song
        }),
{
}

/// A parsed note event has the duration that `parse_duration` gives for its
/// second token; it is a rest exactly where its first token is `rest` (in any
/// case), and otherwise has the pitch `parse_pitch` gives for the first token
/// and the velocity of the third (100 where there is none).
pub proof fn lemma_note_event_fields(parts: Seq<Seq<char>>, tpq: u16)
    ensures
        spec_parse_note_event(parts, tpq) matches Ok(ne) ==> {
            &&& parts.len() >= 2
            &&& spec_parse_duration(parts[1], tpq) == Ok::<u32, Seq<char>>(ne.duration_ticks)
            &&& (ne.kind is Rest <==> eq_ignore_case(parts[0], rest_word()))
            &&& ne.kind matches EventKind::Note { pitch, velocity } ==> {
                &&& spec_parse_pitch(parts[0]) == Ok::<u8, Seq<char>>(pitch)
                &&& parts.len() == 2 ==> velocity == 100
                &&& parts.len() >= 3 ==> parse_unsigned(parts[2], 255) == Some(velocity as nat)
            }
        },
{
}

/// A header directive sets its field to the number its second word gives,
/// within the field's range, and leaves the rest of the song as it was.
pub proof fn lemma_header_values(st: ParseState, n: nat, tokens: Seq<Seq<char>>)
    requires
        tokens.len() > 0,
    ensures
        header_line(st, n, tokens) matches Ok(st2) ==> {
            &&& st2.song.tracks == st.song.tracks
            &&& is_keyword(tokens[0], kw_bpm()) ==> {
                &&& parse_unsigned(tokens[1], 0xFFFF_FFFF) == Some(st2.song.bpm as nat)
                &&& 1 <= st2.song.bpm <= 999
                &&& st2.song == SongModel { bpm: st2.song.bpm, ..st.song }
            }
            &&& is_keyword(tokens[0], kw_tpq()) ==> {
                &&& parse_unsigned(tokens[1], 0xFFFF) == Some(st2.song.tpq as nat)
                &&& 1 <= st2.song.tpq <= 32767
                &&& st2.song == SongModel { tpq: st2.song.tpq, ..st.song }
            }
            &&& is_keyword(tokens[0], kw_time()) ==> {
                &&& split_on(tokens[1], '/').len() == 2
                &&& parse_unsigned(split_on(tokens[1], '/')[0], 255) == Some(
                    st2.song.time_num as nat,
                )
                &&& parse_unsigned(split_on(tokens[1], '/')[1], 255) == Some(
                    st2.song.time_den as nat,
                )
                &&& st2.song == SongModel {
                    time_num: st2.song.time_num,
                    time_den: st2.song.time_den,
                    ..st.song
                }
            }
        },
{
}

/// Inside a track block, `instrument` and `channel` set the track's field to
/// the number their second word gives, within its range.
pub proof fn lemma_track_settings(
    song: SongModel,
    tr: TrackModel,
    n: nat,
    line: Seq<char>,
    tokens: Seq<Seq<char>>,
)
    requires
        tokens.len() > 0,
    ensures
        track_line(song, tr, n, line, tokens) matches Ok(st2) ==> (st2.current matches Some(t2)
            ==> {
            &&& is_keyword(tokens[0], kw_instrument()) ==> parse_unsigned(tokens[1], 255) == Some(
                t2.instrument as nat,
            ) && t2.instrument <= 127 && t2.events == tr.events
            &&& is_keyword(tokens[0], kw_channel()) ==> parse_unsigned(tokens[1], 255) == Some(
                t2.channel as nat,
            ) && 1 <= t2.channel <= 16 && t2.events == tr.events
        }),
{
}

/// A chord's notes are its comma-separated pieces read as note events, in
/// order: where every piece has words and each is a note event, the chord
/// has one note per piece, the `j`-th being the `j`-th piece's event.
pub proof fn lemma_chord_notes_in_order(pieces: Seq<Seq<char>>, i: nat, tpq: u16)
    requires
        i <= pieces.len(),
        forall|j: int|
            0 <= j < i ==> words(#[trigger] pieces[j]).len() > 0 && spec_parse_note_event(
                words(pieces[j]),
                tpq,
            ) is Ok,
    ensures
        chord_notes(pieces, i, tpq) matches Ok(ns) && ns.len() == i && forall|j: int|
            0 <= j < i ==> Ok::<NoteEvent, Seq<char>>(#[trigger] ns[j]) == spec_parse_note_event(
                words(pieces[j]),
                tpq,
            ),
    decreases i,
{
    if i > 0 {
        lemma_chord_notes_in_order(pieces, (i - 1) as nat, tpq);
        let k = (i - 1) as int;
        assert(words(pieces[k]).len() > 0 && spec_parse_note_event(words(pieces[k]), tpq) is Ok);
    }
}

} // verus!
