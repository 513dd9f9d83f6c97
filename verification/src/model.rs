//! Core data model for MNF scores: notes, rests, chords, tracks and the
//! song that ties them together, each with the mathematical value that the
//! contracts of the parser and the encoder speak of.

use vstd::prelude::*;

verus! {

/// The musical content of a single note event: an audible note (pitch and
/// velocity) or a silent rest, which still advances the timeline.
#[derive(Debug, Clone, Copy, PartialEq, Eq)]
pub enum EventKind {
    /// A pitched, audible note: MIDI note number (middle C, `C4`, is 60) and
    /// MIDI velocity.
    Note { pitch: u8, velocity: u8 },
    /// A silent pause.
    Rest,
}

/// A single note or rest with its length in MIDI ticks.
#[derive(Debug, Clone, Copy, PartialEq, Eq)]
pub struct NoteEvent {
    pub kind: EventKind,
    pub duration_ticks: u32,
}

/// Notes that sound together: they share a start tick, and the chord
/// advances the timeline by the longest of their durations.
#[derive(Debug, Clone)]
pub struct ChordEvent {
    pub notes: Vec<NoteEvent>,
}

/// An event of a track: a lone note or rest, or a chord.
#[derive(Debug, Clone)]
pub enum TrackEvent {
    Single(NoteEvent),
    Chord(ChordEvent),
}

/// The value of a `TrackEvent`.
pub ghost enum EventModel {
    Single(NoteEvent),
    Chord(Seq<NoteEvent>),
}

impl View for TrackEvent {
    type V = EventModel;

    open spec fn view(&self) -> EventModel {
        match self {
            TrackEvent::Single(n) => EventModel::Single(*n),
            TrackEvent::Chord(c) => EventModel::Chord(c.notes@),
        }
    }
}

/// The values of a sequence of track events.
pub open spec fn event_views(s: Seq<TrackEvent>) -> Seq<EventModel> {
    s.map_values(|e: TrackEvent| e@)
}

pub proof fn lemma_event_views_push(s: Seq<TrackEvent>, e: TrackEvent)
    ensures
        event_views(s.push(e)) == event_views(s).push(e@),
{
    assert(event_views(s.push(e)) =~= event_views(s).push(e@));
}

/// One MIDI track: a `track … end` block of the source.
#[derive(Debug)]
pub struct Track {
    /// Written as the track name meta-event at tick 0.
    pub name: String,
    /// General MIDI program number, sent as a program change at tick 0.
    pub instrument: u8,
    /// 1-based MIDI channel.
    pub channel: u8,
    /// The track's events, in order.
    pub events: Vec<TrackEvent>,
}

/// The value of a `Track`.
pub ghost struct TrackModel {
    pub name: Seq<char>,
    pub instrument: u8,
    pub channel: u8,
    pub events: Seq<EventModel>,
}

impl View for Track {
    type V = TrackModel;

    open spec fn view(&self) -> TrackModel {
        TrackModel {
            name: self.name@,
            instrument: self.instrument,
            channel: self.channel,
            events: event_views(self.events@),
        }
    }
}

/// The values of a sequence of tracks.
pub open spec fn track_views(s: Seq<Track>) -> Seq<TrackModel> {
    s.map_values(|t: Track| t@)
}

pub proof fn lemma_track_views_push(s: Seq<Track>, t: Track)
    ensures
        track_views(s.push(t)) == track_views(s).push(t@),
{
    assert(track_views(s.push(t)) =~= track_views(s).push(t@));
}

/// A complete MNF score.
#[derive(Debug)]
pub struct Song {
    /// Tempo in beats per minute.
    pub bpm: u32,
    /// Time signature numerator (beats per measure).
    pub time_num: u8,
    /// Time signature denominator as a plain integer (4 for common time).
    pub time_den: u8,
    /// Ticks per quarter note.
    pub tpq: u16,
    /// The tracks, in declaration order.
    pub tracks: Vec<Track>,
}

/// The value of a `Song`.
pub ghost struct SongModel {
    pub bpm: u32,
    pub time_num: u8,
    pub time_den: u8,
    pub tpq: u16,
    pub tracks: Seq<TrackModel>,
}

impl View for Song {
    type V = SongModel;

    open spec fn view(&self) -> SongModel {
        SongModel {
            bpm: self.bpm,
            time_num: self.time_num,
            time_den: self.time_den,
            tpq: self.tpq,
            tracks: track_views(self.tracks@),
        }
    }
}

/// The defaults: 120 BPM, common time (4/4), 480 ticks per quarter note,
/// no tracks.
pub open spec fn default_song() -> SongModel {
    SongModel { bpm: 120, time_num: 4, time_den: 4, tpq: 480, tracks: seq![] }
}

/// The defaults are 120 beats per minute, 4/4 time and 480 ticks per
/// quarter note, with no track.
pub proof fn lemma_default_values()
    ensures
        default_song().bpm == 120,
        default_song().time_num == 4 && default_song().time_den == 4,
        default_song().tpq == 480,
        default_song().tracks.len() == 0,
{
}

impl Default for Song {
    fn default() -> (s: Self)
        ensures
            s@ == default_song(),
    {
        let s = Song { bpm: 120, time_num: 4, time_den: 4, tpq: 480, tracks: Vec::new() };
        assert(track_views(s.tracks@) =~= Seq::<TrackModel>::empty());
        s
    }
}

// ─── Well-formedness ─────────────────────────────────────────────────────────

/// A note event as the MNF format allows it: pitch and velocity in `0..=127`.
pub open spec fn note_ok(n: NoteEvent) -> bool {
    match n.kind {
        EventKind::Note { pitch, velocity } => pitch <= 127 && velocity <= 127,
        EventKind::Rest => true,
    }
}

/// A track event as the format allows it; a chord has at least one note.
pub open spec fn event_ok(e: EventModel) -> bool {
    match e {
        EventModel::Single(n) => note_ok(n),
        EventModel::Chord(ns) => ns.len() > 0 && forall|i: int| 0 <= i < ns.len() ==> note_ok(
            #[trigger] ns[i],
        ),
    }
}

/// A track as the format allows it: instrument `0..=127`, channel `1..=16`.
pub open spec fn track_ok(t: TrackModel) -> bool {
    &&& t.instrument <= 127
    &&& 1 <= t.channel <= 16
    &&& forall|i: int| 0 <= i < t.events.len() ==> event_ok(#[trigger] t.events[i])
}

/// Whether `d` is one of the time-signature denominators the format allows.
pub open spec fn is_time_denominator(d: u8) -> bool {
    d == 1 || d == 2 || d == 4 || d == 8 || d == 16 || d == 32
}

/// A song as the format allows it: BPM `1..=999`, numerator `1..=99`, a
/// power-of-two denominator up to 32, `tpq` `1..=32767`, and at least one
/// track, each of them well formed.
pub open spec fn song_ok(s: SongModel) -> bool {
    &&& 1 <= s.bpm <= 999
    &&& 1 <= s.time_num <= 99
    &&& is_time_denominator(s.time_den)
    &&& 1 <= s.tpq <= 32767
    &&& s.tracks.len() > 0
    &&& forall|i: int| 0 <= i < s.tracks.len() ==> track_ok(#[trigger] s.tracks[i])
}

} // verus!
