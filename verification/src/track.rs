//! The track encoder: a scan over one MIDI track's time-ordered,
//! already-decoded events that produces the typed track event
//! sequence, and the renderer that serializes it to MML text.

use vstd::prelude::*;
use vstd::string::StringExecFns;
use std::collections::HashMap;
use crate::events::{TrackEvent, track_event_text};
use crate::note::{Note, note_new, close_note};

verus! {

broadcast use vstd::std_specs::hash::group_hash_axioms;

/// One already-decoded MIDI event, tagged with its delta time in
/// ticks.  This is the input shape of the encoder; reading the binary
/// container that produces it is the caller's business.
#[derive(Clone, Copy, Debug)]
pub enum MidiEventKind {
    /// A meta tempo event: microseconds per quarter note.
    Tempo(u32),
    /// Note-on.  A velocity of zero means note-off.
    NoteOn { key: u8, velocity: u8 },
    /// Note-off.
    NoteOff { key: u8 },
    /// Any message kind the encoder ignores.
    Other,
}

/// A decoded MIDI track event: delta ticks since the previous event,
/// and the message itself.
#[derive(Clone, Copy, Debug)]
pub struct MidiEvent {
    pub delta: u32,
    pub kind: MidiEventKind,
}

/// Saturating 64-bit addition, for the running tick counter.
pub open spec fn sat_add64(a: u64, b: u64) -> u64 {
    if a + b > u64::MAX {
        u64::MAX
    } else {
        (a + b) as u64
    }
}

/// Saturate a unit count into a `u16`.
pub open spec fn clamp_u16(n: nat) -> u16 {
    if n > u16::MAX {
        u16::MAX
    } else {
        n as u16
    }
}

/// The most recently appended note, scanning backward over the events.
pub open spec fn last_note(evts: Seq<TrackEvent>) -> Option<Note>
    decreases evts.len(),
{
    if evts.len() == 0 {
        None
    } else {
        match evts.last() {
            TrackEvent::SetNote(n) => Some(n),
            _ => last_note(evts.drop_last()),
        }
    }
}

/// The marker placed before a new note, from its quantized onset
/// relative to where the previous note ended: a rest for a gap, a
/// chord connection for exact alignment, a note connection for
/// overlap.
pub open spec fn onset_marker(prev: Note, note: Note) -> TrackEvent {
    let prev_end = prev.position_in_note_64 + prev.duration_in_note_64;
    if note.position_in_note_64 > prev_end {
        TrackEvent::SetRest(clamp_u16((note.position_in_note_64 - prev_end) as nat))
    } else if note.position_in_note_64 == prev_end {
        TrackEvent::ConnectChord
    } else {
        TrackEvent::ConnectNote
    }
}

/// The octave bookkeeping before a new note: a single step for a
/// difference of exactly one, an explicit octave otherwise.
pub open spec fn octave_marker(prev: Note, note: Note) -> TrackEvent {
    if note.octave == prev.octave + 1 {
        TrackEvent::IncreOctave
    } else if prev.octave == note.octave + 1 {
        TrackEvent::DecreOctave
    } else {
        TrackEvent::SetOctave(note.octave)
    }
}

/// The events a note-on appends: marker and octave bookkeeping against
/// the previous note, then the new open note.  The first note of a
/// track gets a leading rest when it does not start at tick zero, and
/// always an explicit octave.
pub open spec fn created_events(prev: Option<Note>, note: Note) -> Seq<TrackEvent> {
    match prev {
        Some(p) => seq![onset_marker(p, note), octave_marker(p, note), TrackEvent::SetNote(note)],
        None => (if note.position_in_note_64 > 0 {
            seq![TrackEvent::SetRest(clamp_u16(note.position_in_note_64 as nat))]
        } else {
            Seq::<TrackEvent>::empty()
        }) + seq![TrackEvent::SetOctave(note.octave), TrackEvent::SetNote(note)],
    }
}

/// The effect of a note-off for `key`: when a held note is on record
/// at a valid index, that open note is closed in place; otherwise
/// nothing changes (a spurious note-off is never an error).
pub open spec fn update_note_spec(
    evts: Seq<TrackEvent>,
    holding: Map<u8, usize>,
    key: u8,
    tick: u64,
    ppq: u16,
) -> Seq<TrackEvent> {
    if holding.contains_key(key) && (holding[key] as int) < evts.len() {
        match evts[holding[key] as int] {
            TrackEvent::SetNote(n) => evts.update(
                holding[key] as int,
                TrackEvent::SetNote(close_note(n, tick, ppq)),
            ),
            _ => evts,
        }
    } else {
        evts
    }
}

/// Beats per minute from microseconds per quarter note.
pub open spec fn bpm_of_micros(micros: u32) -> u32
    recommends
        micros >= 1,
{
    (60_000_000 as nat / micros as nat) as u32
}

/// The events after a meta tempo message: a tempo event is appended;
/// a degenerate zero-microsecond tempo is ignored.
pub open spec fn tempo_events(evts: Seq<TrackEvent>, micros: u32) -> Seq<TrackEvent> {
    if micros >= 1 {
        evts.push(TrackEvent::SetTempo(bpm_of_micros(micros)))
    } else {
        evts
    }
}

/// The effect of one channel message on the events and the held-note
/// map.  Note-on with positive velocity creates a note; note-on with
/// velocity zero and note-off close one; everything else is ignored.
pub open spec fn midi_step(
    evts: Seq<TrackEvent>,
    holding: Map<u8, usize>,
    kind: MidiEventKind,
    tick: u64,
    ppq: u16,
) -> (Seq<TrackEvent>, Map<u8, usize>) {
    match kind {
        MidiEventKind::NoteOn { key, velocity } => {
            if velocity > 0 {
                let evts2 = evts + created_events(last_note(evts), note_new(key, tick, ppq));
                (evts2, holding.insert(key, (evts2.len() - 1) as usize))
            } else {
                (update_note_spec(evts, holding, key, tick, ppq), holding)
            }
        },
        MidiEventKind::NoteOff { key } => (
            update_note_spec(evts, holding, key, tick, ppq),
            holding,
        ),
        _ => (evts, holding),
    }
}

/// The encoder's running state: the events built so far, the open
/// notes awaiting their note-off, and the absolute tick.
pub struct EncodeState {
    pub events: Seq<TrackEvent>,
    pub holding: Map<u8, usize>,
    pub tick: u64,
}

/// One encoder transition: advance the clock by the event's delta,
/// then apply the message.
pub open spec fn encode_step(st: EncodeState, ev: MidiEvent, ppq: u16) -> EncodeState {
    let tick = sat_add64(st.tick, ev.delta as u64);
    match ev.kind {
        MidiEventKind::Tempo(micros) => EncodeState {
            events: tempo_events(st.events, micros),
            holding: st.holding,
            tick,
        },
        _ => {
            let (e2, h2) = midi_step(st.events, st.holding, ev.kind, tick, ppq);
            EncodeState { events: e2, holding: h2, tick }
        },
    }
}

/// The encoder state after scanning a whole event sequence.
pub open spec fn encode_events(evts: Seq<MidiEvent>, ppq: u16) -> EncodeState
    decreases evts.len(),
{
    if evts.len() == 0 {
        EncodeState { events: Seq::<TrackEvent>::empty(), holding: Map::<u8, usize>::empty(), tick: 0 }
    } else {
        encode_step(encode_events(evts.drop_last(), ppq), evts.last(), ppq)
    }
}

/// Whether an event is a note whose duration is still at its open
/// default.  (A note that was closed with a zero tick duration is
/// indistinguishable from an open one and gets the fallback too.)
pub open spec fn is_open_note(ev: TrackEvent) -> bool {
    match ev {
        TrackEvent::SetNote(n) => n.duration_in_tick == 0 && n.duration_in_note_64 == 0,
        _ => false,
    }
}

/// The end-of-track fallback for one key: a held note that is still
/// open is closed at the final tick; a note already closed by its
/// note-off keeps its duration.
pub open spec fn close_open_spec(
    evts: Seq<TrackEvent>,
    holding: Map<u8, usize>,
    key: u8,
    tick: u64,
    ppq: u16,
) -> Seq<TrackEvent> {
    if holding.contains_key(key) && (holding[key] as int) < evts.len() && is_open_note(
        evts[holding[key] as int],
    ) {
        match evts[holding[key] as int] {
            TrackEvent::SetNote(n) => evts.update(
                holding[key] as int,
                TrackEvent::SetNote(close_note(n, tick, ppq)),
            ),
            _ => evts,
        }
    } else {
        evts
    }
}

/// Close every note still open at end of track, at the final tick,
/// walking the key space in order.
pub open spec fn close_all_from(
    evts: Seq<TrackEvent>,
    holding: Map<u8, usize>,
    k: nat,
    tick: u64,
    ppq: u16,
) -> Seq<TrackEvent>
    decreases 256 - k,
    when k <= 256
{
    if k >= 256 {
        evts
    } else {
        close_all_from(close_open_spec(evts, holding, k as u8, tick, ppq), holding, k + 1, tick, ppq)
    }
}

/// The full event sequence a decoded MIDI track encodes to: the scan,
/// then the end-of-track fallback that closes still-open notes.
pub open spec fn track_events_of(midi: Seq<MidiEvent>, ppq: u16) -> Seq<TrackEvent> {
    let st = encode_events(midi, ppq);
    close_all_from(st.events, st.holding, 0, st.tick, ppq)
}

/// An encoded MIDI track: an ordered sequence of typed events.
#[derive(Debug, Clone)]
pub struct Track {
    events: Vec<TrackEvent>,
}

impl View for Track {
    type V = Seq<TrackEvent>;

    closed spec fn view(&self) -> Seq<TrackEvent> {
        self.events@
    }
}

/// The concatenated MML text of an event sequence.
pub open spec fn events_text(evts: Seq<TrackEvent>) -> Seq<char>
    decreases evts.len(),
{
    if evts.len() == 0 {
        Seq::<char>::empty()
    } else {
        track_event_text(evts[0]) + events_text(evts.drop_first())
    }
}

/// The last `SetNote` of the event list, if any.
pub fn get_before_note(events: &Vec<TrackEvent>) -> (r: Option<Note>)
    ensures
        r == last_note(events@),
{
    let mut i: usize = events.len();
    proof {
        assert(events@.take(events@.len() as int) =~= events@);
    }
    while i > 0
        invariant
            i <= events.len(),
            last_note(events@) == last_note(events@.take(i as int)),
        decreases i,
    {
        i = i - 1;
        proof {
            assert(events@.take(i as int + 1).last() == events@[i as int]);
            assert(events@.take(i as int + 1).drop_last() =~= events@.take(i as int));
        }
        match events[i] {
            TrackEvent::SetNote(n) => {
                return Some(n);
            },
            _ => {},
        }
    }
    proof {
        assert(events@.take(0) =~= Seq::<TrackEvent>::empty());
    }
    None
}

/// Append the events a new note-on creates, and record the open note.
pub fn create_note(
    midi_key: u8,
    events: &mut Vec<TrackEvent>,
    holding_notes: &mut HashMap<u8, usize>,
    current_ticks: u64,
    ppq: u16,
)
    requires
        ppq >= 1,
    ensures
        final(events)@ == old(events)@ + created_events(
            last_note(old(events)@),
            note_new(midi_key, current_ticks, ppq),
        ),
        final(holding_notes)@ == old(holding_notes)@.insert(
            midi_key,
            (final(events)@.len() - 1) as usize,
        ),
{
    let note = Note::new(midi_key, current_ticks, ppq);
    let before = get_before_note(events);
    match before {
        Some(before_note) => {
            let prev_end: u128 = before_note.position_in_note_64 as u128
                + before_note.duration_in_note_64 as u128;
            let pos: u128 = note.position_in_note_64 as u128;
            if pos > prev_end {
                let diff: u128 = pos - prev_end;
                let rest: u16 = if diff > u16::MAX as u128 {
                    u16::MAX
                } else {
                    diff as u16
                };
                events.push(TrackEvent::SetRest(rest));
            } else if pos == prev_end {
                events.push(TrackEvent::ConnectChord);
            } else {
                events.push(TrackEvent::ConnectNote);
            }
            if note.octave as u16 == before_note.octave as u16 + 1 {
                events.push(TrackEvent::IncreOctave);
            } else if note.octave as u16 + 1 == before_note.octave as u16 {
                events.push(TrackEvent::DecreOctave);
            } else {
                events.push(TrackEvent::SetOctave(note.octave));
            }
        },
        None => {
            if note.position_in_note_64 > 0 {
                let rest: u16 = if note.position_in_note_64 > u16::MAX as u64 {
                    u16::MAX
                } else {
                    note.position_in_note_64 as u16
                };
                events.push(TrackEvent::SetRest(rest));
            }
            events.push(TrackEvent::SetOctave(note.octave));
        },
    }
    holding_notes.insert(midi_key, events.len());
    events.push(TrackEvent::SetNote(note));
    proof {
        assert(final(events)@ =~= old(events)@ + created_events(
            last_note(old(events)@),
            note_new(midi_key, current_ticks, ppq),
        ));
    }
}

/// Close the held note for `key` at the current tick, if one is on
/// record; a note-off with no matching held note changes nothing.
pub fn update_note(
    midi_key: u8,
    events: &mut Vec<TrackEvent>,
    holding_notes: &HashMap<u8, usize>,
    current_ticks: u64,
    ppq: u16,
)
    requires
        ppq >= 1,
    ensures
        final(events)@ == update_note_spec(
            old(events)@,
            holding_notes@,
            midi_key,
            current_ticks,
            ppq,
        ),
{
    match holding_notes.get(&midi_key) {
        Some(index) => {
            let idx: usize = *index;
            if idx < events.len() {
                match events[idx] {
                    TrackEvent::SetNote(n) => {
                        let closed = n.close(current_ticks, ppq);
                        events.set(idx, TrackEvent::SetNote(closed));
                    },
                    _ => {},
                }
            }
        },
        None => {},
    }
}

/// End-of-track fallback for one key: close the held note only if it
/// is still open.
fn close_open_note(
    midi_key: u8,
    events: &mut Vec<TrackEvent>,
    holding_notes: &HashMap<u8, usize>,
    current_ticks: u64,
    ppq: u16,
)
    requires
        ppq >= 1,
    ensures
        final(events)@ == close_open_spec(
            old(events)@,
            holding_notes@,
            midi_key,
            current_ticks,
            ppq,
        ),
{
    match holding_notes.get(&midi_key) {
        Some(index) => {
            let idx: usize = *index;
            if idx < events.len() {
                match events[idx] {
                    TrackEvent::SetNote(n) => {
                        if n.duration_in_tick == 0 && n.duration_in_note_64 == 0 {
                            let closed = n.close(current_ticks, ppq);
                            events.set(idx, TrackEvent::SetNote(closed));
                        }
                    },
                    _ => {},
                }
            }
        },
        None => {},
    }
}

/// Append a tempo event for a meta tempo message.
pub fn match_meta_event(micros: u32, events: &mut Vec<TrackEvent>)
    ensures
        final(events)@ == tempo_events(old(events)@, micros),
{
    if micros >= 1 {
        let bpm: u32 = 60_000_000 / micros;
        events.push(TrackEvent::SetTempo(bpm));
    }
}

/// Apply one channel message to the events and the held-note map.
pub fn match_midi_event(
    kind: &MidiEventKind,
    events: &mut Vec<TrackEvent>,
    holding_notes: &mut HashMap<u8, usize>,
    current_ticks: u64,
    ppq: u16,
)
    requires
        ppq >= 1,
    ensures
        final(events)@ == midi_step(
            old(events)@,
            old(holding_notes)@,
            *kind,
            current_ticks,
            ppq,
        ).0,
        final(holding_notes)@ == midi_step(
            old(events)@,
            old(holding_notes)@,
            *kind,
            current_ticks,
            ppq,
        ).1,
{
    match kind {
        MidiEventKind::NoteOn { key, velocity } => {
            if *velocity > 0 {
                create_note(*key, events, holding_notes, current_ticks, ppq);
            } else {
                update_note(*key, events, holding_notes, current_ticks, ppq);
            }
        },
        MidiEventKind::NoteOff { key } => {
            update_note(*key, events, holding_notes, current_ticks, ppq);
        },
        _ => {},
    }
}

impl Track {
    /// Encode one decoded MIDI track: scan its events in order, then
    /// close any note still open at the end of the track.
    pub fn new(smf_events: &Vec<MidiEvent>, ppq: u16) -> (t: Track)
        requires
            ppq >= 1,
        ensures
            t@ == track_events_of(smf_events@, ppq),
    {
        let mut events: Vec<TrackEvent> = Vec::new();
        let mut holding_notes: HashMap<u8, usize> = HashMap::new();
        let mut current_tick: u64 = 0;
        let mut i: usize = 0;
        proof {
            assert(smf_events@.take(0) =~= Seq::<MidiEvent>::empty());
        }
        while i < smf_events.len()
            invariant
                ppq >= 1,
                i <= smf_events.len(),
                encode_events(smf_events@.take(i as int), ppq) == (EncodeState {
                    events: events@,
                    holding: holding_notes@,
                    tick: current_tick,
                }),
            decreases smf_events.len() - i,
        {
            let ev = smf_events[i];
            let delta: u64 = ev.delta as u64;
            current_tick = if current_tick <= u64::MAX - delta {
                current_tick + delta
            } else {
                u64::MAX
            };
            match ev.kind {
                MidiEventKind::Tempo(micros) => {
                    match_meta_event(micros, &mut events);
                },
                _ => {
                    match_midi_event(&ev.kind, &mut events, &mut holding_notes, current_tick, ppq);
                },
            }
            proof {
                assert(smf_events@.take(i as int + 1).drop_last() =~= smf_events@.take(i as int));
                assert(smf_events@.take(i as int + 1).last() == smf_events@[i as int]);
            }
            i = i + 1;
        }
        proof {
            assert(smf_events@.take(smf_events@.len() as int) =~= smf_events@);
        }
        let ghost st = encode_events(smf_events@, ppq);
        let mut k: usize = 0;
        while k < 256
            invariant
                ppq >= 1,
                k <= 256,
                holding_notes@ == st.holding,
                current_tick == st.tick,
                close_all_from(events@, holding_notes@, k as nat, current_tick, ppq)
                    == track_events_of(smf_events@, ppq),
            decreases 256 - k,
        {
            close_open_note(k as u8, &mut events, &holding_notes, current_tick, ppq);
            k = k + 1;
        }
        Track { events }
    }

    /// Render the whole track as MML text: the concatenation of each
    /// event's fixed textual form, in event order.
    pub fn to_mml(&self) -> (s: String)
        ensures
            s@ == events_text(self@),
    {
        let mut result = String::new();
        let mut i: usize = 0;
        proof {
            assert(self@.skip(0) =~= self@);
        }
        while i < self.events.len()
            invariant
                i <= self.events.len(),
                events_text(self@) =~= result@ + events_text(self@.skip(i as int)),
            decreases self.events.len() - i,
        {
            proof {
                assert(self@.skip(i as int)[0] == self@[i as int]);
                assert(self@.skip(i as int).drop_first() =~= self@.skip(i as int + 1));
            }
            let t = self.events[i].to_mml();
            result.append(t.as_str());
            i = i + 1;
        }
        proof {
            assert(events_text(self@.skip(self@.len() as int)) =~= Seq::<char>::empty());
        }
        result
    }

    /// The encoded events, in playback order.
    pub fn events(&self) -> (r: &Vec<TrackEvent>)
        ensures
            r@ == self@,
    {
        &self.events
    }
}

/// Onset alignment, encoder side: a note that starts exactly where the
/// previous note ended is preceded by a chord connection marker.
pub proof fn lemma_onset_alignment(prev: Note, note: Note)
    requires
        note.position_in_note_64 == prev.position_in_note_64 + prev.duration_in_note_64,
    ensures
        created_events(Some(prev), note)[0] == TrackEvent::ConnectChord,
{
}

/// Octave delta: encoding two consecutive notes whose octaves differ
/// by exactly one emits a single octave step and never an explicit
/// `SetOctave`; any other difference emits exactly one `SetOctave`
/// carrying the absolute target octave.
pub proof fn lemma_octave_delta(prev: Note, note: Note)
    ensures
        note.octave == prev.octave + 1 ==> created_events(Some(prev), note) =~= seq![
            onset_marker(prev, note),
            TrackEvent::IncreOctave,
            TrackEvent::SetNote(note),
        ],
        prev.octave == note.octave + 1 ==> created_events(Some(prev), note) =~= seq![
            onset_marker(prev, note),
            TrackEvent::DecreOctave,
            TrackEvent::SetNote(note),
        ],
        note.octave != prev.octave + 1 && prev.octave != note.octave + 1 ==> created_events(
            Some(prev),
            note,
        ) =~= seq![
            onset_marker(prev, note),
            TrackEvent::SetOctave(note.octave),
            TrackEvent::SetNote(note),
        ],
{
}

} // verus!
