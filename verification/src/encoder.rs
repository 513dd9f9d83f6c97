//! MIDI binary encoder: a `Song` becomes the bytes of a Standard MIDI File
//! in Format 1 (a tempo track, then one `MTrk` chunk per track).

use vstd::prelude::*;
use vstd::utf8::encode_utf8;

use crate::model::{
    EventKind, EventModel, NoteEvent, Song, SongModel, Track, TrackEvent, TrackModel, event_views,
    song_ok,
};

verus! {

// ─── Fixed-width integers ────────────────────────────────────────────────────

/// `v` as two big-endian bytes.
pub open spec fn be16(v: u16) -> Seq<u8> {
    seq![(v / 256) as u8, (v % 256) as u8]
}

/// `v` as four big-endian bytes.
pub open spec fn be32(v: u32) -> Seq<u8> {
    seq![(v / 0x100_0000) as u8, (v / 0x1_0000 % 256) as u8, (v / 256 % 256) as u8, (v % 256) as u8]
}

/// The number that big-endian bytes `s` write.
pub open spec fn be_value(s: Seq<u8>) -> nat
    decreases s.len(),
{
    if s.len() == 0 {
        0
    } else {
        be_value(s.drop_last()) * 256 + s.last() as nat
    }
}

/// Appends `v` to `buf` in big-endian byte order.
pub fn write_u16_be(buf: &mut Vec<u8>, v: u16)
    ensures
        final(buf)@ == old(buf)@ + be16(v),
{
    buf.push((v >> 8) as u8);
    buf.push((v & 0xFF) as u8);
    proof {
        assert((v >> 8) as u8 == (v / 256) as u8) by (bit_vector);
        assert((v & 0xFF) as u8 == (v % 256) as u8) by (bit_vector);
    }
    assert(buf@ =~= old(buf)@ + be16(v));
}

/// Appends `v` to `buf` in big-endian byte order.
pub fn write_u32_be(buf: &mut Vec<u8>, v: u32)
    ensures
        final(buf)@ == old(buf)@ + be32(v),
{
    buf.push(((v >> 24) & 0xFF) as u8);
    buf.push(((v >> 16) & 0xFF) as u8);
    buf.push(((v >> 8) & 0xFF) as u8);
    buf.push((v & 0xFF) as u8);
    proof {
        assert(((v >> 24) & 0xFF) as u8 == (v / 0x100_0000) as u8) by (bit_vector);
        assert(((v >> 16) & 0xFF) as u8 == (v / 0x1_0000 % 256) as u8) by (bit_vector);
        assert(((v >> 8) & 0xFF) as u8 == (v / 256 % 256) as u8) by (bit_vector);
        assert((v & 0xFF) as u8 == (v % 256) as u8) by (bit_vector);
    }
    assert(buf@ =~= old(buf)@ + be32(v));
}

/// Reading back the two bytes written for `v` gives `v`.
pub proof fn lemma_be16_roundtrip(v: u16)
    ensures
        be16(v).len() == 2,
        be_value(be16(v)) == v,
{
    let s = be16(v);
    let e = s.drop_last().drop_last();
    assert(e =~= Seq::<u8>::empty());
    assert(be_value(e) == 0);
    assert(s.drop_last().last() == s[0]);
    assert(be_value(s.drop_last()) == s[0]);
}

/// Reading back the four bytes written for `v` gives `v`.
pub proof fn lemma_be32_roundtrip(v: u32)
    ensures
        be32(v).len() == 4,
        be_value(be32(v)) == v,
{
    let s = be32(v);
    let s1 = s.drop_last();
    let s2 = s1.drop_last();
    let s3 = s2.drop_last();
    let e = s3.drop_last();
    assert(e =~= Seq::<u8>::empty());
    assert(be_value(e) == 0);
    assert(s3.last() == s[0]);
    assert(be_value(s3) == s[0]);
    assert(be_value(s2) == s[0] * 256 + s[1]);
    assert(be_value(s1) == (s[0] * 256 + s[1]) * 256 + s[2]);
}

// ─── Variable-length quantities ──────────────────────────────────────────────

/// The bytes before the last one of the variable-length encoding of a
/// number whose value above the low 7 bits is `n`: 7-bit groups, most
/// significant first, each with its high bit set.
pub open spec fn vlq_high(n: nat) -> Seq<u8>
    decreases n,
{
    if n == 0 {
        seq![]
    } else {
        vlq_high(n / 128) + seq![(n % 128 + 128) as u8]
    }
}

/// The MIDI variable-length quantity for `n`: 7-bit groups, most significant
/// first, the high bit set on every byte but the last.
pub open spec fn vlq(n: nat) -> Seq<u8> {
    vlq_high(n / 128) + seq![(n % 128) as u8]
}

/// The number a variable-length quantity `s` stands for (the low 7 bits of
/// each byte, most significant group first).
pub open spec fn vlq_value(s: Seq<u8>) -> nat
    decreases s.len(),
{
    if s.len() == 0 {
        0
    } else {
        vlq_value(s.drop_last()) * 128 + (s.last() % 128) as nat
    }
}

fn push_vlq_high(buf: &mut Vec<u8>, n: u64)
    ensures
        final(buf)@ == old(buf)@ + vlq_high(n as nat),
    decreases n,
{
    if n > 0 {
        proof {
            assert(n >> 7 == n / 128) by (bit_vector);
        }
        push_vlq_high(buf, n >> 7);
        let b = ((n & 0x7F) | 0x80) as u8;
        proof {
            assert(((n & 0x7F) | 0x80) as u8 == (n % 128 + 128) as u8) by (bit_vector);
        }
        buf.push(b);
    }
    assert(buf@ =~= old(buf)@ + vlq_high(n as nat));
}

/// Appends `v` as a MIDI variable-length quantity.
pub fn write_var_len(buf: &mut Vec<u8>, v: u32)
    ensures
        final(buf)@ == old(buf)@ + vlq(v as nat),
{
    write_var_len_wide(buf, v as u64);
}

/// Appends `v` as a variable-length quantity, for values wider than 32 bits.
fn write_var_len_wide(buf: &mut Vec<u8>, v: u64)
    ensures
        final(buf)@ == old(buf)@ + vlq(v as nat),
{
    proof {
        assert(v >> 7 == v / 128) by (bit_vector);
        assert((v & 0x7F) as u8 == (v % 128) as u8) by (bit_vector);
    }
    push_vlq_high(buf, v >> 7);
    buf.push((v & 0x7F) as u8);
    assert(buf@ =~= old(buf)@ + vlq(v as nat));
}

proof fn lemma_vlq_high(n: nat)
    ensures
        vlq_value(vlq_high(n)) == n,
        forall|i: int| 0 <= i < vlq_high(n).len() ==> #[trigger] vlq_high(n)[i] >= 128,
        n == 0 ==> vlq_high(n).len() == 0,
        n < 0x80 ==> vlq_high(n).len() <= 1,
        n < 0x4000 ==> vlq_high(n).len() <= 2,
        n < 0x20_0000 ==> vlq_high(n).len() <= 3,
        n < 0x1000_0000 ==> vlq_high(n).len() <= 4,
        n > 0 ==> vlq_high(n).len() > 0 && vlq_high(n)[0] > 128,
    decreases n,
{
    if n > 0 {
        lemma_vlq_high(n / 128);
        let s = vlq_high(n);
        assert(s.drop_last() =~= vlq_high(n / 128));
        if n / 128 > 0 {
            assert(s[0] == vlq_high(n / 128)[0]);
        }
    }
}

/// The variable-length quantity of `n` reads back as `n`; every byte but the
/// last has its high bit set and the last has it clear; it has no empty
/// leading group (a first byte `0x80`); values up to `0x0FFFFFFF` take at most
/// four bytes, and every `u32` at most five.
pub proof fn lemma_vlq(n: nat)
    ensures
        vlq_value(vlq(n)) == n,
        vlq(n).len() > 1 ==> vlq(n)[0] != 0x80,
        vlq(n).len() >= 1,
        forall|i: int| 0 <= i < vlq(n).len() - 1 ==> #[trigger] vlq(n)[i] >= 128,
        vlq(n).last() < 128,
        n <= 0x0FFF_FFFF ==> vlq(n).len() <= 4,
        n <= 0xFFFF_FFFF ==> vlq(n).len() <= 5,
{
    lemma_vlq_high(n / 128);
    let s = vlq(n);
    assert(s.drop_last() =~= vlq_high(n / 128));
    assert forall|i: int| 0 <= i < vlq(n).len() - 1 implies #[trigger] vlq(n)[i] >= 128 by {
        assert(vlq(n)[i] == vlq_high(n / 128)[i]);
    }
    if vlq(n).len() > 1 {
        assert(vlq(n)[0] == vlq_high(n / 128)[0]);
    }
}

/// `128` to the power `k`.
pub open spec fn pow128(k: nat) -> nat
    decreases k,
{
    if k == 0 {
        1
    } else {
        128 * pow128((k - 1) as nat)
    }
}

/// The number bytes `s` stand for as base-128 digits (the low 7 bits of each
/// byte), written as a sum of powers: byte `i` counts `128^(len - 1 - i)`.
pub open spec fn power_sum(s: Seq<u8>) -> nat
    decreases s.len(),
{
    if s.len() == 0 {
        0
    } else {
        ((s[0] % 128) as nat) * pow128((s.len() - 1) as nat) + power_sum(s.drop_first())
    }
}

proof fn lemma_power_sum_last(s: Seq<u8>)
    requires
        s.len() > 0,
    ensures
        power_sum(s) == power_sum(s.drop_last()) * 128 + (s.last() % 128) as nat,
    decreases s.len(),
{
    if s.len() == 1 {
        assert(s.drop_last() =~= Seq::<u8>::empty());
        assert(s.drop_first() =~= Seq::<u8>::empty());
        assert(power_sum(s.drop_first()) == 0);
        assert(power_sum(s.drop_last()) == 0);
    } else {
        let r = s.drop_first();
        lemma_power_sum_last(r);
        assert(r.drop_last() =~= s.drop_last().drop_first());
        let k = (s.len() - 2) as nat;
        let d = (s[0] % 128) as nat;
        assert(s.drop_last()[0] == s[0]);
        assert(pow128(k + 1) == 128 * pow128(k));
        assert(d * pow128(k + 1) == d * pow128(k) * 128) by (nonlinear_arith)
            requires
                pow128(k + 1) == 128 * pow128(k),
        ;
        assert(power_sum(s.drop_last()) == d * pow128(k) + power_sum(r.drop_last()));
        assert(power_sum(s.drop_last()) * 128 == d * pow128(k) * 128 + power_sum(r.drop_last())
            * 128) by (nonlinear_arith)
            requires
                power_sum(s.drop_last()) == d * pow128(k) + power_sum(r.drop_last()),
        ;
        assert(r.last() == s.last());
    }
}

/// Reading bytes from the last with `vlq_value` is the sum of powers of 128.
pub proof fn lemma_vlq_value_power_sum(s: Seq<u8>)
    ensures
        vlq_value(s) == power_sum(s),
    decreases s.len(),
{
    if s.len() > 0 {
        lemma_vlq_value_power_sum(s.drop_last());
        lemma_power_sum_last(s);
    }
}

/// The variable-length quantity of `n` is `n` written in base 128: the sum
/// over its bytes of `(byte & 0x7F) * 128^(len - 1 - i)` is `n`.
pub proof fn lemma_vlq_power_sum(n: nat)
    ensures
        power_sum(vlq(n)) == n,
{
    lemma_vlq(n);
    lemma_vlq_value_power_sum(vlq(n));
}

// ─── Track chunks ────────────────────────────────────────────────────────────

/// A timestamped MIDI event: its absolute tick and its raw bytes.
pub type Message = (u32, Seq<u8>);

/// The values of a sequence of `(tick, bytes)` events.
pub open spec fn message_views(s: Seq<(u32, Vec<u8>)>) -> Seq<Message> {
    s.map_values(|e: (u32, Vec<u8>)| (e.0, e.1@))
}

pub proof fn lemma_message_views_push(s: Seq<(u32, Vec<u8>)>, e: (u32, Vec<u8>))
    ensures
        message_views(s.push(e)) == message_views(s).push((e.0, e.1@)),
{
    assert(message_views(s.push(e)) =~= message_views(s).push((e.0, e.1@)));
}

/// Whether the ticks of `e` never decrease.
pub open spec fn ticks_sorted(e: Seq<Message>) -> bool {
    forall|i: int, j: int| 0 <= i <= j < e.len() ==> e[i].0 <= e[j].0
}

/// The tick of the event before the `i`-th one (0 for the first).
pub open spec fn prev_tick(e: Seq<Message>, i: int) -> u32 {
    if i <= 0 {
        0
    } else {
        e[i - 1].0
    }
}

/// The time from the previous event to the `i`-th one, modulo 2^32 (an
/// event earlier than the one before it wraps around).
pub open spec fn delta(e: Seq<Message>, i: int) -> nat {
    if e[i].0 >= prev_tick(e, i) {
        (e[i].0 - prev_tick(e, i)) as nat
    } else {
        (e[i].0 - prev_tick(e, i) + 0x1_0000_0000) as nat
    }
}

/// Each event as its delta time (a variable-length quantity) followed by its
/// bytes.
pub open spec fn event_stream(e: Seq<Message>) -> Seq<u8>
    decreases e.len(),
{
    if e.len() == 0 {
        seq![]
    } else {
        event_stream(e.drop_last()) + vlq(delta(e, e.len() - 1)) + e.last().1
    }
}

/// The End-of-Track meta-event at delta 0.
pub open spec fn end_of_track() -> Seq<u8> {
    seq![0x00, 0xFF, 0x2F, 0x00]
}

/// The body of the track chunk for `e`.
pub open spec fn chunk_data(e: Seq<Message>) -> Seq<u8> {
    event_stream(e) + end_of_track()
}

/// `MTrk`, the length of the body as four big-endian bytes (modulo 2^32),
/// and the body.
pub open spec fn track_chunk(e: Seq<Message>) -> Seq<u8> {
    seq![0x4D, 0x54, 0x72, 0x6B] + be32(chunk_data(e).len() as u32) + chunk_data(e)
}

/// Appends the bytes of `b`.
pub fn append_bytes(out: &mut Vec<u8>, b: &[u8])
    ensures
        final(out)@ == old(out)@ + b@,
{
    let ghost start = out@;
    let mut i: usize = 0;
    while i < b.len()
        invariant
            i <= b.len(),
            out@ == start + b@.take(i as int),
        decreases b.len() - i,
    {
        out.push(b[i]);
        assert(b@.take(i + 1) =~= b@.take(i as int).push(b@[i as int]));
        i += 1;
    }
    assert(b@.take(b.len() as int) =~= b@);
}

/// Appends the `MTrk` chunk for `events`, whose ticks are absolute: each event
/// is written with its delta from the one before. The events are meant to
/// come in tick order; a delta that would be negative wraps around modulo
/// 2^32 and gives a corrupt file.
pub fn write_track_chunk(output: &mut Vec<u8>, events: &[(u32, Vec<u8>)])
    ensures
        final(output)@ == old(output)@ + track_chunk(message_views(events@)),
{
    let ghost e = message_views(events@);
    output.push(0x4D);
    output.push(0x54);
    output.push(0x72);
    output.push(0x6B);
    let mut track_data: Vec<u8> = Vec::new();
    let mut last_tick: u32 = 0;
    let mut i: usize = 0;
    while i < events.len()
        invariant
            i <= events.len(),
            e == message_views(events@),
            last_tick == prev_tick(e, i as int),
            track_data@ == event_stream(e.take(i as int)),
        decreases events.len() - i,
    {
        let tick = events[i].0;
        assert(e[i as int].0 == tick);
        let d: u32 = if tick >= last_tick {
            tick - last_tick
        } else {
            (tick as u64 + 0x1_0000_0000 - last_tick as u64) as u32
        };
        write_var_len(&mut track_data, d);
        append_bytes(&mut track_data, events[i].1.as_slice());
        last_tick = tick;
        proof {
            let t = e.take(i + 1);
            assert(t.drop_last() =~= e.take(i as int));
            assert(prev_tick(t, i as int) == prev_tick(e, i as int));
        }
        i += 1;
    }
    assert(e.take(events.len() as int) =~= e);
    track_data.push(0x00);
    track_data.push(0xFF);
    track_data.push(0x2F);
    track_data.push(0x00);
    assert(track_data@ =~= chunk_data(e));
    write_u32_be(output, track_data.len() as u32);
    append_bytes(output, track_data.as_slice());
    assert(output@ =~= old(output)@ + track_chunk(e));
}

/// For events in tick order no delta wraps around, and the deltas up to an
/// event add up to its absolute tick.
pub proof fn lemma_deltas_sum_to_ticks(e: Seq<Message>, i: int)
    requires
        ticks_sorted(e),
        0 <= i < e.len(),
    ensures
        delta(e, i) == e[i].0 - prev_tick(e, i),
        delta_sum(e, i + 1) == e[i].0,
    decreases i,
{
    if i > 0 {
        lemma_deltas_sum_to_ticks(e, i - 1);
    } else {
        assert(delta_sum(e, 0) == 0);
    }
}

/// The sum of the deltas of the first `n` events.
pub open spec fn delta_sum(e: Seq<Message>, n: int) -> int
    decreases n,
{
    if n <= 0 {
        0
    } else {
        delta_sum(e, n - 1) + delta(e, n - 1)
    }
}

// ─── Stable sort by tick ─────────────────────────────────────────────────────

/// Where an event with tick `k` goes into `s`: after the last event whose
/// tick is at most `k`, searching from the end.
pub open spec fn insert_pos(s: Seq<Message>, k: u32) -> nat
    decreases s.len(),
{
    if s.len() == 0 {
        0
    } else if s.last().0 <= k {
        s.len()
    } else {
        insert_pos(s.drop_last(), k)
    }
}

/// `s` sorted by tick, stably: events with equal ticks keep their order
/// (the order `slice::sort_by_key` gives).
pub open spec fn sort_by_tick(s: Seq<Message>) -> Seq<Message>
    decreases s.len(),
{
    if s.len() == 0 {
        s
    } else {
        let r = sort_by_tick(s.drop_last());
        r.insert(insert_pos(r, s.last().0) as int, s.last())
    }
}

/// Whether an event is at tick `t`.
pub open spec fn tick_is(t: u32) -> spec_fn(Message) -> bool {
    |e: Message| e.0 == t
}

/// The events of `s` at tick `t`, in order.
pub open spec fn at_tick(s: Seq<Message>, t: u32) -> Seq<Message> {
    s.filter(tick_is(t))
}

proof fn lemma_at_tick_add(a: Seq<Message>, b: Seq<Message>, t: u32)
    ensures
        at_tick(a + b, t) == at_tick(a, t) + at_tick(b, t),
{
    Seq::filter_distributes_over_add(a, b, tick_is(t));
}

proof fn lemma_at_tick_single(x: Message, t: u32)
    ensures
        at_tick(seq![x], t) == (if x.0 == t {
            seq![x]
        } else {
            Seq::<Message>::empty()
        }),
{
    reveal(Seq::filter);
    assert(seq![x].drop_last() =~= Seq::<Message>::empty());
    assert(at_tick(Seq::<Message>::empty(), t) =~= Seq::<Message>::empty());
}

pub proof fn lemma_insert_pos(s: Seq<Message>, k: u32)
    ensures
        insert_pos(s, k) <= s.len(),
        forall|m: int| insert_pos(s, k) <= m < s.len() ==> #[trigger] s[m].0 > k,
        insert_pos(s, k) > 0 ==> s[insert_pos(s, k) - 1].0 <= k,
    decreases s.len(),
{
    if s.len() > 0 && s.last().0 > k {
        lemma_insert_pos(s.drop_last(), k);
        assert forall|m: int| insert_pos(s, k) <= m < s.len() implies #[trigger] s[m].0 > k by {
            if m < s.len() - 1 {
                assert(s[m] == s.drop_last()[m]);
            }
        }
    }
}

proof fn lemma_sort_len(s: Seq<Message>)
    ensures
        sort_by_tick(s).len() == s.len(),
    decreases s.len(),
{
    if s.len() > 0 {
        lemma_sort_len(s.drop_last());
        lemma_insert_pos(sort_by_tick(s.drop_last()), s.last().0);
    }
}

/// The stable sort puts events in tick order and keeps their number.
pub proof fn lemma_sort_sorted(s: Seq<Message>)
    ensures
        ticks_sorted(sort_by_tick(s)),
        sort_by_tick(s).len() == s.len(),
    decreases s.len(),
{
    lemma_sort_len(s);
    if s.len() > 0 {
        lemma_sort_sorted(s.drop_last());
        let r = sort_by_tick(s.drop_last());
        let x = s.last();
        let p = insert_pos(r, x.0) as int;
        lemma_insert_pos(r, x.0);
        let out = r.insert(p, x);
        assert forall|i: int, j: int| 0 <= i <= j < out.len() implies out[i].0 <= out[j].0 by {
            if i < p && j < p {
            } else if i < p && j == p {
                assert(r[i].0 <= r[p - 1].0);
            } else if i < p {
                assert(out[j] == r[j - 1]);
            } else if i == p && j > p {
                assert(out[j] == r[j - 1]);
            } else if i > p {
                assert(out[i] == r[i - 1] && out[j] == r[j - 1]);
            }
        }
    }
}

/// The stable sort keeps every event: it rearranges them and nothing more.
pub proof fn lemma_sort_permutes(s: Seq<Message>)
    ensures
        sort_by_tick(s).to_multiset() == s.to_multiset(),
    decreases s.len(),
{
    if s.len() > 0 {
        lemma_sort_permutes(s.drop_last());
        let r = sort_by_tick(s.drop_last());
        lemma_insert_pos(r, s.last().0);
        lemma_sort_len(s.drop_last());
        vstd::seq_lib::to_multiset_insert(r, insert_pos(r, s.last().0) as int, s.last());
        vstd::seq_lib::to_multiset_build(s.drop_last(), s.last());
        assert(s.drop_last().push(s.last()) =~= s);
    }
}

/// Stability: for every tick, the events at that tick come out of the sort
/// in the order they went in.
pub proof fn lemma_sort_stable(s: Seq<Message>, t: u32)
    ensures
        at_tick(sort_by_tick(s), t) == at_tick(s, t),
    decreases s.len(),
{
    if s.len() > 0 {
        lemma_sort_stable(s.drop_last(), t);
        let r = sort_by_tick(s.drop_last());
        let x = s.last();
        let p = insert_pos(r, x.0) as int;
        lemma_insert_pos(r, x.0);
        let a = r.take(p);
        let b = r.skip(p);
        assert(r =~= a + b);
        assert(r.insert(p, x) =~= a + seq![x] + b);
        assert(s =~= s.drop_last() + seq![x]);
        lemma_at_tick_add(a + seq![x], b, t);
        lemma_at_tick_add(a, seq![x], t);
        lemma_at_tick_add(a, b, t);
        lemma_at_tick_add(s.drop_last(), seq![x], t);
        lemma_at_tick_single(x, t);
        if x.0 == t {
            lemma_filter_none(b, t);
            assert(at_tick(a, t) + seq![x] + Seq::<Message>::empty() =~= at_tick(a, t) + seq![x]);
        } else {
            assert(at_tick(a, t) + Seq::<Message>::empty() =~= at_tick(a, t));
        }
    }
}

proof fn lemma_filter_none(b: Seq<Message>, t: u32)
    requires
        forall|m: int| 0 <= m < b.len() ==> #[trigger] b[m].0 > t,
    ensures
        at_tick(b, t) == Seq::<Message>::empty(),
    decreases b.len(),
{
    reveal(Seq::filter);
    if b.len() > 0 {
        lemma_filter_none(b.drop_last(), t);
        assert(b.last() == b[b.len() - 1]);
    }
}

proof fn lemma_message_views_insert(s: Seq<(u32, Vec<u8>)>, j: int, x: (u32, Vec<u8>))
    requires
        0 <= j <= s.len(),
    ensures
        message_views(s.insert(j, x)) == message_views(s).insert(j, (x.0, x.1@)),
{
    assert(message_views(s.insert(j, x)) =~= message_views(s).insert(j, (x.0, x.1@)));
}

/// Sorts `events` by tick, stably: each event is inserted after the last one
/// whose tick is at most its own, searching from the end.
fn sort_events_by_tick(events: Vec<(u32, Vec<u8>)>) -> (r: Vec<(u32, Vec<u8>)>)
    ensures
        message_views(r@) == sort_by_tick(message_views(events@)),
{
    let ghost input = events@;
    let ghost all = message_views(input);
    let mut out: Vec<(u32, Vec<u8>)> = Vec::new();
    assert(all.take(0) =~= Seq::<Message>::empty());
    assert(message_views(out@) =~= Seq::<Message>::empty());
    for x in it: events.into_iter()
        invariant
            it.seq() == input,
            all == message_views(input),
            message_views(out@) == sort_by_tick(all.take(it.index() as int)),
    {
        let ghost i = it.index() as int;
        let k = x.0;
        let ghost r = message_views(out@);
        let mut j = out.len();
        assert(r.take(j as int) =~= r);
        while j > 0 && out[j - 1].0 > k
            invariant
                j <= out.len(),
                r == message_views(out@),
                insert_pos(r, k) == insert_pos(r.take(j as int), k),
            decreases j,
        {
            assert(r.take(j as int).drop_last() =~= r.take(j - 1));
            j -= 1;
        }
        proof {
            if j > 0 {
                assert(r.take(j as int).last() == r[j - 1]);
            }
            assert(insert_pos(r, k) == j);
            assert(all.take(i + 1).drop_last() =~= all.take(i));
            assert(all[i] == (x.0, x.1@));
            lemma_message_views_insert(out@, j as int, x);
        }
        out.insert(j, x);
    }
    assert(all.take(all.len() as int) =~= all);
    out
}

// ─── From a song to messages ─────────────────────────────────────────────────

/// Note On for `pitch` at `velocity` on the 0-based channel nibble `ch`.
pub open spec fn note_on(ch: u8, pitch: u8, velocity: u8) -> Seq<u8> {
    seq![0x90u8 | ch, pitch, velocity]
}

/// Note Off for `pitch` on the 0-based channel nibble `ch`.
pub open spec fn note_off(ch: u8, pitch: u8) -> Seq<u8> {
    seq![0x80u8 | ch, pitch, 0]
}

/// A note that starts at `start` sounds from a Note On there to a Note Off
/// `duration_ticks` later; a rest gives no message.
pub open spec fn note_messages(n: NoteEvent, start: nat, ch: u8) -> Seq<Message> {
    match n.kind {
        EventKind::Note { pitch, velocity } => seq![
            (start as u32, note_on(ch, pitch, velocity)),
            ((start + n.duration_ticks) as u32, note_off(ch, pitch)),
        ],
        EventKind::Rest => Seq::<Message>::empty(),
    }
}

/// The messages of the notes of a chord, which all start at `start`.
pub open spec fn chord_messages(ns: Seq<NoteEvent>, start: nat, ch: u8) -> Seq<Message>
    decreases ns.len(),
{
    if ns.len() == 0 {
        seq![]
    } else {
        chord_messages(ns.drop_last(), start, ch) + note_messages(ns.last(), start, ch)
    }
}

/// The longest duration among `ns` (0 for none).
pub open spec fn max_duration(ns: Seq<NoteEvent>) -> nat
    decreases ns.len(),
{
    if ns.len() == 0 {
        0
    } else {
        let m = max_duration(ns.drop_last());
        if ns.last().duration_ticks > m {
            ns.last().duration_ticks as nat
        } else {
            m
        }
    }
}

/// How far an event moves the timeline: its duration, or for a chord the
/// longest duration of its notes.
pub open spec fn advance(e: EventModel) -> nat {
    match e {
        EventModel::Single(n) => n.duration_ticks as nat,
        EventModel::Chord(ns) => max_duration(ns),
    }
}

/// The messages of one event that starts at `start`.
pub open spec fn event_messages(e: EventModel, start: nat, ch: u8) -> Seq<Message> {
    match e {
        EventModel::Single(n) => note_messages(n, start, ch),
        EventModel::Chord(ns) => chord_messages(ns, start, ch),
    }
}

/// The length of the timeline of `es`: where the event after them starts.
pub open spec fn timeline_length(es: Seq<EventModel>) -> nat
    decreases es.len(),
{
    if es.len() == 0 {
        0
    } else {
        timeline_length(es.drop_last()) + advance(es.last())
    }
}

/// The messages of the events `es`, each placed where the ones before it end.
pub open spec fn timeline_messages(es: Seq<EventModel>, ch: u8) -> Seq<Message>
    decreases es.len(),
{
    if es.len() == 0 {
        seq![]
    } else {
        timeline_messages(es.drop_last(), ch) + event_messages(
            es.last(),
            timeline_length(es.drop_last()),
            ch,
        )
    }
}

/// The track name meta-event: `FF 03`, the length of the UTF-8 name as a
/// variable-length quantity, and the name.
pub open spec fn name_event(name: Seq<char>) -> Seq<u8> {
    seq![0xFFu8, 0x03u8] + vlq(encode_utf8(name).len()) + encode_utf8(name)
}

/// The messages of a track, unsorted: its name and its program change at
/// tick 0, then those of its events.
pub open spec fn track_messages(t: TrackModel) -> Seq<Message> {
    let ch = (t.channel - 1) as u8;
    seq![(0u32, name_event(t.name)), (0u32, seq![0xC0u8 | ch, t.instrument])]
        + timeline_messages(t.events, ch)
}

/// Microseconds per beat at `bpm` beats per minute.
pub open spec fn us_per_beat(bpm: u32) -> u32 {
    (60_000_000int / (bpm as int)) as u32
}

/// The time signature meta-event's encoding of the denominator: its base-2
/// logarithm, with 2 (a quarter note) for a value that is no power of two up
/// to 32.
pub open spec fn den_power(den: u8) -> u8 {
    if den == 1 {
        0
    } else if den == 2 {
        1
    } else if den == 4 {
        2
    } else if den == 8 {
        3
    } else if den == 16 {
        4
    } else if den == 32 {
        5
    } else {
        2
    }
}

/// The tempo track's messages: Set Tempo and Time Signature at tick 0.
pub open spec fn tempo_messages(s: SongModel) -> Seq<Message> {
    let us = us_per_beat(s.bpm);
    seq![
        (0u32, seq![0xFFu8, 0x51u8, 0x03u8, (us / 0x1_0000 % 256) as u8, (us / 256 % 256) as u8, (us % 256) as u8]),
        (0u32, seq![0xFFu8, 0x58u8, 0x04u8, s.time_num, den_power(s.time_den), 24u8, 8u8]),
    ]
}

/// One `MTrk` chunk per track, each with its messages sorted by tick.
pub open spec fn track_chunks(ts: Seq<TrackModel>) -> Seq<u8>
    decreases ts.len(),
{
    if ts.len() == 0 {
        seq![]
    } else {
        track_chunks(ts.drop_last()) + track_chunk(sort_by_tick(track_messages(ts.last())))
    }
}

/// The `MThd` header: length 6, format 1, the number of tracks with the tempo
/// track (modulo 2^16), and the ticks per quarter note.
pub open spec fn header_chunk(s: SongModel) -> Seq<u8> {
    seq![0x4Du8, 0x54u8, 0x68u8, 0x64u8] + be32(6) + be16(1) + be16(((s.tracks.len() + 1) % 65536) as u16)
        + be16(s.tpq)
}

/// The Standard MIDI File for `s`: the header, the tempo track, then one
/// chunk per track.
pub open spec fn midi_file(s: SongModel) -> Seq<u8> {
    header_chunk(s) + track_chunk(tempo_messages(s)) + track_chunks(s.tracks)
}

/// A track whose channel is at least 1 and whose timeline fits in `u32` ticks.
pub open spec fn track_encodable(t: TrackModel) -> bool {
    t.channel >= 1 && timeline_length(t.events) <= u32::MAX
}

/// A song that can be encoded: a BPM above 0 and encodable tracks.
pub open spec fn encodable(s: SongModel) -> bool {
    s.bpm > 0 && forall|i: int| 0 <= i < s.tracks.len() ==> track_encodable(#[trigger] s.tracks[i])
}

proof fn lemma_timeline_prefix(es: Seq<EventModel>, i: int)
    requires
        0 <= i <= es.len(),
    ensures
        timeline_length(es.take(i)) <= timeline_length(es),
    decreases es.len() - i,
{
    if i < es.len() {
        lemma_timeline_prefix(es, i + 1);
        assert(es.take(i + 1).drop_last() =~= es.take(i));
    } else {
        assert(es.take(i) =~= es);
    }
}

fn max_chord_duration(notes: &Vec<NoteEvent>) -> (m: u32)
    ensures
        m == max_duration(notes@),
{
    let mut m: u32 = 0;
    let mut j: usize = 0;
    assert(notes@.take(0) =~= Seq::<NoteEvent>::empty());
    while j < notes.len()
        invariant
            j <= notes.len(),
            m == max_duration(notes@.take(j as int)),
        decreases notes.len() - j,
    {
        assert(notes@.take(j + 1).drop_last() =~= notes@.take(j as int));
        if notes[j].duration_ticks > m {
            m = notes[j].duration_ticks;
        }
        j += 1;
    }
    assert(notes@.take(j as int) =~= notes@);
    m
}

/// Appends the messages of note `ne` starting at `start`.
fn push_note_messages(events: &mut Vec<(u32, Vec<u8>)>, ne: NoteEvent, start: u32, ch: u8)
    requires
        start + ne.duration_ticks <= u32::MAX,
    ensures
        message_views(final(events)@) == message_views(old(events)@) + note_messages(
            ne,
            start as nat,
            ch,
        ),
{
    let ghost before = message_views(events@);
    if let EventKind::Note { pitch, velocity } = ne.kind {
        let on = (start, vec![0x90 | ch, pitch, velocity]);
        proof {
            lemma_message_views_push(events@, on);
        }
        events.push(on);
        let off = (start + ne.duration_ticks, vec![0x80 | ch, pitch, 0]);
        proof {
            lemma_message_views_push(events@, off);
        }
        events.push(off);
        assert(message_views(events@) =~= before + note_messages(ne, start as nat, ch));
    } else {
        assert(before + note_messages(ne, start as nat, ch) =~= before);
    }
}

/// The messages of `track`, unsorted.
fn track_messages_of(track: &Track) -> (r: Vec<(u32, Vec<u8>)>)
    requires
        track_encodable(track@),
    ensures
        message_views(r@) == track_messages(track@),
{
    let ghost es = track@.events;
    let ch = track.channel - 1;
    let mut events: Vec<(u32, Vec<u8>)> = Vec::new();
    let name_bytes = track.name.as_str().as_bytes();
    let mut name_msg: Vec<u8> = vec![0xFF, 0x03];
    write_var_len_wide(&mut name_msg, name_bytes.len() as u64);
    append_bytes(&mut name_msg, name_bytes);
    assert(name_msg@ =~= name_event(track@.name));
    let first = (0u32, name_msg);
    proof {
        lemma_message_views_push(events@, first);
    }
    events.push(first);
    let program = (0u32, vec![0xC0 | ch, track.instrument]);
    proof {
        lemma_message_views_push(events@, program);
    }
    events.push(program);
    let ghost head = message_views(events@);
    assert(head =~= seq![(0u32, name_event(track@.name)), (0u32, seq![0xC0u8 | ch, track@.instrument])]);
    let mut current_tick: u32 = 0;
    let mut i: usize = 0;
    assert(es.take(0) =~= Seq::<EventModel>::empty());
    assert(head + timeline_messages(es.take(0), ch) =~= head);
    while i < track.events.len()
        invariant
            i <= track.events.len(),
            es == track@.events,
            es.len() == track.events.len(),
            track_encodable(track@),
            ch == (track@.channel - 1) as u8,
            current_tick == timeline_length(es.take(i as int)),
            message_views(events@) == head + timeline_messages(es.take(i as int), ch),
        decreases track.events.len() - i,
    {
        let ghost pre = es.take(i as int);
        let ghost start = current_tick as nat;
        assert(es.take(i + 1).drop_last() =~= pre);
        assert(es[i as int] == track.events@[i as int]@);
        proof {
            lemma_timeline_prefix(es, i + 1);
        }
        match &track.events[i] {
            TrackEvent::Single(ne) => {
                push_note_messages(&mut events, *ne, current_tick, ch);
                current_tick = current_tick + ne.duration_ticks;
            },
            TrackEvent::Chord(chord) => {
                let max_dur = max_chord_duration(&chord.notes);
                let ghost ns = chord.notes@;
                let ghost base = message_views(events@);
                let mut j: usize = 0;
                assert(ns.take(0) =~= Seq::<NoteEvent>::empty());
                assert(base + chord_messages(ns.take(0), start, ch) =~= base);
                while j < chord.notes.len()
                    invariant
                        j <= chord.notes.len(),
                        ns == chord.notes@,
                        max_dur == max_duration(ns),
                        current_tick + max_dur <= u32::MAX,
                        start == current_tick,
                        message_views(events@) == base + chord_messages(ns.take(j as int), start, ch),
                    decreases chord.notes.len() - j,
                {
                    proof {
                        lemma_max_duration_is_max(ns);
                        assert(ns[j as int].duration_ticks <= max_duration(ns));
                    }
                    assert(ns.take(j + 1).drop_last() =~= ns.take(j as int));
                    push_note_messages(&mut events, chord.notes[j], current_tick, ch);
                    j += 1;
                }
                assert(ns.take(j as int) =~= ns);
                current_tick = current_tick + max_dur;
            },
        }
        i += 1;
    }
    assert(es.take(i as int) =~= es);
    events
}

fn header_bytes(song: &Song) -> (output: Vec<u8>)
    ensures
        output@ == header_chunk(song@),
{
    let mut output: Vec<u8> = Vec::new();
    output.push(0x4D);
    output.push(0x54);
    output.push(0x68);
    output.push(0x64);
    let ghost magic = output@;
    assert(magic =~= seq![0x4Du8, 0x54u8, 0x68u8, 0x64u8]);
    write_u32_be(&mut output, 6);
    write_u16_be(&mut output, 1);
    let low = song.tracks.len() % 65536;
    let track_count: u16 = if low == 65535 {
        0
    } else {
        (low + 1) as u16
    };
    assert(track_count == ((song@.tracks.len() + 1) % 65536) as u16);
    write_u16_be(&mut output, track_count);
    write_u16_be(&mut output, song.tpq);
    output
}

fn write_tempo_track(output: &mut Vec<u8>, song: &Song)
    requires
        song.bpm > 0,
    ensures
        final(output)@ == old(output)@ + track_chunk(tempo_messages(song@)),
{
    let us_per_beat: u32 = 60_000_000 / song.bpm;
    let mut tempo_events: Vec<(u32, Vec<u8>)> = Vec::new();
    proof {
        assert(((us_per_beat >> 16) & 0xFF) as u8 == (us_per_beat / 0x1_0000 % 256) as u8)
            by (bit_vector);
        assert(((us_per_beat >> 8) & 0xFF) as u8 == (us_per_beat / 256 % 256) as u8)
            by (bit_vector);
        assert((us_per_beat & 0xFF) as u8 == (us_per_beat % 256) as u8) by (bit_vector);
    }
    let tempo = (
        0u32,
        vec![
            0xFF,
            0x51,
            0x03,
            ((us_per_beat >> 16) & 0xFF) as u8,
            ((us_per_beat >> 8) & 0xFF) as u8,
            (us_per_beat & 0xFF) as u8,
        ],
    );
    proof {
        lemma_message_views_push(tempo_events@, tempo);
    }
    tempo_events.push(tempo);
    let den_power: u8 = match song.time_den {
        1 => 0,
        2 => 1,
        4 => 2,
        8 => 3,
        16 => 4,
        32 => 5,
        _ => 2,
    };
    let time_sig = (0u32, vec![0xFF, 0x58, 0x04, song.time_num, den_power, 24, 8]);
    proof {
        lemma_message_views_push(tempo_events@, time_sig);
    }
    tempo_events.push(time_sig);
    assert(message_views(tempo_events@) =~= tempo_messages(song@));
    write_track_chunk(output, tempo_events.as_slice());
}

/// Encodes `song` as a complete Standard MIDI File, Format 1: a tempo track
/// with Set Tempo and Time Signature, then one track per song track with its
/// name, its program change and a Note On / Note Off pair per note, rests
/// and chords advancing the timeline.
pub fn encode_midi(song: &Song) -> (output: Vec<u8>)
    requires
        encodable(song@),
    ensures
        output@ == midi_file(song@),
{
    let mut output = header_bytes(song);
    write_tempo_track(&mut output, song);
    let ghost ts = song@.tracks;
    let ghost start = output@;
    let mut i: usize = 0;
    assert(ts.take(0) =~= Seq::<TrackModel>::empty());
    assert(start + track_chunks(ts.take(0)) =~= start);
    while i < song.tracks.len()
        invariant
            i <= song.tracks.len(),
            ts == song@.tracks,
            ts.len() == song.tracks.len(),
            encodable(song@),
            output@ == start + track_chunks(ts.take(i as int)),
        decreases song.tracks.len() - i,
    {
        let track = &song.tracks[i];
        assert(ts[i as int] == track@);
        assert(track_encodable(ts[i as int]));
        let events = track_messages_of(track);
        let sorted = sort_events_by_tick(events);
        write_track_chunk(&mut output, sorted.as_slice());
        assert(ts.take(i + 1).drop_last() =~= ts.take(i as int));
        i += 1;
    }
    assert(ts.take(i as int) =~= ts);
    output
}

/// Whether the song can be encoded (`encodable`): the check to make before
/// calling `encode_midi`.
pub fn can_encode(song: &Song) -> (b: bool)
    ensures
        b == encodable(song@),
{
    if song.bpm == 0 {
        return false;
    }
    let ghost ts = song@.tracks;
    let mut i: usize = 0;
    while i < song.tracks.len()
        invariant
            i <= song.tracks.len(),
            ts == song@.tracks,
            ts.len() == song.tracks.len(),
            forall|j: int| 0 <= j < i ==> track_encodable(#[trigger] ts[j]),
        decreases song.tracks.len() - i,
    {
        let track = &song.tracks[i];
        assert(ts[i as int] == track@);
        if track.channel == 0 || !timeline_fits(&track.events) {
            return false;
        }
        i += 1;
    }
    true
}

fn timeline_fits(events: &Vec<TrackEvent>) -> (b: bool)
    ensures
        b == (timeline_length(event_views(events@)) <= u32::MAX),
{
    let ghost es = event_views(events@);
    let mut total: u64 = 0;
    let mut i: usize = 0;
    assert(es.take(0) =~= Seq::<EventModel>::empty());
    while i < events.len()
        invariant
            i <= events.len(),
            es == event_views(events@),
            es.len() == events.len(),
            total == timeline_length(es.take(i as int)),
            total <= u32::MAX,
        decreases events.len() - i,
    {
        assert(es[i as int] == events@[i as int]@);
        assert(es.take(i + 1).drop_last() =~= es.take(i as int));
        let step: u32 = match &events[i] {
            TrackEvent::Single(ne) => ne.duration_ticks,
            TrackEvent::Chord(chord) => max_chord_duration(&chord.notes),
        };
        total = total + step as u64;
        i += 1;
        if total > 0xFFFF_FFFF {
            proof {
                lemma_timeline_prefix(es, i as int);
            }
            return false;
        }
    }
    assert(es.take(i as int) =~= es);
    true
}

// ─── Laws ────────────────────────────────────────────────────────────────────

/// A track chunk is `MTrk`, a length field that reads back as the number of
/// bytes after it (where that number fits in 32 bits), and a body that ends
/// with End-of-Track.
pub proof fn lemma_track_chunk_layout(e: Seq<Message>)
    requires
        chunk_data(e).len() <= u32::MAX,
    ensures
        track_chunk(e).len() == chunk_data(e).len() + 8,
        track_chunk(e).take(4) == seq![0x4Du8, 0x54u8, 0x72u8, 0x6Bu8],
        be_value(track_chunk(e).subrange(4, 8)) == track_chunk(e).len() - 8,
        track_chunk(e).skip(track_chunk(e).len() - 4) == end_of_track(),
{
    let data = chunk_data(e);
    let c = track_chunk(e);
    lemma_be32_roundtrip(data.len() as u32);
    assert(c.take(4) =~= seq![0x4Du8, 0x54u8, 0x72u8, 0x6Bu8]);
    assert(c.subrange(4, 8) =~= be32(data.len() as u32));
    assert(c.skip(c.len() - 4) =~= end_of_track());
}

/// The chord's timeline step is its longest duration: no note lasts longer,
/// and (for a chord with notes) some note lasts exactly that long.
pub proof fn lemma_max_duration_is_max(ns: Seq<NoteEvent>)
    ensures
        forall|j: int| 0 <= j < ns.len() ==> #[trigger] ns[j].duration_ticks <= max_duration(ns),
        ns.len() > 0 ==> exists|j: int|
            0 <= j < ns.len() && #[trigger] ns[j].duration_ticks == max_duration(ns),
    decreases ns.len(),
{
    if ns.len() > 0 {
        lemma_max_duration_is_max(ns.drop_last());
        assert forall|j: int| 0 <= j < ns.len() implies #[trigger] ns[j].duration_ticks
            <= max_duration(ns) by {
            if j < ns.len() - 1 {
                assert(ns[j] == ns.drop_last()[j]);
            }
        }
        if ns.last().duration_ticks <= max_duration(ns.drop_last()) && ns.len() > 1 {
            let j = choose|j: int|
                0 <= j < ns.drop_last().len() && #[trigger] ns.drop_last()[j].duration_ticks
                    == max_duration(ns.drop_last());
            assert(ns[j] == ns.drop_last()[j]);
        } else {
            assert(ns[ns.len() - 1] == ns.last());
        }
    }
}

/// All notes of a chord start together: every message of a chord that starts
/// at `start` falls between `start` and `start` plus the chord's longest
/// duration, and each Note On is at `start` (for a channel nibble below 16).
pub proof fn lemma_chord_timing(ns: Seq<NoteEvent>, start: nat, ch: u8)
    requires
        start + max_duration(ns) <= u32::MAX,
        ch < 16,
    ensures
        forall|i: int|
            0 <= i < chord_messages(ns, start, ch).len() ==> start <= #[trigger] chord_messages(
                ns,
                start,
                ch,
            )[i].0 <= start + max_duration(ns),
        forall|i: int|
            0 <= i < chord_messages(ns, start, ch).len() && #[trigger] chord_messages(
                ns,
                start,
                ch,
            )[i].1[0] & 0xF0 == 0x90 ==> chord_messages(ns, start, ch)[i].0 == start,
    decreases ns.len(),
{
    if ns.len() > 0 {
        let prev = ns.drop_last();
        lemma_max_duration_is_max(ns);
        assert(max_duration(prev) <= max_duration(ns));
        lemma_chord_timing(prev, start, ch);
        let a = chord_messages(prev, start, ch);
        let b = note_messages(ns.last(), start, ch);
        let all = chord_messages(ns, start, ch);
        assert(all == a + b);
        assert(ns.last() == ns[ns.len() - 1]);
        assert forall|i: int| 0 <= i < all.len() implies start <= #[trigger] all[i].0 <= start
            + max_duration(ns) by {
            if i >= a.len() {
                assert(all[i] == b[i - a.len()]);
            } else {
                assert(all[i] == a[i]);
            }
        }
        assert forall|i: int| 0 <= i < all.len() && #[trigger] all[i].1[0] & 0xF0 == 0x90 implies all[i].0
            == start by {
            if i >= a.len() {
                assert(all[i] == b[i - a.len()]);
                if i - a.len() == 1 {
                    assert((0x80u8 | ch) & 0xF0 != 0x90) by (bit_vector)
                        requires
                            ch < 16,
                    ;
                }
            } else {
                assert(all[i] == a[i]);
            }
        }
    }
}

/// A well-formed song whose tracks' timelines fit in 32-bit ticks can be
/// encoded; in particular every song that `parse` accepts and whose tracks
/// are no longer than that.
pub proof fn lemma_ok_song_encodable(s: SongModel)
    requires
        song_ok(s),
        forall|i: int| 0 <= i < s.tracks.len() ==> timeline_length(#[trigger] s.tracks[i].events)
            <= u32::MAX,
    ensures
        encodable(s),
{
    assert forall|i: int| 0 <= i < s.tracks.len() implies track_encodable(#[trigger] s.tracks[i]) by {
        assert(timeline_length(s.tracks[i].events) <= u32::MAX);
    }
}

/// Each event starts where the ones before it end, and a single event, note
/// or rest, moves the timeline on by its `duration_ticks`; a chord moves it
/// on by its longest note.
pub proof fn lemma_timeline_step(es: Seq<EventModel>, e: EventModel, ch: u8)
    ensures
        e matches EventModel::Single(n) ==> timeline_length(es.push(e)) == timeline_length(es)
            + n.duration_ticks,
        e matches EventModel::Chord(ns) ==> timeline_length(es.push(e)) == timeline_length(es)
            + max_duration(ns),
        timeline_messages(es.push(e), ch) == timeline_messages(es, ch) + event_messages(
            e,
            timeline_length(es),
            ch,
        ),
{
    assert(es.push(e).drop_last() =~= es);
}

/// A rest takes time: in a track of a note, a rest and a note, the second
/// note's Note On comes the first note's duration plus the rest's after the
/// start, and its Note Off its own duration later.
pub proof fn lemma_rest_takes_time(a: NoteEvent, r: NoteEvent, b: NoteEvent, ch: u8)
    requires
        a.kind is Note,
        r.kind is Rest,
        b.kind is Note,
        a.duration_ticks + r.duration_ticks + b.duration_ticks <= u32::MAX,
    ensures
        ({
            let msgs = timeline_messages(
                seq![EventModel::Single(a), EventModel::Single(r), EventModel::Single(b)],
                ch,
            );
            &&& msgs.len() == 4
            &&& msgs[0].0 == 0
            &&& msgs[1].0 == a.duration_ticks
            &&& msgs[2].0 == a.duration_ticks + r.duration_ticks
            &&& msgs[3].0 == a.duration_ticks + r.duration_ticks + b.duration_ticks
        }),
{
    let e0 = Seq::<EventModel>::empty();
    let e1 = e0.push(EventModel::Single(a));
    let e2 = e1.push(EventModel::Single(r));
    let e3 = e2.push(EventModel::Single(b));
    assert(e3 =~= seq![EventModel::Single(a), EventModel::Single(r), EventModel::Single(b)]);
    lemma_timeline_step(e0, EventModel::Single(a), ch);
    lemma_timeline_step(e1, EventModel::Single(r), ch);
    lemma_timeline_step(e2, EventModel::Single(b), ch);
    assert(timeline_length(e0) == 0);
    assert(timeline_messages(e0, ch) =~= Seq::<Message>::empty());
}

/// A note sounds from a Note On (`0x9n`, pitch, velocity) at its start to a
/// Note Off (`0x8n`, pitch, 0) its duration later, on channel nibble `n`; a
/// rest sends nothing.
pub proof fn lemma_note_on_off(n: NoteEvent, start: nat, ch: u8)
    requires
        ch < 16,
        start + n.duration_ticks <= u32::MAX,
    ensures
        n.kind matches EventKind::Note { pitch, velocity } ==> note_messages(n, start, ch) == seq![
            (start as u32, seq![(0x90 + ch) as u8, pitch, velocity]),
            ((start + n.duration_ticks) as u32, seq![(0x80 + ch) as u8, pitch, 0u8]),
        ],
        n.kind is Rest ==> note_messages(n, start, ch).len() == 0,
{
    assert(0x90u8 | ch == (0x90 + ch) as u8) by (bit_vector)
        requires
            ch < 16,
    ;
    assert(0x80u8 | ch == (0x80 + ch) as u8) by (bit_vector)
        requires
            ch < 16,
    ;
}

/// The tempo track holds Set Tempo (`FF 51 03`) with the microseconds per
/// beat, `60_000_000 / bpm`, as three big-endian bytes (for a BPM from 4 up,
/// where that fits), and Time Signature (`FF 58 04`) with the numerator, the
/// base-2 logarithm of the denominator, 24 clocks per click and 8
/// thirty-second notes per quarter.
pub proof fn lemma_tempo_track(s: SongModel)
    requires
        s.bpm >= 4,
    ensures
        tempo_messages(s).len() == 2,
        tempo_messages(s)[0].0 == 0 && tempo_messages(s)[1].0 == 0,
        tempo_messages(s)[0].1.take(3) == seq![0xFFu8, 0x51u8, 0x03u8],
        be_value(tempo_messages(s)[0].1.skip(3)) == 60_000_000int / (s.bpm as int),
        tempo_messages(s)[1].1 == seq![0xFFu8, 0x58u8, 0x04u8, s.time_num, den_power(s.time_den), 24u8, 8u8],
        den_power(1) == 0 && den_power(2) == 1 && den_power(4) == 2 && den_power(8) == 3
            && den_power(16) == 4 && den_power(32) == 5,
{
    let m = tempo_messages(s)[0].1;
    let us = us_per_beat(s.bpm);
    assert(60_000_000int / (s.bpm as int) <= 15_000_000) by (nonlinear_arith)
        requires
            s.bpm >= 4,
    ;
    assert(us as int == 60_000_000int / (s.bpm as int));
    assert(m.take(3) =~= seq![0xFFu8, 0x51u8, 0x03u8]);
    let b = m.skip(3);
    assert(b =~= seq![(us / 0x1_0000 % 256) as u8, (us / 256 % 256) as u8, (us % 256) as u8]);
    let b1 = b.drop_last();
    let b2 = b1.drop_last();
    let e = b2.drop_last();
    assert(e =~= Seq::<u8>::empty());
    assert(be_value(e) == 0);
    assert(be_value(b2) == b[0]);
    assert(be_value(b1) == b[0] * 256 + b[1]);
}

/// The header chunk: `MThd`, length 6, format 1, the number of tracks with
/// the tempo track (modulo 2^16) and the ticks per quarter note, each of the
/// last three as two big-endian bytes.
pub proof fn lemma_header_chunk(s: SongModel)
    ensures
        header_chunk(s).len() == 14,
        header_chunk(s).take(8) == seq![0x4Du8, 0x54u8, 0x68u8, 0x64u8, 0u8, 0u8, 0u8, 6u8],
        be_value(header_chunk(s).subrange(8, 10)) == 1,
        be_value(header_chunk(s).subrange(10, 12)) == (s.tracks.len() + 1) % 65536,
        be_value(header_chunk(s).subrange(12, 14)) == s.tpq,
{
    let h = header_chunk(s);
    assert(h.take(8) =~= seq![0x4Du8, 0x54u8, 0x68u8, 0x64u8, 0u8, 0u8, 0u8, 6u8]);
    lemma_be16_roundtrip(1);
    lemma_be16_roundtrip(((s.tracks.len() + 1) % 65536) as u16);
    lemma_be16_roundtrip(s.tpq);
    assert(h.subrange(8, 10) =~= be16(1));
    assert(h.subrange(10, 12) =~= be16(((s.tracks.len() + 1) % 65536) as u16));
    assert(h.subrange(12, 14) =~= be16(s.tpq));
}

/// A track's messages start, at tick 0, with its name (`FF 03`, the length of
/// the UTF-8 name as a variable-length quantity, the name) and a Program
/// Change (`0xCn`, instrument) on the 0-based channel nibble `n`.
pub proof fn lemma_track_head(t: TrackModel)
    requires
        1 <= t.channel <= 16,
    ensures
        track_messages(t)[0] == (0u32, seq![0xFFu8, 0x03u8] + vlq(encode_utf8(t.name).len())
            + encode_utf8(t.name)),
        track_messages(t)[1] == (0u32, seq![(0xC0 + t.channel - 1) as u8, t.instrument]),
{
    let ch = (t.channel - 1) as u8;
    assert(0xC0u8 | ch == (0xC0 + ch) as u8) by (bit_vector)
        requires
            ch < 16,
    ;
}

} // verus!
