//! Decoding one aligned record into a dense per-reference-offset event table.
//!
//! An [`AlignmentRecord`] carries the plain values of one fetched record:
//! name, position, mapping quality, flags, CIGAR, the 4-bit base codes, the
//! per-base qualities and the raw signal-move tag. [`CachedRead::new`] walks
//! the CIGAR with a reference cursor and a query cursor and fills one
//! optional [`BaseInfo`] per covered reference offset, attaches insertions
//! and deletions to the event just before them, distributes the decoded
//! move counts, and marks the first and last event as alignment start and
//! end.

use vstd::prelude::*;

verus! {

/// One CIGAR operation with its length.
#[derive(Debug, Clone, Copy, PartialEq, Eq)]
pub enum CigarOp {
    /// Alignment match: consumes query and reference.
    Match(u32),
    /// Sequence match: consumes query and reference.
    Equal(u32),
    /// Sequence mismatch: consumes query and reference.
    Diff(u32),
    /// Insertion to the reference: consumes query only.
    Ins(u32),
    /// Deletion from the reference: consumes reference only.
    Del(u32),
    /// Intron-like skip: consumes reference only.
    RefSkip(u32),
    /// Soft clip: consumes query only.
    SoftClip(u32),
    /// Hard clip: consumes nothing.
    HardClip(u32),
    /// Padding: consumes nothing.
    Pad(u32),
}

/// Reference bases consumed by one operation.
pub open spec fn op_ref_len(op: CigarOp) -> nat {
    match op {
        CigarOp::Match(l) => l as nat,
        CigarOp::Equal(l) => l as nat,
        CigarOp::Diff(l) => l as nat,
        CigarOp::Del(l) => l as nat,
        CigarOp::RefSkip(l) => l as nat,
        _ => 0,
    }
}

/// Query bases consumed by one operation.
pub open spec fn op_query_len(op: CigarOp) -> nat {
    match op {
        CigarOp::Match(l) => l as nat,
        CigarOp::Equal(l) => l as nat,
        CigarOp::Diff(l) => l as nat,
        CigarOp::Ins(l) => l as nat,
        CigarOp::SoftClip(l) => l as nat,
        _ => 0,
    }
}

/// Reference span of a whole CIGAR.
pub open spec fn cigar_ref_len(ops: Seq<CigarOp>) -> nat
    decreases ops.len(),
{
    if ops.len() == 0 {
        0
    } else {
        cigar_ref_len(ops.drop_last()) + op_ref_len(ops.last())
    }
}

/// Query bases consumed by a whole CIGAR.
pub open spec fn cigar_query_len(ops: Seq<CigarOp>) -> nat
    decreases ops.len(),
{
    if ops.len() == 0 {
        0
    } else {
        cigar_query_len(ops.drop_last()) + op_query_len(ops.last())
    }
}

pub proof fn lemma_cigar_ref_len_split(ops: Seq<CigarOp>, i: int)
    requires
        0 <= i <= ops.len(),
    ensures
        cigar_ref_len(ops) == cigar_ref_len(ops.take(i)) + cigar_ref_len(ops.skip(i)),
    decreases ops.len(),
{
    if i == ops.len() {
        assert(ops.take(i) =~= ops);
        assert(cigar_ref_len(ops.skip(i)) == 0);
    } else {
        lemma_cigar_ref_len_split(ops.drop_last(), i);
        assert(ops.take(i) =~= ops.drop_last().take(i));
        assert(ops.skip(i).drop_last() =~= ops.drop_last().skip(i));
        assert(ops.skip(i).last() == ops.last());
    }
}

pub proof fn lemma_cigar_query_len_split(ops: Seq<CigarOp>, i: int)
    requires
        0 <= i <= ops.len(),
    ensures
        cigar_query_len(ops) == cigar_query_len(ops.take(i)) + cigar_query_len(ops.skip(i)),
    decreases ops.len(),
{
    if i == ops.len() {
        assert(ops.take(i) =~= ops);
        assert(cigar_query_len(ops.skip(i)) == 0);
    } else {
        lemma_cigar_query_len_split(ops.drop_last(), i);
        assert(ops.take(i) =~= ops.drop_last().take(i));
        assert(ops.skip(i).drop_last() =~= ops.drop_last().skip(i));
        assert(ops.skip(i).last() == ops.last());
    }
}

/// The 4-bit base code alphabet, code 0 being the reference-match symbol.
pub open spec fn base_letter(code: u8) -> u8 {
    if code == 0 {
        61  // '='
    } else if code == 1 {
        65  // 'A'
    } else if code == 2 {
        67  // 'C'
    } else if code == 3 {
        77  // 'M'
    } else if code == 4 {
        71  // 'G'
    } else if code == 5 {
        82  // 'R'
    } else if code == 6 {
        83  // 'S'
    } else if code == 7 {
        86  // 'V'
    } else if code == 8 {
        84  // 'T'
    } else if code == 9 {
        87  // 'W'
    } else if code == 10 {
        89  // 'Y'
    } else if code == 11 {
        72  // 'H'
    } else if code == 12 {
        75  // 'K'
    } else if code == 13 {
        68  // 'D'
    } else if code == 14 {
        66  // 'B'
    } else {
        78  // 'N'
    }
}

/// Letters of a whole code sequence.
pub open spec fn base_letters(codes: Seq<u8>) -> Seq<u8> {
    codes.map_values(|c: u8| base_letter(c))
}

/// Executable form of [`base_letter`].
pub fn base_letter_of(code: u8) -> (r: u8)
    ensures
        r == base_letter(code),
{
    if code == 0 {
        61
    } else if code == 1 {
        65
    } else if code == 2 {
        67
    } else if code == 3 {
        77
    } else if code == 4 {
        71
    } else if code == 5 {
        82
    } else if code == 6 {
        83
    } else if code == 7 {
        86
    } else if code == 8 {
        84
    } else if code == 9 {
        87
    } else if code == 10 {
        89
    } else if code == 11 {
        72
    } else if code == 12 {
        75
    } else if code == 13 {
        68
    } else if code == 14 {
        66
    } else {
        78
    }
}

/// The reverse-strand bit of the record flags.
pub open spec fn is_reverse_flags(flags: u16) -> bool {
    flags & 16 != 0
}

/// Everything the decoder reads from one fetched alignment record, as plain
/// values. The signal-move tag is the raw byte array of the record's
/// auxiliary move field, its stride header still in front.
#[derive(Debug, Clone)]
pub struct AlignmentRecord {
    pub qname: Vec<u8>,
    pub pos: i64,
    pub mapq: u8,
    pub flags: u16,
    pub cigar: Vec<CigarOp>,
    pub seq_codes: Vec<u8>,
    pub qual: Vec<u8>,
    pub mv_tag: Option<Vec<u8>>,
}

impl AlignmentRecord {
    /// A record the decoder accepts: a mapped position, matching sequence
    /// and quality lengths, a CIGAR that consumes no more query bases than
    /// the sequence holds, 4-bit base codes, a reference span that fits the
    /// machine, a mapping quality whose one-byte text encoding exists, and
    /// a move tag short enough for 32-bit counts.
    pub open spec fn wf(self) -> bool {
        &&& 0 <= self.pos
        &&& self.pos + cigar_ref_len(self.cigar@) <= i64::MAX
        &&& cigar_ref_len(self.cigar@) <= usize::MAX
        &&& self.seq_codes@.len() == self.qual@.len()
        &&& (self.seq_codes@.len() == 0 || cigar_query_len(self.cigar@) <= self.seq_codes@.len())
        &&& forall|i: int| 0 <= i < self.seq_codes@.len() ==> #[trigger] self.seq_codes@[i] < 16
        &&& self.mapq <= 222
        &&& match self.mv_tag {
            Some(m) => m@.len() <= 0x7FFF_FFFF,
            None => true,
        }
    }

    /// Whether the reverse-strand flag bit is set.
    pub fn is_reverse(&self) -> (r: bool)
        ensures
            r == is_reverse_flags(self.flags),
    {
        self.flags & 16 != 0
    }

    /// Exclusive end of the record's ungapped reference span.
    #[verifier::loop_isolation(false)]
    pub fn end_pos(&self) -> (r: i64)
        requires
            self.wf(),
        ensures
            r == self.pos + cigar_ref_len(self.cigar@),
    {
        let mut total: usize = 0;
        let mut i: usize = 0;
        while i < self.cigar.len()
            invariant
                0 <= i <= self.cigar@.len(),
                total == cigar_ref_len(self.cigar@.take(i as int)),
            decreases self.cigar@.len() - i,
        {
            proof {
                assert(self.cigar@.take(i + 1).drop_last() =~= self.cigar@.take(i as int));
                assert(self.cigar@.take(i + 1).last() == self.cigar@[i as int]);
                lemma_cigar_ref_len_split(self.cigar@, i + 1);
            }
            let add = match self.cigar[i] {
                CigarOp::Match(l) => l,
                CigarOp::Equal(l) => l,
                CigarOp::Diff(l) => l,
                CigarOp::Del(l) => l,
                CigarOp::RefSkip(l) => l,
                _ => 0,
            };
            proof {
                assert(add as nat == op_ref_len(self.cigar@[i as int]));
            }
            total = total + add as usize;
            i = i + 1;
        }
        proof {
            assert(self.cigar@.take(self.cigar@.len() as int) =~= self.cigar@);
        }
        self.pos + total as i64
    }
}

/// Ghost mirror of one decoded base event.
#[verifier::ext_equal]
pub ghost struct EventModel {
    pub base: u8,
    pub qual: u8,
    pub is_reverse: bool,
    pub insertion: Option<Seq<u8>>,
    pub deletion_len: Option<u32>,
    pub is_head: bool,
    pub is_tail: bool,
    pub mapq: u8,
    pub mv_value: Option<Seq<int>>,
}

/// Everything a read contributes at one reference offset it covers: the
/// called base, its quality, the strand, an insertion or deletion attached
/// just after this offset, the read-boundary markers, and the signal-move
/// counts attributed to this reference column.
#[derive(Debug, Clone)]
pub struct BaseInfo {
    pub base: u8,
    pub qual: u8,
    pub is_reverse: bool,
    pub insertion: Option<Vec<u8>>,
    pub deletion_len: Option<u32>,
    pub is_head: bool,
    pub is_tail: bool,
    pub mapq: u8,
    pub mv_value: Option<Vec<i32>>,
}

impl View for BaseInfo {
    type V = EventModel;

    open spec fn view(&self) -> EventModel {
        EventModel {
            base: self.base,
            qual: self.qual,
            is_reverse: self.is_reverse,
            insertion: match self.insertion {
                Some(v) => Some(v@),
                None => None,
            },
            deletion_len: self.deletion_len,
            is_head: self.is_head,
            is_tail: self.is_tail,
            mapq: self.mapq,
            mv_value: match self.mv_value {
                Some(v) => Some(v@.map_values(|x: i32| x as int)),
                None => None,
            },
        }
    }
}

/// View of one optional event.
pub open spec fn slot_view(e: Option<BaseInfo>) -> Option<EventModel> {
    match e {
        Some(b) => Some(b@),
        None => None,
    }
}

/// Appending a slot appends its view.
pub proof fn lemma_events_view_push(s: Seq<Option<BaseInfo>>, x: Option<BaseInfo>)
    ensures
        events_view(s.push(x)) =~= events_view(s).push(slot_view(x)),
{
    assert forall|j: int| 0 <= j < s.len() + 1 implies events_view(s.push(x))[j] == events_view(
        s,
    ).push(slot_view(x))[j] by {
        if j < s.len() {
            assert(s.push(x)[j] == s[j]);
        } else {
            assert(s.push(x)[j] == x);
        }
    }
}

/// View of a whole event table.
pub open spec fn events_view(s: Seq<Option<BaseInfo>>) -> Seq<Option<EventModel>> {
    s.map_values(
        |e: Option<BaseInfo>|
            match e {
                Some(b) => Some(b@),
                None => None,
            },
    )
}

/// Ghost mirror of one cached, decoded read.
#[verifier::ext_equal]
pub ghost struct ReadModel {
    pub read_id: Seq<u8>,
    pub ref_start: int,
    pub ref_end: int,
    pub mapq: u8,
    pub seq_data: Seq<Option<EventModel>>,
}

/// One decoded read: its identity, its ungapped reference span, and one
/// optional event per covered reference offset (offset `i` stands for
/// reference coordinate `ref_start + i`).
#[derive(Debug)]
pub struct CachedRead {
    pub read_id: Vec<u8>,
    pub ref_start: i64,
    pub ref_end: i64,
    pub mapq: u8,
    pub seq_data: Vec<Option<BaseInfo>>,
}

impl View for CachedRead {
    type V = ReadModel;

    open spec fn view(&self) -> ReadModel {
        ReadModel {
            read_id: self.read_id@,
            ref_start: self.ref_start as int,
            ref_end: self.ref_end as int,
            mapq: self.mapq,
            seq_data: events_view(self.seq_data@),
        }
    }
}

/// An event the renderer can always encode: a one-byte head marker quality
/// and non-negative move counts.
pub open spec fn event_wf(ev: EventModel) -> bool {
    &&& ev.mapq <= 222
    &&& match ev.mv_value {
        Some(v) => forall|i: int| 0 <= i < v.len() ==> 0 <= #[trigger] v[i] <= i32::MAX,
        None => true,
    }
}

/// A read the cache and the column scan accept.
pub open spec fn read_wf(r: ReadModel) -> bool {
    &&& 0 <= r.ref_start <= r.ref_end
    &&& r.ref_end - r.ref_start <= usize::MAX
    &&& (r.seq_data.len() == 0 || r.seq_data.len() == r.ref_end - r.ref_start)
    &&& r.mapq <= 222
    &&& forall|i: int|
        0 <= i < r.seq_data.len() && r.seq_data[i] is Some ==> event_wf(#[trigger] r.seq_data[i]->0)
}

/// Move-table decode state after some flag bytes: the per-query-base sample
/// counts so far and the current base index, which starts at -1.
pub open spec fn mv_counts(flags: Seq<u8>, qlen: nat) -> (Seq<int>, int)
    decreases flags.len(),
{
    if flags.len() == 0 {
        (Seq::new(qlen, |i: int| 0int), -1int)
    } else {
        let prev = mv_counts(flags.drop_last(), qlen);
        let bi = if flags.last() == 1 {
            prev.1 + 1
        } else {
            prev.1
        };
        if 0 <= bi < qlen {
            (prev.0.update(bi, prev.0[bi] + 1), bi)
        } else {
            (prev.0, bi)
        }
    }
}

pub proof fn lemma_mv_counts_bounds(flags: Seq<u8>, qlen: nat)
    ensures
        mv_counts(flags, qlen).0.len() == qlen,
        forall|i: int|
            0 <= i < qlen ==> 0 <= #[trigger] mv_counts(flags, qlen).0[i] <= flags.len(),
        -1 <= mv_counts(flags, qlen).1 < flags.len(),
    decreases flags.len(),
{
    if flags.len() > 0 {
        lemma_mv_counts_bounds(flags.drop_last(), qlen);
    }
}

/// The decoded per-query-base move counts of a record, reference-oriented:
/// reverse-strand counts are reversed. `None` when decoding is off, the tag
/// is absent, or the tag holds no flags beyond its stride header.
pub open spec fn moves_of(record: AlignmentRecord, output_mv: bool) -> Option<Seq<int>> {
    if !output_mv {
        None
    } else {
        match record.mv_tag {
            None => None,
            Some(m) => if m@.len() <= 1 {
                None
            } else {
                let c = mv_counts(m@.skip(1), record.seq_codes@.len()).0;
                if is_reverse_flags(record.flags) {
                    Some(c.reverse())
                } else {
                    Some(c)
                }
            },
        }
    }
}

/// CIGAR-walk state: the event table under construction, the reference
/// cursor as an offset into it, and the query cursor.
#[verifier::ext_equal]
pub ghost struct WalkState {
    pub events: Seq<Option<EventModel>>,
    pub roff: int,
    pub qpos: int,
}

/// What the walk reads while it runs: the decoded base letters, the base
/// qualities, the record-wide values copied into every event, and the
/// reference-oriented move counts if any were decoded.
#[verifier::ext_equal]
pub ghost struct DecodeCtx {
    pub bases: Seq<u8>,
    pub quals: Seq<u8>,
    pub mapq: u8,
    pub is_reverse: bool,
    pub moves: Option<Seq<int>>,
}

/// The walk context of a record.
pub open spec fn decode_ctx(record: AlignmentRecord, output_mv: bool) -> DecodeCtx {
    DecodeCtx {
        bases: base_letters(record.seq_codes@),
        quals: record.qual@,
        mapq: record.mapq,
        is_reverse: is_reverse_flags(record.flags),
        moves: moves_of(record, output_mv),
    }
}

/// One match / sequence-match / sequence-mismatch unit: write an event at
/// the reference cursor carrying the query base, its quality and its single
/// move count, and advance both cursors.
pub open spec fn match_unit(st: WalkState, ctx: DecodeCtx) -> WalkState {
    let ev = EventModel {
        base: ctx.bases[st.qpos],
        qual: ctx.quals[st.qpos],
        is_reverse: ctx.is_reverse,
        insertion: None,
        deletion_len: None,
        is_head: false,
        is_tail: false,
        mapq: ctx.mapq,
        mv_value: match ctx.moves {
            Some(m) => if 0 <= st.qpos < m.len() {
                Some(seq![m[st.qpos]])
            } else {
                None
            },
            None => None,
        },
    };
    WalkState {
        events: if 0 <= st.roff < st.events.len() {
            st.events.update(st.roff, Some(ev))
        } else {
            st.events
        },
        roff: st.roff + 1,
        qpos: st.qpos + 1,
    }
}

/// `n` match units in a row.
pub open spec fn match_units(st: WalkState, n: nat, ctx: DecodeCtx) -> WalkState
    decreases n,
{
    if n == 0 {
        st
    } else {
        match_unit(match_units(st, (n - 1) as nat, ctx), ctx)
    }
}

/// The move counts an insertion of length `n` at query position `from`
/// appends to its anchor event: one count per inserted base the decoded
/// array still covers.
pub open spec fn mv_slice(m: Seq<int>, from: int, n: int) -> Seq<int> {
    if from >= m.len() {
        Seq::empty()
    } else if from + n > m.len() {
        m.subrange(from, m.len() as int)
    } else {
        m.subrange(from, from + n)
    }
}

/// One whole CIGAR operation applied to the walk state. Insertions and
/// deletions attach to the event one reference offset back and are dropped,
/// the cursors still advancing, when that anchor is outside the table or
/// empty.
pub open spec fn apply_op(st: WalkState, op: CigarOp, ctx: DecodeCtx) -> WalkState {
    match op {
        CigarOp::Match(l) => match_units(st, l as nat, ctx),
        CigarOp::Equal(l) => match_units(st, l as nat, ctx),
        CigarOp::Diff(l) => match_units(st, l as nat, ctx),
        CigarOp::Ins(l) => {
            let idx = st.roff - 1;
            if 0 <= idx < st.events.len() && st.events[idx] is Some {
                let old_ev = st.events[idx]->0;
                let ev2 = EventModel {
                    insertion: Some(ctx.bases.subrange(st.qpos, st.qpos + l)),
                    mv_value: match (ctx.moves, old_ev.mv_value) {
                        (Some(m), Some(v)) => Some(v + mv_slice(m, st.qpos, l as int)),
                        _ => old_ev.mv_value,
                    },
                    ..old_ev
                };
                WalkState {
                    events: st.events.update(idx, Some(ev2)),
                    roff: st.roff,
                    qpos: st.qpos + l,
                }
            } else {
                WalkState { events: st.events, roff: st.roff, qpos: st.qpos + l }
            }
        },
        CigarOp::Del(l) => {
            let idx = st.roff - 1;
            let events2 = if 0 <= idx < st.events.len() && st.events[idx] is Some {
                let old_ev = st.events[idx]->0;
                let ev2 = EventModel {
                    deletion_len: Some(l),
                    mv_value: match old_ev.mv_value {
                        Some(v) => Some(v.push(0)),
                        None => None,
                    },
                    ..old_ev
                };
                st.events.update(idx, Some(ev2))
            } else {
                st.events
            };
            WalkState { events: events2, roff: st.roff + l, qpos: st.qpos }
        },
        CigarOp::RefSkip(l) => WalkState { events: st.events, roff: st.roff + l, qpos: st.qpos },
        CigarOp::SoftClip(l) => WalkState { events: st.events, roff: st.roff, qpos: st.qpos + l },
        CigarOp::HardClip(_) => st,
        CigarOp::Pad(_) => st,
    }
}

/// The whole CIGAR applied in order.
pub open spec fn walk_ops(ops: Seq<CigarOp>, st: WalkState, ctx: DecodeCtx) -> WalkState
    decreases ops.len(),
{
    if ops.len() == 0 {
        st
    } else {
        apply_op(walk_ops(ops.drop_last(), st, ctx), ops.last(), ctx)
    }
}

/// Index of the first filled event, or -1.
pub open spec fn first_event(s: Seq<Option<EventModel>>) -> int
    decreases s.len(),
{
    if s.len() == 0 {
        -1
    } else {
        let r = first_event(s.drop_last());
        if r >= 0 {
            r
        } else if s.last() is Some {
            s.len() - 1
        } else {
            -1
        }
    }
}

/// Index of the last filled event, or -1.
pub open spec fn last_event(s: Seq<Option<EventModel>>) -> int
    decreases s.len(),
{
    if s.len() == 0 {
        -1
    } else if s.last() is Some {
        s.len() - 1
    } else {
        last_event(s.drop_last())
    }
}

/// The table with `is_alignment_start` on its first filled event and
/// `is_alignment_end` on its last.
pub open spec fn mark_ends(s: Seq<Option<EventModel>>) -> Seq<Option<EventModel>> {
    let h = first_event(s);
    let s1 = if h >= 0 {
        s.update(h, Some(EventModel { is_head: true, ..s[h]->0 }))
    } else {
        s
    };
    let t = last_event(s1);
    if t >= 0 {
        s1.update(t, Some(EventModel { is_tail: true, ..s1[t]->0 }))
    } else {
        s1
    }
}

/// The full decode of one record: empty for a record without query
/// sequence, otherwise the CIGAR walk over a fresh table of the record's
/// reference span, head and tail marked.
pub open spec fn decoded_events(record: AlignmentRecord, output_mv: bool) -> Seq<
    Option<EventModel>,
> {
    if record.seq_codes@.len() == 0 {
        Seq::empty()
    } else {
        let st0 = WalkState {
            events: Seq::new(cigar_ref_len(record.cigar@), |i: int| None),
            roff: 0,
            qpos: 0,
        };
        mark_ends(walk_ops(record.cigar@, st0, decode_ctx(record, output_mv)).events)
    }
}

/// The decoded read a record must produce.
pub open spec fn read_model_of(record: AlignmentRecord, output_mv: bool) -> ReadModel {
    ReadModel {
        read_id: record.qname@,
        ref_start: record.pos as int,
        ref_end: record.pos + cigar_ref_len(record.cigar@),
        mapq: record.mapq,
        seq_data: decoded_events(record, output_mv),
    }
}

/// Every filled slot of the table holds a renderable event.
pub open spec fn events_wf(s: Seq<Option<EventModel>>) -> bool {
    forall|i: int| 0 <= i < s.len() && s[i] is Some ==> event_wf(#[trigger] s[i]->0)
}

/// A context whose events are always renderable.
pub open spec fn ctx_wf(ctx: DecodeCtx) -> bool {
    &&& ctx.mapq <= 222
    &&& match ctx.moves {
        Some(m) => forall|i: int| 0 <= i < m.len() ==> 0 <= #[trigger] m[i] <= i32::MAX,
        None => true,
    }
}

pub proof fn lemma_match_units_facts(st: WalkState, n: nat, ctx: DecodeCtx)
    requires
        events_wf(st.events),
        ctx_wf(ctx),
    ensures
        events_wf(match_units(st, n, ctx).events),
        match_units(st, n, ctx).events.len() == st.events.len(),
        match_units(st, n, ctx).roff == st.roff + n,
        match_units(st, n, ctx).qpos == st.qpos + n,
    decreases n,
{
    if n > 0 {
        lemma_match_units_facts(st, (n - 1) as nat, ctx);
    }
}

pub proof fn lemma_apply_op_facts(st: WalkState, op: CigarOp, ctx: DecodeCtx)
    requires
        st.qpos >= 0,
        events_wf(st.events),
        ctx_wf(ctx),
    ensures
        events_wf(apply_op(st, op, ctx).events),
        apply_op(st, op, ctx).events.len() == st.events.len(),
        apply_op(st, op, ctx).roff == st.roff + op_ref_len(op),
        apply_op(st, op, ctx).qpos == st.qpos + op_query_len(op),
{
    match op {
        CigarOp::Match(l) => lemma_match_units_facts(st, l as nat, ctx),
        CigarOp::Equal(l) => lemma_match_units_facts(st, l as nat, ctx),
        CigarOp::Diff(l) => lemma_match_units_facts(st, l as nat, ctx),
        CigarOp::Ins(l) => {
            let idx = st.roff - 1;
            if 0 <= idx < st.events.len() && st.events[idx] is Some {
                let old_ev = st.events[idx]->0;
                let st2 = apply_op(st, op, ctx);
                let ev2 = st2.events[idx]->0;
                assert(event_wf(old_ev));
                match (ctx.moves, old_ev.mv_value) {
                    (Some(m), Some(v)) => {
                        let w = v + mv_slice(m, st.qpos, l as int);
                        assert forall|t: int| 0 <= t < w.len() implies 0 <= #[trigger] w[t]
                            <= i32::MAX by {
                            if t < v.len() {
                                assert(w[t] == v[t]);
                            } else {
                                let sl = mv_slice(m, st.qpos, l as int);
                                assert(w[t] == sl[t - v.len()]);
                                assert(sl[t - v.len()] == m[st.qpos + (t - v.len())]);
                            }
                        }
                    },
                    _ => {},
                }
                assert(event_wf(ev2));
            }
        },
        CigarOp::Del(l) => {
            let idx = st.roff - 1;
            if 0 <= idx < st.events.len() && st.events[idx] is Some {
                let old_ev = st.events[idx]->0;
                let st2 = apply_op(st, op, ctx);
                let ev2 = st2.events[idx]->0;
                assert(event_wf(old_ev));
                match old_ev.mv_value {
                    Some(v) => {
                        let w = v.push(0);
                        assert forall|t: int| 0 <= t < w.len() implies 0 <= #[trigger] w[t]
                            <= i32::MAX by {
                            if t < v.len() {
                                assert(w[t] == v[t]);
                            }
                        }
                    },
                    None => {},
                }
                assert(event_wf(ev2));
            }
        },
        _ => {},
    }
}

pub proof fn lemma_walk_facts(ops: Seq<CigarOp>, st: WalkState, ctx: DecodeCtx)
    requires
        st.qpos >= 0,
        events_wf(st.events),
        ctx_wf(ctx),
    ensures
        events_wf(walk_ops(ops, st, ctx).events),
        walk_ops(ops, st, ctx).events.len() == st.events.len(),
        walk_ops(ops, st, ctx).roff == st.roff + cigar_ref_len(ops),
        walk_ops(ops, st, ctx).qpos == st.qpos + cigar_query_len(ops),
    decreases ops.len(),
{
    if ops.len() > 0 {
        lemma_walk_facts(ops.drop_last(), st, ctx);
        lemma_apply_op_facts(walk_ops(ops.drop_last(), st, ctx), ops.last(), ctx);
    }
}

pub proof fn lemma_mark_ends_wf(s: Seq<Option<EventModel>>)
    requires
        events_wf(s),
    ensures
        events_wf(mark_ends(s)),
        mark_ends(s).len() == s.len(),
{
    lemma_first_event(s);
    let h = first_event(s);
    let s1 = if h >= 0 {
        s.update(h, Some(EventModel { is_head: true, ..s[h]->0 }))
    } else {
        s
    };
    assert(events_wf(s1));
    lemma_last_event(s1);
}

/// The first filled index is filled, everything before it is empty, and it
/// is -1 exactly when the table is all empty.
pub proof fn lemma_first_event(s: Seq<Option<EventModel>>)
    ensures
        -1 <= first_event(s) < s.len(),
        first_event(s) == -1 ==> forall|j: int| 0 <= j < s.len() ==> !(#[trigger] s[j] is Some),
        first_event(s) >= 0 ==> 0 <= first_event(s) < s.len() && s[first_event(s)] is Some
            && forall|j: int| 0 <= j < first_event(s) ==> !(#[trigger] s[j] is Some),
    decreases s.len(),
{
    if s.len() > 0 {
        lemma_first_event(s.drop_last());
        assert(forall|j: int|
            0 <= j < s.len() - 1 ==> #[trigger] s[j] == s.drop_last()[j]);
    }
}

/// The last filled index is filled, everything after it is empty, and it is
/// -1 exactly when the table is all empty.
pub proof fn lemma_last_event(s: Seq<Option<EventModel>>)
    ensures
        -1 <= last_event(s) < s.len(),
        last_event(s) == -1 ==> forall|j: int| 0 <= j < s.len() ==> !(#[trigger] s[j] is Some),
        last_event(s) >= 0 ==> 0 <= last_event(s) < s.len() && s[last_event(s)] is Some
            && forall|j: int| last_event(s) < j < s.len() ==> !(#[trigger] s[j] is Some),
    decreases s.len(),
{
    if s.len() > 0 {
        lemma_last_event(s.drop_last());
        assert(forall|j: int|
            0 <= j < s.len() - 1 ==> #[trigger] s[j] == s.drop_last()[j]);
    }
}

/// The view of the decoded move array an executable decode must produce.
pub open spec fn moves_view(o: Option<Vec<i32>>) -> Option<Seq<int>> {
    match o {
        Some(v) => Some(v@.map_values(|x: i32| x as int)),
        None => None,
    }
}

/// Decodes the raw move-tag bytes into per-query-base sample counts: the
/// first byte is a stride header and is skipped, every `1` flag advances the
/// base index (starting at -1), and every flag adds one sample to the
/// current base's bucket. Reverse-strand counts are reversed so that index
/// `k` matches the `k`-th base in reference orientation.
#[verifier::loop_isolation(false)]
pub fn decode_move_counts(m: &Vec<u8>, qlen: usize, reverse: bool) -> (r: Vec<i32>)
    requires
        m@.len() > 1,
        m@.len() <= 0x7FFF_FFFF,
    ensures
        ({
            let c = mv_counts(m@.skip(1), qlen as nat).0;
            r@.map_values(|x: i32| x as int) == if reverse {
                c.reverse()
            } else {
                c
            }
        }),
{
    let flags_len: usize = m.len() - 1;
    let ghost flags = m@.skip(1);
    let mut counts: Vec<i32> = vec![0i32; qlen];
    let mut base_idx: i32 = -1;
    let mut k: usize = 0;
    proof {
        assert(counts@.map_values(|x: i32| x as int) =~= mv_counts(flags.take(0), qlen as nat).0);
    }
    while k < flags_len
        invariant
            0 <= k <= flags.len(),
            counts@.len() == qlen,
            counts@.map_values(|x: i32| x as int) == mv_counts(flags.take(k as int), qlen as nat).0,
            base_idx == mv_counts(flags.take(k as int), qlen as nat).1,
            forall|j: int| 0 <= j < qlen ==> 0 <= #[trigger] counts@[j] <= k,
            -1 <= base_idx < k,
        decreases flags.len() - k,
    {
        proof {
            assert(flags.take(k + 1).drop_last() =~= flags.take(k as int));
            assert(flags.take(k + 1).last() == flags[k as int]);
            assert(flags[k as int] == m@[k + 1]);
        }
        let mv = m[k + 1];
        if mv == 1 {
            base_idx = base_idx + 1;
        }
        if base_idx >= 0 && (base_idx as usize) < qlen {
            let c = counts[base_idx as usize];
            counts.set(base_idx as usize, c + 1);
            proof {
                let f = |x: i32| x as int;
                assert(counts@.map_values(f) =~= mv_counts(flags.take(k + 1), qlen as nat).0);
            }
        }
        k = k + 1;
    }
    proof {
        assert(flags.take(flags.len() as int) =~= flags);
    }
    if reverse {
        let mut rev: Vec<i32> = Vec::new();
        let n = counts.len();
        let mut j: usize = 0;
        while j < n
            invariant
                0 <= j <= n,
                n == counts@.len(),
                rev@.len() == j,
                forall|t: int| 0 <= t < j ==> #[trigger] rev@[t] == counts@[n - 1 - t],
            decreases n - j,
        {
            rev.push(counts[n - 1 - j]);
            j = j + 1;
        }
        proof {
            let f = |x: i32| x as int;
            assert(rev@.map_values(f) =~= counts@.map_values(f).reverse());
        }
        rev
    } else {
        counts
    }
}

impl BaseInfo {
    /// Copy of one event.
    pub fn duplicate(&self) -> (r: BaseInfo)
        ensures
            r@ == self@,
    {
        let r = BaseInfo {
            base: self.base,
            qual: self.qual,
            is_reverse: self.is_reverse,
            insertion: match &self.insertion {
                Some(s) => Some(crate::bytes::clone_bytes(s)),
                None => None,
            },
            deletion_len: self.deletion_len,
            is_head: self.is_head,
            is_tail: self.is_tail,
            mapq: self.mapq,
            mv_value: match &self.mv_value {
                Some(v) => Some(crate::bytes::clone_i32s(v)),
                None => None,
            },
        };
        proof {
            assert(r@ =~~= self@);
        }
        r
    }
}

/// Copy of one optional event.
fn duplicate_slot(e: &Option<BaseInfo>) -> (r: Option<BaseInfo>)
    ensures
        (r is Some <==> *e is Some),
        r is Some ==> r->0@ == e->0@,
{
    match e {
        Some(info) => Some(info.duplicate()),
        None => None,
    }
}

proof fn lemma_ctx_wf(record: AlignmentRecord, output_mv: bool)
    requires
        record.wf(),
    ensures
        ctx_wf(decode_ctx(record, output_mv)),
        match moves_of(record, output_mv) {
            Some(m) => m.len() == record.seq_codes@.len(),
            None => true,
        },
{
    let qlen = record.seq_codes@.len();
    match record.mv_tag {
        Some(m) => {
            if output_mv && m@.len() > 1 {
                let flags = m@.skip(1);
                lemma_mv_counts_bounds(flags, qlen);
                let c = mv_counts(flags, qlen).0;
                if is_reverse_flags(record.flags) {
                    assert(forall|i: int|
                        0 <= i < qlen ==> #[trigger] c.reverse()[i] == c[qlen - 1 - i]);
                }
            }
        },
        None => {},
    }
}


/// The walk context matches the record's plain values and the decoded move
/// array at hand.
pub open spec fn ctx_matches(
    ctx: DecodeCtx,
    record: AlignmentRecord,
    mv_arr: Option<Vec<i32>>,
    is_rev: bool,
) -> bool {
    &&& ctx.bases == base_letters(record.seq_codes@)
    &&& ctx.quals == record.qual@
    &&& ctx.mapq == record.mapq
    &&& ctx.is_reverse == is_rev
    &&& ctx.moves == moves_view(mv_arr)
}

/// Applies one CIGAR operation to the event table and returns the advanced
/// reference and query cursors.
#[verifier::loop_isolation(false)]
#[verifier::rlimit(60)]
fn apply_one_op(
    seq_data: &mut Vec<Option<BaseInfo>>,
    roff: usize,
    qpos: usize,
    op: CigarOp,
    record: &AlignmentRecord,
    mv_arr: &Option<Vec<i32>>,
    is_rev: bool,
    Ghost(ctx): Ghost<DecodeCtx>,
    Ghost(st): Ghost<WalkState>,
) -> (r: (usize, usize))
    requires
        record.wf(),
        ctx_matches(ctx, *record, *mv_arr, is_rev),
        st.events == events_view(old(seq_data)@),
        st.roff == roff as int,
        st.qpos == qpos as int,
        st.qpos + op_query_len(op) <= record.seq_codes@.len(),
        st.roff + op_ref_len(op) <= old(seq_data)@.len(),
    ensures
        events_view(final(seq_data)@) == apply_op(st, op, ctx).events,
        r.0 == apply_op(st, op, ctx).roff,
        r.1 == apply_op(st, op, ctx).qpos,
        final(seq_data)@.len() == old(seq_data)@.len(),
{
    let mapq = record.mapq;
    let q_limit = record.seq_codes.len();
    let r_limit = seq_data.len();
    proof {
        assert(st.qpos + op_query_len(op) <= q_limit);
        assert(st.roff + op_ref_len(op) <= r_limit);
    }
    match op {
        CigarOp::Match(l) | CigarOp::Equal(l) | CigarOp::Diff(l) => {
            proof {
                assert(op_query_len(op) == l as nat && op_ref_len(op) == l as nat);
            }
            let mut roff = roff;
            let mut qpos = qpos;
            let mut k: u32 = 0;
            while k < l
                invariant
                    0 <= k <= l,
                    seq_data@.len() == old(seq_data)@.len(),
                    events_view(seq_data@) == match_units(st, k as nat, ctx).events,
                    roff == match_units(st, k as nat, ctx).roff,
                    qpos == match_units(st, k as nat, ctx).qpos,
                decreases l - k,
            {
                proof {
                    lemma_match_units_facts_plain(st, k as nat, ctx);
                    assert(qpos < record.seq_codes@.len());
                }
                let ghost stk = match_units(st, k as nat, ctx);
                let code = record.seq_codes[qpos];
                let base = base_letter_of(code);
                let q = record.qual[qpos];
                let mvv: Option<Vec<i32>> = match mv_arr {
                    Some(mv) => {
                        if qpos < mv.len() {
                            Some(vec![mv[qpos]])
                        } else {
                            None
                        }
                    },
                    None => None,
                };
                let info = BaseInfo {
                    base,
                    qual: q,
                    is_reverse: is_rev,
                    insertion: None,
                    deletion_len: None,
                    is_head: false,
                    is_tail: false,
                    mapq,
                    mv_value: mvv,
                };
                proof {
                    match ctx.moves {
                        Some(m) => {
                            if 0 <= stk.qpos < m.len() {
                                assert(info.mv_value->0@.map_values(|x: i32| x as int) =~= seq![
                                    m[stk.qpos],
                                ]);
                            }
                        },
                        None => {},
                    }
                    assert(ctx.bases[stk.qpos] == base_letter(record.seq_codes@[stk.qpos]));
                    assert(info@ =~~= ({
                        let ev = EventModel {
                            base: ctx.bases[stk.qpos],
                            qual: ctx.quals[stk.qpos],
                            is_reverse: ctx.is_reverse,
                            insertion: None,
                            deletion_len: None,
                            is_head: false,
                            is_tail: false,
                            mapq: ctx.mapq,
                            mv_value: match ctx.moves {
                                Some(m) => if 0 <= stk.qpos < m.len() {
                                    Some(seq![m[stk.qpos]])
                                } else {
                                    None
                                },
                                None => None,
                            },
                        };
                        ev
                    }));
                }
                if roff < seq_data.len() {
                    seq_data.set(roff, Some(info));
                }
                proof {
                    assert(events_view(seq_data@) =~= match_unit(stk, ctx).events);
                }
                roff = roff + 1;
                qpos = qpos + 1;
                k = k + 1;
            }
            (roff, qpos)
        },
        CigarOp::Ins(l) => {
            proof {
                assert(op_query_len(op) == l as nat && op_ref_len(op) == 0);
            }
            if roff > 0 && roff - 1 < seq_data.len() {
                let idx = roff - 1;
                match duplicate_slot(&seq_data[idx]) {
                    Some(old_info) => {
                        let mut qpos = qpos;
                        let ghost qp0 = qpos as int;
                        let mut ins_seq: Vec<u8> = Vec::new();
                        let mut mv_ext: Vec<i32> = Vec::new();
                        let mut k: u32 = 0;
                        proof {
                            assert(ins_seq@ =~= ctx.bases.subrange(qp0, qp0));
                            match ctx.moves {
                                Some(m) => {
                                    assert(mv_ext@.map_values(|x: i32| x as int) =~= mv_slice(
                                        m,
                                        qp0,
                                        0,
                                    ));
                                },
                                None => {},
                            }
                        }
                        while k < l
                            invariant
                                0 <= k <= l,
                                qpos == qp0 + k,
                                ins_seq@ == ctx.bases.subrange(qp0, qp0 + k),
                                match ctx.moves {
                                    Some(m) => mv_ext@.map_values(|x: i32| x as int) == mv_slice(
                                        m,
                                        qp0,
                                        k as int,
                                    ),
                                    None => mv_ext@.len() == 0,
                                },
                            decreases l - k,
                        {
                            proof {
                                assert(qpos < record.seq_codes@.len());
                            }
                            let code = record.seq_codes[qpos];
                            ins_seq.push(base_letter_of(code));
                            match mv_arr {
                                Some(m) => {
                                    if qpos < m.len() {
                                        mv_ext.push(m[qpos]);
                                    }
                                },
                                None => {},
                            }
                            proof {
                                assert(ctx.bases.subrange(qp0, qp0 + k + 1) =~= ctx
                                    .bases
                                    .subrange(qp0, qp0 + k)
                                    .push(ctx.bases[qp0 + k]));
                                match ctx.moves {
                                    Some(m) => {
                                        if qp0 + k < m.len() {
                                            assert(mv_slice(m, qp0, k + 1) =~= mv_slice(
                                                m,
                                                qp0,
                                                k as int,
                                            ).push(m[qp0 + k]));
                                        } else {
                                            assert(mv_slice(m, qp0, k + 1) =~= mv_slice(
                                                m,
                                                qp0,
                                                k as int,
                                            ));
                                        }
                                        assert(mv_ext@.map_values(|x: i32| x as int) =~= mv_slice(
                                            m,
                                            qp0,
                                            k + 1,
                                        ));
                                    },
                                    None => {},
                                }
                            }
                            qpos = qpos + 1;
                            k = k + 1;
                        }
                        let mut ni = old_info;
                        ni.insertion = Some(ins_seq);
                        ni.mv_value = match (ni.mv_value, mv_arr.is_some()) {
                            (Some(mut v), true) => {
                                let mut ext = mv_ext;
                                v.append(&mut ext);
                                Some(v)
                            },
                            (x, _) => x,
                        };
                        proof {
                            let old_ev = st.events[st.roff - 1]->0;
                            match (ctx.moves, old_ev.mv_value) {
                                (Some(m), Some(v)) => {
                                    assert(ni.mv_value->0@.map_values(|x: i32| x as int) =~= v
                                        + mv_slice(m, st.qpos, l as int));
                                },
                                _ => {},
                            }
                            assert(ni@ =~~= ({
                                let ev2 = EventModel {
                                    insertion: Some(ctx.bases.subrange(st.qpos, st.qpos + l)),
                                    mv_value: match (ctx.moves, old_ev.mv_value) {
                                        (Some(m), Some(v)) => Some(
                                            v + mv_slice(m, st.qpos, l as int),
                                        ),
                                        _ => old_ev.mv_value,
                                    },
                                    ..old_ev
                                };
                                ev2
                            }));
                        }
                        seq_data.set(idx, Some(ni));
                        proof {
                            assert(events_view(seq_data@) =~= apply_op(st, op, ctx).events);
                        }
                        (roff, qpos)
                    },
                    None => {
                        (roff, qpos + l as usize)
                    },
                }
            } else {
                (roff, qpos + l as usize)
            }
        },
        CigarOp::Del(l) => {
            proof {
                assert(op_query_len(op) == 0 && op_ref_len(op) == l as nat);
            }
            if roff > 0 && roff - 1 < seq_data.len() {
                let idx = roff - 1;
                match duplicate_slot(&seq_data[idx]) {
                    Some(old_info) => {
                        let mut ni = old_info;
                        ni.deletion_len = Some(l);
                        ni.mv_value = match ni.mv_value {
                            Some(mut v) => {
                                v.push(0);
                                Some(v)
                            },
                            None => None,
                        };
                        proof {
                            let old_ev = st.events[st.roff - 1]->0;
                            match old_ev.mv_value {
                                Some(v) => {
                                    assert(ni.mv_value->0@.map_values(|x: i32| x as int) =~= v.push(
                                        0,
                                    ));
                                },
                                None => {},
                            }
                            assert(ni@ =~~= ({
                                let ev2 = EventModel {
                                    deletion_len: Some(l),
                                    mv_value: match old_ev.mv_value {
                                        Some(v) => Some(v.push(0)),
                                        None => None,
                                    },
                                    ..old_ev
                                };
                                ev2
                            }));
                        }
                        seq_data.set(idx, Some(ni));
                        proof {
                            assert(events_view(seq_data@) =~= apply_op(st, op, ctx).events);
                        }
                    },
                    None => {},
                }
            }
            (roff + l as usize, qpos)
        },
        CigarOp::RefSkip(l) => {
            proof {
                assert(op_ref_len(op) == l as nat);
            }
            (roff + l as usize, qpos)
        },
        CigarOp::SoftClip(l) => {
            proof {
                assert(op_query_len(op) == l as nat);
            }
            (roff, qpos + l as usize)
        },
        CigarOp::HardClip(_) => {
            (roff, qpos)
        },
        CigarOp::Pad(_) => {
            (roff, qpos)
        },
    }
}

/// [`lemma_match_units_facts`] without the well-formedness load, for cursor
/// bounds alone.
pub proof fn lemma_match_units_facts_plain(st: WalkState, n: nat, ctx: DecodeCtx)
    ensures
        match_units(st, n, ctx).events.len() == st.events.len(),
        match_units(st, n, ctx).roff == st.roff + n,
        match_units(st, n, ctx).qpos == st.qpos + n,
    decreases n,
{
    if n > 0 {
        lemma_match_units_facts_plain(st, (n - 1) as nat, ctx);
    }
}

/// Marks the first filled event as the alignment start and the last filled
/// event as the alignment end.
#[verifier::loop_isolation(false)]
#[verifier::rlimit(60)]
fn mark_boundaries(seq_data: &mut Vec<Option<BaseInfo>>)
    ensures
        events_view(final(seq_data)@) == mark_ends(events_view(old(seq_data)@)),
        final(seq_data)@.len() == old(seq_data)@.len(),
{
    let mut h: usize = 0;
    while h < seq_data.len() && seq_data[h].is_none()
        invariant
            0 <= h <= seq_data@.len(),
            seq_data@ == old(seq_data)@,
            forall|j: int| 0 <= j < h ==> !(#[trigger] events_view(seq_data@)[j] is Some),
        decreases seq_data@.len() - h,
    {
        h = h + 1;
    }
    proof {
        let s = events_view(seq_data@);
        lemma_first_event(s);
        if h < seq_data@.len() {
            assert(s[h as int] is Some);
            let fe = first_event(s);
            if fe == -1 {
                assert(!(s[h as int] is Some));
            }
            if 0 <= fe < h {
                assert(!(s[fe] is Some));
            }
            if fe > h {
                assert(!(s[h as int] is Some));
            }
            assert(fe == h);
        }
    }
    if h < seq_data.len() {
        match duplicate_slot(&seq_data[h]) {
            Some(old_info) => {
                let mut ni = old_info;
                ni.is_head = true;
                proof {
                    let s = events_view(seq_data@);
                    assert(ni@ =~~= EventModel { is_head: true, ..s[h as int]->0 });
                }
                seq_data.set(h, Some(ni));
            },
            None => {},
        }
    }
    proof {
        let s = events_view(old(seq_data)@);
        let hh = first_event(s);
        let s1 = if hh >= 0 {
            s.update(hh, Some(EventModel { is_head: true, ..s[hh]->0 }))
        } else {
            s
        };
        assert(events_view(seq_data@) =~= s1);
    }
    let ghost s1 = events_view(seq_data@);

    let mut t: usize = seq_data.len();
    while t > 0 && seq_data[t - 1].is_none()
        invariant
            0 <= t <= seq_data@.len(),
            events_view(seq_data@) == s1,
            seq_data@.len() == old(seq_data)@.len(),
            forall|j: int|
                t <= j < seq_data@.len() ==> !(#[trigger] events_view(seq_data@)[j] is Some),
        decreases t,
    {
        t = t - 1;
    }
    proof {
        let s = events_view(seq_data@);
        lemma_last_event(s);
        assert(s.len() == seq_data@.len());
        if t > 0 {
            assert(s[t - 1] is Some);
            let ti: int = t as int;
            let le = last_event(s);
            if le == -1 {
                assert(!(s[ti - 1] is Some));
            } else {
                assert(0 <= le < s.len() && s[le] is Some);
                if le < ti - 1 {
                    assert(le < ti - 1 < s.len());
                    assert(!(s[ti - 1] is Some));
                }
                if le >= ti {
                    assert(!(s[le] is Some));
                }
            }
            assert(le == ti - 1);
        }
    }
    if t > 0 {
        let idx = t - 1;
        match duplicate_slot(&seq_data[idx]) {
            Some(old_info) => {
                let mut ni = old_info;
                ni.is_tail = true;
                proof {
                    let s = events_view(seq_data@);
                    assert(ni@ =~~= EventModel { is_tail: true, ..s[idx as int]->0 });
                }
                seq_data.set(idx, Some(ni));
            },
            None => {},
        }
    }
    proof {
        let tt = last_event(s1);
        let s2 = if tt >= 0 {
            s1.update(tt, Some(EventModel { is_tail: true, ..s1[tt]->0 }))
        } else {
            s1
        };
        assert(events_view(seq_data@) =~= s2);
        assert(events_view(seq_data@) =~= mark_ends(events_view(old(seq_data)@)));
    }
}

impl CachedRead {
    /// Copy of a decoded read.
    #[verifier::loop_isolation(false)]
    pub fn duplicate(&self) -> (r: CachedRead)
        ensures
            r@ == self@,
    {
        let mut seq_data: Vec<Option<BaseInfo>> = Vec::new();
        let mut i: usize = 0;
        while i < self.seq_data.len()
            invariant
                0 <= i <= self.seq_data@.len(),
                events_view(seq_data@) == events_view(self.seq_data@.take(i as int)),
            decreases self.seq_data@.len() - i,
        {
            let slot = duplicate_slot(&self.seq_data[i]);
            proof {
                assert(slot_view(slot) == slot_view(self.seq_data@[i as int]));
            }
            let ghost prev = seq_data@;
            seq_data.push(slot);
            proof {
                lemma_events_view_push(prev, seq_data@.last());
                assert(self.seq_data@.take(i + 1) =~= self.seq_data@.take(i as int).push(
                    self.seq_data@[i as int],
                ));
                lemma_events_view_push(self.seq_data@.take(i as int), self.seq_data@[i as int]);
                assert(events_view(seq_data@) =~= events_view(self.seq_data@.take(i + 1)));
            }
            i = i + 1;
        }
        proof {
            assert(self.seq_data@.take(self.seq_data@.len() as int) =~= self.seq_data@);
        }
        let r = CachedRead {
            read_id: crate::bytes::clone_bytes(&self.read_id),
            ref_start: self.ref_start,
            ref_end: self.ref_end,
            mapq: self.mapq,
            seq_data,
        };
        proof {
            assert(r@ =~~= self@);
        }
        r
    }

    /// Decodes one fetched record into its dense per-reference-offset event
    /// table: the CIGAR walk with both cursors, insertion and deletion
    /// attachment to the previous reference offset, move-count
    /// redistribution, and head/tail marking. A record without query
    /// sequence yields an empty table that still declares its span.
    #[verifier::loop_isolation(false)]
    #[verifier::rlimit(60)]
    pub fn new(record: &AlignmentRecord, output_mv: bool) -> (r: CachedRead)
        requires
            record.wf(),
        ensures
            r@ == read_model_of(*record, output_mv),
            read_wf(r@),
    {
        let ref_start = record.pos;
        let ref_end = record.end_pos();
        let mapq = record.mapq;
        let read_id = crate::bytes::clone_bytes(&record.qname);
        if record.seq_codes.len() == 0 {
            let r = CachedRead { read_id, ref_start, ref_end, mapq, seq_data: Vec::new() };
            proof {
                assert(events_view(r.seq_data@) =~= Seq::<Option<EventModel>>::empty());
                assert(r@ =~~= read_model_of(*record, output_mv));
            }
            return r;
        }
        let is_rev = record.is_reverse();
        let rlen = (ref_end - ref_start) as usize;
        let qlen = record.seq_codes.len();

        let mut seq_data: Vec<Option<BaseInfo>> = Vec::new();
        let mut z: usize = 0;
        while z < rlen
            invariant
                0 <= z <= rlen,
                seq_data@.len() == z,
                forall|j: int| 0 <= j < z ==> #[trigger] seq_data@[j] is None,
            decreases rlen - z,
        {
            seq_data.push(None);
            z = z + 1;
        }

        let ghost ctx = decode_ctx(*record, output_mv);
        let ghost st0 = WalkState {
            events: Seq::new(cigar_ref_len(record.cigar@), |i: int| None),
            roff: 0,
            qpos: 0,
        };
        proof {
            lemma_ctx_wf(*record, output_mv);
            assert(events_view(seq_data@) =~= st0.events);
        }

        let mv_arr: Option<Vec<i32>> = if output_mv {
            match &record.mv_tag {
                Some(m) => {
                    if m.len() > 1 {
                        Some(decode_move_counts(m, qlen, is_rev))
                    } else {
                        None
                    }
                },
                None => None,
            }
        } else {
            None
        };
        proof {
            assert(moves_view(mv_arr) == ctx.moves);
        }

        let ghost ops = record.cigar@;
        let mut qpos: usize = 0;
        let mut roff: usize = 0;
        let mut i: usize = 0;
        proof {
            assert(ops.take(0) =~= Seq::<CigarOp>::empty());
        }
        while i < record.cigar.len()
            invariant
                0 <= i <= ops.len(),
                seq_data@.len() == rlen,
                events_view(seq_data@) == walk_ops(ops.take(i as int), st0, ctx).events,
                roff == walk_ops(ops.take(i as int), st0, ctx).roff,
                qpos == walk_ops(ops.take(i as int), st0, ctx).qpos,
            decreases ops.len() - i,
        {
            let ghost st_i = walk_ops(ops.take(i as int), st0, ctx);
            let ghost st_n = walk_ops(ops.take(i + 1), st0, ctx);
            proof {
                assert(ops.take(i + 1).drop_last() =~= ops.take(i as int));
                assert(ops.take(i + 1).last() == ops[i as int]);
                lemma_walk_facts(ops.take(i as int), st0, ctx);
                lemma_walk_facts(ops.take(i + 1), st0, ctx);
                lemma_cigar_query_len_split(ops, i + 1);
                lemma_cigar_ref_len_split(ops, i + 1);
                assert(st_n == apply_op(st_i, ops[i as int], ctx));
            }
            let op = record.cigar[i];
            let cursors = apply_one_op(
                &mut seq_data,
                roff,
                qpos,
                op,
                record,
                &mv_arr,
                is_rev,
                Ghost(ctx),
                Ghost(st_i),
            );
            roff = cursors.0;
            qpos = cursors.1;
            i = i + 1;
        }
        proof {
            assert(ops.take(ops.len() as int) =~= ops);
        }
        let ghost st_final = walk_ops(ops, st0, ctx);

        mark_boundaries(&mut seq_data);

        let r = CachedRead { read_id, ref_start, ref_end, mapq, seq_data };
        proof {
            assert(r@ =~~= read_model_of(*record, output_mv));
            lemma_walk_facts(ops, st0, ctx);
            lemma_mark_ends_wf(st_final.events);
        }
        r
    }
}

} // verus!

verus! {

/// No slot of the table carries a boundary marker yet.
pub open spec fn events_unmarked(s: Seq<Option<EventModel>>) -> bool {
    forall|i: int|
        0 <= i < s.len() && s[i] is Some ==> !(#[trigger] s[i]->0).is_head && !s[i]->0.is_tail
}

proof fn lemma_match_units_unmarked(st: WalkState, n: nat, ctx: DecodeCtx)
    requires
        events_unmarked(st.events),
    ensures
        events_unmarked(match_units(st, n, ctx).events),
    decreases n,
{
    if n > 0 {
        lemma_match_units_unmarked(st, (n - 1) as nat, ctx);
    }
}

proof fn lemma_walk_unmarked(ops: Seq<CigarOp>, st: WalkState, ctx: DecodeCtx)
    requires
        events_unmarked(st.events),
    ensures
        events_unmarked(walk_ops(ops, st, ctx).events),
    decreases ops.len(),
{
    if ops.len() > 0 {
        lemma_walk_unmarked(ops.drop_last(), st, ctx);
        let prev = walk_ops(ops.drop_last(), st, ctx);
        match ops.last() {
            CigarOp::Match(l) => lemma_match_units_unmarked(prev, l as nat, ctx),
            CigarOp::Equal(l) => lemma_match_units_unmarked(prev, l as nat, ctx),
            CigarOp::Diff(l) => lemma_match_units_unmarked(prev, l as nat, ctx),
            _ => {},
        }
    }
}

/// Boundary markers are unique and sit at the read's ends: in a decoded
/// read with at least one filled slot, exactly the first filled slot has
/// `is_head` and exactly the last filled slot has `is_tail`, whatever empty
/// stretches lie in between.
pub proof fn lemma_head_tail_markers(record: AlignmentRecord, output_mv: bool)
    requires
        record.wf(),
        first_event(decoded_events(record, output_mv)) >= 0,
    ensures
        ({
            let s = decoded_events(record, output_mv);
            let h = first_event(s);
            let t = last_event(s);
            &&& 0 <= h < s.len() && s[h] is Some && s[h]->0.is_head
            &&& 0 <= t < s.len() && s[t] is Some && s[t]->0.is_tail
            &&& forall|j: int|
                0 <= j < s.len() && s[j] is Some && j != h ==> !(#[trigger] s[j]->0).is_head
            &&& forall|j: int|
                0 <= j < s.len() && s[j] is Some && j != t ==> !(#[trigger] s[j]->0).is_tail
            &&& forall|j: int| 0 <= j < h ==> !(#[trigger] s[j] is Some)
            &&& forall|j: int| t < j < s.len() ==> !(#[trigger] s[j] is Some)
        }),
{
    let s = decoded_events(record, output_mv);
    let ctx = decode_ctx(record, output_mv);
    let st0 = WalkState {
        events: Seq::new(cigar_ref_len(record.cigar@), |i: int| None),
        roff: 0,
        qpos: 0,
    };
    lemma_first_event(s);
    assert(s.len() > 0);
    assert(record.seq_codes@.len() > 0);
    let w = walk_ops(record.cigar@, st0, ctx).events;
    lemma_walk_unmarked(record.cigar@, st0, ctx);
    lemma_first_event(w);
    lemma_last_event(w);
    assert(s == mark_ends(w));
    let h = first_event(w);
    let t0 = last_event(w);
    assert(h >= 0) by {
        if h == -1 {
            lemma_first_event_frame(w, s);
        }
    }
    let s1 = w.update(h, Some(EventModel { is_head: true, ..w[h]->0 }));
    assert(forall|j: int| 0 <= j < w.len() && j != h ==> s1[j] == w[j]);
    assert(forall|j: int| 0 <= j < w.len() ==> ((#[trigger] w[j] is Some) <==> s1[j] is Some));
    lemma_last_event_frame(w, s1);
    let t = last_event(s1);
    assert(t == t0);
    assert(t0 >= 0 && t0 >= h) by {
        if t0 == -1 {
            assert(!(w[h] is Some));
        }
        if t0 < h {
            assert(!(w[h] is Some));
        }
    }
    assert(s == s1.update(t, Some(EventModel { is_tail: true, ..s1[t]->0 })));
    assert(forall|j: int| 0 <= j < s1.len() && j != t ==> s[j] == s1[j]);
    assert(forall|j: int| 0 <= j < s1.len() ==> ((#[trigger] s1[j] is Some) <==> s[j] is Some));
    lemma_first_event_frame(w, s1);
    lemma_first_event_frame(s1, s);
    lemma_last_event_frame(s1, s);
    assert(first_event(s) == h);
    assert(last_event(s) == t);
    lemma_last_event(s);
    // The marked slots carry their markers.
    assert(s[t]->0.is_tail);
    assert(s[h]->0.is_head) by {
        if h != t {
            assert(s[h] == s1[h]);
        }
    }
    // No other filled slot carries a marker.
    assert forall|j: int| 0 <= j < s.len() && s[j] is Some && j != h implies !(
    #[trigger] s[j]->0).is_head by {
        if j == t {
            assert(s1[t] == w[t]);
        } else {
            assert(s[j] == w[j]);
        }
    }
    assert forall|j: int| 0 <= j < s.len() && s[j] is Some && j != t implies !(
    #[trigger] s[j]->0).is_tail by {
        if j == h {
            assert(s[h] == s1[h]);
            assert(s1[h]->0.is_tail == w[h]->0.is_tail);
        } else {
            assert(s[j] == w[j]);
        }
    }
}

/// Two tables filled at the same places have their first and last filled
/// slots at the same places.
proof fn lemma_first_event_frame(a: Seq<Option<EventModel>>, b: Seq<Option<EventModel>>)
    requires
        a.len() == b.len(),
        forall|j: int| 0 <= j < a.len() ==> ((#[trigger] a[j] is Some) <==> b[j] is Some),
    ensures
        first_event(a) == first_event(b),
    decreases a.len(),
{
    if a.len() > 0 {
        assert(forall|j: int|
            0 <= j < a.len() - 1 ==> #[trigger] a.drop_last()[j] == a[j]);
        assert(forall|j: int|
            0 <= j < b.len() - 1 ==> #[trigger] b.drop_last()[j] == b[j]);
        lemma_first_event_frame(a.drop_last(), b.drop_last());
    }
}

proof fn lemma_last_event_frame(a: Seq<Option<EventModel>>, b: Seq<Option<EventModel>>)
    requires
        a.len() == b.len(),
        forall|j: int| 0 <= j < a.len() ==> ((#[trigger] a[j] is Some) <==> b[j] is Some),
    ensures
        last_event(a) == last_event(b),
    decreases a.len(),
{
    if a.len() > 0 {
        assert(forall|j: int|
            0 <= j < a.len() - 1 ==> #[trigger] a.drop_last()[j] == a[j]);
        assert(forall|j: int|
            0 <= j < b.len() - 1 ==> #[trigger] b.drop_last()[j] == b[j]);
        lemma_last_event_frame(a.drop_last(), b.drop_last());
    }
}

} // verus!
