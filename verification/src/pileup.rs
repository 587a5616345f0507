//! Column scan and annotation rendering: one pileup row per reference
//! position, built from the cached reads in identifier order.

use vstd::prelude::*;
use crate::bytes::{
    clone_bytes, dec_of, lower_byte, push_decimal, subvec, to_lower, to_upper, upper_byte,
};
use crate::cache::{cache_wf, has_id, insert_read, ReadCache};
use crate::read::{
    cigar_ref_len, event_wf, read_model_of, read_wf, AlignmentRecord, BaseInfo, CachedRead,
    EventModel, ReadModel,
};

verus! {

/// The event a read contributes at a reference position: the slot at offset
/// `pos - ref_start`, empty outside the read's span.
pub open spec fn event_at(r: ReadModel, pos: int) -> Option<EventModel> {
    if r.ref_start <= pos < r.ref_end && 0 <= pos - r.ref_start < r.seq_data.len() {
        r.seq_data[pos - r.ref_start]
    } else {
        None
    }
}

/// The read contributes a row at this position: its span covers the
/// position, the slot is filled, and the base quality passes the filter.
pub open spec fn qualifies(r: ReadModel, pos: int, min_baseq: u8) -> bool {
    match event_at(r, pos) {
        Some(ev) => ev.qual >= min_baseq,
        None => false,
    }
}

/// How many cached reads contribute a row at this position.
pub open spec fn count_qualifying(reads: Seq<ReadModel>, pos: int, min_baseq: u8) -> nat
    decreases reads.len(),
{
    if reads.len() == 0 {
        0
    } else {
        count_qualifying(reads.drop_last(), pos, min_baseq) + if qualifies(
            reads.last(),
            pos,
            min_baseq,
        ) {
            1nat
        } else {
            0nat
        }
    }
}

/// The called base as the pileup alphabet writes it: a reference match is
/// `.` forward and `,` reverse; anything else keeps its letter, lower-cased
/// on the reverse strand.
pub open spec fn render_base(ev: EventModel) -> u8 {
    if ev.is_reverse {
        if ev.base == 61 {
            44  // ','
        } else {
            lower_byte(ev.base)
        }
    } else {
        if ev.base == 61 {
            46  // '.'
        } else {
            ev.base
        }
    }
}

/// Lower-case image of a byte string.
pub open spec fn lower_seq(s: Seq<u8>) -> Seq<u8> {
    s.map_values(|b: u8| lower_byte(b))
}

/// Upper-case image of a byte string.
pub open spec fn upper_seq(s: Seq<u8>) -> Seq<u8> {
    s.map_values(|b: u8| upper_byte(b))
}

/// The view of the reference window handed to the scan.
pub open spec fn ref_view(o: Option<&Vec<u8>>) -> Option<Seq<u8>> {
    match o {
        Some(v) => Some(v@),
        None => None,
    }
}

/// The reference bases a deletion at this position removes, read from the
/// reference window at offset `pos + 1 - region_start`; empty when no
/// reference is at hand or the span runs past the window.
pub open spec fn deleted_bases(
    ref_seq: Option<Seq<u8>>,
    pos: int,
    region_start: int,
    del_len: int,
) -> Seq<u8> {
    match ref_seq {
        Some(s) => {
            let from = pos + 1 - region_start;
            if from + del_len <= s.len() {
                s.subrange(from, from + del_len)
            } else {
                Seq::empty()
            }
        },
        None => Seq::empty(),
    }
}

/// The reported reference base: the window byte at `pos - region_start`, or
/// `N` when no reference is at hand or the offset runs past the window.
pub open spec fn ref_base_at(ref_seq: Option<Seq<u8>>, pos: int, region_start: int) -> u8 {
    match ref_seq {
        Some(s) => if pos - region_start < s.len() {
            s[pos - region_start]
        } else {
            78  // 'N'
        },
        None => 78,
    }
}

/// One read's full per-position annotation: an optional `^` start marker
/// with the one-byte encoded mapping quality, the rendered base, an optional
/// `+<len><bases>` insertion in strand case, an optional `-<len><bases>`
/// deletion with the deleted reference bases, and an optional `$` end
/// marker.
pub open spec fn annotation_of(
    ev: EventModel,
    ref_seq: Option<Seq<u8>>,
    pos: int,
    region_start: int,
) -> Seq<u8> {
    let head = if ev.is_head {
        seq![94u8, (ev.mapq + 33) as u8]
    } else {
        Seq::empty()
    };
    let ins = match ev.insertion {
        Some(b) => seq![43u8] + dec_of(b.len()) + (if ev.is_reverse {
            lower_seq(b)
        } else {
            upper_seq(b)
        }),
        None => Seq::empty(),
    };
    let del = match ev.deletion_len {
        Some(l) => seq![45u8] + dec_of(l as nat) + deleted_bases(
            ref_seq,
            pos,
            region_start,
            l as int,
        ),
        None => Seq::empty(),
    };
    let tail = if ev.is_tail {
        seq![36u8]
    } else {
        Seq::empty()
    };
    head + seq![render_base(ev)] + ins + del + tail
}

/// The move counts of one event as text: the first count plain, every
/// further one prefixed with `,+`.
pub open spec fn mv_join(vals: Seq<int>) -> Seq<u8>
    decreases vals.len(),
{
    if vals.len() == 0 {
        Seq::empty()
    } else if vals.len() == 1 {
        dec_of(vals[0] as nat)
    } else {
        mv_join(vals.drop_last()) + seq![44u8, 43u8] + dec_of(vals.last() as nat)
    }
}

/// The move-value column text of one event: its counts joined, or a single
/// `0` when no counts were decoded.
pub open spec fn mv_text_of(ev: EventModel) -> Seq<u8> {
    match ev.mv_value {
        Some(vals) => mv_join(vals),
        None => seq![48u8],
    }
}

/// Everything one qualifying read adds to a column.
#[verifier::ext_equal]
pub ghost struct ColumnEntry {
    pub annotation: Seq<u8>,
    pub read_id: Seq<u8>,
    pub mapq: u8,
    pub qual: u8,
    pub mv_text: Seq<u8>,
}

/// The rows of one column: one entry per qualifying read, in cache order.
pub open spec fn column_entries(
    reads: Seq<ReadModel>,
    pos: int,
    min_baseq: u8,
    ref_seq: Option<Seq<u8>>,
    region_start: int,
) -> Seq<ColumnEntry>
    decreases reads.len(),
{
    if reads.len() == 0 {
        Seq::empty()
    } else {
        let rest = column_entries(reads.drop_last(), pos, min_baseq, ref_seq, region_start);
        let r = reads.last();
        if qualifies(r, pos, min_baseq) {
            let ev = event_at(r, pos)->0;
            rest.push(
                ColumnEntry {
                    annotation: annotation_of(ev, ref_seq, pos, region_start),
                    read_id: r.read_id,
                    mapq: ev.mapq,
                    qual: ev.qual,
                    mv_text: mv_text_of(ev),
                },
            )
        } else {
            rest
        }
    }
}

/// A column holds exactly one row per qualifying read.
pub proof fn lemma_column_depth(
    reads: Seq<ReadModel>,
    pos: int,
    min_baseq: u8,
    ref_seq: Option<Seq<u8>>,
    region_start: int,
)
    ensures
        column_entries(reads, pos, min_baseq, ref_seq, region_start).len() == count_qualifying(
            reads,
            pos,
            min_baseq,
        ),
    decreases reads.len(),
{
    if reads.len() > 0 {
        lemma_column_depth(reads.drop_last(), pos, min_baseq, ref_seq, region_start);
    }
}

/// One output row per reference coordinate: the reference base, the depth,
/// one annotation per contributing read, and the enabled optional columns in
/// the same read order.
#[derive(Debug)]
pub struct PileupPos {
    pub chrom: Vec<u8>,
    pub pos: usize,
    pub ref_base: u8,
    pub depth: usize,
    pub bases: Vec<Vec<u8>>,
    pub read_names: Option<Vec<Vec<u8>>>,
    pub map_qualities: Option<Vec<u8>>,
    pub quality_scores: Option<Vec<u8>>,
    pub mv_values: Option<Vec<Vec<u8>>>,
}

impl PileupPos {
    /// An empty column at one position, its optional channels allocated as
    /// the output toggles ask.
    pub fn new(
        chrom: Vec<u8>,
        pos: usize,
        ref_base: u8,
        output_bq: bool,
        output_mapq: bool,
        output_read_name: bool,
        output_mv: bool,
    ) -> (r: PileupPos)
        ensures
            r.chrom == chrom,
            r.pos == pos,
            r.ref_base == ref_base,
            r.depth == 0,
            r.bases@.len() == 0,
            r.read_names is Some <==> output_read_name,
            r.map_qualities is Some <==> output_mapq,
            r.quality_scores is Some <==> output_bq,
            r.mv_values is Some <==> output_mv,
            output_read_name ==> r.read_names->0@.len() == 0,
            output_mapq ==> r.map_qualities->0@.len() == 0,
            output_bq ==> r.quality_scores->0@.len() == 0,
            output_mv ==> r.mv_values->0@.len() == 0,
    {
        PileupPos {
            chrom,
            pos,
            ref_base,
            depth: 0,
            bases: Vec::new(),
            read_names: if output_read_name {
                Some(Vec::new())
            } else {
                None
            },
            map_qualities: if output_mapq {
                Some(Vec::new())
            } else {
                None
            },
            quality_scores: if output_bq {
                Some(Vec::new())
            } else {
                None
            },
            mv_values: if output_mv {
                Some(Vec::new())
            } else {
                None
            },
        }
    }
}

/// The column carries exactly these rows: depth, annotations and every
/// enabled optional channel agree with the entries, in order.
pub open spec fn column_matches(
    p: PileupPos,
    entries: Seq<ColumnEntry>,
    chrom: Seq<u8>,
    pos: int,
    ref_base: u8,
    output_bq: bool,
    output_mapq: bool,
    output_read_name: bool,
    output_mv: bool,
) -> bool {
    &&& p.chrom@ == chrom
    &&& p.pos == pos
    &&& p.ref_base == ref_base
    &&& p.depth == entries.len()
    &&& p.bases@.len() == entries.len()
    &&& forall|i: int|
        0 <= i < entries.len() ==> (#[trigger] p.bases@[i])@ == entries[i].annotation
    &&& (p.read_names is Some <==> output_read_name)
    &&& (p.map_qualities is Some <==> output_mapq)
    &&& (p.quality_scores is Some <==> output_bq)
    &&& (p.mv_values is Some <==> output_mv)
    &&& output_read_name ==> p.read_names->0@.len() == entries.len() && forall|i: int|
        0 <= i < entries.len() ==> (#[trigger] p.read_names->0@[i])@ == entries[i].read_id
    &&& output_mapq ==> p.map_qualities->0@.len() == entries.len() && forall|i: int|
        0 <= i < entries.len() ==> #[trigger] p.map_qualities->0@[i] == entries[i].mapq
    &&& output_bq ==> p.quality_scores->0@.len() == entries.len() && forall|i: int|
        0 <= i < entries.len() ==> #[trigger] p.quality_scores->0@[i] == entries[i].qual
    &&& output_mv ==> p.mv_values->0@.len() == entries.len() && forall|i: int|
        0 <= i < entries.len() ==> (#[trigger] p.mv_values->0@[i])@ == entries[i].mv_text
}

/// Appends the insertion segment: `+`, the length, the bases in strand
/// case.
#[verifier::loop_isolation(false)]
fn push_insertion(s: &mut Vec<u8>, ins: &Vec<u8>, is_reverse: bool)
    ensures
        final(s)@ == old(s)@ + seq![43u8] + dec_of(ins@.len()) + (if is_reverse {
            lower_seq(ins@)
        } else {
            upper_seq(ins@)
        }),
{
    s.push(43);
    push_decimal(s, ins.len() as u64);
    let ghost cased = if is_reverse {
        lower_seq(ins@)
    } else {
        upper_seq(ins@)
    };
    let ghost before_ins = s@;
    let mut j: usize = 0;
    while j < ins.len()
        invariant
            0 <= j <= ins@.len(),
            s@ == before_ins + cased.take(j as int),
        decreases ins@.len() - j,
    {
        if is_reverse {
            s.push(to_lower(ins[j]));
        } else {
            s.push(to_upper(ins[j]));
        }
        proof {
            assert(cased.take(j + 1) =~= cased.take(j as int).push(cased[j as int]));
            assert(s@ =~= before_ins + cased.take(j + 1));
        }
        j = j + 1;
    }
    proof {
        assert(cased.take(ins@.len() as int) =~= cased);
        assert(final(s)@ =~= old(s)@ + seq![43u8] + dec_of(ins@.len()) + cased);
    }
}

/// Appends the deletion segment: `-`, the length, and the deleted reference
/// bases where the reference window covers them.
#[verifier::loop_isolation(false)]
fn push_deletion(
    s: &mut Vec<u8>,
    dl: u32,
    ref_seq: Option<&Vec<u8>>,
    pos: usize,
    region_start: usize,
)
    requires
        region_start <= pos < usize::MAX,
    ensures
        final(s)@ == old(s)@ + seq![45u8] + dec_of(dl as nat) + deleted_bases(
            ref_view(ref_seq),
            pos as int,
            region_start as int,
            dl as int,
        ),
{
    s.push(45);
    push_decimal(s, dl as u64);
    match ref_seq {
        Some(rs) => {
            let from = pos + 1 - region_start;
            if dl as usize <= rs.len() && from <= rs.len() - dl as usize {
                let mut piece = subvec(rs.as_slice(), from, from + dl as usize);
                s.append(&mut piece);
            }
        },
        None => {},
    }
    proof {
        assert(final(s)@ =~= old(s)@ + seq![45u8] + dec_of(dl as nat) + deleted_bases(
            ref_view(ref_seq),
            pos as int,
            region_start as int,
            dl as int,
        ));
    }
}

/// Renders one event's annotation string.
#[verifier::loop_isolation(false)]
#[verifier::rlimit(60)]
pub fn render_annotation(
    info: &BaseInfo,
    ref_seq: Option<&Vec<u8>>,
    pos: usize,
    region_start: usize,
) -> (s: Vec<u8>)
    requires
        event_wf(info@),
        region_start <= pos < usize::MAX,
    ensures
        s@ == annotation_of(info@, ref_view(ref_seq), pos as int, region_start as int),
{
    let ghost ev = info@;
    let ghost head = if ev.is_head {
        seq![94u8, (ev.mapq + 33) as u8]
    } else {
        Seq::<u8>::empty()
    };
    let mut s: Vec<u8> = Vec::new();
    if info.is_head {
        s.push(94);
        s.push(info.mapq + 33);
    }
    let b = if info.is_reverse {
        if info.base == 61 {
            44
        } else {
            to_lower(info.base)
        }
    } else {
        if info.base == 61 {
            46
        } else {
            info.base
        }
    };
    s.push(b);
    proof {
        assert(s@ =~= head + seq![render_base(ev)]);
    }
    match &info.insertion {
        Some(ins) => {
            push_insertion(&mut s, ins, info.is_reverse);
        },
        None => {},
    }
    proof {
        let ins_part = match ev.insertion {
            Some(bs) => seq![43u8] + dec_of(bs.len()) + (if ev.is_reverse {
                lower_seq(bs)
            } else {
                upper_seq(bs)
            }),
            None => Seq::<u8>::empty(),
        };
        assert(s@ =~= head + seq![render_base(ev)] + ins_part);
    }
    let ghost with_ins = s@;
    match info.deletion_len {
        Some(dl) => {
            push_deletion(&mut s, dl, ref_seq, pos, region_start);
        },
        None => {},
    }
    proof {
        let del_part = match ev.deletion_len {
            Some(l) => seq![45u8] + dec_of(l as nat) + deleted_bases(
                ref_view(ref_seq),
                pos as int,
                region_start as int,
                l as int,
            ),
            None => Seq::<u8>::empty(),
        };
        assert(s@ =~= with_ins + del_part);
    }

    if info.is_tail {
        s.push(36);
    }
    proof {
        assert(s@ =~= annotation_of(info@, ref_view(ref_seq), pos as int, region_start as int));
    }
    s
}

/// Renders one event's move-value text.
#[verifier::loop_isolation(false)]
pub fn render_mv_text(info: &BaseInfo) -> (s: Vec<u8>)
    requires
        event_wf(info@),
    ensures
        s@ == mv_text_of(info@),
{
    let mut s: Vec<u8> = Vec::new();
    match &info.mv_value {
        Some(vals) => {
            let ghost model = info@.mv_value->0;
            let mut j: usize = 0;
            while j < vals.len()
                invariant
                    0 <= j <= vals@.len(),
                    model == vals@.map_values(|x: i32| x as int),
                    s@ == mv_join(model.take(j as int)),
                decreases vals@.len() - j,
            {
                proof {
                    assert(model.take(j + 1).drop_last() =~= model.take(j as int));
                    assert(model.take(j + 1).last() == model[j as int]);
                    assert(model[j as int] == vals@[j as int] as int);
                    assert(0 <= vals@[j as int]);
                }
                if j > 0 {
                    s.push(44);
                    s.push(43);
                }
                push_decimal(&mut s, vals[j] as u64);
                proof {
                    assert(s@ =~= mv_join(model.take(j + 1)));
                }
                j = j + 1;
            }
            proof {
                assert(model.take(model.len() as int) =~= model);
            }
        },
        None => {
            s.push(48);
            proof {
                assert(s@ =~= seq![48u8]);
            }
        },
    }
    s
}

/// Builds the pileup column at one reference position from the cached
/// reads, walked in their sorted identifier order: depth counts exactly the
/// reads whose span covers the position with a filled event that passes the
/// base-quality filter, and every enabled channel carries one value per such
/// read.
#[verifier::loop_isolation(false)]
#[verifier::rlimit(60)]
pub fn scan_position(
    cache: &ReadCache,
    chrom: &Vec<u8>,
    pos: usize,
    ref_seq: Option<&Vec<u8>>,
    region_start: usize,
    min_baseq: u8,
    output_bq: bool,
    output_mapq: bool,
    output_read_name: bool,
    output_mv: bool,
) -> (p: PileupPos)
    requires
        cache_wf(cache@),
        region_start <= pos < usize::MAX,
        pos <= i64::MAX,
    ensures
        column_matches(
            p,
            column_entries(cache@, pos as int, min_baseq, ref_view(ref_seq), region_start as int),
            chrom@,
            pos as int,
            ref_base_at(ref_view(ref_seq), pos as int, region_start as int),
            output_bq,
            output_mapq,
            output_read_name,
            output_mv,
        ),
        p.depth == count_qualifying(cache@, pos as int, min_baseq),
{
    let ref_base = match ref_seq {
        Some(rs) => {
            let offset = pos - region_start;
            if offset < rs.len() {
                rs[offset]
            } else {
                78
            }
        },
        None => 78,
    };
    let mut p = PileupPos::new(
        clone_bytes(chrom),
        pos,
        ref_base,
        output_bq,
        output_mapq,
        output_read_name,
        output_mv,
    );
    let ghost all = cache@;
    let mut i: usize = 0;
    proof {
        assert(all.take(0) =~= Seq::<ReadModel>::empty());
    }
    while i < cache.reads.len()
        invariant
            0 <= i <= cache.reads@.len(),
            column_matches(
                p,
                column_entries(
                    all.take(i as int),
                    pos as int,
                    min_baseq,
                    ref_view(ref_seq),
                    region_start as int,
                ),
                chrom@,
                pos as int,
                ref_base_at(ref_view(ref_seq), pos as int, region_start as int),
                output_bq,
                output_mapq,
                output_read_name,
                output_mv,
            ),
            p.depth <= i,
        decreases cache.reads@.len() - i,
    {
        proof {
            assert(all.take(i + 1).drop_last() =~= all.take(i as int));
            assert(all.take(i + 1).last() == all[i as int]);
        }
        let read = &cache.reads[i];
        proof {
            assert(all[i as int] == read@);
            assert(read_wf(all[i as int]));
        }
        let pos_i = pos as i64;
        if pos_i >= read.ref_start && pos_i < read.ref_end {
            let idx = (pos_i - read.ref_start) as usize;
            if idx < read.seq_data.len() {
                match &read.seq_data[idx] {
                    Some(info) => {
                        proof {
                            assert(read@.seq_data[idx as int] == Some(info@));
                            assert(event_at(all[i as int], pos as int) == Some(info@));
                        }
                        if info.qual >= min_baseq {
                            let ghost ev = info@;
                            let ghost entry = ColumnEntry {
                                annotation: annotation_of(
                                    ev,
                                    ref_view(ref_seq),
                                    pos as int,
                                    region_start as int,
                                ),
                                read_id: all[i as int].read_id,
                                mapq: ev.mapq,
                                qual: ev.qual,
                                mv_text: mv_text_of(ev),
                            };
                            let ann = render_annotation(info, ref_seq, pos, region_start);
                            p.bases.push(ann);
                            p.depth = p.depth + 1;
                            if output_read_name {
                                match &mut p.read_names {
                                    Some(rn) => rn.push(clone_bytes(&read.read_id)),
                                    None => {},
                                }
                            }
                            if output_mapq {
                                match &mut p.map_qualities {
                                    Some(mq) => mq.push(info.mapq),
                                    None => {},
                                }
                            }
                            if output_bq {
                                match &mut p.quality_scores {
                                    Some(qs) => qs.push(info.qual),
                                    None => {},
                                }
                            }
                            if output_mv {
                                let text = render_mv_text(info);
                                match &mut p.mv_values {
                                    Some(mvs) => mvs.push(text),
                                    None => {},
                                }
                            }
                        }
                    },
                    None => {},
                }
            }
        }
        i = i + 1;
    }
    proof {
        assert(all.take(all.len() as int) =~= all);
        lemma_column_depth(all, pos as int, min_baseq, ref_view(ref_seq), region_start as int);
    }
    p
}

} // verus!

verus! {

/// The driver takes a fetched record: its identifier is new to the cache,
/// its span strictly overlaps the margin-widened window, its mapping quality
/// passes, and none of its flag bits is excluded.
pub open spec fn accept_record(
    cache: Seq<ReadModel>,
    rec: AlignmentRecord,
    window_start: int,
    window_end: int,
    margin: int,
    min_mapq: u8,
    flag_filter: u32,
) -> bool {
    let fetch_start = if window_start >= margin {
        window_start - margin
    } else {
        0
    };
    &&& !has_id(cache, rec.qname@)
    &&& !(rec.pos >= window_end + margin || rec.pos + cigar_ref_len(rec.cigar@) <= fetch_start)
    &&& rec.mapq >= min_mapq
    &&& rec.flags as u32 & flag_filter == 0
}

/// The cache after offering every fetched record in order: each accepted
/// record is decoded and inserted at its identifier's place, the rest leave
/// the cache alone.
pub open spec fn insert_records(
    cache: Seq<ReadModel>,
    records: Seq<AlignmentRecord>,
    window_start: int,
    window_end: int,
    margin: int,
    min_mapq: u8,
    flag_filter: u32,
    output_mv: bool,
) -> Seq<ReadModel>
    decreases records.len(),
{
    if records.len() == 0 {
        cache
    } else {
        let prev = insert_records(
            cache,
            records.drop_last(),
            window_start,
            window_end,
            margin,
            min_mapq,
            flag_filter,
            output_mv,
        );
        let rec = records.last();
        if accept_record(prev, rec, window_start, window_end, margin, min_mapq, flag_filter) {
            insert_read(prev, read_model_of(rec, output_mv))
        } else {
            prev
        }
    }
}

/// The cache `process_window` must leave behind: the fetched records
/// offered in order, then every read ending at or before the window start
/// evicted.
pub open spec fn window_cache(
    cache: Seq<ReadModel>,
    records: Seq<AlignmentRecord>,
    window_start: int,
    window_end: int,
    margin: int,
    min_mapq: u8,
    flag_filter: u32,
    output_mv: bool,
) -> Seq<ReadModel> {
    insert_records(
        cache,
        records,
        window_start,
        window_end,
        margin,
        min_mapq,
        flag_filter,
        output_mv,
    ).filter(|r: ReadModel| r.ref_end > window_start)
}

/// Processes one window: offers every fetched record to the cache (decode
/// and insert unless filtered out), evicts the reads the scan can no longer
/// reach, and emits one pileup column per position of the window, scanning
/// the cached reads in identifier order.
#[verifier::loop_isolation(false)]
#[verifier::rlimit(60)]
pub fn process_window(
    cache: &mut ReadCache,
    records: &Vec<AlignmentRecord>,
    chrom: &Vec<u8>,
    region_start: usize,
    window_start: usize,
    window_end: usize,
    margin: usize,
    ref_seq: Option<&Vec<u8>>,
    min_mapq: u8,
    min_baseq: u8,
    flag_filter: u32,
    output_bq: bool,
    output_mapq: bool,
    output_read_name: bool,
    output_mv: bool,
) -> (out: Vec<PileupPos>)
    requires
        cache_wf(old(cache)@),
        forall|i: int| 0 <= i < records@.len() ==> (#[trigger] records@[i]).wf(),
        region_start <= window_start <= window_end,
        window_end + margin <= i64::MAX,
        window_end + margin <= usize::MAX,
    ensures
        final(cache)@ == window_cache(
            old(cache)@,
            records@,
            window_start as int,
            window_end as int,
            margin as int,
            min_mapq,
            flag_filter,
            output_mv,
        ),
        cache_wf(final(cache)@),
        forall|i: int|
            0 <= i < final(cache)@.len() ==> (#[trigger] final(cache)@[i]).ref_end
                > window_start as int,
        out@.len() == window_end - window_start,
        forall|k: int|
            0 <= k < out@.len() ==> column_matches(
                #[trigger] out@[k],
                column_entries(
                    final(cache)@,
                    window_start + k,
                    min_baseq,
                    ref_view(ref_seq),
                    region_start as int,
                ),
                chrom@,
                window_start + k,
                ref_base_at(ref_view(ref_seq), window_start + k, region_start as int),
                output_bq,
                output_mapq,
                output_read_name,
                output_mv,
            ),
{
    let ghost recs = records@;
    let fetch_end = (window_end + margin) as i64;
    let fetch_start = if window_start >= margin {
        (window_start - margin) as i64
    } else {
        0
    };
    let mut i: usize = 0;
    proof {
        assert(recs.take(0) =~= Seq::<AlignmentRecord>::empty());
    }
    while i < records.len()
        invariant
            0 <= i <= recs.len(),
            cache@ == insert_records(
                old(cache)@,
                recs.take(i as int),
                window_start as int,
                window_end as int,
                margin as int,
                min_mapq,
                flag_filter,
                output_mv,
            ),
            cache_wf(cache@),
        decreases recs.len() - i,
    {
        proof {
            assert(recs.take(i + 1).drop_last() =~= recs.take(i as int));
            assert(recs.take(i + 1).last() == recs[i as int]);
        }
        let record = &records[i];
        let accepted = if cache.contains(record.qname.as_slice()) {
            false
        } else if record.pos >= fetch_end || record.end_pos() <= fetch_start {
            false
        } else if record.mapq < min_mapq {
            false
        } else if (record.flags as u32) & flag_filter != 0 {
            false
        } else {
            true
        };
        proof {
            assert(accepted == accept_record(
                cache@,
                recs[i as int],
                window_start as int,
                window_end as int,
                margin as int,
                min_mapq,
                flag_filter,
            ));
        }
        if accepted {
            let decoded = CachedRead::new(record, output_mv);
            cache.insert(decoded);
        }
        i = i + 1;
    }
    proof {
        assert(recs.take(recs.len() as int) =~= recs);
    }

    cache.prune(window_start as i64);

    let mut out: Vec<PileupPos> = Vec::new();
    let mut pos: usize = window_start;
    while pos < window_end
        invariant
            window_start <= pos <= window_end,
            out@.len() == pos - window_start,
            cache@ == window_cache(
                old(cache)@,
                recs,
                window_start as int,
                window_end as int,
                margin as int,
                min_mapq,
                flag_filter,
                output_mv,
            ),
            cache_wf(cache@),
            forall|k: int|
                0 <= k < out@.len() ==> column_matches(
                    #[trigger] out@[k],
                    column_entries(
                        cache@,
                        window_start + k,
                        min_baseq,
                        ref_view(ref_seq),
                        region_start as int,
                    ),
                    chrom@,
                    window_start + k,
                    ref_base_at(ref_view(ref_seq), window_start + k, region_start as int),
                    output_bq,
                    output_mapq,
                    output_read_name,
                    output_mv,
                ),
        decreases window_end - pos,
    {
        let p = scan_position(
            cache,
            chrom,
            pos,
            ref_seq,
            region_start,
            min_baseq,
            output_bq,
            output_mapq,
            output_read_name,
            output_mv,
        );
        out.push(p);
        pos = pos + 1;
    }
    out
}

} // verus!

verus! {

/// Strand encoding of the called base: a reference match renders `.`
/// forward and `,` reverse; a mismatch keeps its letter forward and is
/// lower-cased reverse.
pub proof fn lemma_strand_encoding(ev: EventModel)
    ensures
        !ev.is_reverse && ev.base == 61 ==> render_base(ev) == 46,
        ev.is_reverse && ev.base == 61 ==> render_base(ev) == 44,
        !ev.is_reverse && ev.base != 61 ==> render_base(ev) == ev.base,
        ev.is_reverse && ev.base != 61 ==> render_base(ev) == crate::bytes::lower_byte(ev.base),
{
}

/// End of the window that starts at `window_start`: one buffer further, but
/// never past the region end.
pub fn window_end_of(window_start: usize, buffer_size: usize, region_end: usize) -> (r: usize)
    requires
        window_start <= region_end,
    ensures
        r == if window_start + buffer_size <= region_end {
            window_start + buffer_size
        } else {
            region_end as int
        },
        window_start <= r <= region_end,
{
    if buffer_size <= region_end - window_start {
        window_start + buffer_size
    } else {
        region_end
    }
}

/// The margin-widened fetch interval of a window.
pub fn fetch_bounds(window_start: usize, window_end: usize, margin: usize) -> (r: (usize, usize))
    requires
        window_end + margin <= usize::MAX,
    ensures
        r.0 == if window_start >= margin {
            window_start - margin
        } else {
            0
        },
        r.1 == window_end + margin,
{
    let fetch_start = if window_start >= margin {
        window_start - margin
    } else {
        0
    };
    (fetch_start, window_end + margin)
}

} // verus!
