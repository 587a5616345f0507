use nanopile::cache::ReadCache;
use nanopile::pileup::{process_window, render_annotation, render_mv_text, scan_position, PileupPos};
use nanopile::read::{decode_move_counts, AlignmentRecord, BaseInfo, CachedRead, CigarOp};
use nanopile::region::{parse_bed_line, BedLine, Region, RegionError};

// 4-bit base codes as BAM stores them.
const EQ: u8 = 0;
const A: u8 = 1;
const C: u8 = 2;
const G: u8 = 4;
const T: u8 = 8;

fn record(
    qname: &str,
    pos: i64,
    mapq: u8,
    flags: u16,
    cigar: Vec<CigarOp>,
    seq_codes: Vec<u8>,
    qual: u8,
    mv_tag: Option<Vec<u8>>,
) -> AlignmentRecord {
    let n = seq_codes.len();
    AlignmentRecord {
        qname: qname.as_bytes().to_vec(),
        pos,
        mapq,
        flags,
        cigar,
        seq_codes,
        qual: vec![qual; n],
        mv_tag,
    }
}

fn column(
    cache: &ReadCache,
    pos: usize,
    ref_seq: Option<&Vec<u8>>,
    region_start: usize,
    min_baseq: u8,
) -> PileupPos {
    scan_position(
        cache,
        &b"chr1".to_vec(),
        pos,
        ref_seq,
        region_start,
        min_baseq,
        true,
        true,
        true,
        true,
    )
}

#[test]
fn region_from_str_basic() {
    let r = Region::from_str(b"chr1:100-200").unwrap();
    assert_eq!(r.chromosome, b"chr1".to_vec());
    assert_eq!(r.start, 99);
    assert_eq!(r.end, 200);
}

#[test]
fn region_from_str_commas() {
    let r = Region::from_str(b"chr2:1,000-2,000").unwrap();
    assert_eq!(r.chromosome, b"chr2".to_vec());
    assert_eq!(r.start, 999);
    assert_eq!(r.end, 2000);
}

#[test]
fn region_from_str_errors() {
    assert_eq!(Region::from_str(b"chr1"), Err(RegionError::InvalidFormat));
    assert_eq!(Region::from_str(b"a:b:c-d"), Err(RegionError::InvalidFormat));
    assert_eq!(Region::from_str(b"chr1:5"), Err(RegionError::InvalidRange));
    assert_eq!(Region::from_str(b"chr1:x-5"), Err(RegionError::InvalidStart));
    assert_eq!(Region::from_str(b"chr1:5-y"), Err(RegionError::InvalidEnd));
    assert_eq!(Region::from_str(b"chr1:0-5"), Err(RegionError::StartZero));
}

#[test]
fn bed_line_outcomes() {
    assert_eq!(parse_bed_line(b""), BedLine::Blank);
    assert_eq!(parse_bed_line(b"   "), BedLine::Blank);
    assert_eq!(parse_bed_line(b"# a comment"), BedLine::Blank);
    assert_eq!(parse_bed_line(b"chr1 10"), BedLine::Malformed);
    assert_eq!(parse_bed_line(b"chr1 x 20"), BedLine::InvalidStart);
    assert_eq!(parse_bed_line(b"chr1 10 y"), BedLine::InvalidEnd);
    match parse_bed_line(b"chr1\t10\t20\textra") {
        BedLine::Parsed(r) => {
            assert_eq!(r.chromosome, b"chr1".to_vec());
            assert_eq!(r.start, 10);
            assert_eq!(r.end, 20);
        },
        other => panic!("expected a parsed region, got {:?}", other),
    }
}

#[test]
fn region_new_stores_fields() {
    let r = Region::new(b"x".to_vec(), 3, 9);
    assert_eq!(r.chromosome, b"x".to_vec());
    assert_eq!(r.start, 3);
    assert_eq!(r.end, 9);
}

// Move-value decoding: the first byte is a skipped header, each 1 flag
// advances the base index from -1, and every flag adds one sample to the
// current base's bucket. Flags 1,0,1,1,0 give three bases 2, 1 and 2
// samples.
#[test]
fn move_decoding_counts() {
    let counts = decode_move_counts(&vec![0, 1, 0, 1, 1, 0], 3, false);
    assert_eq!(counts, vec![2, 1, 2]);
}

#[test]
fn move_decoding_reverse_strand() {
    assert_eq!(decode_move_counts(&vec![0, 1, 0, 0, 1, 0], 2, false), vec![3, 2]);
    assert_eq!(decode_move_counts(&vec![0, 1, 0, 0, 1, 0], 2, true), vec![2, 3]);
}

fn plain_info(base: u8, is_reverse: bool) -> BaseInfo {
    BaseInfo {
        base,
        qual: 30,
        is_reverse,
        insertion: None,
        deletion_len: None,
        is_head: false,
        is_tail: false,
        mapq: 40,
        mv_value: None,
    }
}

// Strand encoding of the called base.
#[test]
fn strand_encoding_renders() {
    assert_eq!(render_annotation(&plain_info(b'=', false), None, 5, 0), b".".to_vec());
    assert_eq!(render_annotation(&plain_info(b'=', true), None, 5, 0), b",".to_vec());
    assert_eq!(render_annotation(&plain_info(b'G', false), None, 5, 0), b"G".to_vec());
    assert_eq!(render_annotation(&plain_info(b'G', true), None, 5, 0), b"g".to_vec());
}

#[test]
fn head_tail_markers_render() {
    let mut info = plain_info(b'=', false);
    info.is_head = true;
    assert_eq!(render_annotation(&info, None, 5, 0), b"^I.".to_vec());
    info.is_head = false;
    info.is_tail = true;
    assert_eq!(render_annotation(&info, None, 5, 0), b".$".to_vec());
}

#[test]
fn mv_text_rendering() {
    let mut info = plain_info(b'=', false);
    assert_eq!(render_mv_text(&info), b"0".to_vec());
    info.mv_value = Some(vec![5, 0, 3]);
    assert_eq!(render_mv_text(&info), b"5,+0,+3".to_vec());
    info.mv_value = Some(vec![7]);
    assert_eq!(render_mv_text(&info), b"7".to_vec());
}

// Insertion round-trip: CIGAR 5M2I5M with inserted bases AC renders +2AC
// forward and +2ac reverse, attached to the last matched position before
// the insertion.
#[test]
fn insertion_round_trip_forward() {
    let rec = record(
        "r1",
        0,
        40,
        0,
        vec![CigarOp::Match(5), CigarOp::Ins(2), CigarOp::Match(5)],
        vec![EQ, EQ, EQ, EQ, EQ, A, C, EQ, EQ, EQ, EQ, EQ],
        30,
        None,
    );
    let read = CachedRead::new(&rec, false);
    assert_eq!(read.ref_start, 0);
    assert_eq!(read.ref_end, 10);
    let anchor = read.seq_data[4].as_ref().unwrap();
    assert_eq!(anchor.insertion, Some(b"AC".to_vec()));
    let ann = render_annotation(anchor, None, 4, 0);
    assert_eq!(ann, b".+2AC".to_vec());
}

#[test]
fn insertion_round_trip_reverse() {
    let rec = record(
        "r1",
        0,
        40,
        16,
        vec![CigarOp::Match(5), CigarOp::Ins(2), CigarOp::Match(5)],
        vec![EQ, EQ, EQ, EQ, EQ, A, C, EQ, EQ, EQ, EQ, EQ],
        30,
        None,
    );
    let read = CachedRead::new(&rec, false);
    let anchor = read.seq_data[4].as_ref().unwrap();
    let ann = render_annotation(anchor, None, 4, 0);
    assert_eq!(ann, b",+2ac".to_vec());
}

// Deletion rendering: CIGAR 5M3D5M over a reference whose deleted span
// reads TGA renders -3TGA.
#[test]
fn deletion_renders_reference_bases() {
    let rec = record(
        "r1",
        0,
        40,
        0,
        vec![CigarOp::Match(5), CigarOp::Del(3), CigarOp::Match(5)],
        vec![EQ; 10],
        30,
        None,
    );
    let read = CachedRead::new(&rec, false);
    assert_eq!(read.ref_end, 13);
    let anchor = read.seq_data[4].as_ref().unwrap();
    assert_eq!(anchor.deletion_len, Some(3));
    let reference = b"CCCCCTGACCCCC".to_vec();
    let ann = render_annotation(anchor, Some(&reference), 4, 0);
    assert_eq!(ann, b".-3TGA".to_vec());
}

// Head/tail markers survive an internal reference skip: the first and last
// filled offsets carry them, exactly once each.
#[test]
fn head_tail_markers_with_skip() {
    let rec = record(
        "r1",
        0,
        40,
        0,
        vec![CigarOp::Match(2), CigarOp::RefSkip(3), CigarOp::Match(2)],
        vec![EQ, EQ, EQ, EQ],
        30,
        None,
    );
    let read = CachedRead::new(&rec, false);
    assert_eq!(read.seq_data.len(), 7);
    let heads: Vec<usize> = (0..7)
        .filter(|&i| read.seq_data[i].as_ref().map_or(false, |e| e.is_head))
        .collect();
    let tails: Vec<usize> = (0..7)
        .filter(|&i| read.seq_data[i].as_ref().map_or(false, |e| e.is_tail))
        .collect();
    assert_eq!(heads, vec![0]);
    assert_eq!(tails, vec![6]);
    assert!(read.seq_data[2].is_none());
    assert!(read.seq_data[4].is_none());
}

// Re-fetching an identifier already present never alters the cache.
#[test]
fn refetch_is_idempotent() {
    let rec = record("r1", 0, 40, 0, vec![CigarOp::Match(5)], vec![A; 5], 30, None);
    let mut cache = ReadCache::new();
    cache.insert(CachedRead::new(&rec, false));
    assert!(cache.contains(b"r1"));
    let mut other = record("r1", 2, 9, 0, vec![CigarOp::Match(3)], vec![T; 3], 5, None);
    other.qname = b"r1".to_vec();
    cache.insert(CachedRead::new(&other, false));
    assert_eq!(cache.reads.len(), 1);
    assert_eq!(cache.reads[0].ref_start, 0);
    assert_eq!(cache.reads[0].ref_end, 5);
    assert_eq!(cache.reads[0].mapq, 40);
}

// After pruning at w, no cached read has ref_end <= w.
#[test]
fn prune_evicts_finished_reads() {
    let mut cache = ReadCache::new();
    for (name, pos, len) in [("a", 0i64, 5u32), ("b", 3, 5), ("c", 10, 5)] {
        let rec = record(name, pos, 40, 0, vec![CigarOp::Match(len)], vec![A; len as usize], 30, None);
        cache.insert(CachedRead::new(&rec, false));
    }
    cache.prune(5);
    let names: Vec<Vec<u8>> = cache.reads.iter().map(|r| r.read_id.clone()).collect();
    assert_eq!(names, vec![b"b".to_vec(), b"c".to_vec()]);
    for r in &cache.reads {
        assert!(r.ref_end > 5);
    }
}

// Depth counts exactly the cached reads whose event at the position passes
// the base-quality filter.
#[test]
fn depth_counts_qualifying_reads() {
    let mut cache = ReadCache::new();
    let hi = record("hi", 0, 40, 0, vec![CigarOp::Match(5)], vec![A; 5], 30, None);
    let lo = record("lo", 0, 40, 0, vec![CigarOp::Match(5)], vec![C; 5], 5, None);
    let far = record("zz", 100, 40, 0, vec![CigarOp::Match(5)], vec![G; 5], 30, None);
    cache.insert(CachedRead::new(&hi, false));
    cache.insert(CachedRead::new(&lo, false));
    cache.insert(CachedRead::new(&far, false));
    let p = column(&cache, 2, None, 0, 13);
    assert_eq!(p.depth, 1);
    assert_eq!(p.bases.len(), 1);
    let p0 = column(&cache, 2, None, 0, 0);
    assert_eq!(p0.depth, 2);
}

// Reads are scanned in identifier order whatever the insertion order.
#[test]
fn scan_order_is_sorted_by_id() {
    let mut cache = ReadCache::new();
    for name in ["zeta", "alpha", "mid"] {
        let rec = record(name, 0, 40, 0, vec![CigarOp::Match(4)], vec![A; 4], 30, None);
        cache.insert(CachedRead::new(&rec, false));
    }
    let p = column(&cache, 1, None, 0, 0);
    let names = p.read_names.unwrap();
    assert_eq!(names, vec![b"alpha".to_vec(), b"mid".to_vec(), b"zeta".to_vec()]);
}

#[test]
fn pileup_pos_new_toggles_channels() {
    let p = PileupPos::new(b"c".to_vec(), 7, b'N', false, true, false, true);
    assert_eq!(p.pos, 7);
    assert_eq!(p.ref_base, b'N');
    assert_eq!(p.depth, 0);
    assert!(p.quality_scores.is_none());
    assert!(p.map_qualities.is_some());
    assert!(p.read_names.is_none());
    assert!(p.mv_values.is_some());
}

// A single 20bp forward read fully matching a 20bp window: 20 columns of
// depth 1, `^?.` first, `.` inside, `.$` last.
#[test]
fn end_to_end_single_read() {
    let rec = record("r1", 0, 30, 0, vec![CigarOp::Match(20)], vec![EQ; 20], 30, None);
    let mut cache = ReadCache::new();
    let reference = b"ACGTACGTACGTACGTACGT".to_vec();
    let cols = process_window(
        &mut cache,
        &vec![rec],
        &b"chr1".to_vec(),
        0,
        0,
        20,
        500,
        Some(&reference),
        0,
        13,
        0,
        false,
        false,
        false,
        false,
    );
    assert_eq!(cols.len(), 20);
    for (i, p) in cols.iter().enumerate() {
        assert_eq!(p.pos, i);
        assert_eq!(p.depth, 1);
        assert_eq!(p.ref_base, reference[i]);
        let expected: Vec<u8> = if i == 0 {
            b"^?.".to_vec()
        } else if i == 19 {
            b".$".to_vec()
        } else {
            b".".to_vec()
        };
        assert_eq!(p.bases, vec![expected]);
    }
}

// The driver filters by mapping quality, flags and window overlap, and
// evicts reads behind the window start.
#[test]
fn window_filters_and_evicts() {
    let good = record("good", 2, 40, 0, vec![CigarOp::Match(4)], vec![A; 4], 30, None);
    let low_mapq = record("low", 2, 1, 0, vec![CigarOp::Match(4)], vec![A; 4], 30, None);
    let flagged = record("flag", 2, 40, 4, vec![CigarOp::Match(4)], vec![A; 4], 30, None);
    let outside = record("out", 900, 40, 0, vec![CigarOp::Match(4)], vec![A; 4], 30, None);
    let mut cache = ReadCache::new();
    let cols = process_window(
        &mut cache,
        &vec![good, low_mapq, flagged, outside],
        &b"chr1".to_vec(),
        0,
        0,
        8,
        10,
        None,
        10,
        0,
        4,
        false,
        false,
        true,
        false,
    );
    assert_eq!(cols.len(), 8);
    assert_eq!(cache.reads.len(), 1);
    assert_eq!(cache.reads[0].read_id, b"good".to_vec());
    assert_eq!(cols[3].depth, 1);
    assert_eq!(cols[3].read_names.as_ref().unwrap()[0], b"good".to_vec());
    assert_eq!(cols[7].depth, 0);
}

// Move values flow into the per-read move column, reference-oriented.
#[test]
fn end_to_end_move_values() {
    let rec = record(
        "r1",
        0,
        30,
        0,
        vec![CigarOp::Match(3)],
        vec![EQ, EQ, EQ],
        30,
        Some(vec![0, 1, 0, 1, 1, 0]),
    );
    let mut cache = ReadCache::new();
    let cols = process_window(
        &mut cache,
        &vec![rec],
        &b"chr1".to_vec(),
        0,
        0,
        3,
        10,
        None,
        0,
        0,
        0,
        false,
        false,
        false,
        true,
    );
    let texts: Vec<Vec<u8>> = cols.iter().map(|p| p.mv_values.as_ref().unwrap()[0].clone()).collect();
    assert_eq!(texts, vec![b"2".to_vec(), b"1".to_vec(), b"2".to_vec()]);
}

// An empty-sequence record occupies the cache for its span but contributes
// no pileup data.
#[test]
fn empty_sequence_record_tracks_span_only() {
    let rec = record("r1", 0, 30, 0, vec![CigarOp::Match(5)], Vec::new(), 30, None);
    let read = CachedRead::new(&rec, false);
    assert_eq!(read.ref_start, 0);
    assert_eq!(read.ref_end, 5);
    assert!(read.seq_data.is_empty());
    let mut cache = ReadCache::new();
    cache.insert(read);
    let p = column(&cache, 2, None, 0, 0);
    assert_eq!(p.depth, 0);
    assert!(cache.contains(b"r1"));
}

#[test]
fn active_ids_are_sorted() {
    let mut cache = ReadCache::new();
    for name in ["r9", "r1", "r5"] {
        let rec = record(name, 0, 40, 0, vec![CigarOp::Match(2)], vec![A, A], 30, None);
        cache.insert(CachedRead::new(&rec, false));
    }
    let ids = cache.active_ids_sorted();
    assert_eq!(ids, vec![b"r1".to_vec(), b"r5".to_vec(), b"r9".to_vec()]);
}
