//! Genomic intervals and their textual forms: a `chrom:start-end` region
//! string (1-based, inclusive) and one line of a BED-style interval list
//! (0-based, half-open).

use vstd::prelude::*;
use crate::bytes::{all_digits, digits_val, lex_lt, parse_usize, parses_as_usize, subvec};

verus! {

/// A genomic interval, 0-based and half-open.
#[derive(Debug, Clone, PartialEq, Eq)]
pub struct Region {
    pub chromosome: Vec<u8>,
    pub start: usize,
    pub end: usize,
}

impl Region {
    /// Builds a region from already-converted 0-based half-open coordinates.
    pub fn new(chromosome: Vec<u8>, start: usize, end: usize) -> (r: Region)
        ensures
            r.chromosome == chromosome,
            r.start == start,
            r.end == end,
    {
        Region { chromosome, start, end }
    }
}

/// Why a region string or a BED coordinate was rejected.
#[derive(Debug, Clone, Copy, PartialEq, Eq)]
pub enum RegionError {
    /// Not exactly one `:` separating chromosome and range.
    InvalidFormat,
    /// Not exactly one `-` separating the two coordinates.
    InvalidRange,
    /// The start coordinate is not a plain decimal number that fits.
    InvalidStart,
    /// The end coordinate is not a plain decimal number that fits.
    InvalidEnd,
    /// A 1-based start coordinate of zero.
    StartZero,
}

/// Number of occurrences of `c` in `s`.
pub open spec fn count_byte(s: Seq<u8>, c: u8) -> nat
    decreases s.len(),
{
    if s.len() == 0 {
        0
    } else {
        count_byte(s.drop_last(), c) + if s.last() == c {
            1nat
        } else {
            0nat
        }
    }
}

/// Index of the first occurrence of `c` in `s`, or -1 if there is none.
pub open spec fn find_byte(s: Seq<u8>, c: u8) -> int
    decreases s.len(),
{
    if s.len() == 0 {
        -1
    } else {
        let r = find_byte(s.drop_last(), c);
        if r >= 0 {
            r
        } else if s.last() == c {
            s.len() - 1
        } else {
            -1
        }
    }
}

/// `s` with every comma removed.
pub open spec fn without_commas(s: Seq<u8>) -> Seq<u8> {
    s.filter(|b: u8| b != 44)
}

proof fn lemma_count_find(s: Seq<u8>, c: u8)
    ensures
        count_byte(s, c) == 0 <==> find_byte(s, c) == -1,
        find_byte(s, c) >= 0 ==> find_byte(s, c) < s.len(),
    decreases s.len(),
{
    if s.len() > 0 {
        lemma_count_find(s.drop_last(), c);
    }
}

/// Counts `c` in `v` and reports the index of its first occurrence.
fn scan_byte(v: &[u8], c: u8) -> (r: (usize, usize))
    ensures
        r.0 == count_byte(v@, c),
        count_byte(v@, c) > 0 ==> r.1 == find_byte(v@, c),
        count_byte(v@, c) > 0 ==> 0 <= r.1 < v@.len() && v@[r.1 as int] == c,
{
    let mut count: usize = 0;
    let mut first: usize = 0;
    let mut i: usize = 0;
    while i < v.len()
        invariant
            0 <= i <= v@.len(),
            count == count_byte(v@.take(i as int), c),
            count_byte(v@.take(i as int), c) > 0 ==> first == find_byte(v@.take(i as int), c)
                && 0 <= first < i && v@[first as int] == c,
            count <= i,
        decreases v@.len() - i,
    {
        proof {
            assert(v@.take(i + 1).drop_last() =~= v@.take(i as int));
            assert(v@.take(i + 1).last() == v@[i as int]);
            lemma_count_find(v@.take(i as int), c);
        }
        if v[i] == c {
            if count == 0 {
                first = i;
            }
            count = count + 1;
        }
        i = i + 1;
    }
    proof {
        assert(v@.take(v@.len() as int) =~= v@);
    }
    (count, first)
}

/// The comma-stripped region string has exactly one colon; `chrom` is what
/// stands before it, `range` what stands after it.
pub open spec fn region_split(s: Seq<u8>) -> (Seq<u8>, Seq<u8>) {
    let t = without_commas(s);
    let ci = find_byte(t, 58);
    (t.take(ci), t.skip(ci + 1))
}

/// The range part split at its only dash into the two coordinate strings.
pub open spec fn range_split(range: Seq<u8>) -> (Seq<u8>, Seq<u8>) {
    let di = find_byte(range, 45);
    (range.take(di), range.skip(di + 1))
}

/// Outcome of parsing a 1-based, inclusive `chrom:start-end` region string,
/// stated over the comma-stripped input: on success the chromosome name and
/// the converted 0-based half-open coordinates.
pub open spec fn region_of_str(s: Seq<u8>) -> Result<(Seq<u8>, int, int), RegionError> {
    let t = without_commas(s);
    if count_byte(t, 58) != 1 {
        Err(RegionError::InvalidFormat)
    } else {
        let (chrom, range) = region_split(s);
        if count_byte(range, 45) != 1 {
            Err(RegionError::InvalidRange)
        } else {
            let (sb, eb) = range_split(range);
            if !parses_as_usize(sb) {
                Err(RegionError::InvalidStart)
            } else if !parses_as_usize(eb) {
                Err(RegionError::InvalidEnd)
            } else if digits_val(sb) == 0 {
                Err(RegionError::StartZero)
            } else {
                Ok((chrom, digits_val(sb) - 1, digits_val(eb) as int))
            }
        }
    }
}

/// Success and the parsed region relate to the input as `region_of_str` says.
pub open spec fn region_parse_matches(s: Seq<u8>, r: Result<Region, RegionError>) -> bool {
    match (r, region_of_str(s)) {
        (Ok(got), Ok(want)) => got.chromosome@ == want.0 && got.start == want.1 && got.end
            == want.2,
        (Err(e1), Err(e2)) => e1 == e2,
        _ => false,
    }
}

impl Region {
    /// Parses a `chrom:start-end` region string (1-based, both ends
    /// inclusive; commas in the numbers are allowed) into a 0-based
    /// half-open region.
    pub fn from_str(s: &[u8]) -> (r: Result<Region, RegionError>)
        ensures
            region_parse_matches(s@, r),
    {
        // Strip commas.
        let mut t: Vec<u8> = Vec::new();
        let mut i: usize = 0;
        while i < s.len()
            invariant
                0 <= i <= s@.len(),
                t@ == s@.take(i as int).filter(|b: u8| b != 44),
            decreases s@.len() - i,
        {
            proof {
                assert(s@.take(i + 1).drop_last() =~= s@.take(i as int));
                reveal_with_fuel(Seq::filter, 2);
            }
            if s[i] != 44 {
                t.push(s[i]);
            }
            i = i + 1;
        }
        proof {
            assert(s@.take(s@.len() as int) =~= s@);
        }

        let (ncolon, ci) = scan_byte(t.as_slice(), 58);
        if ncolon != 1 {
            return Err(RegionError::InvalidFormat);
        }
        let chrom = subvec(t.as_slice(), 0, ci);
        let range = subvec(t.as_slice(), ci + 1, t.len());

        let (ndash, di) = scan_byte(range.as_slice(), 45);
        if ndash != 1 {
            return Err(RegionError::InvalidRange);
        }
        let start_b = subvec(range.as_slice(), 0, di);
        let end_b = subvec(range.as_slice(), di + 1, range.len());

        let start_1 = match parse_usize(start_b.as_slice()) {
            Some(v) => v,
            None => {
                return Err(RegionError::InvalidStart);
            },
        };
        let end = match parse_usize(end_b.as_slice()) {
            Some(v) => v,
            None => {
                return Err(RegionError::InvalidEnd);
            },
        };
        if start_1 == 0 {
            return Err(RegionError::StartZero);
        }
        Ok(Region { chromosome: chrom, start: start_1 - 1, end })
    }
}

/// ASCII whitespace in the sense of a field separator: space and the
/// horizontal-tab to carriage-return block.
pub open spec fn is_ws(b: u8) -> bool {
    b == 32 || (9 <= b <= 13)
}

/// Index of the first non-whitespace byte at or after `i`, or `s.len()`.
pub open spec fn next_non_ws(s: Seq<u8>, i: int) -> int
    decreases s.len() - i,
{
    if i < 0 || i >= s.len() {
        s.len() as int
    } else if is_ws(s[i]) {
        next_non_ws(s, i + 1)
    } else {
        i
    }
}

/// Index of the first whitespace byte at or after `i`, or `s.len()`.
pub open spec fn next_ws(s: Seq<u8>, i: int) -> int
    decreases s.len() - i,
{
    if i < 0 || i >= s.len() {
        s.len() as int
    } else if !is_ws(s[i]) {
        next_ws(s, i + 1)
    } else {
        i
    }
}

/// Bounds of the `k+1`-th whitespace-separated field when scanning starts at
/// `i`: fields are maximal runs of non-whitespace bytes.
pub open spec fn field_start(s: Seq<u8>, i: int, k: nat) -> int
    decreases k,
{
    if k == 0 {
        next_non_ws(s, i)
    } else {
        field_start(s, next_ws(s, next_non_ws(s, i)), (k - 1) as nat)
    }
}

/// Outcome of reading one line of a BED-style interval list.
#[derive(Debug, Clone, PartialEq, Eq)]
pub enum BedLine {
    /// Nothing to parse: an all-whitespace line or a `#` comment.
    Blank,
    /// Fewer than three fields; the caller skips the line with a warning.
    Malformed,
    /// The second field is not a plain decimal number that fits.
    InvalidStart,
    /// The third field is not a plain decimal number that fits.
    InvalidEnd,
    /// A well-formed line: chromosome, 0-based start, half-open end.
    Parsed(Region),
}

/// What `parse_bed_line` must return for the line `s`: blank and comment
/// lines yield nothing, fewer than three fields is malformed, the second and
/// third fields must be decimal coordinates, already 0-based and half-open.
pub open spec fn bed_line_matches(s: Seq<u8>, r: BedLine) -> bool {
    let f1s = field_start(s, 0, 0);
    let f1e = next_ws(s, f1s);
    let f2s = field_start(s, 0, 1);
    let f2e = next_ws(s, f2s);
    let f3s = field_start(s, 0, 2);
    let f3e = next_ws(s, f3s);
    if f1s == s.len() || (s.len() > 0 && s[0] == 35) {
        r == BedLine::Blank
    } else if f2s == s.len() || f3s == s.len() {
        r == BedLine::Malformed
    } else if !parses_as_usize(s.subrange(f2s, f2e)) {
        r == BedLine::InvalidStart
    } else if !parses_as_usize(s.subrange(f3s, f3e)) {
        r == BedLine::InvalidEnd
    } else {
        match r {
            BedLine::Parsed(region) => region.chromosome@ == s.subrange(f1s, f1e) && region.start
                == digits_val(s.subrange(f2s, f2e)) && region.end == digits_val(
                s.subrange(f3s, f3e),
            ),
            _ => false,
        }
    }
}

fn first_non_ws(v: &[u8], from: usize) -> (r: usize)
    requires
        from <= v@.len(),
    ensures
        r == next_non_ws(v@, from as int),
        from <= r <= v@.len(),
        r < v@.len() ==> !is_ws(v@[r as int]),
{
    let mut i: usize = from;
    while i < v.len() && (v[i] == 32 || (9 <= v[i] && v[i] <= 13))
        invariant
            from <= i <= v@.len(),
            next_non_ws(v@, from as int) == next_non_ws(v@, i as int),
        decreases v@.len() - i,
    {
        i = i + 1;
    }
    i
}

fn first_ws(v: &[u8], from: usize) -> (r: usize)
    requires
        from <= v@.len(),
    ensures
        r == next_ws(v@, from as int),
        from <= r <= v@.len(),
    {
    let mut i: usize = from;
    while i < v.len() && !(v[i] == 32 || (9 <= v[i] && v[i] <= 13))
        invariant
            from <= i <= v@.len(),
            next_ws(v@, from as int) == next_ws(v@, i as int),
        decreases v@.len() - i,
    {
        i = i + 1;
    }
    i
}

/// Reads one line of a BED-style interval list: `chromosome  start  end`
/// with 0-based half-open coordinates, any further fields ignored.
pub fn parse_bed_line(s: &[u8]) -> (r: BedLine)
    ensures
        bed_line_matches(s@, r),
{
    let f1s = first_non_ws(s, 0);
    if f1s == s.len() || s[0] == 35 {
        return BedLine::Blank;
    }
    let f1e = first_ws(s, f1s);
    let f2s = first_non_ws(s, f1e);
    proof {
        assert(field_start(s@, 0, 1) == field_start(s@, next_ws(s@, next_non_ws(s@, 0)), 0));
        assert(field_start(s@, 0, 2) == field_start(s@, next_ws(s@, next_non_ws(s@, 0)), 1));
        assert(field_start(s@, next_ws(s@, next_non_ws(s@, 0)), 1) == field_start(
            s@,
            next_ws(s@, next_non_ws(s@, next_ws(s@, next_non_ws(s@, 0)))),
            0,
        ));
    }
    if f2s == s.len() {
        return BedLine::Malformed;
    }
    let f2e = first_ws(s, f2s);
    let f3s = first_non_ws(s, f2e);
    if f3s == s.len() {
        return BedLine::Malformed;
    }
    let f3e = first_ws(s, f3s);

    let start_b = subvec(s, f2s, f2e);
    let end_b = subvec(s, f3s, f3e);
    let start = match parse_usize(start_b.as_slice()) {
        Some(v) => v,
        None => {
            return BedLine::InvalidStart;
        },
    };
    let end = match parse_usize(end_b.as_slice()) {
        Some(v) => v,
        None => {
            return BedLine::InvalidEnd;
        },
    };
    let chrom = subvec(s, f1s, f1e);
    BedLine::Parsed(Region { chromosome: chrom, start, end })
}

} // verus!
