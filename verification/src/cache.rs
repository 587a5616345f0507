//! The windowed cache of decoded reads, keyed by read identifier.
//!
//! The cache holds each read at most once, keeps its entries sorted by
//! identifier so that every column scan walks the reads in one deterministic
//! order, re-insertion of a present identifier changes nothing, and pruning
//! drops exactly the reads that no later window can reach.

use vstd::prelude::*;
use crate::bytes::{lex_lt, lemma_lex_transitive, lemma_lex_trichotomy, lex_cmp};
use crate::read::{CachedRead, ReadModel, read_wf};

verus! {

/// View of a whole cache: the decoded reads in identifier order.
pub open spec fn cache_view(reads: Seq<CachedRead>) -> Seq<ReadModel> {
    reads.map_values(|r: CachedRead| r@)
}

/// Cache invariant: every entry is a well-formed read and the entries are
/// strictly sorted by identifier, so identifiers are unique.
pub open spec fn cache_wf(s: Seq<ReadModel>) -> bool {
    &&& forall|i: int| 0 <= i < s.len() ==> read_wf(#[trigger] s[i])
    &&& forall|i: int, j: int|
        0 <= i < j < s.len() ==> #[trigger] lex_lt(s[i].read_id, s[j].read_id)
}

/// Some entry carries this identifier.
pub open spec fn has_id(s: Seq<ReadModel>, id: Seq<u8>) -> bool {
    exists|i: int| 0 <= i < s.len() && (#[trigger] s[i].read_id) == id
}

/// Where a read sorts into the cache: entries with smaller identifiers stay
/// in front, an entry with the same identifier absorbs the insert, the rest
/// moves back.
pub open spec fn insert_read(s: Seq<ReadModel>, r: ReadModel) -> Seq<ReadModel>
    decreases s.len(),
{
    if s.len() == 0 {
        seq![r]
    } else if lex_lt(s[0].read_id, r.read_id) {
        seq![s[0]] + insert_read(s.skip(1), r)
    } else if s[0].read_id == r.read_id {
        s
    } else {
        seq![r] + s
    }
}

/// A windowed store of decoded reads, sorted by read identifier.
pub struct ReadCache {
    pub reads: Vec<CachedRead>,
}

impl View for ReadCache {
    type V = Seq<ReadModel>;

    open spec fn view(&self) -> Seq<ReadModel> {
        cache_view(self.reads@)
    }
}

/// `insert_read` sorted below position `pos` behaves as a plain splice or,
/// on an equal identifier, as a no-op.
proof fn lemma_insert_read_at(s: Seq<ReadModel>, r: ReadModel, pos: int)
    requires
        0 <= pos <= s.len(),
        forall|j: int| 0 <= j < pos ==> lex_lt(#[trigger] s[j].read_id, r.read_id),
        pos < s.len() ==> !lex_lt(s[pos].read_id, r.read_id),
    ensures
        pos < s.len() && s[pos].read_id == r.read_id ==> insert_read(s, r) == s,
        !(pos < s.len() && s[pos].read_id == r.read_id) ==> insert_read(s, r) =~= s.take(pos)
            + seq![r] + s.skip(pos),
    decreases pos,
{
    if s.len() == 0 {
        assert(insert_read(s, r) =~= s.take(pos) + seq![r] + s.skip(pos));
    } else if pos == 0 {
        if s[0].read_id == r.read_id {
        } else {
            assert(insert_read(s, r) =~= s.take(0) + seq![r] + s.skip(0));
        }
    } else {
        assert(lex_lt(s[0].read_id, r.read_id));
        let t = s.skip(1);
        assert(forall|j: int| 0 <= j < pos - 1 ==> #[trigger] t[j] == s[j + 1]);
        lemma_insert_read_at(t, r, pos - 1);
        if pos < s.len() && s[pos].read_id == r.read_id {
            assert(t[pos - 1] == s[pos]);
            assert(insert_read(s, r) =~= seq![s[0]] + t);
            assert(seq![s[0]] + t =~= s);
        } else {
            assert(insert_read(s, r) =~= seq![s[0]] + (t.take(pos - 1) + seq![r] + t.skip(pos
                - 1)));
            assert(seq![s[0]] + (t.take(pos - 1) + seq![r] + t.skip(pos - 1)) =~= s.take(pos)
                + seq![r] + s.skip(pos));
        }
    }
}

/// Re-inserting an identifier the cache already holds changes nothing: the
/// stored read keeps its decoded contents.
pub proof fn lemma_insert_idempotent(s: Seq<ReadModel>, r: ReadModel)
    requires
        cache_wf(s),
        has_id(s, r.read_id),
    ensures
        insert_read(s, r) == s,
    decreases s.len(),
{
    let w = choose|i: int| 0 <= i < s.len() && (#[trigger] s[i].read_id) == r.read_id;
    if s.len() > 0 {
        lemma_lex_trichotomy(s[0].read_id, r.read_id);
        if s[0].read_id == r.read_id {
        } else {
            assert(w > 0);
            assert(lex_lt(s[0].read_id, s[w].read_id));
            let t = s.skip(1);
            assert(t[w - 1] == s[w]);
            assert(has_id(t, r.read_id));
            assert(cache_wf(t)) by {
                assert(forall|j: int| 0 <= j < t.len() ==> #[trigger] t[j] == s[j + 1]);
            }
            lemma_insert_idempotent(t, r);
            assert(insert_read(s, r) =~= seq![s[0]] + t);
            assert(seq![s[0]] + t =~= s);
        }
    }
}

/// Inserting a fresh, well-formed read keeps the cache well-formed and
/// leaves it holding exactly the old reads plus the new one, in order.
pub proof fn lemma_insert_wf(s: Seq<ReadModel>, r: ReadModel)
    requires
        cache_wf(s),
        read_wf(r),
    ensures
        cache_wf(insert_read(s, r)),
        has_id(insert_read(s, r), r.read_id),
    decreases s.len(),
{
    let out = insert_read(s, r);
    if s.len() == 0 {
        assert(out[0] == r);
    } else {
        lemma_lex_trichotomy(s[0].read_id, r.read_id);
        if lex_lt(s[0].read_id, r.read_id) {
            let t = s.skip(1);
            assert(cache_wf(t)) by {
                assert(forall|j: int| 0 <= j < t.len() ==> #[trigger] t[j] == s[j + 1]);
            }
            lemma_insert_wf(t, r);
            let ti = insert_read(t, r);
            assert(out =~= seq![s[0]] + ti);
            // s[0] sorts before everything in the inserted tail.
            assert forall|j: int| 0 <= j < ti.len() implies lex_lt(
                s[0].read_id,
                #[trigger] ti[j].read_id,
            ) by {
                lemma_insert_read_members(t, r, j);
            }
            assert(cache_wf(out)) by {
                assert(forall|j: int| 0 <= j < ti.len() ==> #[trigger] out[j + 1] == ti[j]);
                assert(out[0] == s[0]);
            }
            assert(has_id(ti, r.read_id));
            let w = choose|i: int|
                0 <= i < ti.len() && (#[trigger] ti[i].read_id) == r.read_id;
            assert(out[w + 1].read_id == r.read_id);
        } else if s[0].read_id == r.read_id {
        } else {
            assert(out =~= seq![r] + s);
            assert(lex_lt(r.read_id, s[0].read_id));
            assert(cache_wf(out)) by {
                assert(forall|j: int| 0 <= j < s.len() ==> #[trigger] out[j + 1] == s[j]);
                assert(out[0] == r);
                assert forall|a: int, b: int| 0 <= a < b < out.len() implies #[trigger] lex_lt(
                    out[a].read_id,
                    out[b].read_id,
                ) by {
                    if a == 0 && b > 1 {
                        lemma_lex_transitive(r.read_id, s[0].read_id, s[b - 1].read_id);
                    }
                }
            }
            assert(out[0].read_id == r.read_id);
        }
    }
}

/// Every member of `insert_read(s, r)` is `r` or a member of `s`.
proof fn lemma_insert_read_members(s: Seq<ReadModel>, r: ReadModel, j: int)
    requires
        0 <= j < insert_read(s, r).len(),
    ensures
        insert_read(s, r)[j] == r || exists|i: int|
            0 <= i < s.len() && insert_read(s, r)[j] == (#[trigger] s[i]),
    decreases s.len(),
{
    if s.len() == 0 {
    } else if lex_lt(s[0].read_id, r.read_id) {
        if j > 0 {
            lemma_insert_read_members(s.skip(1), r, j - 1);
            if insert_read(s.skip(1), r)[j - 1] != r {
                let i = choose|i: int|
                    0 <= i < s.skip(1).len() && insert_read(s.skip(1), r)[j - 1] == (
                    #[trigger] s.skip(1)[i]);
                assert(s.skip(1)[i] == s[i + 1]);
            }
        }
    }
}

impl ReadCache {
    /// An empty cache.
    pub fn new() -> (r: ReadCache)
        ensures
            r@ == Seq::<ReadModel>::empty(),
            cache_wf(r@),
    {
        let r = ReadCache { reads: Vec::new() };
        proof {
            assert(r@ =~= Seq::<ReadModel>::empty());
        }
        r
    }

    /// Whether a read with this identifier is cached.
    #[verifier::loop_isolation(false)]
    pub fn contains(&self, id: &[u8]) -> (r: bool)
        ensures
            r == has_id(self@, id@),
    {
        let mut i: usize = 0;
        while i < self.reads.len()
            invariant
                0 <= i <= self.reads@.len(),
                forall|j: int| 0 <= j < i ==> (#[trigger] self@[j].read_id) != id@,
            decreases self.reads@.len() - i,
        {
            if lex_cmp(self.reads[i].read_id.as_slice(), id) == 0 {
                assert(self@[i as int].read_id == id@);
                return true;
            }
            i = i + 1;
        }
        false
    }

    /// Stores a decoded read under its identifier; a no-op when the
    /// identifier is already present, so a re-fetch never alters the cached
    /// contents.
    #[verifier::loop_isolation(false)]
    pub fn insert(&mut self, read: CachedRead)
        requires
            cache_wf(old(self)@),
            read_wf(read@),
        ensures
            final(self)@ == insert_read(old(self)@, read@),
            cache_wf(final(self)@),
    {
        let mut pos: usize = 0;
        while pos < self.reads.len() && lex_cmp(
            self.reads[pos].read_id.as_slice(),
            read.read_id.as_slice(),
        ) < 0
            invariant
                0 <= pos <= self.reads@.len(),
                forall|j: int|
                    0 <= j < pos ==> lex_lt((#[trigger] self@[j].read_id), read@.read_id),
            decreases self.reads@.len() - pos,
        {
            pos = pos + 1;
        }
        proof {
            lemma_insert_read_at(self@, read@, pos as int);
            lemma_insert_wf(self@, read@);
        }
        if pos < self.reads.len() && lex_cmp(
            self.reads[pos].read_id.as_slice(),
            read.read_id.as_slice(),
        ) == 0 {
            return ;
        }
        self.reads.insert(pos, read);
        proof {
            assert(cache_view(self.reads@) =~= cache_view(old(self).reads@).take(pos as int)
                + seq![read@] + cache_view(old(self).reads@).skip(pos as int));
        }
    }

    /// The identifiers of all cached reads, in their stored order, which
    /// the cache invariant keeps lexicographic: the deterministic order
    /// every column scan walks.
    #[verifier::loop_isolation(false)]
    pub fn active_ids_sorted(&self) -> (r: Vec<Vec<u8>>)
        ensures
            r@.len() == self@.len(),
            forall|i: int| 0 <= i < r@.len() ==> (#[trigger] r@[i])@ == self@[i].read_id,
    {
        let mut r: Vec<Vec<u8>> = Vec::new();
        let mut i: usize = 0;
        while i < self.reads.len()
            invariant
                0 <= i <= self.reads@.len(),
                r@.len() == i,
                forall|j: int| 0 <= j < i ==> (#[trigger] r@[j])@ == self@[j].read_id,
            decreases self.reads@.len() - i,
        {
            r.push(crate::bytes::clone_bytes(&self.reads[i].read_id));
            i = i + 1;
        }
        r
    }

    /// Drops every read whose span ends at or before `min_ref_pos`: those
    /// reads can never be reached again by a strictly increasing window.
    #[verifier::loop_isolation(false)]
    pub fn prune(&mut self, min_ref_pos: i64)
        requires
            cache_wf(old(self)@),
        ensures
            final(self)@ == old(self)@.filter(|r: ReadModel| r.ref_end > min_ref_pos),
            cache_wf(final(self)@),
    {
        let ghost pred = |r: ReadModel| r.ref_end > min_ref_pos as int;
        let mut kept: Vec<CachedRead> = Vec::new();
        let ghost origins: Seq<int> = Seq::empty();
        let mut origins_t = Ghost(origins);
        let mut i: usize = 0;
        proof {
            assert(self@.take(0).filter(pred) =~= Seq::<ReadModel>::empty());
            assert(cache_view(kept@) =~= Seq::<ReadModel>::empty());
        }
        while i < self.reads.len()
            invariant
                0 <= i <= self.reads@.len(),
                cache_view(kept@) == self@.take(i as int).filter(pred),
                origins_t@.len() == kept@.len(),
                forall|j: int|
                    0 <= j < kept@.len() ==> 0 <= #[trigger] origins_t@[j] < i,
                forall|j: int, k: int|
                    #![trigger origins_t@[j], origins_t@[k]]
                    0 <= j < k < kept@.len() ==> origins_t@[j] < origins_t@[k],
                forall|j: int|
                    0 <= j < kept@.len() ==> (#[trigger] cache_view(kept@)[j]) == self@[origins_t@[j]],
            decreases self.reads@.len() - i,
        {
            proof {
                assert(self@.take(i + 1).drop_last() =~= self@.take(i as int));
                assert(self@.take(i + 1).last() == self@[i as int]);
                reveal_with_fuel(Seq::filter, 2);
            }
            if self.reads[i].ref_end > min_ref_pos {
                kept.push(self.reads[i].duplicate());
                proof {
                    origins_t@ = origins_t@.push(i as int);
                    assert(cache_view(kept@) =~= self@.take(i + 1).filter(pred));
                }
            }
            i = i + 1;
        }
        proof {
            assert(self@.take(self.reads@.len() as int) =~= self@);
        }
        self.reads = kept;
        proof {
            assert(cache_wf(self@)) by {
                assert forall|a: int, b: int| 0 <= a < b < self@.len() implies #[trigger] lex_lt(
                    self@[a].read_id,
                    self@[b].read_id,
                ) by {
                    assert(self@[a] == old(self)@[origins_t@[a]]);
                    assert(self@[b] == old(self)@[origins_t@[b]]);
                }
            }
        }
    }
}

} // verus!

verus! {

/// Offering a read twice leaves the cache exactly as one offer does: the
/// second insert of an identifier that is now present alters nothing, so a
/// re-fetch across overlapping windows never changes a stored read.
pub proof fn lemma_refetch_noop(s: Seq<ReadModel>, r: ReadModel, r2: ReadModel)
    requires
        cache_wf(s),
        read_wf(r),
        r2.read_id == r.read_id,
    ensures
        insert_read(insert_read(s, r), r2) == insert_read(s, r),
{
    lemma_insert_wf(s, r);
    lemma_insert_idempotent(insert_read(s, r), r2);
}

} // verus!
