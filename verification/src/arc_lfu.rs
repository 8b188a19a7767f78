//! Eviction policies over plain key observations: a segmented LRU (an ARC
//! approximation) with probationary and protected segments, and a
//! frequency-bucketed LFU with least-recently-used tie-break per bucket.

use vstd::prelude::*;

verus! {

/// The keys of `v`, in order, as character sequences.
pub open spec fn keys_of(v: Seq<String>) -> Seq<Seq<char>> {
    Seq::new(v.len(), |i: int| v[i]@)
}

/// True iff `s` holds `k`.
pub open spec fn seq_has(s: Seq<Seq<char>>, k: Seq<char>) -> bool {
    exists|i: int| 0 <= i < s.len() && s[i] == k
}

/// The position of `k` in `s` (unique when entries are distinct).
pub open spec fn seq_pos(s: Seq<Seq<char>>, k: Seq<char>) -> int {
    choose|i: int| 0 <= i < s.len() && s[i] == k
}

/// Pairwise distinct entries.
pub open spec fn seq_distinct(s: Seq<Seq<char>>) -> bool {
    forall|i: int, j: int| 0 <= i < j < s.len() ==> s[i] != s[j]
}

/// Insert `k` at the front and drop the tail when the segment would exceed
/// its capacity.
pub open spec fn seg_admit(s: Seq<Seq<char>>, k: Seq<char>, cap: nat) -> Seq<Seq<char>> {
    let grown = seq![k] + s;
    if grown.len() > cap {
        grown.drop_last()
    } else {
        grown
    }
}

/// Search a key list for `key`.
fn find_key_in(v: &Vec<String>, key: &String) -> (r: Option<usize>)
    ensures
        match r {
            Some(j) => j < v@.len() && v@[j as int]@ == key@,
            None => forall|j: int| 0 <= j < v@.len() ==> (#[trigger] v@[j])@ != key@,
        },
{
    let n = v.len();
    let mut j: usize = 0;
    while j < n
        invariant
            n == v@.len(),
            j <= n,
            forall|j2: int| 0 <= j2 < j ==> (#[trigger] v@[j2])@ != key@,
        decreases n - j,
    {
        if v[j] == *key {
            return Some(j);
        }
        j += 1;
    }
    None
}

/// Segmented LRU: a probationary segment for newly seen keys and a
/// protected segment for keys confirmed by a second hit, each ordered most
/// recently used first. On promotion overflow the protected tail is
/// dropped outright rather than demoted back to probationary.
pub struct SlruPolicy {
    probationary: Vec<String>,
    protected: Vec<String>,
    cap_probationary: usize,
    cap_protected: usize,
}

impl SlruPolicy {
    /// The probationary segment, most recently used first.
    pub closed spec fn prob(&self) -> Seq<Seq<char>> {
        keys_of(self.probationary@)
    }

    /// The protected segment, most recently used first.
    pub closed spec fn prot(&self) -> Seq<Seq<char>> {
        keys_of(self.protected@)
    }

    pub closed spec fn prob_cap(&self) -> nat {
        self.cap_probationary as nat
    }

    pub closed spec fn prot_cap(&self) -> nat {
        self.cap_protected as nat
    }

    /// Each segment lists distinct keys within its capacity, and no key is
    /// in both segments.
    pub closed spec fn wf(&self) -> bool {
        &&& seq_distinct(self.prob())
        &&& seq_distinct(self.prot())
        &&& forall|i: int, j: int| 0 <= i < self.prob().len() && 0 <= j < self.prot().len()
            ==> self.prob()[i] != self.prot()[j]
        &&& self.prob().len() <= self.prob_cap()
        &&& self.prot().len() <= self.prot_cap()
    }

    /// The protected segment gets about eight tenths of the capacity, the
    /// probationary segment the rest.
    pub fn new(capacity: usize) -> (r: Self)
        ensures
            r.wf(),
            r.prob() == Seq::<Seq<char>>::empty(),
            r.prot() == Seq::<Seq<char>>::empty(),
            r.prot_cap() == (capacity * 8) as nat / 10,
            r.prob_cap() + r.prot_cap() == capacity,
    {
        let big: u128 = (capacity as u128) * 8;
        let cap_protected_wide: u128 = big / 10;
        proof {
            assert(cap_protected_wide * 10 <= big) by (nonlinear_arith)
                requires cap_protected_wide == big / 10;
            assert(cap_protected_wide <= capacity as u128);
        }
        let cap_protected: usize = cap_protected_wide as usize;
        let cap_probationary = capacity - cap_protected;
        let r = SlruPolicy {
            probationary: Vec::new(),
            protected: Vec::new(),
            cap_probationary,
            cap_protected,
        };
        proof {
            assert(r.prob() =~= Seq::<Seq<char>>::empty());
            assert(r.prot() =~= Seq::<Seq<char>>::empty());
        }
        r
    }

    /// Record a hit on `key`. A protected key is refreshed in place; a
    /// probationary key is promoted to the front of the protected segment,
    /// dropping that segment's tail if it overflows; an unseen key enters
    /// the front of the probationary segment under the same rule.
    pub fn record_hit(&mut self, key: &str)
        requires
            old(self).wf(),
        ensures
            final(self).wf(),
            final(self).prob_cap() == old(self).prob_cap(),
            final(self).prot_cap() == old(self).prot_cap(),
            ({
                let pb = old(self).prob();
                let pt = old(self).prot();
                if seq_has(pt, key@) {
                    &&& final(self).prot()
                        == seq![key@] + pt.remove(seq_pos(pt, key@))
                    &&& final(self).prob() == pb
                } else if seq_has(pb, key@) {
                    &&& final(self).prob() == pb.remove(seq_pos(pb, key@))
                    &&& final(self).prot() == seg_admit(pt, key@, old(self).prot_cap())
                } else {
                    &&& final(self).prob() == seg_admit(pb, key@, old(self).prob_cap())
                    &&& final(self).prot() == pt
                }
            }),
    {
        let ghost pb = self.prob();
        let ghost pt = self.prot();
        let k = key.to_owned();
        if let Some(j) = find_key_in(&self.protected, &k) {
            proof {
                assert(pt[j as int] == key@);
                assert(seq_has(pt, key@));
                let j0 = seq_pos(pt, key@);
                if j0 < j as int {
                    assert(pt[j0] != pt[j as int]);
                } else if j0 > j as int {
                    assert(pt[j as int] != pt[j0]);
                }
            }
            self.protected.remove(j);
            self.protected.insert(0, k);
            proof {
                assert(self.prot() =~= seq![key@] + pt.remove(j as int));
                assert(self.prob() =~= pb);
                Self::lemma_front_wf(pt, j as int, key@);
            }
            return;
        }
        if let Some(j) = find_key_in(&self.probationary, &k) {
            proof {
                assert(pb[j as int] == key@);
                assert(seq_has(pb, key@));
                let j0 = seq_pos(pb, key@);
                if j0 < j as int {
                    assert(pb[j0] != pb[j as int]);
                } else if j0 > j as int {
                    assert(pb[j as int] != pb[j0]);
                }
            }
            // promote: out of probationary, to the front of protected
            self.probationary.remove(j);
            self.protected.insert(0, k);
            proof {
                assert(self.prob() =~= pb.remove(j as int));
                assert(self.prot() =~= seq![key@] + pt);
            }
            if self.protected.len() > self.cap_protected {
                self.protected.pop();
                proof {
                    assert(self.prot() =~= (seq![key@] + pt).drop_last());
                }
            }
            proof {
                let npb = pb.remove(j as int);
                assert forall|i1: int, i2: int| 0 <= i1 < i2 < npb.len()
                    implies npb[i1] != npb[i2] by {
                    let o1 = if i1 < j as int { i1 } else { i1 + 1 };
                    let o2 = if i2 < j as int { i2 } else { i2 + 1 };
                    assert(npb[i1] == pb[o1] && npb[i2] == pb[o2]);
                }
                let npt = self.prot();
                assert forall|i1: int, i2: int| 0 <= i1 < i2 < npt.len()
                    implies npt[i1] != npt[i2] by {
                    assert(npt[i2] == pt[i2 - 1]);
                    if i1 > 0 {
                        assert(npt[i1] == pt[i1 - 1]);
                    } else {
                        assert(seq_has(pb, key@));
                    }
                }
                assert forall|i1: int, i2: int|
                    0 <= i1 < npb.len() && 0 <= i2 < npt.len()
                    implies npb[i1] != npt[i2] by {
                    let o1 = if i1 < j as int { i1 } else { i1 + 1 };
                    assert(npb[i1] == pb[o1]);
                    if i2 > 0 {
                        assert(npt[i2] == pt[i2 - 1]);
                    } else {
                        if o1 < j as int {
                            assert(pb[o1] != pb[j as int]);
                        } else if o1 > j as int {
                            assert(pb[j as int] != pb[o1]);
                        }
                    }
                }
            }
            return;
        }
        // a new key enters the probationary segment
        self.probationary.insert(0, k);
        proof {
            assert(self.prob() =~= seq![key@] + pb);
        }
        if self.probationary.len() > self.cap_probationary {
            self.probationary.pop();
            proof {
                assert(self.prob() =~= (seq![key@] + pb).drop_last());
            }
        }
        proof {
            let npb = self.prob();
            assert forall|i1: int, i2: int| 0 <= i1 < i2 < npb.len()
                implies npb[i1] != npb[i2] by {
                assert(npb[i2] == pb[i2 - 1]);
                if i1 > 0 {
                    assert(npb[i1] == pb[i1 - 1]);
                }
            }
            assert forall|i1: int, i2: int|
                0 <= i1 < npb.len() && 0 <= i2 < self.prot().len()
                implies npb[i1] != self.prot()[i2] by {
                if i1 > 0 {
                    assert(npb[i1] == pb[i1 - 1]);
                }
            }
        }
    }

    /// Moving an element of a distinct sequence to its front keeps it
    /// distinct.
    proof fn lemma_front_wf(s: Seq<Seq<char>>, j: int, k: Seq<char>)
        requires
            seq_distinct(s),
            0 <= j < s.len(),
            s[j] == k,
        ensures
            seq_distinct(seq![k] + s.remove(j)),
            forall|x: int| 0 <= x < (seq![k] + s.remove(j)).len()
                ==> seq_has(s, (seq![k] + s.remove(j))[x]),
    {
        let s2 = seq![k] + s.remove(j);
        assert forall|i1: int, i2: int| 0 <= i1 < i2 < s2.len()
            implies s2[i1] != s2[i2] by {
            let o2 = if i2 - 1 < j { i2 - 1 } else { i2 };
            assert(s2[i2] == s[o2]);
            if i1 == 0 {
                if o2 < j {
                    assert(s[o2] != s[j]);
                } else {
                    assert(s[j] != s[o2]);
                }
            } else {
                let o1 = if i1 - 1 < j { i1 - 1 } else { i1 };
                assert(s2[i1] == s[o1]);
                if o1 < o2 {
                    assert(s[o1] != s[o2]);
                } else {
                    assert(s[o2] != s[o1]);
                }
            }
        }
        assert forall|x: int| 0 <= x < s2.len() implies seq_has(s, s2[x]) by {
            if x == 0 {
                assert(s[j] == s2[x]);
            } else {
                let o = if x - 1 < j { x - 1 } else { x };
                assert(s[o] == s2[x]);
            }
        }
    }

    /// Prefer evicting the probationary tail; fall back to the protected
    /// tail only when the probationary segment is empty.
    pub fn select_victim(&mut self) -> (r: Option<String>)
        requires
            old(self).wf(),
        ensures
            final(self).wf(),
            final(self).prob_cap() == old(self).prob_cap(),
            final(self).prot_cap() == old(self).prot_cap(),
            ({
                let pb = old(self).prob();
                let pt = old(self).prot();
                match r {
                    Some(v) => {
                        if pb.len() > 0 {
                            &&& v@ == pb.last()
                            &&& final(self).prob() == pb.drop_last()
                            &&& final(self).prot() == pt
                        } else {
                            &&& pt.len() > 0
                            &&& v@ == pt.last()
                            &&& final(self).prob() == pb
                            &&& final(self).prot() == pt.drop_last()
                        }
                    }
                    None => pb.len() == 0 && pt.len() == 0
                        && final(self).prob() == pb && final(self).prot() == pt,
                }
            }),
    {
        let ghost pb = self.prob();
        let ghost pt = self.prot();
        if let Some(v) = self.probationary.pop() {
            proof {
                assert(self.prob() =~= pb.drop_last());
                assert(self.prot() =~= pt);
            }
            return Some(v);
        }
        if let Some(v) = self.protected.pop() {
            proof {
                assert(self.prob() =~= pb);
                assert(self.prot() =~= pt.drop_last());
            }
            return Some(v);
        }
        None
    }
}

// ---------------------------------------------------------------------------
// Frequency-bucketed LFU.
// ---------------------------------------------------------------------------

/// The recorded frequency of `k`, if any.
pub open spec fn freq_of(fv: Seq<(Seq<char>, u64)>, k: Seq<char>) -> Option<u64> {
    if exists|i: int| 0 <= i < fv.len() && (#[trigger] fv[i]).0 == k {
        Some(fv[choose|i: int| 0 <= i < fv.len() && (#[trigger] fv[i]).0 == k].1)
    } else {
        None
    }
}

/// The keys of the bucket for frequency `f`, newest first; empty when no
/// such bucket exists.
pub open spec fn bucket_seq(bv: Seq<(u64, Seq<Seq<char>>)>, f: u64) -> Seq<Seq<char>> {
    if exists|i: int| 0 <= i < bv.len() && (#[trigger] bv[i]).0 == f {
        bv[choose|i: int| 0 <= i < bv.len() && (#[trigger] bv[i]).0 == f].1
    } else {
        Seq::empty()
    }
}

/// The smallest recorded frequency.
pub open spec fn min_freq_val(fv: Seq<(Seq<char>, u64)>) -> u64
    recommends
        fv.len() > 0,
    decreases fv.len(),
{
    if fv.len() <= 1 {
        fv[0].1
    } else {
        let m = min_freq_val(fv.drop_last());
        if fv.last().1 < m {
            fv.last().1
        } else {
            m
        }
    }
}

/// Least frequently used policy: a key-to-frequency record and, per
/// frequency, an ordered bucket of keys (newest increment first). The
/// victim is the oldest key of the lowest non-empty bucket.
pub struct SimpleLfu {
    freq: Vec<(String, u64)>,
    buckets: Vec<(u64, Vec<String>)>,
}

impl SimpleLfu {
    /// The key-to-frequency record.
    pub closed spec fn freqs(&self) -> Seq<(Seq<char>, u64)> {
        Seq::new(self.freq@.len(), |i: int| (self.freq@[i].0@, self.freq@[i].1))
    }

    /// The frequency buckets.
    pub closed spec fn buckets_view(&self) -> Seq<(u64, Seq<Seq<char>>)> {
        Seq::new(self.buckets@.len(), |i: int| (self.buckets@[i].0, keys_of(self.buckets@[i].1@)))
    }

    /// Each key is recorded once with a positive frequency and sits in the
    /// bucket of exactly that frequency; bucket frequencies are distinct
    /// and bucket members are distinct and recorded.
    pub closed spec fn wf(&self) -> bool {
        let fv = self.freqs();
        let bv = self.buckets_view();
        &&& forall|i: int, j: int| 0 <= i < j < fv.len()
            ==> (#[trigger] fv[i]).0 != (#[trigger] fv[j]).0
        &&& forall|i: int, j: int| 0 <= i < j < bv.len()
            ==> (#[trigger] bv[i]).0 != (#[trigger] bv[j]).0
        &&& forall|i: int| 0 <= i < fv.len() ==> (#[trigger] fv[i]).1 >= 1
        &&& forall|i: int| 0 <= i < fv.len()
            ==> seq_has(bucket_seq(bv, (#[trigger] fv[i]).1), fv[i].0)
        &&& forall|j: int, x: int| 0 <= j < bv.len() && 0 <= x < bv[j].1.len()
            ==> freq_of(fv, #[trigger] bv[j].1[x]) == Some(bv[j].0)
        &&& forall|j: int| 0 <= j < bv.len() ==> seq_distinct((#[trigger] bv[j]).1)
    }

    pub fn new() -> (r: Self)
        ensures
            r.wf(),
            r.freqs() == Seq::<(Seq<char>, u64)>::empty(),
            r.buckets_view() == Seq::<(u64, Seq<Seq<char>>)>::empty(),
    {
        let r = SimpleLfu { freq: Vec::new(), buckets: Vec::new() };
        proof {
            assert(r.freqs() =~= Seq::<(Seq<char>, u64)>::empty());
            assert(r.buckets_view() =~= Seq::<(u64, Seq<Seq<char>>)>::empty());
        }
        r
    }

    /// With distinct keys, the lookup returns the entry it finds.
    proof fn lemma_freq_at(fv: Seq<(Seq<char>, u64)>, j: int)
        requires
            forall|i1: int, i2: int| 0 <= i1 < i2 < fv.len()
                ==> (#[trigger] fv[i1]).0 != (#[trigger] fv[i2]).0,
            0 <= j < fv.len(),
        ensures
            freq_of(fv, fv[j].0) == Some(fv[j].1),
    {
        let k = fv[j].0;
        assert(0 <= j < fv.len() && fv[j].0 == k);
        let j0 = choose|i: int| 0 <= i < fv.len() && (#[trigger] fv[i]).0 == k;
        if j0 < j {
            assert(fv[j0].0 != fv[j].0);
        } else if j0 > j {
            assert(fv[j].0 != fv[j0].0);
        }
    }

    /// With distinct bucket frequencies, the lookup returns the bucket it
    /// finds.
    proof fn lemma_bucket_at(bv: Seq<(u64, Seq<Seq<char>>)>, j: int)
        requires
            forall|i1: int, i2: int| 0 <= i1 < i2 < bv.len()
                ==> (#[trigger] bv[i1]).0 != (#[trigger] bv[i2]).0,
            0 <= j < bv.len(),
        ensures
            bucket_seq(bv, bv[j].0) == bv[j].1,
    {
        let f = bv[j].0;
        assert(0 <= j < bv.len() && bv[j].0 == f);
        let j0 = choose|i: int| 0 <= i < bv.len() && (#[trigger] bv[i]).0 == f;
        if j0 < j {
            assert(bv[j0].0 != bv[j].0);
        } else if j0 > j {
            assert(bv[j].0 != bv[j0].0);
        }
    }

    /// A frequency no entry carries has an empty bucket lookup answer...
    /// used to reason about absent buckets.
    proof fn lemma_bucket_absent(bv: Seq<(u64, Seq<Seq<char>>)>, f: u64)
        requires
            forall|i: int| 0 <= i < bv.len() ==> (#[trigger] bv[i]).0 != f,
        ensures
            bucket_seq(bv, f) == Seq::<Seq<char>>::empty(),
    {
        if exists|i: int| 0 <= i < bv.len() && (#[trigger] bv[i]).0 == f {
            let i = choose|i: int| 0 <= i < bv.len() && (#[trigger] bv[i]).0 == f;
        }
    }

    /// Search the frequency record for `key`.
    fn find_freq(&self, key: &String) -> (r: Option<usize>)
        ensures
            match r {
                Some(j) => j < self.freq@.len() && self.freq@[j as int].0@ == key@,
                None => forall|j: int| 0 <= j < self.freq@.len()
                    ==> (#[trigger] self.freq@[j].0)@ != key@,
            },
    {
        let n = self.freq.len();
        let mut j: usize = 0;
        while j < n
            invariant
                n == self.freq@.len(),
                j <= n,
                forall|j2: int| 0 <= j2 < j ==> (#[trigger] self.freq@[j2].0)@ != key@,
            decreases n - j,
        {
            if self.freq[j].0 == *key {
                return Some(j);
            }
            j += 1;
        }
        None
    }

    /// The minimum frequency is carried by some entry and bounds them all.
    proof fn lemma_min_freq(fv: Seq<(Seq<char>, u64)>)
        requires
            fv.len() > 0,
        ensures
            exists|i: int| 0 <= i < fv.len() && (#[trigger] fv[i]).1 == min_freq_val(fv),
            forall|i: int| 0 <= i < fv.len() ==> min_freq_val(fv) <= (#[trigger] fv[i]).1,
        decreases fv.len(),
    {
        if fv.len() == 1 {
            assert(fv[0].1 == min_freq_val(fv));
        } else {
            Self::lemma_min_freq(fv.drop_last());
            let m = min_freq_val(fv.drop_last());
            if fv.last().1 < m {
                assert(fv[fv.len() - 1].1 == min_freq_val(fv));
            } else {
                let i = choose|i: int| 0 <= i < fv.drop_last().len()
                    && (#[trigger] fv.drop_last()[i]).1 == m;
                assert(fv[i].1 == min_freq_val(fv));
            }
            assert forall|i: int| 0 <= i < fv.len()
                implies min_freq_val(fv) <= (#[trigger] fv[i]).1 by {
                if i < fv.len() - 1 {
                    assert(fv.drop_last()[i] == fv[i]);
                }
            }
        }
    }

    /// Transfer the frequency lookup of every key but `k` between two
    /// records that agree at every position except that position `j` of the
    /// first was re-valued or removed.
    proof fn lemma_freq_transfer(fv0: Seq<(Seq<char>, u64)>, fv2: Seq<(Seq<char>, u64)>, k: Seq<char>)
        requires
            forall|i1: int, i2: int| 0 <= i1 < i2 < fv0.len()
                ==> (#[trigger] fv0[i1]).0 != (#[trigger] fv0[i2]).0,
            forall|i1: int, i2: int| 0 <= i1 < i2 < fv2.len()
                ==> (#[trigger] fv2[i1]).0 != (#[trigger] fv2[i2]).0,
            forall|i: int| 0 <= i < fv0.len() && fv0[i].0 != k
                ==> exists|i2: int| 0 <= i2 < fv2.len() && #[trigger] fv2[i2] == #[trigger] fv0[i],
            forall|i2: int| 0 <= i2 < fv2.len() && fv2[i2].0 != k
                ==> exists|i: int| 0 <= i < fv0.len() && #[trigger] fv0[i] == #[trigger] fv2[i2],
        ensures
            forall|k2: Seq<char>| k2 != k ==> freq_of(fv2, k2) == freq_of(fv0, k2),
    {
        assert forall|k2: Seq<char>| k2 != k
            implies freq_of(fv2, k2) == freq_of(fv0, k2) by {
            if exists|i: int| 0 <= i < fv0.len() && (#[trigger] fv0[i]).0 == k2 {
                let i = choose|i: int| 0 <= i < fv0.len() && (#[trigger] fv0[i]).0 == k2;
                let i2 = choose|i2: int| 0 <= i2 < fv2.len() && fv2[i2] == fv0[i];
                Self::lemma_freq_at(fv0, i);
                Self::lemma_freq_at(fv2, i2);
            } else {
                if exists|i2: int| 0 <= i2 < fv2.len() && (#[trigger] fv2[i2]).0 == k2 {
                    let i2 = choose|i2: int| 0 <= i2 < fv2.len()
                        && (#[trigger] fv2[i2]).0 == k2;
                    let i = choose|i: int| 0 <= i < fv0.len() && fv0[i] == fv2[i2];
                }
            }
        }
    }

    /// Search the buckets for frequency `f`.
    fn find_bucket(&self, f: u64) -> (r: Option<usize>)
        ensures
            match r {
                Some(j) => j < self.buckets@.len() && self.buckets@[j as int].0 == f,
                None => forall|j: int| 0 <= j < self.buckets@.len()
                    ==> (#[trigger] self.buckets@[j].0) != f,
            },
    {
        let n = self.buckets.len();
        let mut j: usize = 0;
        while j < n
            invariant
                n == self.buckets@.len(),
                j <= n,
                forall|j2: int| 0 <= j2 < j ==> (#[trigger] self.buckets@[j2].0) != f,
            decreases n - j,
        {
            if self.buckets[j].0 == f {
                return Some(j);
            }
            j += 1;
        }
        None
    }
}

/// The frequency `key` will carry after one more increment.
pub open spec fn next_freq(f0: Option<u64>) -> u64 {
    match f0 {
        None => 1,
        Some(f) => if f == u64::MAX {
            u64::MAX
        } else {
            (f + 1) as u64
        },
    }
}

/// `s` without `k`, when present.
pub open spec fn seq_remove_k(s: Seq<Seq<char>>, k: Seq<char>) -> Seq<Seq<char>> {
    if seq_has(s, k) {
        s.remove(seq_pos(s, k))
    } else {
        s
    }
}

impl SimpleLfu {
    /// Distinct bucket frequencies of this policy's bucket list.
    spec fn bv_distinct(bv: Seq<(u64, Seq<Seq<char>>)>) -> bool {
        forall|i: int, j: int| 0 <= i < j < bv.len()
            ==> (#[trigger] bv[i]).0 != (#[trigger] bv[j]).0
    }

    /// Distinct members within every bucket.
    spec fn bv_members_distinct(bv: Seq<(u64, Seq<Seq<char>>)>) -> bool {
        forall|j: int| 0 <= j < bv.len() ==> seq_distinct((#[trigger] bv[j]).1)
    }

    /// Put `key` at the front of the bucket for `nf`, creating the bucket
    /// when missing. Only that bucket's members change.
    fn bucket_push_front(&mut self, nf: u64, key: String)
        requires
            Self::bv_distinct(old(self).buckets_view()),
            Self::bv_members_distinct(old(self).buckets_view()),
            !seq_has(bucket_seq(old(self).buckets_view(), nf), key@),
        ensures
            Self::bv_distinct(final(self).buckets_view()),
            Self::bv_members_distinct(final(self).buckets_view()),
            bucket_seq(final(self).buckets_view(), nf)
                == seq![key@] + bucket_seq(old(self).buckets_view(), nf),
            forall|g: u64| g != nf ==> bucket_seq(final(self).buckets_view(), g)
                == bucket_seq(old(self).buckets_view(), g),
            final(self).freq == old(self).freq,
    {
        let ghost bv0 = self.buckets_view();
        match self.find_bucket(nf) {
            Some(bj) => {
                proof {
                    Self::lemma_bucket_at(bv0, bj as int);
                }
                let mut b = self.buckets.remove(bj);
                b.1.insert(0, key);
                self.buckets.insert(bj, b);
                proof {
                    let bv2 = self.buckets_view();
                    assert(bv2 =~~= bv0.update(bj as int,
                        (nf, seq![key@] + bv0[bj as int].1)));
                    Self::lemma_bucket_at(bv2, bj as int);
                    assert(seq_distinct(bv2[bj as int].1)) by {
                        let nb = bv2[bj as int].1;
                        assert forall|i1: int, i2: int| 0 <= i1 < i2 < nb.len()
                            implies nb[i1] != nb[i2] by {
                            assert(nb[i2] == bv0[bj as int].1[i2 - 1]);
                            if i1 > 0 {
                                assert(nb[i1] == bv0[bj as int].1[i1 - 1]);
                            }
                        }
                    }
                    assert forall|g: u64| g != nf implies bucket_seq(bv2, g)
                        == bucket_seq(bv0, g) by {
                        if exists|i: int| 0 <= i < bv0.len() && (#[trigger] bv0[i]).0 == g {
                            let i = choose|i: int| 0 <= i < bv0.len()
                                && (#[trigger] bv0[i]).0 == g;
                            Self::lemma_bucket_at(bv0, i);
                            Self::lemma_bucket_at(bv2, i);
                        } else {
                            Self::lemma_bucket_absent(bv0, g);
                            Self::lemma_bucket_absent(bv2, g);
                        }
                    }
                }
            }
            None => {
                proof {
                    Self::lemma_bucket_absent(bv0, nf);
                }
                let mut fresh_bucket: Vec<String> = Vec::new();
                fresh_bucket.push(key);
                proof {
                    assert(keys_of(fresh_bucket@) =~= seq![key@]);
                }
                self.buckets.push((nf, fresh_bucket));
                proof {
                    let bv2 = self.buckets_view();
                    assert(bv2 =~~= bv0.push((nf, seq![key@])));
                    Self::lemma_bucket_at(bv2, bv0.len() as int);
                    assert(bucket_seq(bv2, nf) =~= seq![key@] + bucket_seq(bv0, nf));
                    assert forall|g: u64| g != nf implies bucket_seq(bv2, g)
                        == bucket_seq(bv0, g) by {
                        if exists|i: int| 0 <= i < bv0.len() && (#[trigger] bv0[i]).0 == g {
                            let i = choose|i: int| 0 <= i < bv0.len()
                                && (#[trigger] bv0[i]).0 == g;
                            Self::lemma_bucket_at(bv0, i);
                            Self::lemma_bucket_at(bv2, i);
                        } else {
                            Self::lemma_bucket_absent(bv0, g);
                            Self::lemma_bucket_absent(bv2, g);
                        }
                    }
                }
            }
        }
    }

    /// Remove `key` from the bucket for `f`. Only that bucket's members
    /// change.
    fn bucket_remove_key(&mut self, f: u64, key: &String)
        requires
            Self::bv_distinct(old(self).buckets_view()),
            Self::bv_members_distinct(old(self).buckets_view()),
            seq_has(bucket_seq(old(self).buckets_view(), f), key@),
        ensures
            Self::bv_distinct(final(self).buckets_view()),
            Self::bv_members_distinct(final(self).buckets_view()),
            bucket_seq(final(self).buckets_view(), f)
                == seq_remove_k(bucket_seq(old(self).buckets_view(), f), key@),
            forall|g: u64| g != f ==> bucket_seq(final(self).buckets_view(), g)
                == bucket_seq(old(self).buckets_view(), g),
            final(self).freq == old(self).freq,
    {
        let ghost bv0 = self.buckets_view();
        let bj = match self.find_bucket(f) {
            Some(bj) => bj,
            None => {
                proof {
                    Self::lemma_bucket_absent(bv0, f);
                    assert(false);
                }
                unreached()
            }
        };
        proof {
            Self::lemma_bucket_at(bv0, bj as int);
        }
        let mut b = self.buckets.remove(bj);
        let pos = match find_key_in(&b.1, key) {
            Some(pos) => pos,
            None => {
                proof {
                    let x = seq_pos(bucket_seq(bv0, f), key@);
                }
                unreached()
            }
        };
        b.1.remove(pos);
        self.buckets.insert(bj, b);
        proof {
            let ob = bv0[bj as int].1;
            let ghost p0 = seq_pos(ob, key@);
            assert(seq_has(ob, key@));
            if p0 < pos as int {
                assert(ob[p0] != ob[pos as int]);
            } else if p0 > pos as int {
                assert(ob[pos as int] != ob[p0]);
            }
            let bv2 = self.buckets_view();
            assert(bv2 =~~= bv0.update(bj as int, (f, ob.remove(pos as int))));
            Self::lemma_bucket_at(bv2, bj as int);
            assert(seq_distinct(bv2[bj as int].1)) by {
                let nb = ob.remove(pos as int);
                assert forall|i1: int, i2: int| 0 <= i1 < i2 < nb.len()
                    implies nb[i1] != nb[i2] by {
                    let o1 = if i1 < pos as int { i1 } else { i1 + 1 };
                    let o2 = if i2 < pos as int { i2 } else { i2 + 1 };
                    assert(nb[i1] == ob[o1] && nb[i2] == ob[o2]);
                }
            }
            assert forall|g: u64| g != f implies bucket_seq(bv2, g)
                == bucket_seq(bv0, g) by {
                if exists|i: int| 0 <= i < bv0.len() && (#[trigger] bv0[i]).0 == g {
                    let i = choose|i: int| 0 <= i < bv0.len() && (#[trigger] bv0[i]).0 == g;
                    Self::lemma_bucket_at(bv0, i);
                    Self::lemma_bucket_at(bv2, i);
                } else {
                    Self::lemma_bucket_absent(bv0, g);
                    Self::lemma_bucket_absent(bv2, g);
                }
            }
        }
    }
}

impl SimpleLfu {
    /// Record one more use of `key`: it leaves its current bucket, its
    /// frequency rises by one (starting at one), and it enters the front of
    /// the bucket of its new frequency.
    #[verifier::rlimit(100)]
    pub fn increment(&mut self, key: &str)
        requires
            old(self).wf(),
        ensures
            final(self).wf(),
            ({
                let fv0 = old(self).freqs();
                let bv0 = old(self).buckets_view();
                let nf = next_freq(freq_of(fv0, key@));
                &&& freq_of(final(self).freqs(), key@) == Some(nf)
                &&& forall|k2: Seq<char>| k2 != key@
                    ==> freq_of(final(self).freqs(), k2) == freq_of(fv0, k2)
                &&& bucket_seq(final(self).buckets_view(), nf)
                    == seq![key@] + seq_remove_k(bucket_seq(bv0, nf), key@)
                &&& forall|g: u64| g != nf ==> bucket_seq(final(self).buckets_view(), g)
                    == seq_remove_k(bucket_seq(bv0, g), key@)
            }),
    {
        let ghost fv0 = self.freqs();
        let ghost bv0 = self.buckets_view();
        let k = key.to_owned();
        let k2 = key.to_owned();
        match self.find_freq(&k) {
            Some(j) => {
                let f = self.freq[j].1;
                proof {
                    Self::lemma_freq_at(fv0, j as int);
                }
                let nf = if f < u64::MAX {
                    f + 1
                } else {
                    f
                };
                // re-value the key's frequency record in place
                let entry = self.freq.remove(j);
                self.freq.insert(j, (entry.0, nf));
                proof {
                    assert(self.freqs() =~= fv0.update(j as int, (key@, nf)));
                    Self::lemma_freq_at(self.freqs(), j as int);
                    let fv2 = self.freqs();
                    assert forall|i: int| 0 <= i < fv0.len() && fv0[i].0 != key@
                        implies exists|i2: int| 0 <= i2 < fv2.len()
                            && #[trigger] fv2[i2] == #[trigger] fv0[i] by {
                        assert(i != j as int);
                        assert(fv2[i] == fv0[i]);
                    }
                    assert forall|i2: int| 0 <= i2 < fv2.len() && fv2[i2].0 != key@
                        implies exists|i: int| 0 <= i < fv0.len()
                            && #[trigger] fv0[i] == #[trigger] fv2[i2] by {
                        assert(i2 != j as int);
                        assert(fv0[i2] == fv2[i2]);
                    }
                    Self::lemma_freq_transfer(fv0, self.freqs(), key@);
                    // the key sits in the bucket of its old frequency
                    assert(seq_has(bucket_seq(bv0, f), key@));
                }
                self.bucket_remove_key(f, &k);
                let ghost bv1 = self.buckets_view();
                proof {
                    // the key is in no bucket any more
                    assert forall|g: u64| !seq_has(bucket_seq(bv1, g), key@) by {
                        if seq_has(bucket_seq(bv1, g), key@) {
                            if g == f {
                                let s = bucket_seq(bv0, f);
                                let pr = seq_pos(s, key@);
                                let x = seq_pos(bucket_seq(bv1, f), key@);
                                let o = if x < pr { x } else { x + 1 };
                                assert(bucket_seq(bv1, f) == s.remove(pr));
                                assert(s.remove(pr)[x] == s[o]);
                                if o < pr {
                                    assert(s[o] != s[pr]);
                                } else {
                                    assert(s[pr] != s[o]);
                                }
                            } else {
                                let x = seq_pos(bucket_seq(bv1, g), key@);
                                assert(bucket_seq(bv1, g) == bucket_seq(bv0, g));
                                let bj = choose|i: int| 0 <= i < bv0.len()
                                    && (#[trigger] bv0[i]).0 == g;
                                Self::lemma_bucket_at(bv0, bj);
                                assert(freq_of(fv0, key@) == Some(g));
                            }
                        }
                    }
                }
                self.bucket_push_front(nf, k2);
                proof {
                    Self::finish_increment(&fv0, &bv0, self, key@, Some(f), nf, bv1);
                }
            }
            None => {
                proof {
                    if exists|i: int| 0 <= i < fv0.len() && (#[trigger] fv0[i]).0 == key@ {
                        let i = choose|i: int| 0 <= i < fv0.len()
                            && (#[trigger] fv0[i]).0 == key@;
                    }
                    assert(freq_of(fv0, key@) is None);
                }
                self.freq.push((k, 1));
                proof {
                    assert(self.freqs() =~= fv0.push((key@, 1)));
                    Self::lemma_freq_at(self.freqs(), fv0.len() as int);
                    let fv2 = self.freqs();
                    assert forall|i: int| 0 <= i < fv0.len() && fv0[i].0 != key@
                        implies exists|i2: int| 0 <= i2 < fv2.len()
                            && #[trigger] fv2[i2] == #[trigger] fv0[i] by {
                        assert(fv2[i] == fv0[i]);
                    }
                    assert forall|i2: int| 0 <= i2 < fv2.len() && fv2[i2].0 != key@
                        implies exists|i: int| 0 <= i < fv0.len()
                            && #[trigger] fv0[i] == #[trigger] fv2[i2] by {
                        assert(i2 != fv0.len() as int);
                        assert(fv0[i2] == fv2[i2]);
                    }
                    Self::lemma_freq_transfer(fv0, self.freqs(), key@);
                    // an unrecorded key sits in no bucket
                    assert forall|g: u64| !seq_has(bucket_seq(bv0, g), key@) by {
                        if seq_has(bucket_seq(bv0, g), key@) {
                            let x = seq_pos(bucket_seq(bv0, g), key@);
                            let bj = choose|i: int| 0 <= i < bv0.len()
                                && (#[trigger] bv0[i]).0 == g;
                            if exists|i: int| 0 <= i < bv0.len()
                                && (#[trigger] bv0[i]).0 == g {
                                Self::lemma_bucket_at(bv0, bj);
                                assert(freq_of(fv0, key@) == Some(g));
                            }
                        }
                    }
                }
                self.bucket_push_front(1, k2);
                proof {
                    Self::finish_increment(&fv0, &bv0, self, key@, None, 1, bv0);
                }
            }
        }
    }

    /// Re-establish the full invariant after an increment: `fv0`/`bv0` are
    /// the original views, `mid_bv` the buckets after the key left its old
    /// bucket, and the final state has the key recorded at `nf` and at the
    /// front of that bucket.
    proof fn finish_increment(
        fv0: &Seq<(Seq<char>, u64)>,
        bv0: &Seq<(u64, Seq<Seq<char>>)>,
        post: &Self,
        k: Seq<char>,
        f_old: Option<u64>,
        nf: u64,
        mid_bv: Seq<(u64, Seq<Seq<char>>)>,
    )
        requires
            forall|i1: int, i2: int| 0 <= i1 < i2 < fv0.len()
                ==> (#[trigger] fv0[i1]).0 != (#[trigger] fv0[i2]).0,
            forall|i: int| 0 <= i < fv0.len() ==> (#[trigger] fv0[i]).1 >= 1,
            forall|i: int| 0 <= i < fv0.len()
                ==> seq_has(bucket_seq(*bv0, (#[trigger] fv0[i]).1), fv0[i].0),
            forall|i1: int, i2: int| 0 <= i1 < i2 < post.freqs().len()
                ==> (#[trigger] post.freqs()[i1]).0 != (#[trigger] post.freqs()[i2]).0,
            Self::bv_distinct(post.buckets_view()),
            Self::bv_members_distinct(post.buckets_view()),
            nf >= 1,
            freq_of(post.freqs(), k) == Some(nf),
            forall|k2: Seq<char>| k2 != k
                ==> freq_of(post.freqs(), k2) == freq_of(*fv0, k2),
            bucket_seq(post.buckets_view(), nf) == seq![k] + bucket_seq(mid_bv, nf),
            forall|g: u64| g != nf ==> bucket_seq(post.buckets_view(), g)
                == bucket_seq(mid_bv, g),
            forall|g: u64| bucket_seq(mid_bv, g)
                == seq_remove_k(bucket_seq(*bv0, g), k),
            forall|j: int, x: int| 0 <= j < bv0.len() && 0 <= x < bv0[j].1.len()
                ==> freq_of(*fv0, #[trigger] bv0[j].1[x]) == Some(bv0[j].0),
            Self::bv_distinct(*bv0),
            Self::bv_members_distinct(*bv0),
        ensures
            post.wf(),
            bucket_seq(post.buckets_view(), nf)
                == seq![k] + seq_remove_k(bucket_seq(*bv0, nf), k),
            forall|g: u64| g != nf ==> bucket_seq(post.buckets_view(), g)
                == seq_remove_k(bucket_seq(*bv0, g), k),
    {
        let fv2 = post.freqs();
        let bv2 = post.buckets_view();
        // transferred bucket answers
        assert forall|g: u64| g != nf implies bucket_seq(bv2, g)
            == seq_remove_k(bucket_seq(*bv0, g), k) by {
            assert(bucket_seq(bv2, g) == bucket_seq(mid_bv, g));
            assert(bucket_seq(mid_bv, g) == seq_remove_k(bucket_seq(*bv0, g), k));
        }
        assert(bucket_seq(bv2, nf) == seq![k] + seq_remove_k(bucket_seq(*bv0, nf), k)) by {
            assert(bucket_seq(mid_bv, nf) == seq_remove_k(bucket_seq(*bv0, nf), k));
        }
        // every recorded key sits in the bucket of its frequency
        assert forall|i: int| 0 <= i < fv2.len()
            implies seq_has(bucket_seq(bv2, (#[trigger] fv2[i]).1), fv2[i].0) by {
            let k2 = fv2[i].0;
            Self::lemma_freq_at(fv2, i);
            if k2 == k {
                assert(fv2[i].1 == nf);
                assert(bucket_seq(bv2, nf)[0] == k);
            } else {
                assert(freq_of(*fv0, k2) == freq_of(fv2, k2));
                assert(freq_of(*fv0, k2) is Some);
                assert(exists|i0: int| 0 <= i0 < fv0.len() && (#[trigger] fv0[i0]).0 == k2);
                let i0 = choose|i0: int| 0 <= i0 < fv0.len() && (#[trigger] fv0[i0]).0 == k2;
                Self::lemma_freq_at(*fv0, i0);
                let g = fv0[i0].1;
                assert(g == fv2[i].1);
                assert(seq_has(bucket_seq(*bv0, g), k2));
                let x = seq_pos(bucket_seq(*bv0, g), k2);
                // k2 survives the removal of k from that bucket
                let s = bucket_seq(*bv0, g);
                assert(s[x] == k2);
                if seq_has(s, k) {
                    let pr = seq_pos(s, k);
                    assert(pr != x);
                    let x2 = if x < pr { x } else { x - 1 };
                    assert(s.remove(pr)[x2] == s[x]);
                    assert(seq_remove_k(s, k)[x2] == k2);
                    assert(seq_has(seq_remove_k(s, k), k2));
                } else {
                    assert(seq_has(seq_remove_k(s, k), k2));
                }
                let xr = seq_pos(seq_remove_k(s, k), k2);
                assert(seq_remove_k(s, k)[xr] == k2);
                if g == nf {
                    assert(bucket_seq(bv2, nf)[1 + xr] == k2);
                    assert(seq_has(bucket_seq(bv2, nf), k2));
                } else {
                    assert(bucket_seq(bv2, g) == seq_remove_k(s, k));
                    assert(seq_has(bucket_seq(bv2, g), k2));
                }
            }
        }
        // every bucket member is recorded with that bucket's frequency
        assert forall|j: int, x: int| 0 <= j < bv2.len() && 0 <= x < bv2[j].1.len()
            implies freq_of(fv2, #[trigger] bv2[j].1[x]) == Some(bv2[j].0) by {
            let g = bv2[j].0;
            let k2 = bv2[j].1[x];
            Self::lemma_bucket_at(bv2, j);
            if g == nf {
                if x == 0 {
                    assert(k2 == k);
                } else {
                    let s1 = seq_remove_k(bucket_seq(*bv0, nf), k);
                    assert(bucket_seq(bv2, nf)[x] == s1[x - 1]);
                    assert(seq_has(s1, k2)) by {
                        assert(s1[x - 1] == k2);
                    }
                    Self::member_was_recorded(fv0, bv0, k2, nf, k);
                    assert(k2 != k) by {
                        Self::lemma_bucket_seq_distinct(*bv0, nf);
                        Self::removed_key_gone(bucket_seq(*bv0, nf), k);
                        if k2 == k {
                            assert(seq_has(s1, k));
                        }
                    }
                }
            } else {
                let s1 = seq_remove_k(bucket_seq(*bv0, g), k);
                assert(bucket_seq(bv2, g) == s1);
                assert(seq_has(s1, k2)) by {
                    assert(s1[x] == k2);
                }
                Self::member_was_recorded(fv0, bv0, k2, g, k);
                assert(k2 != k) by {
                    Self::lemma_bucket_seq_distinct(*bv0, g);
                    Self::removed_key_gone(bucket_seq(*bv0, g), k);
                    if k2 == k {
                        assert(seq_has(s1, k));
                    }
                }
            }
        }
        // positivity
        assert forall|i: int| 0 <= i < fv2.len() implies (#[trigger] fv2[i]).1 >= 1 by {
            let k2 = fv2[i].0;
            Self::lemma_freq_at(fv2, i);
            if k2 != k {
                assert(freq_of(*fv0, k2) == freq_of(fv2, k2));
                assert(freq_of(*fv0, k2) is Some);
                assert(exists|i0: int| 0 <= i0 < fv0.len() && (#[trigger] fv0[i0]).0 == k2);
                let i0 = choose|i0: int| 0 <= i0 < fv0.len() && (#[trigger] fv0[i0]).0 == k2;
                Self::lemma_freq_at(*fv0, i0);
            }
        }
    }

    /// Every bucket lookup answer has distinct members.
    proof fn lemma_bucket_seq_distinct(bv: Seq<(u64, Seq<Seq<char>>)>, f: u64)
        requires
            Self::bv_distinct(bv),
            Self::bv_members_distinct(bv),
        ensures
            seq_distinct(bucket_seq(bv, f)),
    {
        if exists|i: int| 0 <= i < bv.len() && (#[trigger] bv[i]).0 == f {
            let i = choose|i: int| 0 <= i < bv.len() && (#[trigger] bv[i]).0 == f;
            Self::lemma_bucket_at(bv, i);
        }
    }

    /// After removing `k`, it is gone from the sequence.
    proof fn removed_key_gone(s: Seq<Seq<char>>, k: Seq<char>)
        requires
            seq_distinct(s),
        ensures
            !seq_has(seq_remove_k(s, k), k),
    {
        if seq_has(s, k) {
            let pr = seq_pos(s, k);
            if seq_has(s.remove(pr), k) {
                let x = seq_pos(s.remove(pr), k);
                let o = if x < pr { x } else { x + 1 };
                assert(s.remove(pr)[x] == s[o]);
                if o < pr {
                    assert(s[o] != s[pr]);
                } else {
                    assert(s[pr] != s[o]);
                }
            }
        }
    }

    /// A member of the bucket for `g` after `k` was dropped was a member
    /// before, and so is recorded with frequency `g`.
    proof fn member_was_recorded(
        fv0: &Seq<(Seq<char>, u64)>,
        bv0: &Seq<(u64, Seq<Seq<char>>)>,
        k2: Seq<char>,
        g: u64,
        k: Seq<char>,
    )
        requires
            forall|j: int, x: int| 0 <= j < bv0.len() && 0 <= x < bv0[j].1.len()
                ==> freq_of(*fv0, #[trigger] bv0[j].1[x]) == Some(bv0[j].0),
            Self::bv_distinct(*bv0),
            seq_has(seq_remove_k(bucket_seq(*bv0, g), k), k2),
        ensures
            freq_of(*fv0, k2) == Some(g),
    {
        let s = bucket_seq(*bv0, g);
        let x = seq_pos(seq_remove_k(s, k), k2);
        let o = if seq_has(s, k) {
            let pr = seq_pos(s, k);
            if x < pr { x } else { x + 1 }
        } else {
            x
        };
        assert(s[o] == k2);
        assert(s.len() > 0);
        let bj = choose|i: int| 0 <= i < bv0.len() && (#[trigger] bv0[i]).0 == g;
        assert(exists|i: int| 0 <= i < bv0.len() && (#[trigger] bv0[i]).0 == g);
        Self::lemma_bucket_at(*bv0, bj);
        assert(bv0[bj].1[o] == k2);
    }
}

impl SimpleLfu {
    /// Evict the least frequently used key: the oldest member of the
    /// bucket of the minimum recorded frequency loses. Its frequency
    /// record is dropped; every other key keeps its record.
    #[verifier::rlimit(100)]
    pub fn victim(&mut self) -> (r: Option<String>)
        requires
            old(self).wf(),
        ensures
            final(self).wf(),
            ({
                let fv0 = old(self).freqs();
                let bv0 = old(self).buckets_view();
                match r {
                    None => fv0.len() == 0 && final(self).freqs() == fv0
                        && final(self).buckets_view() == bv0,
                    Some(v) => {
                        let mf = min_freq_val(fv0);
                        &&& fv0.len() > 0
                        &&& v@ == bucket_seq(bv0, mf).last()
                        &&& freq_of(fv0, v@) == Some(mf)
                        &&& freq_of(final(self).freqs(), v@) is None
                        &&& forall|k2: Seq<char>| k2 != v@
                            ==> freq_of(final(self).freqs(), k2) == freq_of(fv0, k2)
                        &&& bucket_seq(final(self).buckets_view(), mf)
                            == bucket_seq(bv0, mf).drop_last()
                        &&& forall|g: u64| g != mf
                            ==> bucket_seq(final(self).buckets_view(), g)
                                == bucket_seq(bv0, g)
                    }
                }
            }),
    {
        let ghost fv0 = self.freqs();
        let ghost bv0 = self.buckets_view();
        let n = self.freq.len();
        if n == 0 {
            return None;
        }
        // scan for the minimum recorded frequency
        let mut m: u64 = self.freq[0].1;
        let mut j: usize = 1;
        while j < n
            invariant
                n == self.freq@.len(),
                fv0 == self.freqs(),
                1 <= j <= n,
                m == min_freq_val(fv0.take(j as int)),
            decreases n - j,
        {
            proof {
                assert(fv0.take(j + 1).drop_last() =~= fv0.take(j as int));
                assert(fv0.take(j + 1).last() == fv0[j as int]);
            }
            if self.freq[j].1 < m {
                m = self.freq[j].1;
            }
            j += 1;
        }
        proof {
            assert(fv0.take(n as int) =~= fv0);
            Self::lemma_min_freq(fv0);
        }
        let ghost iw = choose|i: int| 0 <= i < fv0.len() && (#[trigger] fv0[i]).1 == m;
        proof {
            assert(seq_has(bucket_seq(bv0, m), fv0[iw].0));
        }
        // the oldest member of the minimum bucket loses
        let bj = match self.find_bucket(m) {
            Some(bj) => bj,
            None => {
                proof {
                    Self::lemma_bucket_absent(bv0, m);
                    assert(false);
                }
                unreached()
            }
        };
        proof {
            Self::lemma_bucket_at(bv0, bj as int);
        }
        let mut b = self.buckets.remove(bj);
        let kk = match b.1.pop() {
            Some(kk) => kk,
            None => unreached(),
        };
        self.buckets.insert(bj, b);
        let ghost bv1 = self.buckets_view();
        proof {
            assert(bv1 =~~= bv0.update(bj as int, (m, bucket_seq(bv0, m).drop_last())));
            Self::lemma_bucket_at(bv1, bj as int);
            assert forall|g: u64| g != m implies bucket_seq(bv1, g)
                == bucket_seq(bv0, g) by {
                if exists|i: int| 0 <= i < bv0.len() && (#[trigger] bv0[i]).0 == g {
                    let i = choose|i: int| 0 <= i < bv0.len() && (#[trigger] bv0[i]).0 == g;
                    Self::lemma_bucket_at(bv0, i);
                    Self::lemma_bucket_at(bv1, i);
                } else {
                    Self::lemma_bucket_absent(bv0, g);
                    Self::lemma_bucket_absent(bv1, g);
                }
            }
            // the popped key was recorded with frequency m
            assert(bv0[bj as int].1[bucket_seq(bv0, m).len() - 1] == kk@);
            assert(freq_of(fv0, kk@) == Some(m));
        }
        // drop the loser's frequency record
        let fj = match self.find_freq(&kk) {
            Some(fj) => fj,
            None => {
                proof {
                    assert(exists|i: int| 0 <= i < fv0.len() && (#[trigger] fv0[i]).0 == kk@);
                    let i = choose|i: int| 0 <= i < fv0.len()
                        && (#[trigger] fv0[i]).0 == kk@;
                    assert(self.freq@[i].0@ == kk@);
                    assert(false);
                }
                unreached()
            }
        };
        proof {
            Self::lemma_freq_at(fv0, fj as int);
        }
        self.freq.remove(fj);
        proof {
            assert(self.freqs() =~= fv0.remove(fj as int));
            assert(self.buckets_view() == bv1);
            Self::finish_victim(&fv0, &bv0, bv1, self, kk@, m, fj as int, bj as int);
        }
        Some(kk)
    }
}


impl SimpleLfu {
    /// Re-establish the full invariant after an eviction: `fv0`/`bv0` are
    /// the original views, `bv1` the buckets after the loser `k` left the
    /// minimum bucket `m`, and the final state has the loser's frequency
    /// record at position `fj` removed.
    #[verifier::rlimit(100)]
    proof fn finish_victim(
        fv0: &Seq<(Seq<char>, u64)>,
        bv0: &Seq<(u64, Seq<Seq<char>>)>,
        bv1: Seq<(u64, Seq<Seq<char>>)>,
        post: &Self,
        k: Seq<char>,
        m: u64,
        fj: int,
        bj: int,
    )
        requires
            forall|i1: int, i2: int| 0 <= i1 < i2 < fv0.len()
                ==> (#[trigger] fv0[i1]).0 != (#[trigger] fv0[i2]).0,
            forall|i: int| 0 <= i < fv0.len() ==> (#[trigger] fv0[i]).1 >= 1,
            forall|i: int| 0 <= i < fv0.len()
                ==> seq_has(bucket_seq(*bv0, (#[trigger] fv0[i]).1), fv0[i].0),
            forall|j: int, x: int| 0 <= j < bv0.len() && 0 <= x < bv0[j].1.len()
                ==> freq_of(*fv0, #[trigger] bv0[j].1[x]) == Some(bv0[j].0),
            Self::bv_distinct(*bv0),
            Self::bv_members_distinct(*bv0),
            0 <= bj < bv0.len(),
            bv0[bj].0 == m,
            bucket_seq(*bv0, m).len() > 0,
            bucket_seq(*bv0, m).last() == k,
            bv1 == bv0.update(bj, (m, bucket_seq(*bv0, m).drop_last())),
            forall|g: u64| g != m ==> bucket_seq(bv1, g) == bucket_seq(*bv0, g),
            bucket_seq(bv1, m) == bucket_seq(*bv0, m).drop_last(),
            0 <= fj < fv0.len(),
            fv0[fj].0 == k,
            fv0[fj].1 == m,
            post.freqs() == fv0.remove(fj),
            post.buckets_view() == bv1,
        ensures
            post.wf(),
            freq_of(post.freqs(), k) is None,
            forall|k2: Seq<char>| k2 != k
                ==> freq_of(post.freqs(), k2) == freq_of(*fv0, k2),
    {
        let fv2 = post.freqs();
        assert forall|i1: int, i2: int| 0 <= i1 < i2 < fv2.len()
            implies (#[trigger] fv2[i1]).0 != (#[trigger] fv2[i2]).0 by {
            let o1 = if i1 < fj { i1 } else { i1 + 1 };
            let o2 = if i2 < fj { i2 } else { i2 + 1 };
            assert(fv2[i1] == fv0[o1] && fv2[i2] == fv0[o2]);
        }
        // the loser is no longer recorded
        assert(freq_of(fv2, k) is None) by {
            if exists|i: int| 0 <= i < fv2.len() && (#[trigger] fv2[i]).0 == k {
                let i = choose|i: int| 0 <= i < fv2.len() && (#[trigger] fv2[i]).0 == k;
                let o = if i < fj { i } else { i + 1 };
                assert(fv2[i] == fv0[o]);
                if o < fj {
                    assert(fv0[o].0 != fv0[fj].0);
                } else {
                    assert(fv0[fj].0 != fv0[o].0);
                }
            }
        }
        // every other record survives
        assert forall|k2: Seq<char>| k2 != k
            implies freq_of(fv2, k2) == freq_of(*fv0, k2) by {
            if exists|i: int| 0 <= i < fv0.len() && (#[trigger] fv0[i]).0 == k2 {
                let i = choose|i: int| 0 <= i < fv0.len() && (#[trigger] fv0[i]).0 == k2;
                assert(i != fj);
                let i2 = if i < fj { i } else { i - 1 };
                assert(fv2[i2] == fv0[i]);
                Self::lemma_freq_at(*fv0, i);
                Self::lemma_freq_at(fv2, i2);
            } else {
                if exists|i: int| 0 <= i < fv2.len() && (#[trigger] fv2[i]).0 == k2 {
                    let i = choose|i: int| 0 <= i < fv2.len() && (#[trigger] fv2[i]).0 == k2;
                    let o = if i < fj { i } else { i + 1 };
                    assert(fv2[i] == fv0[o]);
                }
            }
        }
        // surviving records still sit in their buckets
        assert forall|i: int| 0 <= i < fv2.len()
            implies seq_has(bucket_seq(bv1, (#[trigger] fv2[i]).1), fv2[i].0) by {
            let o = if i < fj { i } else { i + 1 };
            assert(fv2[i] == fv0[o]);
            let g = fv0[o].1;
            let k2 = fv0[o].0;
            assert(seq_has(bucket_seq(*bv0, g), k2));
            assert(k2 != k) by {
                if o < fj {
                    assert(fv0[o].0 != fv0[fj].0);
                } else {
                    assert(fv0[fj].0 != fv0[o].0);
                }
            }
            if g == m {
                let s = bucket_seq(*bv0, m);
                let x = seq_pos(s, k2);
                assert(s[x] == k2);
                assert(x != s.len() - 1) by {
                    assert(s[s.len() - 1] == k);
                }
                assert(s.drop_last()[x] == k2);
                assert(seq_has(bucket_seq(bv1, m), k2));
            } else {
                assert(bucket_seq(bv1, g) == bucket_seq(*bv0, g));
            }
        }
        // bucket members are still recorded with their bucket's frequency
        assert forall|j2: int, x: int| 0 <= j2 < bv1.len() && 0 <= x < bv1[j2].1.len()
            implies freq_of(fv2, #[trigger] bv1[j2].1[x]) == Some(bv1[j2].0) by {
            let g = bv1[j2].0;
            let k2 = bv1[j2].1[x];
            if j2 == bj {
                assert(bv1[j2].1 == bucket_seq(*bv0, m).drop_last());
                assert(k2 == bucket_seq(*bv0, m)[x]);
                assert(bv0[bj].1[x] == k2);
                assert(freq_of(*fv0, k2) == Some(g));
            } else {
                assert(bv1[j2] == bv0[j2]);
                assert(freq_of(*fv0, k2) == Some(g));
            }
            assert(k2 != k) by {
                if k2 == k {
                    if j2 == bj {
                        let s = bucket_seq(*bv0, m);
                        assert(bv0[bj].1 == s);
                        assert(bv0[bj].1[x] == k && bv0[bj].1[s.len() - 1] == k);
                        assert(x < s.len() - 1);
                        assert(seq_distinct(bv0[bj].1));
                    } else {
                        assert(freq_of(*fv0, k) == Some(g));
                        Self::lemma_freq_at(*fv0, fj);
                        assert(g != m);
                        assert(bv0[j2].0 != bv0[bj].0);
                    }
                }
            }
        }
        // positivity and bucket shape
        assert forall|i: int| 0 <= i < fv2.len() implies (#[trigger] fv2[i]).1 >= 1 by {
            let o = if i < fj { i } else { i + 1 };
            assert(fv2[i] == fv0[o]);
        }
        assert forall|j2: int| 0 <= j2 < bv1.len()
            implies seq_distinct((#[trigger] bv1[j2]).1) by {
            if j2 == bj {
                let s = bucket_seq(*bv0, m);
                assert(bv1[j2].1 == s.drop_last());
                assert(seq_distinct(bv0[bj].1));
                assert forall|x1: int, x2: int| 0 <= x1 < x2 < s.drop_last().len()
                    implies s.drop_last()[x1] != s.drop_last()[x2] by {
                    assert(s[x1] == s.drop_last()[x1] && s[x2] == s.drop_last()[x2]);
                }
            } else {
                assert(bv1[j2] == bv0[j2]);
            }
        }
        assert forall|i1: int, i2: int| 0 <= i1 < i2 < bv1.len()
            implies (#[trigger] bv1[i1]).0 != (#[trigger] bv1[i2]).0 by {
            assert(bv1[i1].0 == bv0[i1].0 && bv1[i2].0 == bv0[i2].0);
        }
    }
}

} // verus!
