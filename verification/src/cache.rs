//! A frequency-decaying cache: a bounded key→value store that ranks
//! eviction candidates by cumulative access weight.
//!
//! Every entry carries a weight that grows as the entry is accessed. When
//! an insertion finds the cache full, the entry with the lowest weight is
//! evicted, ties broken towards the smaller key. Access counts are also
//! recorded in the current one of a rolling window of frames;
//! [`Cache::next_cache_frame`] rotates the window and subtracts the counts
//! of the frame that falls out of it, so an entry's weight approximates its
//! popularity over the recent frames rather than over all time.

use vstd::prelude::*;

verus! {

use crate::dataloader::ID;

/// A stored value together with its access tally, as one cache slot holds
/// it.
#[allow(dead_code)]
pub struct CacheItem<T> {
    item: T,
    accessed: u32,
}

/// The cumulative access weight of one cached entry.
pub struct AccessInfo {
    pub id: ID,
    pub accessed: u32,
}

/// The map an association list denotes: later entries win, though the
/// cache keeps its keys distinct.
pub open spec fn amap<V>(s: Seq<(ID, V)>) -> Map<ID, V>
    decreases s.len(),
{
    if s.len() == 0 {
        Map::empty()
    } else {
        amap(s.drop_last()).insert(s.last().0, s.last().1)
    }
}

/// No key appears twice.
pub open spec fn distinct_keys<V>(s: Seq<(ID, V)>) -> bool {
    forall|i: int, j: int| 0 <= i < j < s.len() ==> (#[trigger] s[i]).0 != (#[trigger] s[j]).0
}

/// A key is in the denoted map exactly when some entry carries it.
pub proof fn lemma_amap_contains<V>(s: Seq<(ID, V)>, k: ID)
    ensures
        amap(s).contains_key(k) <==> exists|i: int| 0 <= i < s.len() && (#[trigger] s[i]).0 == k,
    decreases s.len(),
{
    if s.len() > 0 {
        lemma_amap_contains(s.drop_last(), k);
        if s.last().0 == k {
            assert(s[s.len() - 1].0 == k);
        } else if exists|i: int| 0 <= i < s.len() - 1 && (#[trigger] s.drop_last()[i]).0 == k {
            let i = choose|i: int| 0 <= i < s.len() - 1 && (#[trigger] s.drop_last()[i]).0 == k;
            assert(s[i].0 == k);
        } else if exists|i: int| 0 <= i < s.len() && (#[trigger] s[i]).0 == k {
            let i = choose|i: int| 0 <= i < s.len() && (#[trigger] s[i]).0 == k;
            if i < s.len() - 1 {
                assert(s.drop_last()[i].0 == k);
            }
        }
    }
}

/// With distinct keys, each entry's key maps to that entry's value.
pub proof fn lemma_amap_index<V>(s: Seq<(ID, V)>, i: int)
    requires
        distinct_keys(s),
        0 <= i < s.len(),
    ensures
        amap(s).contains_key(s[i].0),
        amap(s)[s[i].0] == s[i].1,
    decreases s.len(),
{
    if i == s.len() - 1 {
    } else {
        assert(distinct_keys(s.drop_last())) by {
            assert forall|p: int, q: int| 0 <= p < q < s.len() - 1 implies
                (#[trigger] s.drop_last()[p]).0 != (#[trigger] s.drop_last()[q]).0 by {
                assert(s[p].0 != s[q].0);
            }
        }
        assert(s.drop_last()[i] == s[i]);
        lemma_amap_index(s.drop_last(), i);
        assert(s[i].0 != s.last().0);
    }
}

/// With distinct keys, the denoted map has exactly one entry per list
/// entry, and is finite.
pub proof fn lemma_amap_len<V>(s: Seq<(ID, V)>)
    requires
        distinct_keys(s),
    ensures
        amap(s).dom().finite(),
        amap(s).dom().len() == s.len(),
    decreases s.len(),
{
    if s.len() > 0 {
        assert(distinct_keys(s.drop_last())) by {
            assert forall|p: int, q: int| 0 <= p < q < s.len() - 1 implies
                (#[trigger] s.drop_last()[p]).0 != (#[trigger] s.drop_last()[q]).0 by {
                assert(s[p].0 != s[q].0);
            }
        }
        lemma_amap_len(s.drop_last());
        lemma_amap_contains(s.drop_last(), s.last().0);
        assert(!amap(s.drop_last()).contains_key(s.last().0)) by {
            if exists|i: int|
                0 <= i < s.len() - 1 && (#[trigger] s.drop_last()[i]).0 == s.last().0 {
                let i = choose|i: int|
                    0 <= i < s.len() - 1 && (#[trigger] s.drop_last()[i]).0 == s.last().0;
                assert(s[i].0 == s[s.len() - 1].0);
                assert(false);
            }
        }
    }
}

/// Overwriting an entry's value in place overwrites it in the denoted map.
pub proof fn lemma_amap_update<V>(s: Seq<(ID, V)>, i: int, v: V)
    requires
        distinct_keys(s),
        0 <= i < s.len(),
    ensures
        distinct_keys(s.update(i, (s[i].0, v))),
        amap(s.update(i, (s[i].0, v))) == amap(s).insert(s[i].0, v),
{
    let t = s.update(i, (s[i].0, v));
    assert(distinct_keys(t)) by {
        assert forall|p: int, q: int| 0 <= p < q < t.len() implies (#[trigger] t[p]).0 != (
        #[trigger] t[q]).0 by {
            assert(s[p].0 != s[q].0);
        }
    }
    assert forall|k: ID| #![auto] amap(t).contains_key(k) <==> amap(s).insert(
        s[i].0,
        v,
    ).contains_key(k) by {
        lemma_amap_contains(t, k);
        lemma_amap_contains(s, k);
        if exists|j: int| 0 <= j < t.len() && (#[trigger] t[j]).0 == k {
            let j = choose|j: int| 0 <= j < t.len() && (#[trigger] t[j]).0 == k;
            assert(s[j].0 == k);
        }
        if exists|j: int| 0 <= j < s.len() && (#[trigger] s[j]).0 == k {
            let j = choose|j: int| 0 <= j < s.len() && (#[trigger] s[j]).0 == k;
            assert(t[j].0 == k);
        }
    }
    assert forall|k: ID| #![auto] amap(t).contains_key(k) implies amap(t)[k] == amap(s).insert(
        s[i].0,
        v,
    )[k] by {
        lemma_amap_contains(t, k);
        let j = choose|j: int| 0 <= j < t.len() && (#[trigger] t[j]).0 == k;
        lemma_amap_index(t, j);
        lemma_amap_index(s, j);
        if j != i {
            assert(s[j].0 != s[i].0);
        }
    }
    assert(amap(t) =~= amap(s).insert(s[i].0, v));
}

/// Appending an entry for a fresh key adds it to the denoted map.
pub proof fn lemma_amap_push<V>(s: Seq<(ID, V)>, k: ID, v: V)
    requires
        distinct_keys(s),
        forall|i: int| 0 <= i < s.len() ==> (#[trigger] s[i]).0 != k,
    ensures
        distinct_keys(s.push((k, v))),
        amap(s.push((k, v))) == amap(s).insert(k, v),
{
    let t = s.push((k, v));
    assert(distinct_keys(t)) by {
        assert forall|p: int, q: int| 0 <= p < q < t.len() implies (#[trigger] t[p]).0 != (
        #[trigger] t[q]).0 by {
            if q == s.len() {
                assert(s[p].0 != k);
            } else {
                assert(s[p].0 != s[q].0);
            }
        }
    }
    assert(t.drop_last() =~= s);
    assert(t.last() == (k, v));
}

/// Removing the entry at `i` by swapping the last entry into its place
/// removes exactly that entry's key from the denoted map.
pub proof fn lemma_amap_swap_remove<V>(s: Seq<(ID, V)>, i: int)
    requires
        distinct_keys(s),
        0 <= i < s.len(),
    ensures
        distinct_keys(s.update(i, s.last()).drop_last()),
        amap(s.update(i, s.last()).drop_last()) == amap(s).remove(s[i].0),
{
    let t = s.update(i, s.last()).drop_last();
    assert(distinct_keys(t)) by {
        assert forall|p: int, q: int| 0 <= p < q < t.len() implies (#[trigger] t[p]).0 != (
        #[trigger] t[q]).0 by {
            if p == i {
                assert(s[s.len() - 1].0 != s[q].0);
            } else if q == i {
                assert(s[p].0 != s[s.len() - 1].0);
            } else {
                assert(s[p].0 != s[q].0);
            }
        }
    }
    assert forall|k: ID| #![auto] amap(t).contains_key(k) <==> amap(s).remove(
        s[i].0,
    ).contains_key(k) by {
        lemma_amap_contains(t, k);
        lemma_amap_contains(s, k);
        if exists|j: int| 0 <= j < t.len() && (#[trigger] t[j]).0 == k {
            let j = choose|j: int| 0 <= j < t.len() && (#[trigger] t[j]).0 == k;
            if j == i {
                assert(s[s.len() - 1].0 == k);
            } else {
                assert(s[j].0 == k);
            }
            assert(k != s[i].0);
        }
        if amap(s).remove(s[i].0).contains_key(k) {
            let j = choose|j: int| 0 <= j < s.len() && (#[trigger] s[j]).0 == k;
            if j == s.len() - 1 {
                if i < s.len() - 1 {
                    assert(t[i].0 == k);
                } else {
                    assert(false);
                }
            } else {
                assert(t[j].0 == k);
            }
        }
    }
    assert forall|k: ID| #![auto] amap(t).contains_key(k) implies amap(t)[k] == amap(s).remove(
        s[i].0,
    )[k] by {
        lemma_amap_contains(t, k);
        let j = choose|j: int| 0 <= j < t.len() && (#[trigger] t[j]).0 == k;
        lemma_amap_index(t, j);
        if j == i {
            lemma_amap_index(s, s.len() - 1);
        } else {
            lemma_amap_index(s, j);
        }
        assert(k != s[i].0);
    }
    assert(amap(t) =~= amap(s).remove(s[i].0));
}

/// `a` goes before `b` in eviction order: strictly lighter, or as light
/// with the smaller key.
pub open spec fn outranks(a: AccessInfo, b: AccessInfo) -> bool {
    a.accessed < b.accessed || (a.accessed == b.accessed && a.id <= b.id)
}

/// `victim` is the entry a full cache gives up: no entry is lighter, and
/// among the lightest it has the smallest key.
pub open spec fn eviction_victim<T>(m: Map<ID, (T, u32)>, victim: ID) -> bool {
    &&& m.contains_key(victim)
    &&& forall|k: ID|
        #[trigger] m.contains_key(k) ==> m[victim].1 < m[k].1 || (m[victim].1 == m[k].1 && victim
            <= k)
}

/// The eviction order has one first entry: the tie-break on keys leaves no
/// choice.
pub proof fn lemma_victim_unique<T>(m: Map<ID, (T, u32)>, a: ID, b: ID)
    requires
        eviction_victim(m, a),
        eviction_victim(m, b),
    ensures
        a == b,
{
    assert(m.contains_key(a));
    assert(m.contains_key(b));
}

/// An access count as the signed weight arithmetic takes it: counts beyond
/// the signed range are capped there.
pub open spec fn counted(count: u32) -> int {
    if count > 0x7FFF_FFFF {
        0x7FFF_FFFF
    } else {
        count as int
    }
}

/// A weight after the decrements that the first `upto` entries of an
/// expiring frame apply to key `k`.
pub open spec fn decayed(w0: u32, fr: Seq<(ID, u32)>, upto: int, k: ID) -> u32
    decreases upto,
{
    if upto <= 0 {
        w0
    } else {
        let prev = decayed(w0, fr, upto - 1, k);
        if fr[upto - 1].0 == k {
            clamped(prev, -counted(fr[upto - 1].1))
        } else {
            prev
        }
    }
}

/// Entries for other keys leave a weight alone.
proof fn lemma_decayed_prefix(w0: u32, fr: Seq<(ID, u32)>, upto: int, k: ID)
    requires
        0 <= upto <= fr.len(),
        forall|j: int| 0 <= j < upto ==> (#[trigger] fr[j]).0 != k,
    ensures
        decayed(w0, fr, upto, k) == w0,
    decreases upto,
{
    if upto > 0 {
        lemma_decayed_prefix(w0, fr, upto - 1, k);
    }
}

/// With distinct keys, a frame decrements a weight exactly once: by its
/// one entry for the key, or not at all.
proof fn lemma_decayed_full(w0: u32, fr: Seq<(ID, u32)>, upto: int, k: ID)
    requires
        distinct_keys(fr),
        0 <= upto <= fr.len(),
    ensures
        (forall|j: int| 0 <= j < upto ==> (#[trigger] fr[j]).0 != k) ==> decayed(w0, fr, upto, k)
            == w0,
        forall|j: int|
            0 <= j < upto && (#[trigger] fr[j]).0 == k ==> decayed(w0, fr, upto, k) == clamped(
                w0,
                -counted(fr[j].1),
            ),
    decreases upto,
{
    if upto > 0 {
        lemma_decayed_full(w0, fr, upto - 1, k);
        assert forall|j: int|
            0 <= j < upto && (#[trigger] fr[j]).0 == k implies decayed(w0, fr, upto, k) == clamped(
            w0,
            -counted(fr[j].1),
        ) by {
            if j == upto - 1 {
                lemma_decayed_prefix(w0, fr, upto - 1, k);
            } else {
                assert(fr[j].0 != fr[upto - 1].0);
            }
        }
    }
}

/// A weight moved by a signed amount, clamped to the weight range: a bump
/// saturates at the top, a decay stops at zero.
pub open spec fn clamped(w: u32, incr: int) -> u32 {
    if w + incr < 0 {
        0u32
    } else if w + incr > u32::MAX {
        u32::MAX
    } else {
        (w + incr) as u32
    }
}

/// No id appears twice in a weight list.
pub open spec fn distinct_infos(s: Seq<AccessInfo>) -> bool {
    forall|i: int, j: int| 0 <= i < j < s.len() ==> (#[trigger] s[i]).id != (#[trigger] s[j]).id
}

/// Moves a weight by `incr`, clamping as [`clamped`] says.
fn apply_clamp(w: u32, incr: i32) -> (r: u32)
    ensures
        r == clamped(w, incr as int),
{
    let x: i64 = w as i64 + incr as i64;
    if x < 0 {
        0
    } else if x > u32::MAX as i64 {
        u32::MAX
    } else {
        x as u32
    }
}

/// The cache: the stored values, their access weights (kept aligned with
/// the values, index for index), the rolling window of access-count
/// frames, and the two bounds.
pub struct Cache<T> {
    items: Vec<(ID, T)>,
    total: Vec<AccessInfo>,
    frames: Vec<Vec<(ID, u32)>>,
    current_frame: usize,
    max_size: usize,
    max_frames: usize,
}

impl<T> Cache<T> {
    /// The stored entries as one association list: each key with its value
    /// and its cumulative access weight.
    pub closed spec fn pairs(self) -> Seq<(ID, (T, u32))> {
        Seq::new(
            self.items@.len(),
            |i: int| (self.items@[i].0, (self.items@[i].1, self.total@[i].accessed)),
        )
    }

    /// What the cache holds: each cached key, its value and its weight.
    pub closed spec fn entries(self) -> Map<ID, (T, u32)> {
        amap(self.pairs())
    }

    /// The most entries the cache will hold.
    pub closed spec fn capacity(self) -> int {
        self.max_size as int
    }

    /// The most frames the rolling window will grow to.
    pub closed spec fn frame_limit(self) -> int {
        self.max_frames as int
    }

    /// Number of frames the window currently has.
    pub closed spec fn frame_count(self) -> int {
        self.frames@.len() as int
    }

    /// Index of the frame now collecting access counts.
    pub closed spec fn current(self) -> int {
        self.current_frame as int
    }

    /// The access counts frame `f` holds.
    pub closed spec fn frame(self, f: int) -> Map<ID, u32>
        recommends
            0 <= f < self.frame_count(),
    {
        amap(self.frames@[f]@)
    }

    /// Well-formedness: the two bounds are positive, the values and their
    /// weights line up key for key with no key stored twice, the cache
    /// never exceeds its capacity, and the frame window holds between one
    /// and `frame_limit` frames with the current index inside it.
    pub closed spec fn wf(self) -> bool {
        &&& 1 <= self.max_size
        &&& 1 <= self.max_frames
        &&& self.items@.len() == self.total@.len()
        &&& self.items@.len() <= self.max_size
        &&& forall|i: int|
            0 <= i < self.items@.len() ==> (#[trigger] self.items@[i]).0 == self.total@[i].id
        &&& distinct_keys(self.pairs())
        &&& 1 <= self.frames@.len() <= self.max_frames
        &&& self.current_frame < self.frames@.len()
        &&& forall|f: int| 0 <= f < self.frames@.len() ==> distinct_keys((#[trigger] self.frames@[f])@)
    }

    /// An empty cache with one empty frame.
    pub fn new(max_size: usize, max_frames: usize) -> (r: Cache<T>)
        requires
            max_size >= 1,
            max_frames >= 1,
        ensures
            r.wf(),
            r.entries() == Map::<ID, (T, u32)>::empty(),
            r.capacity() == max_size,
            r.frame_limit() == max_frames,
            r.frame_count() == 1,
            r.current() == 0,
            r.frame(0) == Map::<ID, u32>::empty(),
    {
        let mut frames: Vec<Vec<(ID, u32)>> = Vec::new();
        frames.push(Vec::new());
        let r = Cache {
            items: Vec::new(),
            total: Vec::new(),
            frames,
            current_frame: 0,
            max_size,
            max_frames,
        };
        proof {
            assert(r.pairs() =~= Seq::<(ID, (T, u32))>::empty());
            assert(r.entries() =~= Map::<ID, (T, u32)>::empty());
            assert(r.frame(0) =~= Map::<ID, u32>::empty());
        }
        r
    }

    /// Index of the entry for `id`, if the cache holds one.
    fn find(&self, id: ID) -> (r: Option<usize>)
        requires
            self.wf(),
        ensures
            match r {
                Some(i) => i < self.items@.len() && self.items@[i as int].0 == id,
                None => forall|i: int|
                    0 <= i < self.items@.len() ==> (#[trigger] self.items@[i]).0 != id,
            },
    {
        let mut i: usize = 0;
        while i < self.items.len()
            invariant
                i <= self.items@.len(),
                forall|j: int| 0 <= j < i ==> (#[trigger] self.items@[j]).0 != id,
            decreases self.items@.len() - i,
        {
            if self.items[i].0 == id {
                return Some(i);
            }
            i = i + 1;
        }
        None
    }

    /// Moves the weight recorded for `id` by `incr`, clamping as
    /// [`clamped`] says; a list that holds no weight for `id` is left as it
    /// is. Every other entry keeps its place and its weight.
    pub fn modify_total(total: &mut Vec<AccessInfo>, id: ID, incr: i32)
        requires
            distinct_infos(old(total)@),
        ensures
            final(total)@.len() == old(total)@.len(),
            forall|j: int|
                0 <= j < old(total)@.len() && (#[trigger] old(total)@[j]).id != id
                    ==> final(total)@[j] == old(total)@[j],
            forall|j: int|
                0 <= j < old(total)@.len() && (#[trigger] old(total)@[j]).id == id ==> {
                    &&& final(total)@[j].id == id
                    &&& final(total)@[j].accessed == clamped(old(total)@[j].accessed, incr as int)
                },
    {
        let mut j: usize = 0;
        while j < total.len()
            invariant
                distinct_infos(old(total)@),
                j <= total@.len(),
                total@.len() == old(total)@.len(),
                forall|p: int| 0 <= p < total@.len() ==> total@[p] == old(total)@[p],
                forall|p: int| 0 <= p < j ==> (#[trigger] old(total)@[p]).id != id,
            decreases total@.len() - j,
        {
            if total[j].id == id {
                let w = total[j].accessed;
                total.set(j, AccessInfo { id, accessed: apply_clamp(w, incr) });
                proof {
                    assert forall|p: int|
                        0 <= p < old(total)@.len() && (#[trigger] old(total)@[p]).id == id implies p
                        == j by {
                        if p < j {
                        } else if p > j {
                            assert(old(total)@[j as int].id != old(total)@[p].id);
                        }
                    }
                }
                return ;
            }
            j = j + 1;
        }
    }

    /// The ids in the weight list are the stored keys, so they are
    /// distinct.
    proof fn lemma_total_distinct(self)
        requires
            self.wf(),
        ensures
            distinct_infos(self.total@),
    {
        assert forall|p: int, q: int| 0 <= p < q < self.total@.len() implies
            (#[trigger] self.total@[p]).id != (#[trigger] self.total@[q]).id by {
            assert(self.pairs()[p].0 != self.pairs()[q].0);
        }
    }

    /// Looks `id` up and, when it is cached, bumps its weight by
    /// `accessed` (clamped) and returns the stored value; the frames are
    /// untouched.
    pub fn get(&mut self, id: ID, accessed: i32) -> (r: Option<&T>)
        requires
            old(self).wf(),
        ensures
            final(self).wf(),
            final(self).capacity() == old(self).capacity(),
            final(self).frame_limit() == old(self).frame_limit(),
            final(self).frame_count() == old(self).frame_count(),
            final(self).current() == old(self).current(),
            forall|f: int|
                0 <= f < old(self).frame_count() ==> final(self).frame(f) == old(self).frame(f),
            !old(self).entries().contains_key(id) ==> r is None && final(self).entries() == old(
                self,
            ).entries(),
            old(self).entries().contains_key(id) ==> {
                &&& r matches Some(v) && *v == old(self).entries()[id].0
                &&& final(self).entries() == old(self).entries().insert(
                    id,
                    (old(self).entries()[id].0, clamped(old(self).entries()[id].1, accessed as int)),
                )
            },
    {
        let found = self.find(id);
        match found {
            Some(i) => {
                proof {
                    self.lemma_total_distinct();
                    lemma_amap_index(self.pairs(), i as int);
                }
                let ghost old_pairs = self.pairs();
                Self::modify_total(&mut self.total, id, accessed);
                proof {
                    let value = self.items@[i as int].1;
                    let w = clamped(old(self).total@[i as int].accessed, accessed as int);
                    assert forall|p: int|
                        0 <= p < old_pairs.len() && p != i implies self.pairs()[p] == old_pairs[p] by {
                        assert(old(self).total@[p].id != id);
                    }
                    assert(self.pairs() =~= old_pairs.update(i as int, (id, (value, w))));
                    lemma_amap_update(old_pairs, i as int, (value, w));
                }
                Some(&self.items[i].1)
            },
            None => {
                proof {
                    lemma_amap_contains(self.pairs(), id);
                    if exists|j: int| 0 <= j < self.pairs().len() && (#[trigger] self.pairs()[j]).0
                        == id {
                        let j = choose|j: int|
                            0 <= j < self.pairs().len() && (#[trigger] self.pairs()[j]).0 == id;
                        assert(self.items@[j].0 == id);
                        assert(false);
                    }
                }
                None
            },
        }
    }

    /// Index of the entry a full cache gives up: the lightest, ties
    /// towards the smaller key.
    fn min_index(&self) -> (r: usize)
        requires
            self.wf(),
            self.items@.len() > 0,
        ensures
            r < self.total@.len(),
            forall|j: int|
                0 <= j < self.total@.len() ==> outranks(
                    self.total@[r as int],
                    #[trigger] self.total@[j],
                ),
    {
        let mut best: usize = 0;
        let mut j: usize = 1;
        while j < self.total.len()
            invariant
                best < j,
                j <= self.total@.len(),
                forall|p: int|
                    0 <= p < j ==> outranks(self.total@[best as int], #[trigger] self.total@[p]),
            decreases self.total@.len() - j,
        {
            let a = self.total[j].accessed;
            let b = self.total[best].accessed;
            if a < b || (a == b && self.total[j].id < self.total[best].id) {
                best = j;
            }
            j = j + 1;
        }
        best
    }

    /// Stores `item` under `id`. A key already cached keeps its entry:
    /// the value is replaced and the weight bumped by `accessed` (clamped).
    /// A fresh key enters with weight `accessed` (clamped at zero from
    /// below); when the cache is full, the entry with the lowest weight —
    /// ties broken towards the smaller key — is evicted to make room. The
    /// frames are untouched.
    pub fn insert(&mut self, id: ID, item: T, accessed: i32)
        requires
            old(self).wf(),
        ensures
            final(self).wf(),
            final(self).capacity() == old(self).capacity(),
            final(self).frame_limit() == old(self).frame_limit(),
            final(self).frame_count() == old(self).frame_count(),
            final(self).current() == old(self).current(),
            forall|f: int|
                0 <= f < old(self).frame_count() ==> final(self).frame(f) == old(self).frame(f),
            old(self).entries().contains_key(id) ==> final(self).entries() == old(
                self,
            ).entries().insert(
                id,
                (item, clamped(old(self).entries()[id].1, accessed as int)),
            ),
            !old(self).entries().contains_key(id) && old(self).entries().dom().len() < old(
                self,
            ).capacity() ==> final(self).entries() == old(self).entries().insert(
                id,
                (item, clamped(0u32, accessed as int)),
            ),
            !old(self).entries().contains_key(id) && old(self).entries().dom().len() == old(
                self,
            ).capacity() ==> exists|victim: ID|
                {
                    &&& #[trigger] eviction_victim(old(self).entries(), victim)
                    &&& final(self).entries() == old(self).entries().remove(victim).insert(
                        id,
                        (item, clamped(0u32, accessed as int)),
                    )
                },
    {
        proof {
            lemma_amap_len(self.pairs());
        }
        let found = self.find(id);
        match found {
            Some(i) => {
                proof {
                    self.lemma_total_distinct();
                    lemma_amap_index(self.pairs(), i as int);
                }
                let ghost old_pairs = self.pairs();
                self.items.set(i, (id, item));
                Self::modify_total(&mut self.total, id, accessed);
                proof {
                    let w = clamped(old(self).total@[i as int].accessed, accessed as int);
                    assert forall|p: int|
                        0 <= p < old_pairs.len() && p != i implies self.pairs()[p] == old_pairs[p] by {
                        assert(old(self).total@[p].id != id);
                    }
                    assert(self.pairs() =~= old_pairs.update(i as int, (id, (item, w))));
                    lemma_amap_update(old_pairs, i as int, (item, w));
                }
            },
            None => {
                proof {
                    lemma_amap_contains(self.pairs(), id);
                    if exists|j: int| 0 <= j < self.pairs().len() && (#[trigger] self.pairs()[j]).0
                        == id {
                        let j = choose|j: int|
                            0 <= j < self.pairs().len() && (#[trigger] self.pairs()[j]).0 == id;
                        assert(self.items@[j].0 == id);
                        assert(false);
                    }
                }
                let ghost pre_evict = *self;
                if self.items.len() == self.max_size {
                    let vi = self.min_index();
                    let ghost victim = self.items@[vi as int].0;
                    let ghost old_pairs = self.pairs();
                    self.items.swap_remove(vi);
                    self.total.swap_remove(vi);
                    proof {
                        assert(self.pairs() =~= old_pairs.update(
                            vi as int,
                            old_pairs.last(),
                        ).drop_last());
                        lemma_amap_swap_remove(old_pairs, vi as int);
                        assert(eviction_victim(pre_evict.entries(), victim)) by {
                            lemma_amap_index(old_pairs, vi as int);
                            assert forall|k: ID| #[trigger] pre_evict.entries().contains_key(
                                k,
                            ) implies pre_evict.entries()[victim].1 < pre_evict.entries()[k].1 || (
                            pre_evict.entries()[victim].1 == pre_evict.entries()[k].1 && victim
                                <= k) by {
                                lemma_amap_contains(old_pairs, k);
                                let j = choose|j: int|
                                    0 <= j < old_pairs.len() && (#[trigger] old_pairs[j]).0 == k;
                                lemma_amap_index(old_pairs, j);
                                assert(outranks(
                                    pre_evict.total@[vi as int],
                                    pre_evict.total@[j],
                                ));
                            }
                        }
                    }
                }
                let w0 = apply_clamp(0, accessed);
                let ghost mid_pairs = self.pairs();
                self.items.push((id, item));
                self.total.push(AccessInfo { id, accessed: w0 });
                proof {
                    assert(self.pairs() =~= mid_pairs.push((id, (item, w0))));
                    assert forall|j: int| 0 <= j < mid_pairs.len() implies
                        (#[trigger] mid_pairs[j]).0 != id by {
                        assert(pre_evict.entries().contains_key(mid_pairs[j].0) || true);
                    }
                    lemma_amap_push(mid_pairs, id, (item, w0));
                    lemma_amap_len(mid_pairs);
                }
            },
        }
    }

    /// Records `count` accesses to `id`: the cumulative weight is bumped
    /// (for a cached key; the count is capped at the signed range and the
    /// weight saturates), and the count is added to the current frame's
    /// tally for the key, cached or not.
    pub fn access(&mut self, id: ID, count: u32)
        requires
            old(self).wf(),
        ensures
            final(self).wf(),
            final(self).capacity() == old(self).capacity(),
            final(self).frame_limit() == old(self).frame_limit(),
            final(self).frame_count() == old(self).frame_count(),
            final(self).current() == old(self).current(),
            !old(self).entries().contains_key(id) ==> final(self).entries() == old(self).entries(),
            old(self).entries().contains_key(id) ==> final(self).entries() == old(
                self,
            ).entries().insert(
                id,
                (old(self).entries()[id].0, clamped(old(self).entries()[id].1, counted(count))),
            ),
            forall|f: int|
                0 <= f < old(self).frame_count() && f != old(self).current() ==> final(self).frame(
                    f,
                ) == old(self).frame(f),
            final(self).frame(old(self).current()) == old(self).frame(old(self).current()).insert(
                id,
                clamped(
                    if old(self).frame(old(self).current()).contains_key(id) {
                        old(self).frame(old(self).current())[id]
                    } else {
                        0u32
                    },
                    counted(count),
                ),
            ),
    {
        let c: i32 = if count > 0x7FFF_FFFF {
            0x7FFF_FFFF
        } else {
            count as i32
        };
        proof {
            self.lemma_total_distinct();
        }
        let ghost old_pairs = self.pairs();
        Self::modify_total(&mut self.total, id, c);
        proof {
            lemma_amap_contains(old_pairs, id);
            if old(self).entries().contains_key(id) {
                let j = choose|j: int| 0 <= j < old_pairs.len() && (#[trigger] old_pairs[j]).0 == id;
                lemma_amap_index(old_pairs, j);
                let w = clamped(old(self).total@[j].accessed, c as int);
                assert forall|p: int|
                    0 <= p < old_pairs.len() && p != j implies self.pairs()[p] == old_pairs[p] by {
                    assert(old(self).total@[p].id != id);
                }
                assert(self.pairs() =~= old_pairs.update(j, (id, (old_pairs[j].1.0, w))));
                lemma_amap_update(old_pairs, j, (old_pairs[j].1.0, w));
            } else {
                assert forall|p: int|
                    0 <= p < old_pairs.len() implies self.pairs()[p] == old_pairs[p] by {
                    if old(self).total@[p].id == id {
                        assert(old_pairs[p].0 == id);
                        assert(false);
                    }
                }
                assert(self.pairs() =~= old_pairs);
            }
        }
        let cur = self.current_frame;
        let ghost old_frame = self.frames@[cur as int]@;
        let found = Self::find_in_frame(&self.frames[cur], id);
        match found {
            Some(j) => {
                let c0 = self.frames[cur][j].1;
                let fr = &mut self.frames[cur];
                fr.set(j, (id, apply_clamp(c0, c)));
                proof {
                    lemma_amap_index(old_frame, j as int);
                    lemma_amap_update(old_frame, j as int, clamped(c0, c as int));
                }
            },
            None => {
                proof {
                    lemma_amap_contains(old_frame, id);
                }
                let fr = &mut self.frames[cur];
                let c0: u32 = c as u32;
                fr.push((id, c0));
                proof {
                    lemma_amap_push(old_frame, id, c0);
                }
            },
        }
    }

    /// Index of a frame's tally for `id`, if it has one.
    fn find_in_frame(fr: &Vec<(ID, u32)>, id: ID) -> (r: Option<usize>)
        ensures
            match r {
                Some(i) => i < fr@.len() && fr@[i as int].0 == id,
                None => forall|i: int| 0 <= i < fr@.len() ==> (#[trigger] fr@[i]).0 != id,
            },
    {
        let mut i: usize = 0;
        while i < fr.len()
            invariant
                i <= fr@.len(),
                forall|j: int| 0 <= j < i ==> (#[trigger] fr@[j]).0 != id,
            decreases fr@.len() - i,
        {
            if fr[i].0 == id {
                return Some(i);
            }
            i = i + 1;
        }
        None
    }

    /// Advances the rolling window: the window grows by one empty frame
    /// while it is below `frame_limit`, then the current index moves one
    /// step round the window. The frame it lands on is the oldest; its
    /// counts are subtracted from the cached entries' weights (capped at
    /// the signed range, stopping at zero) and the frame is cleared to
    /// collect the counts of the period now beginning.
    pub fn next_cache_frame(&mut self)
        requires
            old(self).wf(),
        ensures
            final(self).wf(),
            final(self).capacity() == old(self).capacity(),
            final(self).frame_limit() == old(self).frame_limit(),
            final(self).frame_count() == (if old(self).frame_count() < old(self).frame_limit() {
                old(self).frame_count() + 1
            } else {
                old(self).frame_count()
            }),
            final(self).current() == (old(self).current() + 1) % final(self).frame_count(),
            final(self).frame(final(self).current()) == Map::<ID, u32>::empty(),
            forall|f: int|
                0 <= f < old(self).frame_count() && f != final(self).current()
                    ==> final(self).frame(f) == old(self).frame(f),
            final(self).entries().dom() == old(self).entries().dom(),
            forall|k: ID|
                #![auto]
                old(self).entries().contains_key(k) ==> {
                    &&& final(self).entries()[k].0 == old(self).entries()[k].0
                    &&& final(self).entries()[k].1 == clamped(
                        old(self).entries()[k].1,
                        -decay_for(*old(self), final(self).current(), k),
                    )
                },
    {
        if self.frames.len() < self.max_frames {
            self.frames.push(Vec::new());
        }
        let cur = (self.current_frame + 1) % self.frames.len();
        self.current_frame = cur;
        let ghost pre = *self;
        let ghost fr_seq = self.frames@[cur as int]@;
        let ghost old_pairs = self.pairs();
        proof {
            self.lemma_total_distinct();
        }
        let n = self.frames[cur].len();
        let mut i: usize = 0;
        while i < n
            invariant
                i <= n,
                cur < self.frames@.len(),
                self.frames == pre.frames,
                self.items == pre.items,
                self.current_frame == pre.current_frame,
                self.max_size == pre.max_size,
                self.max_frames == pre.max_frames,
                cur == pre.current_frame,
                n == fr_seq.len(),
                fr_seq == self.frames@[cur as int]@,
                distinct_keys(fr_seq),
                self.total@.len() == pre.total@.len(),
                distinct_infos(self.total@),
                forall|p: int|
                    0 <= p < self.total@.len()
                        ==> (#[trigger] self.total@[p]).id == pre.total@[p].id,
                forall|p: int|
                    0 <= p < self.total@.len() ==> (#[trigger] self.total@[p]).accessed == decayed(
                        pre.total@[p].accessed,
                        fr_seq,
                        i as int,
                        pre.total@[p].id,
                    ),
            decreases n - i,
        {
            let eid = self.frames[cur][i].0;
            let c0 = self.frames[cur][i].1;
            let dec: i32 = if c0 > 0x7FFF_FFFF {
                0x7FFF_FFFF
            } else {
                c0 as i32
            };
            let ghost before = self.total@;
            Self::modify_total(&mut self.total, eid, -dec);
            proof {
                assert forall|p: int| 0 <= p < self.total@.len() implies (#[trigger] self.total@[p]).id
                    == before[p].id by {
                    if before[p].id == eid {
                    }
                }
                assert(distinct_infos(self.total@)) by {
                    assert forall|p: int, q: int| 0 <= p < q < self.total@.len() implies
                        (#[trigger] self.total@[p]).id != (#[trigger] self.total@[q]).id by {
                        assert(before[p].id != before[q].id);
                    }
                }
                assert forall|p: int| 0 <= p < self.total@.len() implies
                    (#[trigger] self.total@[p]).accessed == decayed(
                    pre.total@[p].accessed,
                    fr_seq,
                    i + 1,
                    pre.total@[p].id,
                ) by {
                    if before[p].id == eid {
                        assert(self.total@[p].accessed == clamped(
                            before[p].accessed,
                            -dec as int,
                        ));
                    } else {
                        assert(self.total@[p] == before[p]);
                    }
                }
            }
            i = i + 1;
        }
        let fr = &mut self.frames[cur];
        fr.clear();
        proof {
            assert(self.frame(cur as int) =~= Map::<ID, u32>::empty());
            assert(distinct_keys(self.pairs())) by {
                assert forall|p: int, q: int| 0 <= p < q < self.pairs().len() implies
                    (#[trigger] self.pairs()[p]).0 != (#[trigger] self.pairs()[q]).0 by {
                    assert(old_pairs[p].0 != old_pairs[q].0);
                }
            }
            assert forall|k: ID| #![auto] old(self).entries().contains_key(k) implies {
                &&& self.entries().contains_key(k)
                &&& self.entries()[k].0 == old(self).entries()[k].0
                &&& self.entries()[k].1 == clamped(
                    old(self).entries()[k].1,
                    -decay_for(*old(self), cur as int, k),
                )
            } by {
                lemma_amap_contains(old_pairs, k);
                let p = choose|p: int| 0 <= p < old_pairs.len() && (#[trigger] old_pairs[p]).0 == k;
                lemma_amap_index(old_pairs, p);
                lemma_amap_index(self.pairs(), p);
                lemma_decayed_full(pre.total@[p].accessed, fr_seq, fr_seq.len() as int, k);
                lemma_amap_contains(fr_seq, k);
                if exists|j: int| 0 <= j < fr_seq.len() && (#[trigger] fr_seq[j]).0 == k {
                    let j = choose|j: int| 0 <= j < fr_seq.len() && (#[trigger] fr_seq[j]).0 == k;
                    lemma_amap_index(fr_seq, j);
                } else {
                    lemma_decayed_prefix(
                        pre.total@[p].accessed,
                        fr_seq,
                        fr_seq.len() as int,
                        k,
                    );
                }
            }
            assert forall|k: ID| #![auto] self.entries().contains_key(k) implies old(
                self,
            ).entries().contains_key(k) by {
                lemma_amap_contains(self.pairs(), k);
                let p = choose|p: int|
                    0 <= p < self.pairs().len() && (#[trigger] self.pairs()[p]).0 == k;
                lemma_amap_index(old_pairs, p);
            }
            assert(self.entries().dom() =~= old(self).entries().dom());
        }
    }
}

/// The decrement the frame the window lands on applies to key `k`: that
/// frame's count for the key, capped at the signed range, or nothing when
/// the frame holds no count for it.
pub open spec fn decay_for<T>(c: Cache<T>, f: int, k: ID) -> int {
    if 0 <= f < c.frame_count() && c.frame(f).contains_key(k) {
        counted(c.frame(f)[k])
    } else {
        0
    }
}

} // verus!
