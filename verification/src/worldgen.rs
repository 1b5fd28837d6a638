//! The demand tracker and priority dispatcher.
//!
//! Once per tick the host updates the viewers, and this module decides
//! which chunks to ask the worker pool for and in what order: pending
//! positions carry the least squared distance to any viewer that wants
//! them, and dispatch hands them out in ascending priority order.  The
//! channels themselves live with the host; what travels over them is
//! decided here.

use vstd::prelude::*;
use crate::pos::ChunkPos;

verus! {

/// The order in which chunks are handed to the worker pool.  Smaller
/// values are served first.
pub type Priority = u64;

// ---------------------------------------------------------------------
// The pending map: position -> Some(priority) (queued this tick) or
// None (already sent to a worker, do not resend).

/// The mapping an entry list stands for.
pub open spec fn pm_map(s: Seq<(ChunkPos, Option<Priority>)>) -> Map<(int, int), Option<Priority>>
    decreases s.len(),
{
    if s.len() == 0 {
        Map::empty()
    } else {
        pm_map(s.drop_last()).insert(s.last().0.key(), s.last().1)
    }
}

/// No position occurs twice.
pub open spec fn pm_distinct(s: Seq<(ChunkPos, Option<Priority>)>) -> bool {
    forall|i: int, j: int|
        0 <= i < j < s.len() ==> (#[trigger] s[i]).0.key() != (#[trigger] s[j]).0.key()
}

proof fn pm_lemma_lookup(s: Seq<(ChunkPos, Option<Priority>)>, i: int)
    requires
        pm_distinct(s),
        0 <= i < s.len(),
    ensures
        pm_map(s).contains_key(s[i].0.key()),
        pm_map(s)[s[i].0.key()] == s[i].1,
    decreases s.len(),
{
    if i == s.len() - 1 {
    } else {
        assert(s.drop_last()[i] == s[i]);
        pm_lemma_lookup(s.drop_last(), i);
        assert(s[s.len() - 1].0.key() != s[i].0.key());
    }
}

proof fn pm_lemma_absent(s: Seq<(ChunkPos, Option<Priority>)>, k: (int, int))
    requires
        forall|i: int| 0 <= i < s.len() ==> (#[trigger] s[i]).0.key() != k,
    ensures
        !pm_map(s).contains_key(k),
    decreases s.len(),
{
    if s.len() > 0 {
        assert(s.drop_last().len() == s.len() - 1);
        assert forall|i: int|
            0 <= i < s.drop_last().len() implies (#[trigger] s.drop_last()[i]).0.key() != k by {
            assert(s.drop_last()[i] == s[i]);
        }
        pm_lemma_absent(s.drop_last(), k);
    }
}

proof fn pm_lemma_contains(s: Seq<(ChunkPos, Option<Priority>)>, k: (int, int))
    requires
        pm_map(s).contains_key(k),
    ensures
        exists|i: int| 0 <= i < s.len() && (#[trigger] s[i]).0.key() == k,
    decreases s.len(),
{
    if s.len() == 0 {
    } else if s.last().0.key() == k {
        assert(s[s.len() - 1].0.key() == k);
    } else {
        pm_lemma_contains(s.drop_last(), k);
        let i = choose|i: int|
            0 <= i < s.drop_last().len() && (#[trigger] s.drop_last()[i]).0.key() == k;
        assert(s[i].0.key() == k);
    }
}

proof fn pm_lemma_update(s: Seq<(ChunkPos, Option<Priority>)>, i: int, v: Option<Priority>)
    requires
        pm_distinct(s),
        0 <= i < s.len(),
    ensures
        pm_map(s.update(i, (s[i].0, v))) == pm_map(s).insert(s[i].0.key(), v),
    decreases s.len(),
{
    let t = s.update(i, (s[i].0, v));
    if i == s.len() - 1 {
        assert(t.drop_last() =~= s.drop_last());
        assert(pm_map(t) == pm_map(s.drop_last()).insert(s[i].0.key(), v));
        assert(pm_map(s).insert(s[i].0.key(), v) =~= pm_map(s.drop_last()).insert(
            s[i].0.key(), v));
    } else {
        assert(t.drop_last() =~= s.drop_last().update(i, (s[i].0, v)));
        assert(s.drop_last()[i] == s[i]);
        pm_lemma_update(s.drop_last(), i, v);
        assert(t.last() == s.last());
        assert(pm_map(t) == pm_map(s.drop_last()).insert(s[i].0.key(), v).insert(
            s.last().0.key(), s.last().1));
        assert(s[i].0.key() != s.last().0.key());
        assert(pm_map(s.drop_last()).insert(s[i].0.key(), v).insert(s.last().0.key(), s.last().1)
            =~= pm_map(s).insert(s[i].0.key(), v));
    }
}

proof fn pm_lemma_remove(s: Seq<(ChunkPos, Option<Priority>)>, i: int)
    requires
        pm_distinct(s),
        0 <= i < s.len(),
    ensures
        pm_map(s.remove(i)) == pm_map(s).remove(s[i].0.key()),
    decreases s.len(),
{
    let t = s.remove(i);
    if i == s.len() - 1 {
        assert(t =~= s.drop_last());
        assert forall|j: int|
            0 <= j < s.drop_last().len() implies (#[trigger] s.drop_last()[j]).0.key()
            != s[i].0.key() by {
            assert(s.drop_last()[j] == s[j]);
        }
        pm_lemma_absent(s.drop_last(), s[i].0.key());
        assert(pm_map(s).remove(s[i].0.key()) =~= pm_map(s.drop_last()));
    } else {
        assert(t.drop_last() =~= s.drop_last().remove(i));
        assert(s.drop_last()[i] == s[i]);
        pm_lemma_remove(s.drop_last(), i);
        assert(t.last() == s.last());
        assert(pm_map(t) == pm_map(s.drop_last()).remove(s[i].0.key()).insert(
            s.last().0.key(), s.last().1));
        assert(s[i].0.key() != s.last().0.key());
        assert(pm_map(s.drop_last()).remove(s[i].0.key()).insert(s.last().0.key(), s.last().1)
            =~= pm_map(s).remove(s[i].0.key()));
    }
}

/// The set of chunks some viewer wants but the world does not hold
/// yet.  `Some(p)` means queued for dispatch this tick with priority
/// `p`; `None` means already sent to a worker this tick.
pub struct PendingMap {
    entries: Vec<(ChunkPos, Option<Priority>)>,
}

impl View for PendingMap {
    type V = Map<(int, int), Option<Priority>>;

    closed spec fn view(&self) -> Map<(int, int), Option<Priority>> {
        pm_map(self.entries@)
    }
}

impl PendingMap {
    pub closed spec fn wf(self) -> bool {
        pm_distinct(self.entries@)
    }

    pub fn new() -> (r: PendingMap)
        ensures
            r.wf(),
            r@ == Map::<(int, int), Option<Priority>>::empty(),
    {
        PendingMap { entries: Vec::new() }
    }

    /// The queue state of a position: nothing, or its entry.
    pub fn get(&self, pos: &ChunkPos) -> (r: Option<Option<Priority>>)
        requires
            self.wf(),
        ensures
            match r {
                Some(v) => self@.contains_key(pos.key()) && self@[pos.key()] == v,
                None => !self@.contains_key(pos.key()),
            },
    {
        let mut i: usize = 0;
        while i < self.entries.len()
            invariant
                i <= self.entries@.len(),
                self.wf(),
                forall|j: int|
                    0 <= j < i ==> (#[trigger] self.entries@[j]).0.key() != pos.key(),
            decreases self.entries@.len() - i,
        {
            let e = &self.entries[i];
            if e.0.x == pos.x && e.0.z == pos.z {
                proof {
                    pm_lemma_lookup(self.entries@, i as int);
                }
                return Some(e.1);
            }
            i = i + 1;
        }
        proof {
            pm_lemma_absent(self.entries@, pos.key());
        }
        None
    }

    /// Takes a settled position out of the map; says whether it was
    /// there.
    pub fn remove(&mut self, pos: &ChunkPos) -> (r: bool)
        requires
            old(self).wf(),
        ensures
            final(self).wf(),
            r == old(self)@.contains_key(pos.key()),
            final(self)@ == old(self)@.remove(pos.key()),
    {
        let mut i: usize = 0;
        while i < self.entries.len()
            invariant
                i <= self.entries@.len(),
                self.wf(),
                *self == *old(self),
                forall|j: int|
                    0 <= j < i ==> (#[trigger] self.entries@[j]).0.key() != pos.key(),
            decreases self.entries@.len() - i,
        {
            let same = {
                let e = &self.entries[i];
                e.0.x == pos.x && e.0.z == pos.z
            };
            if same {
                proof {
                    pm_lemma_lookup(self.entries@, i as int);
                    pm_lemma_remove(self.entries@, i as int);
                }
                let ghost pre = self.entries@;
                self.entries.remove(i);
                proof {
                    assert forall|a: int, b: int|
                        0 <= a < b < self.entries@.len() implies (#[trigger] self.entries@[
                        a]).0.key() != (#[trigger] self.entries@[b]).0.key() by {
                        if b < i {
                            assert(self.entries@[a] == pre[a] && self.entries@[b] == pre[b]);
                        } else if a < i {
                            assert(self.entries@[a] == pre[a] && self.entries@[b] == pre[b + 1]);
                        } else {
                            assert(self.entries@[a] == pre[a + 1] && self.entries@[b] == pre[b
                                + 1]);
                        }
                    }
                }
                return true;
            }
            i = i + 1;
        }
        proof {
            pm_lemma_absent(self.entries@, pos.key());
            assert(self@.remove(pos.key()) =~= self@);
        }
        false
    }
}

// ---------------------------------------------------------------------
// The world's chunk set, as the tracker sees it.

/// The set an entry list stands for.
pub open spec fn cs_set(s: Seq<ChunkPos>) -> Set<(int, int)>
    decreases s.len(),
{
    if s.len() == 0 {
        Set::empty()
    } else {
        cs_set(s.drop_last()).insert(s.last().key())
    }
}

proof fn cs_lemma_lookup(s: Seq<ChunkPos>, i: int)
    requires
        0 <= i < s.len(),
    ensures
        cs_set(s).contains(s[i].key()),
    decreases s.len(),
{
    if i < s.len() - 1 {
        assert(s.drop_last()[i] == s[i]);
        cs_lemma_lookup(s.drop_last(), i);
    }
}

proof fn cs_lemma_absent(s: Seq<ChunkPos>, k: (int, int))
    requires
        forall|i: int| 0 <= i < s.len() ==> (#[trigger] s[i]).key() != k,
    ensures
        !cs_set(s).contains(k),
    decreases s.len(),
{
    if s.len() > 0 {
        assert forall|i: int|
            0 <= i < s.drop_last().len() implies (#[trigger] s.drop_last()[i]).key() != k by {
            assert(s.drop_last()[i] == s[i]);
        }
        cs_lemma_absent(s.drop_last(), k);
        assert(s[s.len() - 1].key() != k);
    }
}

proof fn cs_lemma_contains(s: Seq<ChunkPos>, k: (int, int))
    requires
        cs_set(s).contains(k),
    ensures
        exists|i: int| 0 <= i < s.len() && (#[trigger] s[i]).key() == k,
    decreases s.len(),
{
    if s.len() == 0 {
    } else if s.last().key() == k {
        assert(s[s.len() - 1].key() == k);
    } else {
        cs_lemma_contains(s.drop_last(), k);
        let i = choose|i: int|
            0 <= i < s.drop_last().len() && (#[trigger] s.drop_last()[i]).key() == k;
        assert(s[i].key() == k);
    }
}

/// The set of chunk positions the world currently holds.  The host
/// keeps it in step with the chunks it has inserted and removed.
pub struct ChunkSet {
    entries: Vec<ChunkPos>,
}

impl View for ChunkSet {
    type V = Set<(int, int)>;

    closed spec fn view(&self) -> Set<(int, int)> {
        cs_set(self.entries@)
    }
}

impl ChunkSet {
    pub closed spec fn wf(self) -> bool {
        forall|i: int, j: int|
            0 <= i < j < self.entries@.len() ==> (#[trigger] self.entries@[i]).key() != (
            #[trigger] self.entries@[j]).key()
    }

    pub fn new() -> (r: ChunkSet)
        ensures
            r.wf(),
            r@ == Set::<(int, int)>::empty(),
    {
        ChunkSet { entries: Vec::new() }
    }

    pub fn contains(&self, pos: &ChunkPos) -> (r: bool)
        requires
            self.wf(),
        ensures
            r == self@.contains(pos.key()),
    {
        let mut i: usize = 0;
        while i < self.entries.len()
            invariant
                i <= self.entries@.len(),
                forall|j: int| 0 <= j < i ==> (#[trigger] self.entries@[j]).key() != pos.key(),
            decreases self.entries@.len() - i,
        {
            let e = &self.entries[i];
            if e.x == pos.x && e.z == pos.z {
                proof {
                    cs_lemma_lookup(self.entries@, i as int);
                }
                return true;
            }
            i = i + 1;
        }
        proof {
            cs_lemma_absent(self.entries@, pos.key());
        }
        false
    }

    /// Records that the world now holds `pos`.
    pub fn insert(&mut self, pos: &ChunkPos)
        requires
            old(self).wf(),
        ensures
            final(self).wf(),
            final(self)@ == old(self)@.insert(pos.key()),
    {
        if self.contains(pos) {
            proof {
                assert(self@.insert(pos.key()) =~= self@);
            }
            return;
        }
        self.entries.push(*pos);
        proof {
            assert(self.entries@.drop_last() =~= old(self).entries@);
            assert forall|i: int, j: int|
                0 <= i < j < self.entries@.len() implies (#[trigger] self.entries@[i]).key() != (
                #[trigger] self.entries@[j]).key() by {
                if j == self.entries@.len() - 1 {
                    cs_lemma_lookup(old(self).entries@, i);
                }
            }
        }
    }

    /// Forgets every chunk: the world has been cleared.
    pub fn clear(&mut self)
        ensures
            final(self).wf(),
            final(self)@ == Set::<(int, int)>::empty(),
    {
        self.entries.clear();
    }

    /// Keeps only the chunks some viewer still observes; the rest are
    /// reaped.  The host removes the same chunks from the world.
    pub fn retain_viewed(&mut self, viewers: &Vec<Viewer>) -> (removed: Vec<ChunkPos>)
        requires
            old(self).wf(),
        ensures
            final(self).wf(),
            forall|k: (int, int)| final(self)@.contains(k) <==> old(self)@.contains(k)
                && viewed_by_any(viewers@, k),
            forall|i: int|
                0 <= i < removed@.len() ==> old(self)@.contains(
                    (#[trigger] removed@[i]).key()) && !viewed_by_any(viewers@, removed@[i].key()),
            forall|k: (int, int)|
                old(self)@.contains(k) && !viewed_by_any(viewers@, k) ==> exists|i: int|
                    0 <= i < removed@.len() && (#[trigger] removed@[i]).key() == k,
    {
        let mut kept: Vec<ChunkPos> = Vec::new();
        let mut removed: Vec<ChunkPos> = Vec::new();
        let mut i: usize = 0;
        while i < self.entries.len()
            invariant
                i <= self.entries@.len(),
                self.wf(),
                *self == *old(self),
                forall|k: (int, int)| #[trigger] cs_set(kept@).contains(k) ==> viewed_by_any(
                    viewers@, k) && exists|j: int|
                    0 <= j < i && (#[trigger] self.entries@[j]).key() == k,
                forall|j: int|
                    0 <= j < i && viewed_by_any(viewers@, (#[trigger] self.entries@[j]).key())
                        ==> cs_set(kept@).contains(self.entries@[j].key()),
                forall|a: int, b: int|
                    0 <= a < b < kept@.len() ==> (#[trigger] kept@[a]).key() != (
                    #[trigger] kept@[b]).key(),
                forall|j: int|
                    0 <= j < removed@.len() ==> old(self)@.contains(
                        (#[trigger] removed@[j]).key()) && !viewed_by_any(
                        viewers@, removed@[j].key()),
                forall|j: int|
                    0 <= j < i && !viewed_by_any(viewers@, (#[trigger] self.entries@[j]).key())
                        ==> exists|t: int|
                        0 <= t < removed@.len() && (#[trigger] removed@[t]).key()
                            == self.entries@[j].key(),
            decreases self.entries@.len() - i,
        {
            let p = self.entries[i];
            proof {
                cs_lemma_lookup(self.entries@, i as int);
            }
            if viewed_by_any_exec(viewers, &p) {
                let ghost prek = kept@;
                kept.push(p);
                proof {
                    assert(kept@.drop_last() =~= prek);
                    assert forall|k: (int, int)|
                        #[trigger] cs_set(kept@).contains(k) implies viewed_by_any(viewers@, k)
                        && exists|j: int|
                        0 <= j < i + 1 && (#[trigger] self.entries@[j]).key() == k by {
                        cs_lemma_contains(kept@, k);
                        let a = choose|a: int|
                            0 <= a < kept@.len() && (#[trigger] kept@[a]).key() == k;
                        if a < kept@.len() - 1 {
                            assert(kept@[a] == prek[a]);
                            cs_lemma_lookup(prek, a);
                            assert(cs_set(prek).contains(k));
                        } else {
                            assert(self.entries@[i as int].key() == k);
                        }
                    }
                    assert forall|a: int, b: int|
                        0 <= a < b < kept@.len() implies (#[trigger] kept@[a]).key() != (
                        #[trigger] kept@[b]).key() by {
                        if b == kept@.len() - 1 {
                            cs_lemma_lookup(prek, a);
                            assert(cs_set(prek).contains(kept@[a].key()));
                            if kept@[a].key() == p.key() {
                                let j = choose|j: int|
                                    0 <= j < i && (#[trigger] self.entries@[j]).key() == kept@[
                                    a].key();
                                assert(self.entries@[j].key() != self.entries@[i as int].key());
                            }
                        } else {
                            assert(kept@[a] == prek[a] && kept@[b] == prek[b]);
                        }
                    }
                }
            } else {
                let ghost prer = removed@;
                removed.push(p);
                proof {
                    assert(removed@[removed@.len() - 1] == p);
                    assert forall|j: int|
                        0 <= j < i + 1 && !viewed_by_any(
                            viewers@, (#[trigger] self.entries@[j]).key()) implies exists|t: int|
                            0 <= t < removed@.len() && (#[trigger] removed@[t]).key()
                                == self.entries@[j].key() by {
                        if j < i {
                            let t = choose|t: int|
                                0 <= t < prer.len() && (#[trigger] prer[t]).key()
                                    == self.entries@[j].key();
                            assert(removed@[t] == prer[t]);
                        } else {
                            assert(removed@[removed@.len() - 1].key() == self.entries@[j].key());
                        }
                    }
                }
            }
            i = i + 1;
        }
        proof {
            assert forall|k: (int, int)|
                cs_set(self.entries@).contains(k) && viewed_by_any(viewers@, k) implies cs_set(
                kept@).contains(k) by {
                cs_lemma_contains(self.entries@, k);
            }
            assert forall|k: (int, int)|
                #[trigger] cs_set(kept@).contains(k) implies cs_set(self.entries@).contains(k)
                && viewed_by_any(viewers@, k) by {
                let j = choose|j: int|
                    0 <= j < i && (#[trigger] self.entries@[j]).key() == k;
                cs_lemma_lookup(self.entries@, j);
            }
            assert forall|k: (int, int)|
                cs_set(self.entries@).contains(k) && !viewed_by_any(viewers@, k)
                implies exists|t: int|
                    0 <= t < removed@.len() && (#[trigger] removed@[t]).key() == k by {
                cs_lemma_contains(self.entries@, k);
            }
        }
        self.entries = kept;
        removed
    }
}

// ---------------------------------------------------------------------
// Viewers and the demand update.

/// One connected viewer, as the tracker sees it each tick.
#[derive(Clone, Copy, Debug)]
pub struct Viewer {
    /// Centre of the current view.
    pub pos: ChunkPos,
    /// Chebyshev radius of the current view, in chunks.
    pub radius: u8,
    /// A viewer that just joined wants its whole view, not only what
    /// entered it since last tick.
    pub just_joined: bool,
    /// Centre of the view last tick.
    pub old_pos: ChunkPos,
    /// Radius of the view last tick.
    pub old_radius: u8,
}

impl Viewer {
    /// Keeps every cell of the view square inside the coordinate range.
    pub open spec fn wf(self) -> bool {
        &&& -2_000_000_000 <= self.pos.x <= 2_000_000_000
        &&& -2_000_000_000 <= self.pos.z <= 2_000_000_000
    }
}

pub open spec fn abs_i(a: int) -> int {
    if a >= 0 {
        a
    } else {
        -a
    }
}

/// Chebyshev distance between two positions.
pub open spec fn cheb(a: (int, int), b: (int, int)) -> int {
    let dx = abs_i(b.0 - a.0);
    let dz = abs_i(b.1 - a.1);
    if dx >= dz {
        dx
    } else {
        dz
    }
}

/// Squared Euclidean distance between two positions, in chunk units.
pub open spec fn dist_sq(a: (int, int), b: (int, int)) -> int {
    (b.0 - a.0) * (b.0 - a.0) + (b.1 - a.1) * (b.1 - a.1)
}

/// The cell `k` lies in the viewer's current view.
pub open spec fn in_view(v: Viewer, k: (int, int)) -> bool {
    cheb(v.pos.key(), k) <= v.radius
}

/// The cell `k` lay in the viewer's view last tick.
pub open spec fn in_old_view(v: Viewer, k: (int, int)) -> bool {
    cheb(v.old_pos.key(), k) <= v.old_radius
}

/// Some viewer observes the cell.
pub open spec fn viewed_by_any(vs: Seq<Viewer>, k: (int, int)) -> bool {
    exists|i: int| 0 <= i < vs.len() && in_view(#[trigger] vs[i], k)
}

fn viewed_by_any_exec(viewers: &Vec<Viewer>, pos: &ChunkPos) -> (r: bool)
    ensures
        r == viewed_by_any(viewers@, pos.key()),
{
    let mut i: usize = 0;
    while i < viewers.len()
        invariant
            i <= viewers@.len(),
            forall|j: int| 0 <= j < i ==> !in_view(#[trigger] viewers@[j], pos.key()),
        decreases viewers@.len() - i,
    {
        let v = &viewers[i];
        let dx = (pos.x as i64) - (v.pos.x as i64);
        let dz = (pos.z as i64) - (v.pos.z as i64);
        let adx = if dx >= 0 {
            dx
        } else {
            -dx
        };
        let adz = if dz >= 0 {
            dz
        } else {
            -dz
        };
        let c = if adx >= adz {
            adx
        } else {
            adz
        };
        if c <= v.radius as i64 {
            return true;
        }
        i = i + 1;
    }
    false
}

/// The demand-tracker rule for one wanted position: a cell the world
/// already holds is not queued; a queued cell keeps the smaller of its
/// priority and the new distance; a cell already sent to a worker is
/// left alone; anything else joins the queue at the new distance.
pub open spec fn queue_one(
    m: Map<(int, int), Option<Priority>>,
    world: Set<(int, int)>,
    k: (int, int),
    dist: Priority,
) -> Map<(int, int), Option<Priority>> {
    if world.contains(k) {
        m
    } else if m.contains_key(k) {
        match m[k] {
            Some(p) => m.insert(
                k,
                Some(
                    if p <= dist {
                        p
                    } else {
                        dist
                    },
                ),
            ),
            None => m,
        }
    } else {
        m.insert(k, Some(dist))
    }
}

impl PendingMap {
    /// Applies [`queue_one`] for one wanted position.
    pub fn queue_pos(&mut self, world: &ChunkSet, pos: &ChunkPos, dist: Priority)
        requires
            old(self).wf(),
            world.wf(),
        ensures
            final(self).wf(),
            final(self)@ == queue_one(old(self)@, world@, pos.key(), dist),
    {
        if world.contains(pos) {
            return;
        }
        let mut i: usize = 0;
        while i < self.entries.len()
            invariant
                i <= self.entries@.len(),
                self.wf(),
                *self == *old(self),
                !world@.contains(pos.key()),
                forall|j: int|
                    0 <= j < i ==> (#[trigger] self.entries@[j]).0.key() != pos.key(),
            decreases self.entries@.len() - i,
        {
            let hit = {
                let e = &self.entries[i];
                e.0.x == pos.x && e.0.z == pos.z
            };
            if hit {
                proof {
                    pm_lemma_lookup(self.entries@, i as int);
                }
                match self.entries[i].1 {
                    Some(p) => {
                        let np = if p <= dist {
                            p
                        } else {
                            dist
                        };
                        let e0 = self.entries[i].0;
                        proof {
                            pm_lemma_update(self.entries@, i as int, Some(np));
                        }
                        self.entries.set(i, (e0, Some(np)));
                        proof {
                            assert forall|a: int, b: int|
                                0 <= a < b < self.entries@.len() implies (#[trigger] self.entries@[
                            a]).0.key() != (#[trigger] self.entries@[b]).0.key() by {
                                assert(old(self).entries@[a].0.key() != old(self).entries@[
                                b].0.key());
                            }
                        }
                    },
                    None => {},
                }
                return;
            }
            i = i + 1;
        }
        proof {
            pm_lemma_absent(self.entries@, pos.key());
        }
        self.entries.push((*pos, Some(dist)));
        proof {
            assert(self.entries@.drop_last() =~= old(self).entries@);
            assert forall|a: int, b: int|
                0 <= a < b < self.entries@.len() implies (#[trigger] self.entries@[a]).0.key() != (
                #[trigger] self.entries@[b]).0.key() by {
                if b == self.entries@.len() - 1 {
                    assert(old(self).entries@[a].0.key() != pos.key());
                }
            }
        }
    }
}

/// The queue after one viewer's first `n` view cells have been
/// considered, in row-major order over the view square.  A viewer that
/// did not just join skips the cells it could already see last tick.
pub open spec fn side_of(v: Viewer) -> int {
    2 * (v.radius as int) + 1
}

pub open spec fn view_cell(v: Viewer, i: int) -> (int, int) {
    (
        (v.pos.x as int) - (v.radius as int) + i % side_of(v),
        (v.pos.z as int) - (v.radius as int) + i / side_of(v),
    )
}

pub open spec fn queue_cells(
    m: Map<(int, int), Option<Priority>>,
    world: Set<(int, int)>,
    v: Viewer,
    n: int,
) -> Map<(int, int), Option<Priority>>
    decreases n,
{
    if n <= 0 {
        m
    } else {
        let prev = queue_cells(m, world, v, n - 1);
        let k = view_cell(v, n - 1);
        if !v.just_joined && in_old_view(v, k) {
            prev
        } else {
            queue_one(prev, world, k, dist_sq(v.pos.key(), k) as Priority)
        }
    }
}

/// The queue after one whole viewer.
pub open spec fn update_for_viewer(
    m: Map<(int, int), Option<Priority>>,
    world: Set<(int, int)>,
    v: Viewer,
) -> Map<(int, int), Option<Priority>> {
    queue_cells(m, world, v, side_of(v) * side_of(v))
}

/// The queue after the first `n` viewers.
pub open spec fn update_all(
    m: Map<(int, int), Option<Priority>>,
    world: Set<(int, int)>,
    vs: Seq<Viewer>,
    n: int,
) -> Map<(int, int), Option<Priority>>
    decreases n,
{
    if n <= 0 {
        m
    } else {
        update_for_viewer(update_all(m, world, vs, n - 1), world, vs[n - 1])
    }
}

/// Queues one viewer's wanted cells.
fn queue_viewer(pending: &mut PendingMap, world: &ChunkSet, v: &Viewer)
    requires
        old(pending).wf(),
        world.wf(),
        v.wf(),
    ensures
        final(pending).wf(),
        final(pending)@ == update_for_viewer(old(pending)@, world@, *v),
{
    let ghost base = pending@;
    let side: u32 = 2 * (v.radius as u32) + 1;
    proof {
        assert((side as int) * (side as int) <= 261121) by (nonlinear_arith)
            requires
                1 <= side as int <= 511,
        ;
    }
    let total: u32 = side * side;
    let mut ci: u32 = 0;
    while ci < total
        invariant
            ci <= total,
            side == 2 * (v.radius as u32) + 1,
            total == side * side,
            side == side_of(*v),
            v.wf(),
            pending.wf(),
            world.wf(),
            pending@ == queue_cells(base, world@, *v, ci as int),
        decreases total - ci,
    {
        proof {
            vstd::arithmetic::div_mod::lemma_fundamental_div_mod(ci as int, side as int);
            vstd::arithmetic::div_mod::lemma_mod_division_less_than_divisor(
                ci as int, side as int);
            assert((ci as int) / (side as int) < side as int) by (nonlinear_arith)
                requires
                    0 < side as int,
                    (ci as int) < (side as int) * (side as int),
                    (ci as int) == (side as int) * ((ci as int) / (side as int)) + ((
                    ci as int) % (side as int)),
                    0 <= (ci as int) % (side as int) < side as int,
            ;
        }
        let dx = (ci % side) as i32 - v.radius as i32;
        let dz = (ci / side) as i32 - v.radius as i32;
        let px = v.pos.x + dx;
        let pz = v.pos.z + dz;
        let cell = ChunkPos::new(px, pz);
        proof {
            assert(view_cell(*v, ci as int) == (px as int, pz as int));
        }
        let skip = if v.just_joined {
            false
        } else {
            let odx = (px as i64) - (v.old_pos.x as i64);
            let odz = (pz as i64) - (v.old_pos.z as i64);
            let adx = if odx >= 0 {
                odx
            } else {
                -odx
            };
            let adz = if odz >= 0 {
                odz
            } else {
                -odz
            };
            let c = if adx >= adz {
                adx
            } else {
                adz
            };
            c <= v.old_radius as i64
        };
        if !skip {
            let dxi = dx as i64;
            let dzi = dz as i64;
            proof {
                assert(dxi * dxi + dzi * dzi <= 130050 && dxi * dxi >= 0 && dzi * dzi >= 0)
                    by (nonlinear_arith)
                    requires
                        -255 <= dxi <= 255,
                        -255 <= dzi <= 255,
                ;
            }
            let dist = (dxi * dxi + dzi * dzi) as u64;
            proof {
                assert(dist_sq(v.pos.key(), cell.key()) == dxi * dxi + dzi * dzi);
            }
            pending.queue_pos(world, &cell, dist);
        }
        ci = ci + 1;
    }
}

/// The per-tick demand update: every viewer queues the chunks that
/// entered its view and are not in the world yet, at the squared
/// distance to its view centre; a chunk wanted by several viewers keeps
/// the smallest distance.
pub fn update_client_views(pending: &mut PendingMap, world: &ChunkSet, viewers: &Vec<Viewer>)
    requires
        old(pending).wf(),
        world.wf(),
        forall|i: int| 0 <= i < viewers@.len() ==> (#[trigger] viewers@[i]).wf(),
    ensures
        final(pending).wf(),
        final(pending)@ == update_all(old(pending)@, world@, viewers@, viewers@.len() as int),
{
    let mut vi: usize = 0;
    while vi < viewers.len()
        invariant
            vi <= viewers@.len(),
            pending.wf(),
            world.wf(),
            forall|i: int| 0 <= i < viewers@.len() ==> (#[trigger] viewers@[i]).wf(),
            pending@ == update_all(old(pending)@, world@, viewers@, vi as int),
        decreases viewers@.len() - vi,
    {
        let v = viewers[vi];
        queue_viewer(pending, world, &v);
        vi = vi + 1;
    }
}

// ---------------------------------------------------------------------
// Responses and dispatch.

/// A finished chunk arrived: it enters the world and leaves the
/// pending map.  A response only ever comes for a position that was
/// sent out, so the position must be pending.
pub fn apply_chunk_response(world: &mut ChunkSet, pending: &mut PendingMap, pos: &ChunkPos)
    requires
        old(world).wf(),
        old(pending).wf(),
        old(pending)@.contains_key(pos.key()),
    ensures
        final(world).wf(),
        final(pending).wf(),
        final(world)@ == old(world)@.insert(pos.key()),
        final(pending)@ == old(pending)@.remove(pos.key()),
{
    world.insert(pos);
    pending.remove(pos);
}

/// Ascending dispatch order: priority first, position as the tie
/// break, so that the order owes nothing to iteration order.
pub open spec fn prio_le(p1: Priority, a: ChunkPos, p2: Priority, b: ChunkPos) -> bool {
    ||| p1 < p2
    ||| (p1 == p2 && (a.x < b.x || (a.x == b.x && a.z <= b.z)))
}

fn prio_le_exec(p1: Priority, a: &ChunkPos, p2: Priority, b: &ChunkPos) -> (r: bool)
    ensures
        r == prio_le(p1, *a, p2, *b),
{
    p1 < p2 || (p1 == p2 && (a.x < b.x || (a.x == b.x && a.z <= b.z)))
}

/// How many entries are still queued.
pub open spec fn count_some(s: Seq<(ChunkPos, Option<Priority>)>) -> nat
    decreases s.len(),
{
    if s.len() == 0 {
        0
    } else {
        count_some(s.drop_last()) + if s.last().1 is Some {
            1nat
        } else {
            0nat
        }
    }
}

proof fn count_some_update(s: Seq<(ChunkPos, Option<Priority>)>, i: int)
    requires
        0 <= i < s.len(),
        s[i].1 is Some,
    ensures
        count_some(s.update(i, (s[i].0, None))) < count_some(s),
    decreases s.len(),
{
    let t = s.update(i, (s[i].0, None));
    if i == s.len() - 1 {
        assert(t.drop_last() =~= s.drop_last());
    } else {
        assert(t.drop_last() =~= s.drop_last().update(i, (s[i].0, None)));
        assert(s.drop_last()[i] == s[i]);
        count_some_update(s.drop_last(), i);
        assert(t.last() == s.last());
    }
}

impl PendingMap {
    /// The queued entry that must go out first: smallest priority,
    /// smallest position on a tie.
    fn find_min(&self) -> (r: Option<(usize, Priority)>)
        requires
            self.wf(),
        ensures
            match r {
                Some((i, p)) => {
                    &&& i < self.entries@.len()
                    &&& self.entries@[i as int].1 == Some(p)
                    &&& forall|j: int|
                        0 <= j < self.entries@.len() && (#[trigger] self.entries@[j]).1 is Some
                            ==> prio_le(
                            p,
                            self.entries@[i as int].0,
                            self.entries@[j].1.unwrap(),
                            self.entries@[j].0,
                        )
                },
                None => forall|j: int|
                    0 <= j < self.entries@.len() ==> (#[trigger] self.entries@[j]).1 is None,
            },
    {
        let mut best: Option<(usize, Priority)> = None;
        let mut i: usize = 0;
        while i < self.entries.len()
            invariant
                i <= self.entries@.len(),
                match best {
                    Some((b, p)) => {
                        &&& b < i
                        &&& b < self.entries@.len()
                        &&& self.entries@[b as int].1 == Some(p)
                        &&& forall|j: int|
                            0 <= j < i && (#[trigger] self.entries@[j]).1 is Some ==> prio_le(
                                p,
                                self.entries@[b as int].0,
                                self.entries@[j].1.unwrap(),
                                self.entries@[j].0,
                            )
                    },
                    None => forall|j: int|
                        0 <= j < i ==> (#[trigger] self.entries@[j]).1 is None,
                },
            decreases self.entries@.len() - i,
        {
            let e = self.entries[i];
            match e.1 {
                Some(p) => {
                    match best {
                        None => {
                            best = Some((i, p));
                        },
                        Some((b, bp)) => {
                            let cur = self.entries[b].0;
                            if !prio_le_exec(bp, &cur, p, &e.0) {
                                best = Some((i, p));
                            }
                        },
                    }
                },
                None => {},
            }
            i = i + 1;
        }
        best
    }

    /// Collects every queued position, in ascending priority order, and
    /// marks each one as sent.  This is the tick's dispatch: the caller
    /// sends one generation request per element, in order.
    pub fn take_dispatch(&mut self) -> (r: Vec<(Priority, ChunkPos)>)
        requires
            old(self).wf(),
        ensures
            final(self).wf(),
            forall|k: (int, int)| #[trigger] final(self)@.contains_key(k) <==> old(
                self)@.contains_key(k),
            forall|k: (int, int)| #[trigger] final(self)@.contains_key(k) ==> final(self)@[k]
                is None,
            forall|i: int|
                0 <= i < r@.len() ==> old(self)@.contains_key((#[trigger] r@[i]).1.key()) && old(
                    self)@[r@[i].1.key()] == Some(r@[i].0),
            forall|k: (int, int)|
                #[trigger] old(self)@.contains_key(k) && old(self)@[k] is Some ==> exists|i: int|
                    0 <= i < r@.len() && (#[trigger] r@[i]).1.key() == k,
            forall|i: int, j: int|
                0 <= i < j < r@.len() ==> (#[trigger] r@[i]).1.key() != (#[trigger] r@[j]).1.key(),
            forall|i: int, j: int|
                0 <= i < j < r@.len() ==> prio_le(
                    (#[trigger] r@[i]).0, r@[i].1, (#[trigger] r@[j]).0, r@[j].1),
    {
        let mut out: Vec<(Priority, ChunkPos)> = Vec::new();
        loop
            invariant
                self.wf(),
                forall|k: (int, int)| #[trigger] self@.contains_key(k) <==> old(
                    self)@.contains_key(k),
                forall|k: (int, int)|
                    #[trigger] self@.contains_key(k) && self@[k] is Some ==> self@[k] == old(
                        self)@[k],
                forall|i: int|
                    0 <= i < out@.len() ==> old(self)@.contains_key((#[trigger] out@[i]).1.key())
                        && old(self)@[out@[i].1.key()] == Some(out@[i].0),
                forall|i: int|
                    0 <= i < out@.len() ==> self@.contains_key((#[trigger] out@[i]).1.key())
                        && self@[out@[i].1.key()] is None,
                forall|k: (int, int)|
                    #[trigger] old(self)@.contains_key(k) && old(self)@[k] is Some && self@[k]
                        is None ==> exists|i: int|
                        0 <= i < out@.len() && (#[trigger] out@[i]).1.key() == k,
                forall|i: int, j: int|
                    0 <= i < j < out@.len() ==> (#[trigger] out@[i]).1.key() != (
                    #[trigger] out@[j]).1.key(),
                forall|i: int, j: int|
                    0 <= i < j < out@.len() ==> prio_le(
                        (#[trigger] out@[i]).0, out@[i].1, (#[trigger] out@[j]).0, out@[j].1),
                forall|i: int, j: int|
                    0 <= i < out@.len() && 0 <= j < self.entries@.len() && (
                    #[trigger] self.entries@[j]).1 is Some ==> prio_le(
                        (#[trigger] out@[i]).0,
                        out@[i].1,
                        self.entries@[j].1.unwrap(),
                        self.entries@[j].0,
                    ),
            ensures
                forall|j: int|
                    0 <= j < self.entries@.len() ==> (#[trigger] self.entries@[j]).1 is None,
            decreases count_some(self.entries@),
        {
            match self.find_min() {
                None => {
                    break;
                },
                Some((i, p)) => {
                    let e0 = self.entries[i].0;
                    let ghost premap = self@;
                    let ghost preout = out@;
                    proof {
                        pm_lemma_lookup(self.entries@, i as int);
                        pm_lemma_update(self.entries@, i as int, None);
                        count_some_update(self.entries@, i as int);
                    }
                    let ghost pre = self.entries@;
                    self.entries.set(i, (e0, None));
                    out.push((p, e0));
                    proof {
                        assert(premap[e0.key()] == Some(p));
                        assert(self@ == premap.insert(e0.key(), None));
                        assert forall|a: int, b: int|
                            0 <= a < b < self.entries@.len() implies (#[trigger] self.entries@[
                        a]).0.key() != (#[trigger] self.entries@[b]).0.key() by {
                            assert(pre[a].0.key() != pre[b].0.key());
                        }
                        assert(out@.drop_last() =~= preout);
                        assert forall|a: int|
                            0 <= a < out@.len() - 1 implies self@.contains_key(
                            (#[trigger] out@[a]).1.key()) && self@[out@[a].1.key()] is None by {
                            assert(out@[a] == preout[a]);
                            assert(premap[preout[a].1.key()] is None);
                        }
                        assert forall|k: (int, int)|
                            #[trigger] old(self)@.contains_key(k) && old(self)@[k] is Some
                                && self@[k] is None implies exists|i2: int|
                                0 <= i2 < out@.len() && (#[trigger] out@[i2]).1.key() == k by {
                            if k == e0.key() {
                                assert(out@[out@.len() - 1].1.key() == k);
                            } else {
                                assert(premap[k] is None);
                                let i2 = choose|i2: int|
                                    0 <= i2 < preout.len() && (#[trigger] preout[i2]).1.key()
                                        == k;
                                assert(out@[i2].1.key() == k);
                            }
                        }
                        assert forall|a: int, b: int|
                            0 <= a < b < out@.len() implies (#[trigger] out@[a]).1.key() != (
                            #[trigger] out@[b]).1.key() by {
                            if b == out@.len() - 1 {
                                assert(out@[a] == preout[a]);
                                assert(premap[preout[a].1.key()] is None);
                            } else {
                                assert(out@[a] == preout[a] && out@[b] == preout[b]);
                            }
                        }
                    }
                },
            }
        }
        proof {
            assert forall|k: (int, int)|
                #[trigger] self@.contains_key(k) implies self@[k] is None by {
                pm_lemma_contains(self.entries@, k);
                let j = choose|j: int|
                    0 <= j < self.entries@.len() && (#[trigger] self.entries@[j]).0.key() == k;
                pm_lemma_lookup(self.entries@, j);
            }
            assert forall|k: (int, int)|
                #[trigger] old(self)@.contains_key(k) && old(self)@[k] is Some implies exists|
            i: int|
                0 <= i < out@.len() && (#[trigger] out@[i]).1.key() == k by {
                assert(self@.contains_key(k));
                assert(self@[k] is None);
            }
        }
        out
    }
}

// ---------------------------------------------------------------------
// The scheduling invariant.

/// What holds of the scheduler between steps.  `inflight` is the set of
/// positions with an outstanding generation request.  Since it is a
/// set, there is at most one request in flight per position; a request
/// is outstanding exactly for the pending entries marked sent (`None`),
/// and no chunk the world already holds is pending.
pub open spec fn tick_inv(
    world: Set<(int, int)>,
    pending: Map<(int, int), Option<Priority>>,
    inflight: Set<(int, int)>,
) -> bool {
    &&& forall|k: (int, int)| #[trigger] pending.contains_key(k) ==> !world.contains(k)
    &&& forall|k: (int, int)| #[trigger] inflight.contains(k) <==> pending.contains_key(k)
        && pending[k] is None
}

proof fn lemma_queue_one_shape(
    m: Map<(int, int), Option<Priority>>,
    world: Set<(int, int)>,
    k: (int, int),
    dist: Priority,
)
    ensures
        forall|k2: (int, int)| #[trigger] queue_one(m, world, k, dist).contains_key(k2)
            ==> m.contains_key(k2) || !world.contains(k2),
        forall|k2: (int, int)| m.contains_key(k2) ==> #[trigger] queue_one(
            m, world, k, dist).contains_key(k2),
        forall|k2: (int, int)|
            (#[trigger] queue_one(m, world, k, dist).contains_key(k2) && queue_one(
                m, world, k, dist)[k2] is None) <==> (m.contains_key(k2) && m[k2] is None),
{
}

proof fn lemma_queue_cells_shape(
    m: Map<(int, int), Option<Priority>>,
    world: Set<(int, int)>,
    v: Viewer,
    n: int,
)
    ensures
        forall|k2: (int, int)| #[trigger] queue_cells(m, world, v, n).contains_key(k2)
            ==> m.contains_key(k2) || !world.contains(k2),
        forall|k2: (int, int)| m.contains_key(k2) ==> #[trigger] queue_cells(
            m, world, v, n).contains_key(k2),
        forall|k2: (int, int)|
            (#[trigger] queue_cells(m, world, v, n).contains_key(k2) && queue_cells(
                m, world, v, n)[k2] is None) <==> (m.contains_key(k2) && m[k2] is None),
    decreases n,
{
    if n > 0 {
        lemma_queue_cells_shape(m, world, v, n - 1);
        lemma_queue_one_shape(
            queue_cells(m, world, v, n - 1),
            world,
            view_cell(v, n - 1),
            dist_sq(v.pos.key(), view_cell(v, n - 1)) as Priority,
        );
    }
}

proof fn lemma_update_all_shape(
    m: Map<(int, int), Option<Priority>>,
    world: Set<(int, int)>,
    vs: Seq<Viewer>,
    n: int,
)
    ensures
        forall|k2: (int, int)| #[trigger] update_all(m, world, vs, n).contains_key(k2)
            ==> m.contains_key(k2) || !world.contains(k2),
        forall|k2: (int, int)| m.contains_key(k2) ==> #[trigger] update_all(
            m, world, vs, n).contains_key(k2),
        forall|k2: (int, int)|
            (#[trigger] update_all(m, world, vs, n).contains_key(k2) && update_all(
                m, world, vs, n)[k2] is None) <==> (m.contains_key(k2) && m[k2] is None),
    decreases n,
{
    if n > 0 {
        lemma_update_all_shape(m, world, vs, n - 1);
        lemma_queue_cells_shape(
            update_all(m, world, vs, n - 1),
            world,
            vs[n - 1],
            side_of(vs[n - 1]) * side_of(vs[n - 1]),
        );
    }
}

/// The demand update keeps the scheduling invariant: it queues only
/// chunks the world does not hold, and it neither adds to nor removes
/// from the set of outstanding requests — an entry already sent is left
/// alone, so no position can end up requested twice.
pub proof fn lemma_tick_inv_update(
    world: Set<(int, int)>,
    pending: Map<(int, int), Option<Priority>>,
    inflight: Set<(int, int)>,
    vs: Seq<Viewer>,
    n: int,
)
    requires
        tick_inv(world, pending, inflight),
    ensures
        tick_inv(world, update_all(pending, world, vs, n), inflight),
{
    lemma_update_all_shape(pending, world, vs, n);
}

/// Dispatch keeps the scheduling invariant and sends each position at
/// most once, ever: the positions handed out are exactly those queued,
/// none of them had a request outstanding, and afterwards the
/// outstanding set has grown by exactly those positions.
pub proof fn lemma_tick_inv_dispatch(
    world: Set<(int, int)>,
    pending: Map<(int, int), Option<Priority>>,
    after: Map<(int, int), Option<Priority>>,
    inflight: Set<(int, int)>,
    dispatched: Set<(int, int)>,
)
    requires
        tick_inv(world, pending, inflight),
        forall|k: (int, int)| #[trigger] after.contains_key(k) <==> pending.contains_key(k),
        forall|k: (int, int)| #[trigger] after.contains_key(k) ==> after[k] is None,
        forall|k: (int, int)| #[trigger] dispatched.contains(k) <==> pending.contains_key(k)
            && pending[k] is Some,
    ensures
        forall|k: (int, int)| #[trigger] dispatched.contains(k) ==> !inflight.contains(k),
        tick_inv(world, after, inflight.union(dispatched)),
{
}

/// A delivered chunk settles its request: it leaves the pending map and
/// the outstanding set and enters the world, and the invariant
/// survives.
pub proof fn lemma_tick_inv_response(
    world: Set<(int, int)>,
    pending: Map<(int, int), Option<Priority>>,
    inflight: Set<(int, int)>,
    k: (int, int),
)
    requires
        tick_inv(world, pending, inflight),
        inflight.contains(k),
    ensures
        tick_inv(world.insert(k), pending.remove(k), inflight.remove(k)),
{
}

/// Reaping chunks that nobody views only shrinks the world, so the
/// invariant survives.
pub proof fn lemma_tick_inv_retain(
    world: Set<(int, int)>,
    smaller: Set<(int, int)>,
    pending: Map<(int, int), Option<Priority>>,
    inflight: Set<(int, int)>,
)
    requires
        tick_inv(world, pending, inflight),
        forall|k: (int, int)| #[trigger] smaller.contains(k) ==> world.contains(k),
    ensures
        tick_inv(smaller, pending, inflight),
{
}

/// A reconfiguration clears the world and queues every view again; the
/// outstanding set is untouched and the invariant holds of the cleared
/// world.
pub proof fn lemma_tick_inv_reconfig(
    pending: Map<(int, int), Option<Priority>>,
    inflight: Set<(int, int)>,
    vs: Seq<Viewer>,
    n: int,
)
    requires
        forall|k: (int, int)| #[trigger] inflight.contains(k) <==> pending.contains_key(k)
            && pending[k] is None,
    ensures
        tick_inv(
            Set::<(int, int)>::empty(),
            update_all(pending, Set::<(int, int)>::empty(), vs, n),
            inflight,
        ),
{
    lemma_update_all_shape(pending, Set::<(int, int)>::empty(), vs, n);
}

/// The world once each position of `ps` has been delivered.
pub open spec fn insert_all(world: Set<(int, int)>, ps: Seq<(int, int)>) -> Set<(int, int)>
    decreases ps.len(),
{
    if ps.len() == 0 {
        world
    } else {
        insert_all(world, ps.drop_last()).insert(ps.last())
    }
}

/// The pending map once each position of `ps` has settled.
pub open spec fn remove_all_keys(
    m: Map<(int, int), Option<Priority>>,
    ps: Seq<(int, int)>,
) -> Map<(int, int), Option<Priority>>
    decreases ps.len(),
{
    if ps.len() == 0 {
        m
    } else {
        remove_all_keys(m, ps.drop_last()).remove(ps.last())
    }
}

/// The outstanding set once each position of `ps` has settled.
pub open spec fn remove_all(f: Set<(int, int)>, ps: Seq<(int, int)>) -> Set<(int, int)>
    decreases ps.len(),
{
    if ps.len() == 0 {
        f
    } else {
        remove_all(f, ps.drop_last()).remove(ps.last())
    }
}

proof fn lemma_remove_all_contains(f: Set<(int, int)>, ps: Seq<(int, int)>, k: (int, int))
    requires
        f.contains(k),
        forall|a: int| 0 <= a < ps.len() ==> #[trigger] ps[a] != k,
    ensures
        remove_all(f, ps).contains(k),
    decreases ps.len(),
{
    if ps.len() > 0 {
        assert forall|a: int|
            0 <= a < ps.drop_last().len() implies #[trigger] ps.drop_last()[a] != k by {
            assert(ps.drop_last()[a] == ps[a]);
        }
        lemma_remove_all_contains(f, ps.drop_last(), k);
        assert(ps[ps.len() - 1] != k);
    }
}

/// Draining a tick's responses keeps the scheduling invariant: each
/// delivered position had exactly one outstanding request, and each
/// enters the world, leaves the pending map and leaves the outstanding
/// set.
pub proof fn lemma_tick_inv_responses(
    world: Set<(int, int)>,
    pending: Map<(int, int), Option<Priority>>,
    inflight: Set<(int, int)>,
    ps: Seq<(int, int)>,
)
    requires
        tick_inv(world, pending, inflight),
        forall|a: int, b: int| 0 <= a < b < ps.len() ==> #[trigger] ps[a] != #[trigger] ps[b],
        forall|a: int| 0 <= a < ps.len() ==> inflight.contains(#[trigger] ps[a]),
    ensures
        tick_inv(insert_all(world, ps), remove_all_keys(pending, ps), remove_all(inflight, ps)),
    decreases ps.len(),
{
    if ps.len() > 0 {
        let rest = ps.drop_last();
        let last = ps.last();
        assert forall|a: int, b: int|
            0 <= a < b < rest.len() implies #[trigger] rest[a] != #[trigger] rest[b] by {
            assert(rest[a] == ps[a] && rest[b] == ps[b]);
        }
        assert forall|a: int| 0 <= a < rest.len() implies inflight.contains(
            #[trigger] rest[a]) by {
            assert(rest[a] == ps[a]);
        }
        lemma_tick_inv_responses(world, pending, inflight, rest);
        assert forall|a: int| 0 <= a < rest.len() implies #[trigger] rest[a] != last by {
            assert(rest[a] == ps[a] && last == ps[ps.len() - 1]);
        }
        assert(inflight.contains(last));
        lemma_remove_all_contains(inflight, rest, last);
        lemma_tick_inv_response(
            insert_all(world, rest),
            remove_all_keys(pending, rest),
            remove_all(inflight, rest),
            last,
        );
    }
}

/// Once the responses are drained and the queue dispatched, the tick
/// has settled: every remaining pending entry stands for exactly one
/// outstanding request, and no chunk the world holds is pending.
pub proof fn lemma_tick_settled(
    world: Set<(int, int)>,
    pending: Map<(int, int), Option<Priority>>,
    inflight: Set<(int, int)>,
)
    requires
        tick_inv(world, pending, inflight),
        forall|k: (int, int)| #[trigger] pending.contains_key(k) ==> pending[k] is None,
    ensures
        forall|k: (int, int)| #[trigger] pending.contains_key(k) <==> #[trigger] inflight.contains(
            k),
        forall|k: (int, int)| #[trigger] pending.contains_key(k) ==> !world.contains(k),
{
}

/// Every viewer, marked as having just joined: after a reconfiguration
/// the whole view of every viewer is wanted again.
pub open spec fn as_joined(v: Viewer) -> Viewer {
    Viewer { just_joined: true, ..v }
}

pub open spec fn joined_viewers(vs: Seq<Viewer>) -> Seq<Viewer> {
    vs.map_values(|v: Viewer| as_joined(v))
}

/// The tracker's part of a reconfiguration: the host has sent the new
/// parameters to the workers; here the world's chunk set is cleared and
/// every connected viewer's whole view is queued again.  The caller
/// then dispatches as on any other tick.
pub fn apply_reconfig(pending: &mut PendingMap, world: &mut ChunkSet, viewers: &Vec<Viewer>)
    requires
        old(pending).wf(),
        old(world).wf(),
        forall|i: int| 0 <= i < viewers@.len() ==> (#[trigger] viewers@[i]).wf(),
    ensures
        final(pending).wf(),
        final(world).wf(),
        final(world)@ == Set::<(int, int)>::empty(),
        final(pending)@ == update_all(
            old(pending)@,
            Set::<(int, int)>::empty(),
            joined_viewers(viewers@),
            viewers@.len() as int,
        ),
{
    world.clear();
    let mut vi: usize = 0;
    while vi < viewers.len()
        invariant
            vi <= viewers@.len(),
            pending.wf(),
            world.wf(),
            world@ == Set::<(int, int)>::empty(),
            forall|i: int| 0 <= i < viewers@.len() ==> (#[trigger] viewers@[i]).wf(),
            pending@ == update_all(
                old(pending)@,
                Set::<(int, int)>::empty(),
                joined_viewers(viewers@),
                vi as int,
            ),
        decreases viewers@.len() - vi,
    {
        let v0 = viewers[vi];
        let v = Viewer {
            pos: v0.pos,
            radius: v0.radius,
            just_joined: true,
            old_pos: v0.old_pos,
            old_radius: v0.old_radius,
        };
        proof {
            assert(joined_viewers(viewers@)[vi as int] == v);
        }
        queue_viewer(pending, world, &v);
        vi = vi + 1;
    }
}

} // verus!