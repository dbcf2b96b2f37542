//! The consistent-hashing ring.
//!
//! A [`ConsistentHash`] owns an ordered sequence of `(position, node)`
//! entries, strictly sorted by position, together with the number of virtual
//! positions each node occupies. The entries are modeled two ways: as the
//! sorted sequence itself (which lookup walks) and as the position-to-node
//! map [`seq_to_map`] derived from it (which insertion and removal update).

use crate::digest::compute_key_pos;
use crate::digest::compute_virtual_pos;
use crate::digest::key_pos;
use crate::digest::node_positions;
use crate::digest::virtual_pos;
use crate::hashing::StableHash;
use vstd::prelude::*;

verus! {

/// Entries strictly ascending by position.
pub open spec fn sorted<T>(s: Seq<(u128, T)>) -> bool {
    forall|i: int, j: int| 0 <= i < j < s.len() ==> #[trigger] s[i].0 < #[trigger] s[j].0
}

/// Some entry carries position `p`.
pub open spec fn has_key<T>(s: Seq<(u128, T)>, p: u128) -> bool {
    exists|i: int| 0 <= i < s.len() && (#[trigger] s[i]).0 == p
}

/// The index of the entry carrying position `p`, if one does.
pub open spec fn entry_index<T>(s: Seq<(u128, T)>, p: u128) -> int {
    choose|i: int| 0 <= i < s.len() && (#[trigger] s[i]).0 == p
}

/// The position-to-node mapping that a sequence of entries represents.
pub open spec fn seq_to_map<T>(s: Seq<(u128, T)>) -> Map<u128, T> {
    Map::new(|p: u128| has_key(s, p), |p: u128| s[entry_index(s, p)].1)
}

/// In a sorted sequence, positions are unique, so each entry is the one its
/// position maps to.
pub proof fn lemma_entry_of_sorted<T>(s: Seq<(u128, T)>, i: int)
    requires
        sorted(s),
        0 <= i < s.len(),
    ensures
        has_key(s, s[i].0),
        entry_index(s, s[i].0) == i,
        seq_to_map(s).dom().contains(s[i].0),
        seq_to_map(s)[s[i].0] == s[i].1,
{
    assert(0 <= i < s.len() && s[i].0 == s[i].0);
    let k = entry_index(s, s[i].0);
    if k != i {
        if k < i {
            assert(s[k].0 < s[i].0);
        } else {
            assert(s[i].0 < s[k].0);
        }
    }
}

/// Index of the first entry at or above position `p`; the length if every
/// entry lies below `p`.
pub open spec fn succ_index<T>(s: Seq<(u128, T)>, p: u128) -> int
    decreases s.len(),
{
    if s.len() == 0 {
        0
    } else if s[0].0 >= p {
        0
    } else {
        1 + succ_index(s.subrange(1, s.len() as int), p)
    }
}

/// What `succ_index` finds: everything before it lies below `p`, and the
/// entry at it (when there is one) lies at or above `p`.
pub proof fn lemma_succ_index<T>(s: Seq<(u128, T)>, p: u128)
    ensures
        0 <= succ_index(s, p) <= s.len(),
        forall|j: int| 0 <= j < succ_index(s, p) ==> (#[trigger] s[j]).0 < p,
        succ_index(s, p) < s.len() ==> s[succ_index(s, p)].0 >= p,
    decreases s.len(),
{
    if s.len() > 0 && s[0].0 < p {
        let rest = s.subrange(1, s.len() as int);
        lemma_succ_index(rest, p);
        assert(forall|j: int| 0 <= j < succ_index(rest, p) ==> (#[trigger] rest[j]).0 < p);
        assert forall|j: int| 0 <= j < succ_index(s, p) implies (#[trigger] s[j]).0 < p by {
            if j > 0 {
                assert(rest[j - 1] == s[j]);
            }
        }
    }
}

/// The node assigned to ring position `p`: the node of the first entry at or
/// above `p`, wrapping around to the first entry when `p` lies above every
/// stored position; absent only when there are no entries.
pub open spec fn lookup<T>(s: Seq<(u128, T)>, p: u128) -> Option<T> {
    if s.len() == 0 {
        None
    } else if succ_index(s, p) < s.len() {
        Some(s[succ_index(s, p)].1)
    } else {
        Some(s[0].1)
    }
}

/// The mapping `m` with every position of `node_positions(h, k)` set to
/// `node`, and every other position left as it was.
pub open spec fn with_positions<T>(m: Map<u128, T>, h: u64, node: T, k: int) -> Map<u128, T> {
    Map::new(
        |p: u128| m.dom().contains(p) || node_positions(h, k).contains(p),
        |p: u128|
            if node_positions(h, k).contains(p) {
                node
            } else {
                m[p]
            },
    )
}

/// The mapping `m` with every position of `node_positions(h, k)` deleted.
pub open spec fn without_positions<T>(m: Map<u128, T>, h: u64, k: int) -> Map<u128, T> {
    Map::new(
        |p: u128| m.dom().contains(p) && !node_positions(h, k).contains(p),
        |p: u128| m[p],
    )
}

/// The mapping built by inserting each node of `nodes` in order, each at its
/// `v` virtual positions.
pub open spec fn constructed<T: StableHash>(nodes: Seq<T>, v: int) -> Map<u128, T>
    decreases nodes.len(),
{
    if nodes.len() == 0 {
        Map::empty()
    } else {
        with_positions(
            constructed(nodes.drop_last(), v),
            nodes.last().hash_spec(),
            nodes.last(),
            v,
        )
    }
}

/// Claiming one more virtual position is one more map insertion.
pub proof fn lemma_with_positions_step<T>(m: Map<u128, T>, h: u64, node: T, i: int)
    requires
        0 <= i,
    ensures
        with_positions(m, h, node, i + 1) == with_positions(m, h, node, i).insert(
            virtual_pos(h, i as nat),
            node,
        ),
{
    let p_i = virtual_pos(h, i as nat);
    crate::digest::lemma_node_positions_step(h, i);
    assert(with_positions(m, h, node, i + 1) =~= with_positions(m, h, node, i).insert(p_i, node));
}

/// Releasing one more virtual position is one more map deletion.
pub proof fn lemma_without_positions_step<T>(m: Map<u128, T>, h: u64, i: int)
    requires
        0 <= i,
    ensures
        without_positions(m, h, i + 1) == without_positions(m, h, i).remove(
            virtual_pos(h, i as nat),
        ),
{
    let p_i = virtual_pos(h, i as nat);
    crate::digest::lemma_node_positions_step(h, i);
    assert(without_positions(m, h, i + 1) =~= without_positions(m, h, i).remove(p_i));
}

/// Claiming no virtual positions changes nothing.
pub proof fn lemma_with_positions_empty<T>(m: Map<u128, T>, h: u64, node: T, k: int)
    requires
        k <= 0,
    ensures
        with_positions(m, h, node, k) == m,
{
    assert(with_positions(m, h, node, k) =~= m);
}

/// Releasing no virtual positions changes nothing.
pub proof fn lemma_without_positions_empty<T>(m: Map<u128, T>, h: u64, k: int)
    requires
        k <= 0,
    ensures
        without_positions(m, h, k) == m,
{
    assert(without_positions(m, h, k) =~= m);
}

/// Inserting an entry between its neighbours keeps the sequence sorted and
/// inserts its position into the mapping.
proof fn lemma_insert_entry<T>(s: Seq<(u128, T)>, idx: int, p: u128, node: T)
    requires
        sorted(s),
        0 <= idx <= s.len(),
        forall|j: int| 0 <= j < idx ==> (#[trigger] s[j]).0 < p,
        forall|j: int| idx <= j < s.len() ==> (#[trigger] s[j]).0 > p,
    ensures
        sorted(s.insert(idx, (p, node))),
        seq_to_map(s.insert(idx, (p, node))) == seq_to_map(s).insert(p, node),
{
    let s2 = s.insert(idx, (p, node));
    assert forall|i: int, j: int| 0 <= i < j < s2.len() implies #[trigger] s2[i].0 < #[trigger] s2[j].0 by {
        assert(s2[i] == (if i < idx { s[i] } else if i == idx { (p, node) } else { s[i - 1] }));
        assert(s2[j] == (if j < idx { s[j] } else if j == idx { (p, node) } else { s[j - 1] }));
    }
    let m2 = seq_to_map(s2);
    let m1 = seq_to_map(s).insert(p, node);
    assert forall|q: u128| m2.dom().contains(q) implies m1.dom().contains(q) && m2[q] == m1[q] by {
        let i = entry_index(s2, q);
        assert(0 <= i < s2.len() && s2[i].0 == q);
        lemma_entry_of_sorted(s2, i);
        if q == p {
            assert(s2[idx].0 == p);
            lemma_entry_of_sorted(s2, idx);
            assert(m2[q] == node);
        } else {
            let iorig: int = if i < idx {
                i
            } else {
                i - 1
            };
            assert(s[iorig] == s2[i]);
            lemma_entry_of_sorted(s, iorig);
            assert(m2[q] == s2[i].1);
            assert(m1[q] == s[iorig].1);
        }
    }
    assert forall|q: u128| m1.dom().contains(q) implies m2.dom().contains(q) by {
        if q == p {
            assert(s2[idx].0 == p);
        } else {
            let i = entry_index(s, q);
            assert(0 <= i < s.len() && s[i].0 == q);
            let i2: int = if i < idx {
                i
            } else {
                i + 1
            };
            assert(s2[i2] == s[i]);
            assert(has_key(s2, q));
        }
    }
    assert(m2 =~= m1);
}

/// Removing the entry at a position keeps the sequence sorted and deletes
/// its position from the mapping.
pub proof fn lemma_remove_entry<T>(s: Seq<(u128, T)>, idx: int)
    requires
        sorted(s),
        0 <= idx < s.len(),
    ensures
        sorted(s.remove(idx)),
        seq_to_map(s.remove(idx)) == seq_to_map(s).remove(s[idx].0),
{
    let p = s[idx].0;
    let s2 = s.remove(idx);
    assert forall|i: int, j: int| 0 <= i < j < s2.len() implies #[trigger] s2[i].0 < #[trigger] s2[j].0 by {
        assert(s2[i] == (if i < idx { s[i] } else { s[i + 1] }));
        assert(s2[j] == (if j < idx { s[j] } else { s[j + 1] }));
    }
    let m2 = seq_to_map(s2);
    let m1 = seq_to_map(s).remove(p);
    assert forall|q: u128| m2.dom().contains(q) implies m1.dom().contains(q) && m2[q] == m1[q] by {
        let i = entry_index(s2, q);
        assert(0 <= i < s2.len() && s2[i].0 == q);
        lemma_entry_of_sorted(s2, i);
        let iorig: int = if i < idx {
            i
        } else {
            i + 1
        };
        assert(s[iorig] == s2[i]);
        lemma_entry_of_sorted(s, iorig);
        assert(q != p);
        assert(m2[q] == s2[i].1);
        assert(m1[q] == s[iorig].1);
    }
    assert forall|q: u128| m1.dom().contains(q) implies m2.dom().contains(q) by {
        let i = entry_index(s, q);
        assert(0 <= i < s.len() && s[i].0 == q);
        lemma_entry_of_sorted(s, idx);
        assert(i != idx);
        let i2: int = if i < idx {
            i
        } else {
            i - 1
        };
        assert(s2[i2] == s[i]);
        assert(has_key(s2, q));
    }
    assert(m2 =~= m1);
}

/// A consistent-hashing ring over nodes of type `T`.
///
/// `virtuals` is fixed at construction; the node set changes through
/// [`ConsistentHash::insert`] and [`ConsistentHash::remove`].
pub struct ConsistentHash<T> {
    virtuals: isize,
    ring: Vec<(u128, T)>,
}

impl<T> ConsistentHash<T> {
    /// The ordered `(position, node)` entries of the ring.
    pub closed spec fn entries(&self) -> Seq<(u128, T)> {
        self.ring@
    }

    /// The configured number of virtual positions per node.
    pub closed spec fn virtuals_spec(&self) -> int {
        self.virtuals as int
    }

    /// The entries are strictly sorted by position. Established by
    /// construction and preserved by every operation.
    pub open spec fn wf(&self) -> bool {
        sorted(self.entries())
    }

    /// The position-to-node mapping the ring holds.
    pub open spec fn to_map(&self) -> Map<u128, T> {
        seq_to_map(self.entries())
    }

    /// The number of entries the ring currently holds.
    pub fn len(&self) -> (n: usize)
        ensures
            n == self.entries().len(),
    {
        self.ring.len()
    }
}

/// Index of the first entry of `ring` whose position is at or above `p`, or
/// the length if every position lies below `p`.
fn scan_at_or_above<T>(ring: &Vec<(u128, T)>, p: u128) -> (idx: usize)
    ensures
        0 <= idx <= ring@.len(),
        forall|j: int| 0 <= j < idx ==> (#[trigger] ring@[j]).0 < p,
        idx < ring@.len() ==> ring@[idx as int].0 >= p,
{
    let n = ring.len();
    let mut idx: usize = 0;
    while idx < n
        invariant
            0 <= idx <= n,
            n == ring@.len(),
            forall|j: int| 0 <= j < idx ==> (#[trigger] ring@[j]).0 < p,
        decreases n - idx,
    {
        if ring[idx].0 >= p {
            return idx;
        }
        idx = idx + 1;
    }
    idx
}

impl<T: StableHash> ConsistentHash<T> {
    /// Sets the entry at position `p` to `node`, inserting or overwriting.
    fn put(&mut self, p: u128, node: T)
        requires
            old(self).wf(),
        ensures
            final(self).wf(),
            final(self).virtuals_spec() == old(self).virtuals_spec(),
            final(self).to_map() == old(self).to_map().insert(p, node),
    {
        let ghost s0 = self.ring@;
        let idx = scan_at_or_above(&self.ring, p);
        if idx < self.ring.len() && self.ring[idx].0 == p {
            self.ring.remove(idx);
            proof {
                lemma_remove_entry(s0, idx as int);
                assert forall|j: int| idx <= j < self.ring@.len() implies (#[trigger] self.ring@[j]).0
                    > p by {
                    assert(self.ring@[j] == s0[j + 1]);
                }
            }
            self.ring.insert(idx, (p, node));
            proof {
                lemma_insert_entry(s0.remove(idx as int), idx as int, p, node);
                assert(seq_to_map(s0).remove(p).insert(p, node) =~= seq_to_map(s0).insert(p, node));
            }
        } else {
            proof {
                assert forall|j: int| idx <= j < self.ring@.len() implies (#[trigger] self.ring@[j]).0
                    > p by {
                    if j > idx {
                        assert(self.ring@[idx as int].0 < self.ring@[j].0);
                    }
                }
            }
            self.ring.insert(idx, (p, node));
            proof {
                lemma_insert_entry(s0, idx as int, p, node);
            }
        }
    }

    /// Deletes the entry at position `p`, if one is held.
    fn del(&mut self, p: u128)
        requires
            old(self).wf(),
        ensures
            final(self).wf(),
            final(self).virtuals_spec() == old(self).virtuals_spec(),
            final(self).to_map() == old(self).to_map().remove(p),
    {
        let ghost s0 = self.ring@;
        let idx = scan_at_or_above(&self.ring, p);
        if idx < self.ring.len() && self.ring[idx].0 == p {
            self.ring.remove(idx);
            proof {
                lemma_remove_entry(s0, idx as int);
            }
        } else {
            proof {
                assert forall|j: int| 0 <= j < s0.len() implies (#[trigger] s0[j]).0 != p by {
                    if j >= idx {
                        if j > idx {
                            assert(s0[idx as int].0 < s0[j].0);
                        }
                    }
                }
                assert(!has_key(s0, p));
                assert(seq_to_map(s0) =~= seq_to_map(s0).remove(p));
            }
        }
    }

    /// Creates a ring holding each node of `nodes`, inserted in sequence
    /// order, at `virtuals` virtual positions each.
    pub fn new(nodes: Vec<T>, virtuals: isize) -> (r: ConsistentHash<T>)
        ensures
            r.wf(),
            r.virtuals_spec() == virtuals as int,
            r.to_map() == constructed(nodes@, virtuals as int),
    {
        let mut r = ConsistentHash { virtuals, ring: Vec::new() };
        proof {
            assert(r.to_map() =~= Map::<u128, T>::empty());
            assert(nodes@.take(0) =~= Seq::<T>::empty());
        }
        let mut k: usize = 0;
        while k < nodes.len()
            invariant
                0 <= k <= nodes@.len(),
                r.wf(),
                r.virtuals_spec() == virtuals as int,
                r.to_map() == constructed(nodes@.take(k as int), virtuals as int),
            decreases nodes@.len() - k,
        {
            let node = (&nodes[k]).duplicate();
            r.insert(node);
            proof {
                assert(nodes@.take(k + 1).drop_last() =~= nodes@.take(k as int));
                assert(nodes@.take(k + 1).last() == nodes@[k as int]);
            }
            k = k + 1;
        }
        proof {
            assert(nodes@.take(nodes@.len() as int) =~= nodes@);
        }
        r
    }

    /// Inserts `node` at each of its virtual positions, overwriting whatever
    /// those exact positions held. Inserting a node already present rewrites
    /// the same positions with the same node.
    pub fn insert(&mut self, node: T)
        requires
            old(self).wf(),
        ensures
            final(self).wf(),
            final(self).virtuals_spec() == old(self).virtuals_spec(),
            final(self).to_map() == with_positions(
                old(self).to_map(),
                node.hash_spec(),
                node,
                old(self).virtuals_spec(),
            ),
    {
        let h = node.stable_hash();
        let v = self.virtuals;
        proof {
            lemma_with_positions_empty(self.to_map(), h, node, 0);
        }
        let mut i: isize = 0;
        while i < v
            invariant
                0 <= i,
                v >= 0 ==> i <= v,
                v < 0 ==> i == 0,
                v == old(self).virtuals_spec(),
                h == node.hash_spec(),
                self.wf(),
                self.virtuals_spec() == old(self).virtuals_spec(),
                self.to_map() == with_positions(old(self).to_map(), h, node, i as int),
            decreases v - i,
        {
            let p = compute_virtual_pos(i as u64, h);
            let copy = node.duplicate();
            proof {
                lemma_with_positions_step(old(self).to_map(), h, node, i as int);
            }
            self.put(p, copy);
            i = i + 1;
        }
        proof {
            if v < 0 {
                lemma_with_positions_empty(old(self).to_map(), h, node, 0);
                lemma_with_positions_empty(old(self).to_map(), h, node, v as int);
            }
        }
    }

    /// Deletes the entries at each of `node`'s virtual positions,
    /// recomputed exactly as [`ConsistentHash::insert`] placed them.
    /// Removing a node never inserted, or removing one twice, changes
    /// nothing.
    pub fn remove(&mut self, node: T)
        requires
            old(self).wf(),
        ensures
            final(self).wf(),
            final(self).virtuals_spec() == old(self).virtuals_spec(),
            final(self).to_map() == without_positions(
                old(self).to_map(),
                node.hash_spec(),
                old(self).virtuals_spec(),
            ),
    {
        let h = node.stable_hash();
        let v = self.virtuals;
        proof {
            lemma_without_positions_empty(self.to_map(), h, 0);
        }
        let mut i: isize = 0;
        while i < v
            invariant
                0 <= i,
                v >= 0 ==> i <= v,
                v < 0 ==> i == 0,
                v == old(self).virtuals_spec(),
                h == node.hash_spec(),
                self.wf(),
                self.virtuals_spec() == old(self).virtuals_spec(),
                self.to_map() == without_positions(old(self).to_map(), h, i as int),
            decreases v - i,
        {
            let p = compute_virtual_pos(i as u64, h);
            proof {
                lemma_without_positions_step(old(self).to_map(), h, i as int);
            }
            self.del(p);
            i = i + 1;
        }
        proof {
            if v < 0 {
                lemma_without_positions_empty(old(self).to_map(), h, 0);
                lemma_without_positions_empty(old(self).to_map(), h, v as int);
            }
        }
    }

    /// Looks up the node assigned to `key`: the node of the first entry at
    /// or above the key's position, wrapping past the largest position back
    /// to the smallest. Returns nothing only when the ring holds no entries.
    pub fn get<K: StableHash>(&self, key: K) -> (r: Option<&T>)
        requires
            self.wf(),
        ensures
            r is Some <==> self.entries().len() > 0,
            (match r {
                Some(node) => lookup(self.entries(), key_pos(key.hash_spec())) == Some(*node),
                None => self.entries().len() == 0,
            }),
    {
        if self.ring.len() == 0 {
            return None;
        }
        let h = key.stable_hash();
        let p = compute_key_pos(h);
        proof {
            lemma_succ_index(self.ring@, p);
        }
        let idx = scan_at_or_above(&self.ring, p);
        let chosen: usize = if idx < self.ring.len() {
            proof {
                let si = succ_index(self.ring@, p);
                if si < idx {
                    assert(self.ring@[si].0 < p);
                } else if si > idx {
                    assert(self.ring@[idx as int].0 < p);
                }
            }
            idx
        } else {
            proof {
                let si = succ_index(self.ring@, p);
                if si < self.ring@.len() {
                    assert(self.ring@[si].0 < p);
                }
            }
            0
        };
        Some(&self.ring[chosen].1)
    }
}

} // verus!
