//! Laws of the ring, stated over its models.
//!
//! Each lemma here relates the specifications that the ring's operations
//! ensure: the sorted entry sequence, the derived position-to-node mapping,
//! and the [`lookup`] function that `get` is pinned to.

use crate::digest::lemma_node_positions_none;
use crate::digest::lemma_node_positions_step;
use crate::digest::node_positions;
use crate::digest::virtual_pos;
use crate::hashing::StableHash;
use crate::ring::constructed;
use crate::ring::entry_index;
use crate::ring::has_key;
use crate::ring::lemma_entry_of_sorted;
use crate::ring::lemma_remove_entry;
use crate::ring::lemma_succ_index;
use crate::ring::lookup;
use crate::ring::seq_to_map;
use crate::ring::sorted;
use crate::ring::succ_index;
use crate::ring::with_positions;
use crate::ring::without_positions;
use vstd::prelude::*;
use vstd::set_lib::lemma_set_difference_len;

verus! {

broadcast use vstd::set::group_set_axioms;

/// A ring constructed from no nodes holds no entries, and every lookup on it
/// returns nothing, whatever the virtuals count was.
pub proof fn lemma_empty_ring<T: StableHash>(s: Seq<(u128, T)>, v: int, p: u128)
    requires
        seq_to_map(s) == constructed(Seq::<T>::empty(), v),
    ensures
        s.len() == 0,
        lookup(s, p) is None,
{
    if s.len() > 0 {
        assert(0 <= 0 < s.len() && s[0].0 == s[0].0);
        assert(has_key(s, s[0].0));
        assert(seq_to_map(s).dom().contains(s[0].0));
        assert(constructed(Seq::<T>::empty(), v) =~= Map::<u128, T>::empty());
        assert(false);
    }
}

/// Lookups are deterministic: rings holding equal entries assign every ring
/// position to the same node.
pub proof fn lemma_lookup_deterministic<T>(s1: Seq<(u128, T)>, s2: Seq<(u128, T)>, p: u128)
    requires
        s1 == s2,
    ensures
        lookup(s1, p) == lookup(s2, p),
{
}

/// Total coverage: a ring holding at least one entry assigns every ring
/// position to some node.
pub proof fn lemma_total_coverage<T>(s: Seq<(u128, T)>, p: u128)
    requires
        s.len() > 0,
    ensures
        lookup(s, p) is Some,
{
}

/// Wraparound: a ring position above every stored position is assigned the
/// node of the smallest stored position.
pub proof fn lemma_wraparound<T>(s: Seq<(u128, T)>, p: u128)
    requires
        s.len() > 0,
        forall|i: int| 0 <= i < s.len() ==> (#[trigger] s[i]).0 < p,
    ensures
        lookup(s, p) == Some(s[0].1),
{
    lemma_succ_index(s, p);
    if succ_index(s, p) < s.len() {
        assert(s[succ_index(s, p)].0 < p);
        assert(false);
    }
}

/// Inserting a node a second time changes nothing: the mapping after two
/// insertions equals the mapping after one. With
/// [`lemma_entries_determined`], the entries, the entry count and every
/// lookup result are therefore also unchanged.
pub proof fn lemma_insert_idempotent<T>(m: Map<u128, T>, h: u64, node: T, v: int)
    ensures
        with_positions(with_positions(m, h, node, v), h, node, v) == with_positions(m, h, node, v),
{
    assert(with_positions(with_positions(m, h, node, v), h, node, v) =~= with_positions(
        m,
        h,
        node,
        v,
    ));
}

/// A sorted entry sequence is determined by the mapping it represents: two
/// well-formed rings holding the same mapping hold the same entries.
pub proof fn lemma_entries_determined<T>(s1: Seq<(u128, T)>, s2: Seq<(u128, T)>)
    requires
        sorted(s1),
        sorted(s2),
        seq_to_map(s1) == seq_to_map(s2),
    ensures
        s1 == s2,
    decreases s1.len(),
{
    if s1.len() == 0 {
        if s2.len() > 0 {
            lemma_entry_of_sorted(s2, 0);
            assert(seq_to_map(s1).dom().contains(s2[0].0));
            let i = entry_index(s1, s2[0].0);
            assert(0 <= i < s1.len() && s1[i].0 == s2[0].0);
            assert(false);
        }
        assert(s1 =~= s2);
    } else {
        lemma_entry_of_sorted(s1, 0);
        assert(seq_to_map(s2).dom().contains(s1[0].0));
        let j = entry_index(s2, s1[0].0);
        assert(0 <= j < s2.len() && s2[j].0 == s1[0].0);
        if j > 0 {
            lemma_entry_of_sorted(s2, 0);
            assert(s2[0].0 < s2[j].0);
            assert(seq_to_map(s1).dom().contains(s2[0].0));
            let i0 = entry_index(s1, s2[0].0);
            assert(0 <= i0 < s1.len() && s1[i0].0 == s2[0].0);
            if i0 > 0 {
                assert(s1[0].0 < s1[i0].0);
            }
            assert(false);
        }
        lemma_entry_of_sorted(s2, 0);
        assert(s2[0].0 == s1[0].0);
        assert(seq_to_map(s1)[s1[0].0] == s1[0].1);
        assert(seq_to_map(s2)[s1[0].0] == s2[0].1);
        let t1 = s1.remove(0);
        let t2 = s2.remove(0);
        lemma_remove_entry(s1, 0);
        lemma_remove_entry(s2, 0);
        lemma_entries_determined(t1, t2);
        assert forall|i: int| 0 <= i < s1.len() implies s1[i] == s2[i] by {
            if i > 0 {
                assert(s1[i] == t1[i - 1]);
                assert(s2[i] == t2[i - 1]);
            } else {
                assert(s1[0].0 == s2[0].0 && s1[0].1 == s2[0].1);
            }
        }
        assert(s1 =~= s2);
    }
}

/// A well-formed ring holds one entry per position of its mapping: the
/// entry count and the mapping's domain size agree.
pub proof fn lemma_entry_count<T>(s: Seq<(u128, T)>)
    requires
        sorted(s),
    ensures
        seq_to_map(s).dom().finite(),
        seq_to_map(s).dom().len() == s.len(),
    decreases s.len(),
{
    if s.len() == 0 {
        assert(seq_to_map(s).dom() =~= Set::<u128>::empty());
    } else {
        let last: int = s.len() - 1;
        let t = s.remove(last);
        lemma_remove_entry(s, last);
        lemma_entry_count(t);
        lemma_entry_of_sorted(s, last);
        assert(seq_to_map(s).dom() =~= seq_to_map(t).dom().insert(s[last].0));
        assert(!seq_to_map(t).dom().contains(s[last].0));
    }
}

/// The virtual positions of one node are pairwise distinct.
pub open spec fn distinct_virtuals(h: u64, v: int) -> bool {
    forall|i: int, j: int|
        0 <= i < v && 0 <= j < v && i != j ==> #[trigger] virtual_pos(h, i as nat)
            != #[trigger] virtual_pos(h, j as nat)
}

/// The virtual positions of all nodes in a sequence are pairwise distinct:
/// no hash or digest collision anywhere.
pub open spec fn no_collisions<T: StableHash>(nodes: Seq<T>, v: int) -> bool {
    forall|a: int, i: int, b: int, j: int|
        0 <= a < nodes.len() && 0 <= i < v && 0 <= b < nodes.len() && 0 <= j < v && (a != b || i
            != j) ==> #[trigger] virtual_pos(nodes[a].hash_spec(), i as nat)
            != #[trigger] virtual_pos(nodes[b].hash_spec(), j as nat)
}

/// Without collisions among its own virtual indices, a node claims exactly
/// `v` positions.
pub proof fn lemma_node_positions_card(h: u64, v: int)
    requires
        distinct_virtuals(h, v),
    ensures
        node_positions(h, v).finite(),
        node_positions(h, v).len() == (if v >= 0 {
            v
        } else {
            0
        }),
    decreases v,
{
    if v <= 0 {
        lemma_node_positions_none(h, v);
    } else {
        lemma_node_positions_card(h, v - 1);
        lemma_node_positions_step(h, v - 1);
        let p_last = virtual_pos(h, (v - 1) as nat);
        if node_positions(h, v - 1).contains(p_last) {
            let j = choose|j: int| 0 <= j < v - 1 && p_last == #[trigger] virtual_pos(h, j as nat);
            assert(virtual_pos(h, j as nat) != virtual_pos(h, (v - 1) as nat));
            assert(false);
        }
    }
}

/// Every position a constructed ring holds belongs to one of its nodes.
proof fn lemma_constructed_dom<T: StableHash>(nodes: Seq<T>, v: int)
    ensures
        forall|q: u128| #[trigger]
            constructed(nodes, v).dom().contains(q) ==> exists|a: int|
                0 <= a < nodes.len() && #[trigger] node_positions(nodes[a].hash_spec(), v).contains(
                    q,
                ),
    decreases nodes.len(),
{
    if nodes.len() > 0 {
        let prev = nodes.drop_last();
        lemma_constructed_dom(prev, v);
        assert forall|q: u128| #[trigger] constructed(nodes, v).dom().contains(q) implies exists|
            a: int,
        |
            0 <= a < nodes.len() && #[trigger] node_positions(nodes[a].hash_spec(), v).contains(
                q,
            ) by {
            if constructed(prev, v).dom().contains(q) {
                let a = choose|a: int|
                    0 <= a < prev.len() && #[trigger] node_positions(
                        prev[a].hash_spec(),
                        v,
                    ).contains(q);
                assert(prev[a] == nodes[a]);
                assert(node_positions(nodes[a].hash_spec(), v).contains(q));
            } else {
                let last: int = nodes.len() - 1;
                assert(nodes[last] == nodes.last());
                assert(node_positions(nodes[last].hash_spec(), v).contains(q));
            }
        }
    }
}

/// Dropping the last node preserves collision freedom.
proof fn lemma_no_collisions_prefix<T: StableHash>(nodes: Seq<T>, v: int)
    requires
        no_collisions(nodes, v),
        nodes.len() > 0,
    ensures
        no_collisions(nodes.drop_last(), v),
{
    let prev = nodes.drop_last();
    assert forall|a: int, i: int, b: int, j: int|
        0 <= a < prev.len() && 0 <= i < v && 0 <= b < prev.len() && 0 <= j < v && (a != b || i
            != j) implies #[trigger] virtual_pos(prev[a].hash_spec(), i as nat)
        != #[trigger] virtual_pos(prev[b].hash_spec(), j as nat) by {
        assert(prev[a] == nodes[a]);
        assert(prev[b] == nodes[b]);
    }
}

/// In a ring constructed without collisions, each position of each node is
/// held and carries that node.
pub proof fn lemma_constructed_at_node<T: StableHash>(nodes: Seq<T>, v: int, a: int, q: u128)
    requires
        no_collisions(nodes, v),
        0 <= a < nodes.len(),
        node_positions(nodes[a].hash_spec(), v).contains(q),
    ensures
        constructed(nodes, v).dom().contains(q),
        constructed(nodes, v)[q] == nodes[a],
    decreases nodes.len(),
{
    let prev = nodes.drop_last();
    let last: int = nodes.len() - 1;
    let h_last = nodes.last().hash_spec();
    assert(nodes[last] == nodes.last());
    if a == last {
        assert(node_positions(h_last, v).contains(q));
    } else {
        lemma_no_collisions_prefix(nodes, v);
        assert(prev[a] == nodes[a]);
        lemma_constructed_at_node(prev, v, a, q);
        if node_positions(h_last, v).contains(q) {
            let i = choose|i: int|
                0 <= i < v && q == #[trigger] virtual_pos(nodes[a].hash_spec(), i as nat);
            let j = choose|j: int| 0 <= j < v && q == #[trigger] virtual_pos(h_last, j as nat);
            assert(virtual_pos(nodes[a].hash_spec(), i as nat) != virtual_pos(
                nodes[last].hash_spec(),
                j as nat,
            ));
            assert(false);
        }
    }
}

/// In a ring constructed without collisions, every position of a node is
/// held, so removing that node finds all its entries.
pub proof fn lemma_constructed_holds_node<T: StableHash>(nodes: Seq<T>, v: int, b: int)
    requires
        no_collisions(nodes, v),
        0 <= b < nodes.len(),
    ensures
        node_positions(nodes[b].hash_spec(), v).subset_of(constructed(nodes, v).dom()),
{
    assert forall|q: u128|
        node_positions(nodes[b].hash_spec(), v).contains(q) implies constructed(
        nodes,
        v,
    ).dom().contains(q) by {
        lemma_constructed_at_node(nodes, v, b, q);
    }
}

/// In a well-formed ring constructed without collisions, a node of `nodes`
/// occupies exactly its own positions: its entries stand at its positions,
/// and its positions carry it. This discharges the collision-freedom
/// premises of [`lemma_removed_node_unreachable`] and
/// [`lemma_minimal_disruption`].
pub proof fn lemma_constructed_node_entries<T: StableHash>(
    nodes: Seq<T>,
    v: int,
    s: Seq<(u128, T)>,
    b: int,
)
    requires
        no_collisions(nodes, v),
        0 <= b < nodes.len(),
        sorted(s),
        seq_to_map(s) == constructed(nodes, v),
    ensures
        forall|i: int|
            0 <= i < s.len() && (#[trigger] s[i]).1 == nodes[b] ==> node_positions(
                nodes[b].hash_spec(),
                v,
            ).contains(s[i].0),
        forall|i: int|
            0 <= i < s.len() && node_positions(nodes[b].hash_spec(), v).contains(
                (#[trigger] s[i]).0,
            ) ==> s[i].1 == nodes[b],
{
    let n = nodes[b];
    let h = n.hash_spec();
    assert forall|i: int|
        0 <= i < s.len() && node_positions(h, v).contains((#[trigger] s[i]).0) implies s[i].1
        == n by {
        lemma_entry_of_sorted(s, i);
        lemma_constructed_at_node(nodes, v, b, s[i].0);
    }
    assert forall|i: int| 0 <= i < s.len() && (#[trigger] s[i]).1 == n implies node_positions(
        h,
        v,
    ).contains(s[i].0) by {
        lemma_entry_of_sorted(s, i);
        let q = s[i].0;
        lemma_constructed_dom(nodes, v);
        assert(constructed(nodes, v).dom().contains(q));
        let a = choose|a: int|
            0 <= a < nodes.len() && #[trigger] node_positions(nodes[a].hash_spec(), v).contains(q);
        lemma_constructed_at_node(nodes, v, a, q);
        assert(nodes[a] == n);
        assert(nodes[a].hash_spec() == h);
    }
}

/// Virtual count after construction: with no collisions, a ring built from
/// `nodes` with `v` virtuals holds exactly `nodes.len() * v` entries.
pub proof fn lemma_construct_count<T: StableHash>(nodes: Seq<T>, v: int)
    requires
        v >= 0,
        no_collisions(nodes, v),
    ensures
        constructed(nodes, v).dom().finite(),
        constructed(nodes, v).dom().len() == nodes.len() * v,
    decreases nodes.len(),
{
    if nodes.len() == 0 {
        assert(constructed(nodes, v).dom() =~= Set::<u128>::empty());
    } else {
        let prev = nodes.drop_last();
        let last: int = nodes.len() - 1;
        let nd = nodes.last();
        let h = nd.hash_spec();
        assert(nodes[last] == nd);
        lemma_no_collisions_prefix(nodes, v);
        lemma_construct_count(prev, v);
        let m = constructed(prev, v);
        assert forall|i: int, j: int|
            0 <= i < v && 0 <= j < v && i != j implies #[trigger] virtual_pos(h, i as nat)
            != #[trigger] virtual_pos(h, j as nat) by {
            assert(virtual_pos(nodes[last].hash_spec(), i as nat) != virtual_pos(
                nodes[last].hash_spec(),
                j as nat,
            ));
        }
        lemma_node_positions_card(h, v);
        let ps = node_positions(h, v);
        lemma_constructed_dom(prev, v);
        assert forall|q: u128| ps.contains(q) implies !m.dom().contains(q) by {
            if m.dom().contains(q) {
                let a = choose|a: int|
                    0 <= a < prev.len() && #[trigger] node_positions(
                        prev[a].hash_spec(),
                        v,
                    ).contains(q);
                let i = choose|i: int|
                    0 <= i < v && q == #[trigger] virtual_pos(prev[a].hash_spec(), i as nat);
                let j = choose|j: int| 0 <= j < v && q == #[trigger] virtual_pos(h, j as nat);
                assert(prev[a] == nodes[a]);
                assert(virtual_pos(nodes[a].hash_spec(), i as nat) != virtual_pos(
                    nodes[last].hash_spec(),
                    j as nat,
                ));
                assert(false);
            }
        }
        assert(constructed(nodes, v).dom() =~= m.dom().union(ps));
        let u = m.dom().union(ps);
        lemma_set_difference_len(u, ps);
        assert(u.difference(ps) =~= m.dom());
        assert(u.intersect(ps) =~= ps);
        assert((nodes.len() - 1) * v + v == nodes.len() * v) by (nonlinear_arith);
    }
}

/// Virtual count after removal: deleting the `v` distinct positions of a
/// node that are all held leaves exactly `v` fewer entries.
pub proof fn lemma_remove_count<T: StableHash>(m: Map<u128, T>, h: u64, v: int)
    requires
        m.dom().finite(),
        v >= 0,
        distinct_virtuals(h, v),
        node_positions(h, v).subset_of(m.dom()),
    ensures
        without_positions(m, h, v).dom().finite(),
        without_positions(m, h, v).dom().len() == m.dom().len() - v,
{
    lemma_node_positions_card(h, v);
    let ps = node_positions(h, v);
    assert(without_positions(m, h, v).dom() =~= m.dom().difference(ps));
    lemma_set_difference_len(m.dom(), ps);
    assert(m.dom().intersect(ps) =~= ps);
    assert(m.dom().difference(ps).subset_of(m.dom()));
    vstd::set_lib::lemma_set_subset_finite(m.dom(), m.dom().difference(ps));
}

/// Each entry of a ring after a removal comes unchanged from the ring before
/// it, at a position the removal did not touch.
proof fn lemma_post_entry_from_pre<T>(
    pre: Seq<(u128, T)>,
    post: Seq<(u128, T)>,
    h: u64,
    v: int,
    i: int,
)
    requires
        sorted(pre),
        sorted(post),
        seq_to_map(post) == without_positions(seq_to_map(pre), h, v),
        0 <= i < post.len(),
    ensures
        !node_positions(h, v).contains(post[i].0),
        0 <= entry_index(pre, post[i].0) < pre.len(),
        pre[entry_index(pre, post[i].0)].0 == post[i].0,
        pre[entry_index(pre, post[i].0)].1 == post[i].1,
{
    lemma_entry_of_sorted(post, i);
    let q = post[i].0;
    assert(seq_to_map(post).dom().contains(q));
    assert(without_positions(seq_to_map(pre), h, v).dom().contains(q));
    assert(seq_to_map(pre).dom().contains(q));
    let k = entry_index(pre, q);
    assert(0 <= k < pre.len() && pre[k].0 == q);
    lemma_entry_of_sorted(pre, k);
    assert(seq_to_map(post)[q] == seq_to_map(pre)[q]);
}

/// Removal makes a node unreachable: once its positions are deleted, no
/// entry carries it, and every lookup lands on some other node.
///
/// The collision-freedom premise is that entries carrying the node stood
/// only at the node's own positions.
pub proof fn lemma_removed_node_unreachable<T: StableHash>(
    pre: Seq<(u128, T)>,
    post: Seq<(u128, T)>,
    n: T,
    v: int,
    p: u128,
)
    requires
        sorted(pre),
        sorted(post),
        seq_to_map(post) == without_positions(seq_to_map(pre), n.hash_spec(), v),
        forall|i: int|
            0 <= i < pre.len() && (#[trigger] pre[i]).1 == n ==> node_positions(
                n.hash_spec(),
                v,
            ).contains(pre[i].0),
    ensures
        forall|i: int| 0 <= i < post.len() ==> (#[trigger] post[i]).1 != n,
        post.len() > 0 ==> lookup(post, p) is Some,
        lookup(post, p) != Some(n),
{
    let h = n.hash_spec();
    assert forall|i: int| 0 <= i < post.len() implies (#[trigger] post[i]).1 != n by {
        lemma_post_entry_from_pre(pre, post, h, v, i);
        let k = entry_index(pre, post[i].0);
        if post[i].1 == n {
            assert(pre[k].1 == n);
            assert(node_positions(h, v).contains(pre[k].0));
            assert(false);
        }
    }
    if post.len() > 0 {
        lemma_succ_index(post, p);
        let si = succ_index(post, p);
        if si < post.len() {
            assert(lookup(post, p) == Some(post[si].1));
        } else {
            assert(lookup(post, p) == Some(post[0].1));
        }
    }
}

/// Minimal disruption: a ring position that was assigned to a surviving
/// node is assigned to the same node after a removal. Only positions that
/// were assigned to the removed node change hands.
///
/// The collision-freedom premise is that the removal deleted only entries
/// carrying the removed node.
pub proof fn lemma_minimal_disruption<T: StableHash>(
    pre: Seq<(u128, T)>,
    post: Seq<(u128, T)>,
    n: T,
    v: int,
    p: u128,
    x: T,
)
    requires
        sorted(pre),
        sorted(post),
        seq_to_map(post) == without_positions(seq_to_map(pre), n.hash_spec(), v),
        forall|i: int|
            0 <= i < pre.len() && node_positions(n.hash_spec(), v).contains(
                (#[trigger] pre[i]).0,
            ) ==> pre[i].1 == n,
        lookup(pre, p) == Some(x),
        x != n,
    ensures
        lookup(post, p) == Some(x),
{
    let h = n.hash_spec();
    lemma_succ_index(pre, p);
    lemma_succ_index(post, p);
    assert(pre.len() > 0);
    let si = succ_index(pre, p);
    let src: int = if si < pre.len() {
        si
    } else {
        0
    };
    assert(pre[src].1 == x);
    assert(!node_positions(h, v).contains(pre[src].0));
    lemma_entry_of_sorted(pre, src);
    let q = pre[src].0;
    assert(seq_to_map(pre).dom().contains(q));
    assert(without_positions(seq_to_map(pre), h, v).dom().contains(q));
    assert(seq_to_map(post).dom().contains(q));
    let i2 = entry_index(post, q);
    assert(0 <= i2 < post.len() && post[i2].0 == q);
    lemma_entry_of_sorted(post, i2);
    assert(seq_to_map(post)[q] == seq_to_map(pre)[q]);
    assert(post[i2].1 == x);
    let s2 = succ_index(post, p);
    if si < pre.len() {
        assert forall|j: int| 0 <= j < i2 implies (#[trigger] post[j]).0 < p by {
            lemma_post_entry_from_pre(pre, post, h, v, j);
            let k = entry_index(pre, post[j].0);
            assert(post[j].0 < post[i2].0);
            if k >= si {
                if k > si {
                    assert(pre[si].0 < pre[k].0);
                }
                assert(false);
            }
            assert(pre[k].0 < p);
        }
        assert(post[i2].0 >= p);
        if s2 < i2 {
            assert(post[s2].0 >= p);
            assert(false);
        }
        if s2 > i2 {
            assert(post[i2].0 < p);
            assert(false);
        }
        assert(lookup(post, p) == Some(post[i2].1));
    } else {
        assert forall|j: int| 0 <= j < post.len() implies (#[trigger] post[j]).0 < p by {
            lemma_post_entry_from_pre(pre, post, h, v, j);
            let k = entry_index(pre, post[j].0);
            assert(pre[k].0 < p);
        }
        if s2 < post.len() {
            assert(post[s2].0 >= p);
            assert(false);
        }
        if i2 > 0 {
            lemma_post_entry_from_pre(pre, post, h, v, 0);
            let k0 = entry_index(pre, post[0].0);
            if k0 > 0 {
                assert(pre[0].0 < pre[k0].0);
            }
            assert(post[0].0 >= pre[0].0);
            assert(post[0].0 < post[i2].0);
            assert(false);
        }
        assert(lookup(post, p) == Some(post[0].1));
    }
}

} // verus!
