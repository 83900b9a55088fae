//! The consistent-hashing ring.
//!
//! The ring store is a vector of `(digest, node)` entries kept strictly sorted
//! by the lexicographic order on digests; beside it stands the replica
//! registry, a vector of `(name, count)` records with unique names. The
//! abstract state ([`RingView`]) is the map from digest to node together with
//! the map from node name to replica count and the hasher; every operation's
//! contract is stated over that view.

use vstd::prelude::*;

use crate::hash::{Hasher, Md5Hasher};
use crate::ident::{ident_bytes, replica_ident};
use crate::node::Node;
use crate::order::{
    digest_lt, lex_le, lex_lt, lemma_lex_le_antisymmetric, lemma_lex_le_lt_trans,
    lemma_lex_lt_transitive, lemma_lex_trichotomy,
};

verus! {

/// The abstract state of a ring: the sorted mapping from digest to stored
/// node, the replica registry, and the hash adapter.
pub struct RingView<N, H> {
    /// The hash adapter the ring was constructed with.
    pub hasher: H,
    /// The ring store: one entry per virtual node, keyed by digest.
    pub ring: Map<Seq<u8>, N>,
    /// The replica registry: how many virtual nodes each name registered.
    pub replicas: Map<Seq<char>, nat>,
}

/// The ring position of replica `i` of the node named `name`: the digest of
/// the identifier `"{name}:{i}"` under the hasher `h`.
pub open spec fn replica_digest<H: Hasher>(h: H, name: Seq<char>, i: nat) -> Seq<u8> {
    h.spec_hash(ident_bytes(name, i))
}

/// The set of ring positions of the first `k` replicas of `name` under `h`.
pub open spec fn node_digests<H: Hasher>(h: H, name: Seq<char>, k: nat) -> Set<Seq<u8>>
    decreases k,
{
    if k == 0 {
        Set::empty()
    } else {
        node_digests(h, name, (k - 1) as nat).insert(replica_digest(h, name, (k - 1) as nat))
    }
}

/// What `node_digests` contains, and that it is finite and no larger than `k`.
pub proof fn lemma_node_digests<H: Hasher>(h: H, name: Seq<char>, k: nat)
    ensures
        forall|d: Seq<u8>| #[trigger] node_digests(h, name, k).contains(d)
            <==> exists|i: nat| i < k && d == replica_digest(h, name, i),
        node_digests(h, name, k).finite(),
        node_digests(h, name, k).len() <= k,
    decreases k,
{
    if k > 0 {
        lemma_node_digests(h, name, (k - 1) as nat);
        assert forall|d: Seq<u8>| #[trigger] node_digests(h, name, k).contains(d)
            implies exists|i: nat| i < k && d == replica_digest(h, name, i) by {
            if node_digests(h, name, (k - 1) as nat).contains(d) {
                let i = choose|i: nat| i < k - 1 && d == replica_digest(h, name, i);
                assert(i < k && d == replica_digest(h, name, i));
            } else {
                assert(d == replica_digest(h, name, (k - 1) as nat));
            }
        }
        assert forall|d: Seq<u8>|
            exists|i: nat| i < k && d == replica_digest(h, name, i)
            implies #[trigger] node_digests(h, name, k).contains(d) by {
            let i = choose|i: nat| i < k && d == replica_digest(h, name, i);
            if i < k - 1 {
                assert(node_digests(h, name, (k - 1) as nat).contains(d));
            }
        }
    }
}

/// What `remove(node)` does to the abstract state, for a node named `name`:
/// if the name is registered with count `c`, its record leaves the registry
/// and the entries at its `c` recomputed positions leave the ring (each such
/// position is vacated whatever entry sat there); an unregistered name
/// changes nothing.
pub open spec fn remove_effect<N, H: Hasher>(
    pre: RingView<N, H>,
    post: RingView<N, H>,
    name: Seq<char>,
) -> bool {
    &&& post.hasher == pre.hasher
    &&& if pre.replicas.contains_key(name) {
        &&& post.replicas == pre.replicas.remove(name)
        &&& post.ring == pre.ring.remove_keys(
            node_digests(pre.hasher, name, pre.replicas[name]),
        )
    } else {
        &&& post.replicas == pre.replicas
        &&& post.ring == pre.ring
    }
}

/// The ring after the removal step of `add`: the prior virtual nodes of
/// `name`, if any are registered, are gone.
pub open spec fn stripped_ring<N, H: Hasher>(pre: RingView<N, H>, name: Seq<char>) -> Map<
    Seq<u8>,
    N,
> {
    if pre.replicas.contains_key(name) {
        pre.ring.remove_keys(node_digests(pre.hasher, name, pre.replicas[name]))
    } else {
        pre.ring
    }
}

/// The ring `post` is `mid` with the `k` replica positions of `name` filled:
/// exactly those positions joined the map, each holding a copy of the node
/// named `name` (overwriting whatever entry a colliding position held), and
/// every other entry of `mid` is untouched.
pub open spec fn ring_refilled<N: Node, H: Hasher>(
    mid: Map<Seq<u8>, N>,
    post: Map<Seq<u8>, N>,
    h: H,
    name: Seq<char>,
    k: nat,
) -> bool {
    &&& post.dom() == mid.dom() + node_digests(h, name, k)
    &&& forall|d: Seq<u8>| #[trigger] post.dom().contains(d) ==> if node_digests(
        h,
        name,
        k,
    ).contains(d) {
        post[d].spec_name() == name
    } else {
        post[d] == mid[d]
    }
}

/// What `add(node, k)` does to the abstract state, for a node named `name`:
/// the node's prior virtual nodes are removed first, the registry then binds
/// `name` to `k`, and the `k` replica positions are filled with copies of the
/// node.
pub open spec fn add_effect<N: Node, H: Hasher>(
    pre: RingView<N, H>,
    post: RingView<N, H>,
    name: Seq<char>,
    k: nat,
) -> bool {
    &&& post.hasher == pre.hasher
    &&& post.replicas == pre.replicas.insert(name, k)
    &&& ring_refilled(stripped_ring(pre, name), post.ring, pre.hasher, name, k)
}

/// Digest `e` is the ring position that a key hashed to `d` resolves to,
/// among the occupied positions `dom`: the smallest position at or after `d`,
/// or, when every position is before `d`, the smallest position overall (the
/// wraparound).
pub open spec fn is_successor_digest(dom: Set<Seq<u8>>, d: Seq<u8>, e: Seq<u8>) -> bool {
    &&& dom.contains(e)
    &&& if exists|x: Seq<u8>| #[trigger] dom.contains(x) && lex_le(d, x) {
        lex_le(d, e) && forall|x: Seq<u8>| #[trigger] dom.contains(x) && lex_le(d, x) ==> lex_le(e, x)
    } else {
        forall|x: Seq<u8>| #[trigger] dom.contains(x) ==> lex_le(e, x)
    }
}

/// A key resolves to at most one position: the successor digest is unique.
pub proof fn lemma_successor_unique(dom: Set<Seq<u8>>, d: Seq<u8>, e1: Seq<u8>, e2: Seq<u8>)
    requires
        is_successor_digest(dom, d, e1),
        is_successor_digest(dom, d, e2),
    ensures
        e1 == e2,
{
    if exists|x: Seq<u8>| #[trigger] dom.contains(x) && lex_le(d, x) {
        assert(lex_le(e1, e2));
        assert(lex_le(e2, e1));
        lemma_lex_le_antisymmetric(e1, e2);
    } else {
        assert(lex_le(e1, e2));
        assert(lex_le(e2, e1));
        lemma_lex_le_antisymmetric(e1, e2);
    }
}

/// The first `k` replica positions of `name` are exactly `k` positions when
/// they are pairwise distinct.
proof fn lemma_node_digests_exact_len<H: Hasher>(h: H, name: Seq<char>, k: nat)
    requires
        forall|i: nat, j: nat|
            i < k && j < k && i != j ==> #[trigger] replica_digest(h, name, i)
                != #[trigger] replica_digest(h, name, j),
    ensures
        node_digests(h, name, k).finite(),
        node_digests(h, name, k).len() == k,
    decreases k,
{
    lemma_node_digests(h, name, k);
    if k > 0 {
        lemma_node_digests_exact_len(h, name, (k - 1) as nat);
        lemma_node_digests(h, name, (k - 1) as nat);
        if node_digests(h, name, (k - 1) as nat).contains(replica_digest(h, name, (k - 1) as nat)) {
            let i = choose|i: nat|
                i < k - 1 && replica_digest(h, name, (k - 1) as nat) == #[trigger] replica_digest(
                    h,
                    name,
                    i,
                );
            assert(replica_digest(h, name, i) != replica_digest(h, name, (k - 1) as nat));
        }
    }
}

/// Cardinality: adding a node whose name is not yet registered, and whose
/// `k` replica positions are pairwise distinct and all unoccupied, grows the
/// ring by exactly `k` entries. Chained over several such nodes, the ring
/// holds the sum of the replica counts.
pub proof fn lemma_add_cardinality<N: Node, H: Hasher>(
    pre: RingView<N, H>,
    post: RingView<N, H>,
    name: Seq<char>,
    k: nat,
)
    requires
        add_effect(pre, post, name, k),
        pre.ring.dom().finite(),
        !pre.replicas.contains_key(name),
        forall|i: nat, j: nat|
            i < k && j < k && i != j ==> #[trigger] replica_digest(pre.hasher, name, i)
                != #[trigger] replica_digest(pre.hasher, name, j),
        forall|i: nat|
            i < k ==> !pre.ring.dom().contains(#[trigger] replica_digest(pre.hasher, name, i)),
    ensures
        post.ring.dom().finite(),
        post.ring.len() == pre.ring.len() + k,
    decreases k,
{
    let h = pre.hasher;
    lemma_node_digests(h, name, k);
    lemma_node_digests_exact_len(h, name, k);
    assert(post.ring.dom() == pre.ring.dom() + node_digests(h, name, k));
    vstd::set_lib::lemma_set_disjoint_lens(pre.ring.dom(), node_digests(h, name, k));
    assert forall|d: Seq<u8>|
        !(pre.ring.dom().contains(d) && node_digests(h, name, k).contains(d)) by {
        if node_digests(h, name, k).contains(d) {
            let i = choose|i: nat| i < k && d == replica_digest(h, name, i);
            assert(!pre.ring.dom().contains(replica_digest(h, name, i)));
        }
    }
    assert(pre.ring.dom().disjoint(node_digests(h, name, k)));
}

/// A successor stays the successor in any smaller occupied set that keeps it.
pub proof fn lemma_successor_in_subring(
    dom1: Set<Seq<u8>>,
    dom2: Set<Seq<u8>>,
    d: Seq<u8>,
    e: Seq<u8>,
)
    requires
        forall|x: Seq<u8>| #[trigger] dom2.contains(x) ==> dom1.contains(x),
        dom2.contains(e),
        is_successor_digest(dom1, d, e),
    ensures
        is_successor_digest(dom2, d, e),
{
    if exists|x: Seq<u8>| #[trigger] dom1.contains(x) && lex_le(d, x) {
        assert(lex_le(d, e));
        assert forall|x: Seq<u8>| #[trigger] dom2.contains(x) && lex_le(d, x)
            implies lex_le(e, x) by {
            assert(dom1.contains(x));
        }
    } else {
        assert forall|x: Seq<u8>| !(#[trigger] dom2.contains(x) && lex_le(d, x)) by {
            if dom2.contains(x) {
                assert(dom1.contains(x));
            }
        }
        assert forall|x: Seq<u8>| #[trigger] dom2.contains(x) implies lex_le(e, x) by {
            assert(dom1.contains(x));
        }
    }
}

/// Stability under unrelated removal: when a key's resolved position is not
/// one of the removed node's positions, removing that node changes neither
/// the resolved position nor the node stored there.
pub proof fn lemma_lookup_stable_under_removal<N, H: Hasher>(
    pre: RingView<N, H>,
    post: RingView<N, H>,
    name: Seq<char>,
    d: Seq<u8>,
    e: Seq<u8>,
)
    requires
        remove_effect(pre, post, name),
        is_successor_digest(pre.ring.dom(), d, e),
        pre.replicas.contains_key(name) ==> !node_digests(
            pre.hasher,
            name,
            pre.replicas[name],
        ).contains(e),
    ensures
        is_successor_digest(post.ring.dom(), d, e),
        post.ring[e] == pre.ring[e],
{
    if pre.replicas.contains_key(name) {
        let removed = node_digests(pre.hasher, name, pre.replicas[name]);
        assert(post.ring.dom().contains(e));
        lemma_successor_in_subring(pre.ring.dom(), post.ring.dom(), d, e);
    }
}

/// Re-add idempotence: adding the same node twice in a row with the same
/// replica count occupies the same positions, registers the same counts and
/// yields the same size as adding it once.
pub proof fn lemma_re_add_idempotent<N: Node, H: Hasher>(
    v0: RingView<N, H>,
    v1: RingView<N, H>,
    v2: RingView<N, H>,
    name: Seq<char>,
    k: nat,
)
    requires
        add_effect(v0, v1, name, k),
        add_effect(v1, v2, name, k),
    ensures
        v2.ring.dom() == v1.ring.dom(),
        v2.replicas == v1.replicas,
        v2.ring.len() == v1.ring.len(),
{
    let h = v0.hasher;
    let d = node_digests(h, name, k);
    assert(v1.replicas.contains_key(name) && v1.replicas[name] == k);
    assert(v1.hasher == h);
    assert(stripped_ring(v1, name) == v1.ring.remove_keys(d));
    assert(v2.ring.dom() == v1.ring.remove_keys(d).dom() + d);
    assert(v1.ring.dom() == stripped_ring(v0, name).dom() + d);
    assert(v2.ring.dom() =~= v1.ring.dom());
    assert(v2.replicas =~= v1.replicas);
}

/// Removal completeness: after removing a registered node, its name is no
/// longer registered and none of its positions remain occupied.
pub proof fn lemma_remove_completeness<N, H: Hasher>(
    pre: RingView<N, H>,
    post: RingView<N, H>,
    name: Seq<char>,
)
    requires
        remove_effect(pre, post, name),
        pre.replicas.contains_key(name),
    ensures
        !post.replicas.contains_key(name),
        forall|i: nat|
            i < pre.replicas[name] ==> !post.ring.dom().contains(
                #[trigger] replica_digest(pre.hasher, name, i),
            ),
{
    lemma_node_digests(pre.hasher, name, pre.replicas[name]);
}

/// The size half of removal completeness: when the removed node's positions
/// were pairwise distinct and all occupied, the ring shrinks by exactly its
/// registered replica count.
pub proof fn lemma_remove_cardinality<N, H: Hasher>(
    pre: RingView<N, H>,
    post: RingView<N, H>,
    name: Seq<char>,
)
    requires
        remove_effect(pre, post, name),
        pre.replicas.contains_key(name),
        pre.ring.dom().finite(),
        forall|i: nat, j: nat|
            i < pre.replicas[name] && j < pre.replicas[name] && i != j
                ==> #[trigger] replica_digest(pre.hasher, name, i) != #[trigger] replica_digest(
                pre.hasher,
                name,
                j,
            ),
        forall|i: nat|
            i < pre.replicas[name] ==> pre.ring.dom().contains(
                #[trigger] replica_digest(pre.hasher, name, i),
            ),
    ensures
        post.ring.len() == pre.ring.len() - pre.replicas[name],
{
    let k = pre.replicas[name];
    let h = pre.hasher;
    lemma_node_digests(h, name, k);
    lemma_node_digests_exact_len(h, name, k);
    assert forall|x: Seq<u8>| #[trigger] node_digests(h, name, k).contains(x)
        implies pre.ring.contains_key(x) by {
        let i = choose|i: nat| i < k && x == replica_digest(h, name, i);
        assert(pre.ring.dom().contains(replica_digest(h, name, i)));
    }
    pre.ring.lemma_remove_keys_len(node_digests(h, name, k));
}

/// One entry of the ring store: a virtual node at its digest position.
struct RingEntry<N> {
    digest: Vec<u8>,
    node: N,
}

/// One record of the replica registry.
struct CountRecord {
    name: String,
    count: usize,
}

/// Consistent Hash
pub struct ConsistentHash<N: Node, H: Hasher> {
    hasher: H,
    entries: Vec<RingEntry<N>>,
    counts: Vec<CountRecord>,
}

/// The digests of `s` are strictly increasing.
spec fn digests_sorted<N>(s: Seq<RingEntry<N>>) -> bool {
    forall|i: int, j: int| 0 <= i < j < s.len() ==> lex_lt(#[trigger] s[i].digest@, #[trigger] s[j].digest@)
}

/// No two records of `s` carry the same name.
spec fn names_unique(s: Seq<CountRecord>) -> bool {
    forall|i: int, j: int| 0 <= i < j < s.len() ==> (#[trigger] s[i].name@) != (#[trigger] s[j].name@)
}

/// The digest-to-node map an entry sequence stands for.
spec fn entries_map<N>(s: Seq<RingEntry<N>>) -> Map<Seq<u8>, N> {
    Map::new(
        |d: Seq<u8>| exists|i: int| 0 <= i < s.len() && (#[trigger] s[i].digest@) == d,
        |d: Seq<u8>| s[choose|i: int| 0 <= i < s.len() && (#[trigger] s[i].digest@) == d].node,
    )
}

/// The name-to-count map a record sequence stands for.
spec fn counts_map(s: Seq<CountRecord>) -> Map<Seq<char>, nat> {
    Map::new(
        |n: Seq<char>| exists|i: int| 0 <= i < s.len() && (#[trigger] s[i].name@) == n,
        |n: Seq<char>| s[choose|i: int| 0 <= i < s.len() && (#[trigger] s[i].name@) == n].count as nat,
    )
}

/// Strictly sorted digests are pairwise distinct.
proof fn lemma_sorted_distinct<N>(s: Seq<RingEntry<N>>)
    requires
        digests_sorted(s),
    ensures
        forall|i: int, j: int|
            0 <= i < s.len() && 0 <= j < s.len() && i != j
                ==> (#[trigger] s[i].digest@) != (#[trigger] s[j].digest@),
{
    assert forall|i: int, j: int|
        0 <= i < s.len() && 0 <= j < s.len() && i != j
        implies (#[trigger] s[i].digest@) != (#[trigger] s[j].digest@) by {
        if i < j {
            lemma_lex_trichotomy(s[i].digest@, s[j].digest@);
        } else {
            lemma_lex_trichotomy(s[j].digest@, s[i].digest@);
        }
    }
}

/// What `entries_map` holds of a sequence with distinct digests.
proof fn lemma_entries_map<N>(s: Seq<RingEntry<N>>)
    requires
        forall|i: int, j: int|
            0 <= i < s.len() && 0 <= j < s.len() && i != j
                ==> (#[trigger] s[i].digest@) != (#[trigger] s[j].digest@),
    ensures
        forall|i: int| 0 <= i < s.len()
            ==> entries_map(s).dom().contains(#[trigger] s[i].digest@)
                && entries_map(s)[s[i].digest@] == s[i].node,
        forall|d: Seq<u8>| #[trigger] entries_map(s).dom().contains(d)
            ==> exists|i: int| 0 <= i < s.len() && (#[trigger] s[i].digest@) == d,
        entries_map(s).dom().finite(),
        entries_map(s).dom().len() == s.len(),
{
    assert forall|i: int| 0 <= i < s.len()
        implies entries_map(s).dom().contains(#[trigger] s[i].digest@)
            && entries_map(s)[s[i].digest@] == s[i].node by {
        let d = s[i].digest@;
        assert(entries_map(s).dom().contains(d));
        let j = choose|j: int| 0 <= j < s.len() && (#[trigger] s[j].digest@) == d;
        assert(j == i);
    }
    let digests = Seq::new(s.len(), |i: int| s[i].digest@);
    assert(digests.no_duplicates());
    digests.unique_seq_to_set();
    assert forall|d: Seq<u8>| #[trigger] entries_map(s).dom().contains(d)
        implies digests.to_set().contains(d) by {
        let i = choose|i: int| 0 <= i < s.len() && (#[trigger] s[i].digest@) == d;
        assert(digests[i] == d);
    }
    assert forall|d: Seq<u8>| #[trigger] digests.to_set().contains(d)
        implies entries_map(s).dom().contains(d) by {
        let i = choose|i: int| 0 <= i < digests.len() && digests[i] == d;
        assert(s[i].digest@ == d);
    }
    assert(entries_map(s).dom() =~= digests.to_set());
    vstd::seq_lib::seq_to_set_is_finite(digests);
}

/// What `counts_map` holds of a sequence with unique names.
proof fn lemma_counts_map(s: Seq<CountRecord>)
    requires
        names_unique(s),
    ensures
        forall|i: int| 0 <= i < s.len()
            ==> counts_map(s).dom().contains(#[trigger] s[i].name@)
                && counts_map(s)[s[i].name@] == s[i].count as nat,
        forall|n: Seq<char>| #[trigger] counts_map(s).dom().contains(n)
            ==> exists|i: int| 0 <= i < s.len() && (#[trigger] s[i].name@) == n,
{
    assert forall|i: int| 0 <= i < s.len()
        implies counts_map(s).dom().contains(#[trigger] s[i].name@)
            && counts_map(s)[s[i].name@] == s[i].count as nat by {
        let n = s[i].name@;
        assert(counts_map(s).dom().contains(n));
        let j = choose|j: int| 0 <= j < s.len() && (#[trigger] s[j].name@) == n;
        if j < i {
            assert(s[j].name@ != s[i].name@);
        } else if i < j {
            assert(s[i].name@ != s[j].name@);
        }
        assert(j == i);
    }
}

/// Inserting an entry between its sorted neighbours keeps the store sorted
/// and inserts its digest into the map.
proof fn lemma_map_insert_at<N>(s: Seq<RingEntry<N>>, idx: int, e: RingEntry<N>)
    requires
        digests_sorted(s),
        0 <= idx <= s.len(),
        forall|j: int| 0 <= j < idx ==> lex_lt(#[trigger] s[j].digest@, e.digest@),
        idx < s.len() ==> lex_lt(e.digest@, s[idx].digest@),
    ensures
        digests_sorted(s.insert(idx, e)),
        entries_map(s.insert(idx, e)) == entries_map(s).insert(e.digest@, e.node),
{
    let t = s.insert(idx, e);
    assert(t.len() == s.len() + 1);
    assert(t[idx] == e);
    assert(forall|j: int| 0 <= j < idx ==> t[j] == s[j]);
    assert(forall|j: int| idx < j < t.len() ==> t[j] == s[j - 1]);
    assert forall|i: int, j: int| 0 <= i < j < t.len()
        implies lex_lt(#[trigger] t[i].digest@, #[trigger] t[j].digest@) by {
        if i == idx {
            if j > idx + 1 {
                lemma_lex_lt_transitive(e.digest@, s[idx].digest@, s[j - 1].digest@);
            }
        } else if j == idx {
        } else if i < idx && j > idx {
            assert(i < j - 1);
            assert(lex_lt(s[i].digest@, s[j - 1].digest@));
        }
    }
    lemma_sorted_distinct(s);
    lemma_sorted_distinct(t);
    lemma_entries_map(s);
    lemma_entries_map(t);
    let m1 = entries_map(t);
    let m2 = entries_map(s).insert(e.digest@, e.node);
    assert forall|d: Seq<u8>| #[trigger] m1.dom().contains(d) implies m2.dom().contains(d)
        && m1[d] == m2[d] by {
        let i = choose|i: int| 0 <= i < t.len() && (#[trigger] t[i].digest@) == d;
        assert(m1[d] == t[i].node);
        if i == idx {
            assert(d == e.digest@);
        } else {
            let j: int = if i < idx { i } else { i - 1 };
            assert(t[i] == s[j]);
            assert(d != e.digest@);
            assert(m2[d] == entries_map(s)[d]);
        }
    }
    assert forall|d: Seq<u8>| #[trigger] m2.dom().contains(d) implies m1.dom().contains(d) by {
        if d == e.digest@ {
            assert(t[idx].digest@ == d);
        } else {
            let j = choose|j: int| 0 <= j < s.len() && (#[trigger] s[j].digest@) == d;
            let i: int = if j < idx { j } else { j + 1 };
            assert(t[i].digest@ == d);
        }
    }
    assert(m1 =~= m2);
}

/// Replacing the entry at `idx` by one with the same digest keeps the store
/// sorted and overwrites that digest's node in the map.
broadcast proof fn lemma_map_update_at<N>(s: Seq<RingEntry<N>>, idx: int, e: RingEntry<N>)
    requires
        digests_sorted(s),
        0 <= idx < s.len(),
        e.digest@ == s[idx].digest@,
    ensures
        digests_sorted(#[trigger] s.update(idx, e)),
        entries_map(s.update(idx, e)) == entries_map(s).insert(e.digest@, e.node),
{
    let t = s.update(idx, e);
    assert(forall|j: int| 0 <= j < t.len() ==> (#[trigger] t[j].digest@) == s[j].digest@);
    assert forall|i: int, j: int| 0 <= i < j < t.len()
        implies lex_lt(#[trigger] t[i].digest@, #[trigger] t[j].digest@) by {
        assert(lex_lt(s[i].digest@, s[j].digest@));
    }
    lemma_sorted_distinct(s);
    lemma_sorted_distinct(t);
    lemma_entries_map(s);
    lemma_entries_map(t);
    let m1 = entries_map(t);
    let m2 = entries_map(s).insert(e.digest@, e.node);
    assert forall|d: Seq<u8>| #[trigger] m1.dom().contains(d) implies m2.dom().contains(d)
        && m1[d] == m2[d] by {
        let i = choose|i: int| 0 <= i < t.len() && (#[trigger] t[i].digest@) == d;
        assert(m1[d] == t[i].node);
        assert(s[i].digest@ == d);
        if i == idx {
            assert(d == e.digest@);
        } else {
            assert(d != e.digest@);
            assert(t[i] == s[i]);
            assert(m2[d] == entries_map(s)[d]);
        }
    }
    assert forall|d: Seq<u8>| #[trigger] m2.dom().contains(d) implies m1.dom().contains(d) by {
        if d == e.digest@ {
            assert(t[idx].digest@ == d);
        } else {
            let j = choose|j: int| 0 <= j < s.len() && (#[trigger] s[j].digest@) == d;
            assert(t[j].digest@ == d);
        }
    }
    assert(m1 =~= m2);
}

/// Removing the entry at `idx` keeps the store sorted and removes its digest
/// from the map.
proof fn lemma_map_remove_at<N>(s: Seq<RingEntry<N>>, idx: int)
    requires
        digests_sorted(s),
        0 <= idx < s.len(),
    ensures
        digests_sorted(s.remove(idx)),
        entries_map(s.remove(idx)) == entries_map(s).remove(s[idx].digest@),
{
    let t = s.remove(idx);
    assert(t.len() == s.len() - 1);
    assert(forall|j: int| 0 <= j < idx ==> t[j] == s[j]);
    assert(forall|j: int| idx <= j < t.len() ==> t[j] == s[j + 1]);
    assert forall|i: int, j: int| 0 <= i < j < t.len()
        implies lex_lt(#[trigger] t[i].digest@, #[trigger] t[j].digest@) by {
        let i0: int = if i < idx { i } else { i + 1 };
        let j0: int = if j < idx { j } else { j + 1 };
        assert(t[i] == s[i0] && t[j] == s[j0]);
        assert(lex_lt(s[i0].digest@, s[j0].digest@));
    }
    lemma_sorted_distinct(s);
    lemma_sorted_distinct(t);
    lemma_entries_map(s);
    lemma_entries_map(t);
    let m1 = entries_map(t);
    let m2 = entries_map(s).remove(s[idx].digest@);
    assert forall|d: Seq<u8>| #[trigger] m1.dom().contains(d) implies m2.dom().contains(d)
        && m1[d] == m2[d] by {
        let i = choose|i: int| 0 <= i < t.len() && (#[trigger] t[i].digest@) == d;
        let i0: int = if i < idx { i } else { i + 1 };
        assert(t[i] == s[i0]);
        assert(i0 != idx);
        assert(d != s[idx].digest@);
        assert(m1[d] == t[i].node);
        assert(m2[d] == entries_map(s)[d]);
    }
    assert forall|d: Seq<u8>| #[trigger] m2.dom().contains(d) implies m1.dom().contains(d) by {
        let j = choose|j: int| 0 <= j < s.len() && (#[trigger] s[j].digest@) == d;
        assert(j != idx);
        let i: int = if j < idx { j } else { j - 1 };
        assert(t[i].digest@ == d);
    }
    assert(m1 =~= m2);
}

/// Appending a record with a fresh name keeps names unique and inserts the
/// name into the registry map.
proof fn lemma_counts_push(s: Seq<CountRecord>, r: CountRecord)
    requires
        names_unique(s),
        forall|i: int| 0 <= i < s.len() ==> (#[trigger] s[i].name@) != r.name@,
    ensures
        names_unique(s.push(r)),
        counts_map(s.push(r)) == counts_map(s).insert(r.name@, r.count as nat),
{
    let t = s.push(r);
    lemma_counts_map(s);
    assert(forall|j: int| 0 <= j < s.len() ==> t[j] == s[j]);
    assert(t[s.len() as int] == r);
    assert(names_unique(t));
    lemma_counts_map(t);
    let m1 = counts_map(t);
    let m2 = counts_map(s).insert(r.name@, r.count as nat);
    assert forall|n: Seq<char>| #[trigger] m1.dom().contains(n) implies m2.dom().contains(n)
        && m1[n] == m2[n] by {
        let i = choose|i: int| 0 <= i < t.len() && (#[trigger] t[i].name@) == n;
        if i == s.len() {
            assert(n == r.name@);
        } else {
            assert(t[i] == s[i]);
            assert(n != r.name@);
            assert(m2[n] == counts_map(s)[n]);
        }
    }
    assert forall|n: Seq<char>| #[trigger] m2.dom().contains(n) implies m1.dom().contains(n) by {
        if n == r.name@ {
            assert(t[s.len() as int].name@ == n);
        } else {
            let j = choose|j: int| 0 <= j < s.len() && (#[trigger] s[j].name@) == n;
            assert(t[j].name@ == n);
        }
    }
    assert(m1 =~= m2);
}

/// Removing the record at `idx` keeps names unique and removes its name from
/// the registry map.
proof fn lemma_counts_remove(s: Seq<CountRecord>, idx: int)
    requires
        names_unique(s),
        0 <= idx < s.len(),
    ensures
        names_unique(s.remove(idx)),
        counts_map(s.remove(idx)) == counts_map(s).remove(s[idx].name@),
{
    let t = s.remove(idx);
    assert(t.len() == s.len() - 1);
    assert(forall|j: int| 0 <= j < idx ==> t[j] == s[j]);
    assert(forall|j: int| idx <= j < t.len() ==> t[j] == s[j + 1]);
    assert forall|i: int, j: int| 0 <= i < j < t.len()
        implies (#[trigger] t[i].name@) != (#[trigger] t[j].name@) by {
        let i0: int = if i < idx { i } else { i + 1 };
        let j0: int = if j < idx { j } else { j + 1 };
        assert(t[i] == s[i0] && t[j] == s[j0]);
        assert(s[i0].name@ != s[j0].name@);
    }
    lemma_counts_map(s);
    lemma_counts_map(t);
    let m1 = counts_map(t);
    let m2 = counts_map(s).remove(s[idx].name@);
    assert forall|n: Seq<char>| #[trigger] m1.dom().contains(n) implies m2.dom().contains(n)
        && m1[n] == m2[n] by {
        let i = choose|i: int| 0 <= i < t.len() && (#[trigger] t[i].name@) == n;
        let i0: int = if i < idx { i } else { i + 1 };
        assert(t[i] == s[i0]);
        assert(i0 != idx);
        assert(n != s[idx].name@);
        assert(m2[n] == counts_map(s)[n]);
    }
    assert forall|n: Seq<char>| #[trigger] m2.dom().contains(n) implies m1.dom().contains(n) by {
        let j = choose|j: int| 0 <= j < s.len() && (#[trigger] s[j].name@) == n;
        assert(j != idx);
        let i: int = if j < idx { j } else { j - 1 };
        assert(t[i].name@ == n);
    }
    assert(m1 =~= m2);
}

impl<N: Node, H: Hasher> View for ConsistentHash<N, H> {
    type V = RingView<N, H>;

    closed spec fn view(&self) -> RingView<N, H> {
        RingView {
            hasher: self.hasher,
            ring: entries_map(self.entries@),
            replicas: counts_map(self.counts@),
        }
    }
}

impl<N: Node, H: Hasher> ConsistentHash<N, H> {
    /// The representation invariant: the ring store is strictly sorted by
    /// digest, and the replica registry holds each name at most once.
    pub closed spec fn wf(&self) -> bool {
        &&& digests_sorted(self.entries@)
        &&& names_unique(self.counts@)
    }

    /// The ring store of a well-formed ring is a finite map, with one entry
    /// per stored virtual node.
    pub proof fn lemma_view_finite(&self)
        requires
            self.wf(),
        ensures
            self@.ring.dom().finite(),
    {
        lemma_sorted_distinct(self.entries@);
        lemma_entries_map(self.entries@);
    }

    /// Construct with customized hash function
    pub fn with_hash(hasher: H) -> (r: ConsistentHash<N, H>)
        ensures
            r.wf(),
            r@.hasher == hasher,
            r@.ring == Map::<Seq<u8>, N>::empty(),
            r@.replicas == Map::<Seq<char>, nat>::empty(),
    {
        let r = ConsistentHash { hasher, entries: Vec::new(), counts: Vec::new() };
        proof {
            assert(r@.ring =~= Map::<Seq<u8>, N>::empty());
            assert(r@.replicas =~= Map::<Seq<char>, nat>::empty());
        }
        r
    }

    /// The first index whose digest is at or after `d`, or the store's length
    /// when every digest is before `d`.
    fn lower_bound(&self, d: &[u8]) -> (idx: usize)
        requires
            digests_sorted(self.entries@),
        ensures
            idx <= self.entries@.len(),
            forall|j: int| 0 <= j < idx ==> lex_lt(#[trigger] self.entries@[j].digest@, d@),
            idx < self.entries@.len() ==> lex_le(d@, self.entries@[idx as int].digest@),
    {
        let mut lo: usize = 0;
        let mut hi: usize = self.entries.len();
        while lo < hi
            invariant
                lo <= hi <= self.entries@.len(),
                digests_sorted(self.entries@),
                forall|j: int| 0 <= j < lo ==> lex_lt(#[trigger] self.entries@[j].digest@, d@),
                forall|j: int|
                    hi <= j < self.entries@.len() ==> lex_le(d@, #[trigger] self.entries@[j].digest@),
            decreases hi - lo,
        {
            let mid: usize = lo + (hi - lo) / 2;
            let e = &self.entries[mid];
            if digest_lt(e.digest.as_slice(), d) {
                proof {
                    assert forall|j: int| 0 <= j < mid + 1
                        implies lex_lt(#[trigger] self.entries@[j].digest@, d@) by {
                        if j < mid {
                            lemma_lex_lt_transitive(
                                self.entries@[j].digest@,
                                self.entries@[mid as int].digest@,
                                d@,
                            );
                        }
                    }
                }
                lo = mid + 1;
            } else {
                proof {
                    lemma_lex_trichotomy(self.entries@[mid as int].digest@, d@);
                    assert forall|j: int| mid <= j < self.entries@.len()
                        implies lex_le(d@, #[trigger] self.entries@[j].digest@) by {
                        if j > mid {
                            lemma_lex_le_lt_trans(
                                d@,
                                self.entries@[mid as int].digest@,
                                self.entries@[j].digest@,
                            );
                        }
                    }
                }
                hi = mid;
            }
        }
        lo
    }

    /// The entry at `i` resolves every key hashed to `d`: it is the first
    /// entry at or after `d`, or the wraparound fallback when none is.
    proof fn lemma_index_is_successor(&self, d: Seq<u8>, idx: int, i: int)
        requires
            self.wf(),
            0 < self.entries@.len(),
            0 <= idx <= self.entries@.len(),
            forall|j: int| 0 <= j < idx ==> lex_lt(#[trigger] self.entries@[j].digest@, d),
            idx < self.entries@.len() ==> lex_le(d, self.entries@[idx].digest@),
            i == if idx == self.entries@.len() { 0int } else { idx },
        ensures
            is_successor_digest(self@.ring.dom(), d, self.entries@[i].digest@),
            self@.ring.dom().contains(self.entries@[i].digest@),
            self@.ring[self.entries@[i].digest@] == self.entries@[i].node,
    {
        let s = self.entries@;
        lemma_sorted_distinct(s);
        lemma_entries_map(s);
        let dom = self@.ring.dom();
        if idx < s.len() {
            assert(dom.contains(s[idx].digest@) && lex_le(d, s[idx].digest@));
            assert forall|x: Seq<u8>| #[trigger] dom.contains(x) && lex_le(d, x)
                implies lex_le(s[idx].digest@, x) by {
                let j = choose|j: int| 0 <= j < s.len() && (#[trigger] s[j].digest@) == x;
                if j < idx {
                    lemma_lex_trichotomy(s[j].digest@, d);
                }
            }
        } else {
            assert forall|x: Seq<u8>| !(#[trigger] dom.contains(x) && lex_le(d, x)) by {
                if dom.contains(x) {
                    let j = choose|j: int| 0 <= j < s.len() && (#[trigger] s[j].digest@) == x;
                    lemma_lex_trichotomy(s[j].digest@, d);
                }
            }
            assert forall|x: Seq<u8>| #[trigger] dom.contains(x)
                implies lex_le(s[0].digest@, x) by {
                let j = choose|j: int| 0 <= j < s.len() && (#[trigger] s[j].digest@) == x;
            }
        }
    }

    /// Get a node by key. Return `None` if no valid node inside
    pub fn get<'a>(&'a self, key: &[u8]) -> (r: Option<&'a N>)
        requires
            self.wf(),
        ensures
            r is None <==> self@.ring.len() == 0,
            match r {
                None => self@.ring.dom() == Set::<Seq<u8>>::empty(),
                Some(n) => exists|e: Seq<u8>|
                    #[trigger] is_successor_digest(
                        self@.ring.dom(),
                        self@.hasher.spec_hash(key@),
                        e,
                    ) && self@.ring.dom().contains(e) && *n == self@.ring[e],
            },
    {
        proof {
            lemma_sorted_distinct(self.entries@);
            lemma_entries_map(self.entries@);
        }
        if self.entries.len() == 0 {
            proof {
                assert(self@.ring.dom() =~= Set::<Seq<u8>>::empty());
            }
            return None;
        }
        let digest = self.hasher.hash(key);
        let idx = self.lower_bound(digest.as_slice());
        let i: usize = if idx == self.entries.len() {
            0
        } else {
            idx
        };
        proof {
            self.lemma_index_is_successor(digest@, idx as int, i as int);
            assert(is_successor_digest(
                self@.ring.dom(),
                self@.hasher.spec_hash(key@),
                self.entries@[i as int].digest@,
            ));
        }
        let e = &self.entries[i];
        Some(&e.node)
    }

    /// Get a node by string key
    pub fn get_str<'a>(&'a self, key: &str) -> (r: Option<&'a N>)
        requires
            self.wf(),
        ensures
            r is None <==> self@.ring.len() == 0,
            match r {
                None => self@.ring.dom() == Set::<Seq<u8>>::empty(),
                Some(n) => exists|e: Seq<u8>|
                    #[trigger] is_successor_digest(
                        self@.ring.dom(),
                        self@.hasher.spec_hash(vstd::utf8::encode_utf8(key@)),
                        e,
                    ) && self@.ring.dom().contains(e) && *n == self@.ring[e],
            },
    {
        self.get(key.as_bytes())
    }

    /// Store `node` at the position `digest`, overwriting any entry already
    /// at that exact position (last writer wins).
    fn insert_entry(&mut self, digest: Vec<u8>, node: N)
        requires
            old(self).wf(),
        ensures
            final(self).wf(),
            final(self)@.ring == old(self)@.ring.insert(digest@, node),
            final(self)@.replicas == old(self)@.replicas,
            final(self)@.hasher == old(self)@.hasher,
    {
        let idx = self.lower_bound(digest.as_slice());
        if idx < self.entries.len() {
            let same = {
                let e = &self.entries[idx];
                !digest_lt(digest.as_slice(), e.digest.as_slice())
            };
            if same {
                proof {
                    lemma_lex_le_antisymmetric(digest@, self.entries@[idx as int].digest@);
                }
                let entry = RingEntry { digest, node };
                proof {
                    lemma_map_update_at(self.entries@, idx as int, entry);
                }
                let slot = &mut self.entries[idx];
                *slot = entry;
                return;
            }
        }
        let entry = RingEntry { digest, node };
        proof {
            lemma_map_insert_at(self.entries@, idx as int, entry);
        }
        self.entries.insert(idx, entry);
    }

    /// Delete the entry at the exact position `digest`, if one is there.
    fn remove_entry(&mut self, digest: &Vec<u8>)
        requires
            old(self).wf(),
        ensures
            final(self).wf(),
            final(self)@.ring == old(self)@.ring.remove(digest@),
            final(self)@.replicas == old(self)@.replicas,
            final(self)@.hasher == old(self)@.hasher,
    {
        let idx = self.lower_bound(digest.as_slice());
        if idx < self.entries.len() {
            let same = {
                let e = &self.entries[idx];
                !digest_lt(digest.as_slice(), e.digest.as_slice())
            };
            if same {
                proof {
                    lemma_lex_le_antisymmetric(digest@, self.entries@[idx as int].digest@);
                    lemma_map_remove_at(self.entries@, idx as int);
                }
                self.entries.remove(idx);
                return;
            }
        }
        proof {
            lemma_sorted_distinct(self.entries@);
            lemma_entries_map(self.entries@);
            assert forall|j: int| 0 <= j < self.entries@.len()
                implies (#[trigger] self.entries@[j].digest@) != digest@ by {
                if j < idx {
                    lemma_lex_trichotomy(self.entries@[j].digest@, digest@);
                } else {
                    if j > idx {
                        lemma_lex_lt_transitive(
                            digest@,
                            self.entries@[idx as int].digest@,
                            self.entries@[j].digest@,
                        );
                    }
                    lemma_lex_trichotomy(digest@, self.entries@[j].digest@);
                }
            }
            assert(!self@.ring.dom().contains(digest@));
            assert(self@.ring.remove(digest@) =~= self@.ring);
        }
    }

    /// The index of the registry record for `name`, if one is there.
    fn count_index(&self, name: &String) -> (r: Option<usize>)
        ensures
            match r {
                None => forall|j: int|
                    0 <= j < self.counts@.len() ==> (#[trigger] self.counts@[j].name@) != name@,
                Some(i) => i < self.counts@.len() && self.counts@[i as int].name@ == name@,
            },
    {
        let mut i: usize = 0;
        while i < self.counts.len()
            invariant
                i <= self.counts@.len(),
                forall|j: int| 0 <= j < i ==> (#[trigger] self.counts@[j].name@) != name@,
            decreases self.counts@.len() - i,
        {
            let found = {
                let record = &self.counts[i];
                record.name == *name
            };
            if found {
                return Some(i);
            }
            i = i + 1;
        }
        None
    }

    /// Drop the registry record for `name` and hand back its replica count,
    /// or do nothing when the name is not registered.
    fn take_count(&mut self, name: &String) -> (r: Option<usize>)
        requires
            old(self).wf(),
        ensures
            final(self).wf(),
            final(self)@.ring == old(self)@.ring,
            final(self)@.hasher == old(self)@.hasher,
            match r {
                None => !old(self)@.replicas.contains_key(name@)
                    && final(self)@.replicas == old(self)@.replicas,
                Some(c) => old(self)@.replicas.contains_key(name@)
                    && c as nat == old(self)@.replicas[name@]
                    && final(self)@.replicas == old(self)@.replicas.remove(name@),
            },
    {
        proof {
            lemma_counts_map(self.counts@);
        }
        match self.count_index(name) {
            None => {
                proof {
                    if self@.replicas.contains_key(name@) {
                        let j = choose|j: int|
                            0 <= j < self.counts@.len() && (#[trigger] self.counts@[j].name@)
                                == name@;
                    }
                }
                None
            },
            Some(i) => {
                let c = {
                    let record = &self.counts[i];
                    record.count
                };
                proof {
                    lemma_counts_remove(self.counts@, i as int);
                }
                self.counts.remove(i);
                Some(c)
            },
        }
    }

    // Get a node's hashed key by key. Return `None` if no valid node inside
    fn get_node_hashed_key(&self, key: &[u8]) -> (r: Option<Vec<u8>>)
        requires
            self.wf(),
        ensures
            r is None <==> self@.ring.len() == 0,
            match r {
                None => self@.ring.dom() == Set::<Seq<u8>>::empty(),
                Some(k) => is_successor_digest(
                    self@.ring.dom(),
                    self@.hasher.spec_hash(key@),
                    k@,
                ) && self@.ring.dom().contains(k@),
            },
    {
        proof {
            lemma_sorted_distinct(self.entries@);
            lemma_entries_map(self.entries@);
        }
        if self.entries.len() == 0 {
            proof {
                assert(self@.ring.dom() =~= Set::<Seq<u8>>::empty());
            }
            return None;
        }
        let digest = self.hasher.hash(key);
        let idx = self.lower_bound(digest.as_slice());
        let i: usize = if idx == self.entries.len() {
            0
        } else {
            idx
        };
        proof {
            self.lemma_index_is_successor(digest@, idx as int, i as int);
        }
        let e = &self.entries[i];
        let k = e.digest.clone();
        proof {
            assert(k@ =~= e.digest@);
        }
        Some(k)
    }

    /// Return a mutable handle to the node stored at the exact position
    /// `digest`; until the handle is dropped the ring's entry at that
    /// position follows every write through it.
    fn node_at_mut<'a>(&'a mut self, digest: &Vec<u8>) -> (r: &'a mut N)
        requires
            old(self).wf(),
            old(self)@.ring.dom().contains(digest@),
        ensures
            *r == old(self)@.ring[digest@],
            final(self).wf(),
            final(self)@.ring == old(self)@.ring.insert(digest@, *final(r)),
            final(self)@.replicas == old(self)@.replicas,
            final(self)@.hasher == old(self)@.hasher,
    {
        broadcast use lemma_map_update_at;

        proof {
            lemma_sorted_distinct(self.entries@);
            lemma_entries_map(self.entries@);
        }
        let idx = self.lower_bound(digest.as_slice());
        proof {
            let s = self.entries@;
            let j = choose|j: int| 0 <= j < s.len() && (#[trigger] s[j].digest@) == digest@;
            if j < idx {
                lemma_lex_trichotomy(s[j].digest@, digest@);
            }
            if j > idx {
                lemma_lex_le_lt_trans(digest@, s[idx as int].digest@, s[j].digest@);
                lemma_lex_trichotomy(digest@, digest@);
            }
            assert(j == idx);
            assert(s[idx as int].digest@ == digest@);
        }
        let entry = &mut self.entries[idx];
        &mut entry.node
    }

    /// Get a node by key. Return `None` if no valid node inside
    pub fn get_mut<'a>(&'a mut self, key: &[u8]) -> (r: Option<&'a mut N>)
        requires
            old(self).wf(),
        ensures
            r is None <==> old(self)@.ring.len() == 0,
            final(self).wf(),
            final(self)@.replicas == old(self)@.replicas,
            final(self)@.hasher == old(self)@.hasher,
            match r {
                None => final(self)@.ring == old(self)@.ring,
                Some(m) => exists|e: Seq<u8>|
                    #[trigger] is_successor_digest(
                        old(self)@.ring.dom(),
                        old(self)@.hasher.spec_hash(key@),
                        e,
                    ) && old(self)@.ring.dom().contains(e) && *m == old(self)@.ring[e]
                        && final(self)@.ring == old(self)@.ring.insert(e, *final(m)),
            },
    {
        let hashed_key = self.get_node_hashed_key(key);
        match hashed_key {
            None => None,
            Some(k) => Some(self.node_at_mut(&k)),
        }
    }

    /// Get a node by string key
    pub fn get_str_mut<'a>(&'a mut self, key: &str) -> (r: Option<&'a mut N>)
        requires
            old(self).wf(),
        ensures
            r is None <==> old(self)@.ring.len() == 0,
            final(self).wf(),
            final(self)@.replicas == old(self)@.replicas,
            final(self)@.hasher == old(self)@.hasher,
            match r {
                None => final(self)@.ring == old(self)@.ring,
                Some(m) => exists|e: Seq<u8>|
                    #[trigger] is_successor_digest(
                        old(self)@.ring.dom(),
                        old(self)@.hasher.spec_hash(vstd::utf8::encode_utf8(key@)),
                        e,
                    ) && old(self)@.ring.dom().contains(e) && *m == old(self)@.ring[e]
                        && final(self)@.ring == old(self)@.ring.insert(e, *final(m)),
            },
    {
        self.get_mut(key.as_bytes())
    }

    /// Remove a node with all replicas (virtual nodes)
    pub fn remove(&mut self, node: &N)
        requires
            old(self).wf(),
        ensures
            final(self).wf(),
            remove_effect(old(self)@, final(self)@, node.spec_name()),
    {
        let node_name = node.name();
        let num_replicas = match self.take_count(&node_name) {
            Some(val) => val,
            None => {
                return ;
            },
        };
        let mut replica: usize = 0;
        proof {
            assert(self@.ring =~= old(self)@.ring.remove_keys(
                node_digests(old(self)@.hasher, node.spec_name(), 0),
            ));
        }
        while replica < num_replicas
            invariant
                replica <= num_replicas,
                self.wf(),
                self@.hasher == old(self)@.hasher,
                node_name@ == node.spec_name(),
                old(self)@.replicas.contains_key(node.spec_name()),
                num_replicas as nat == old(self)@.replicas[node.spec_name()],
                self@.replicas == old(self)@.replicas.remove(node.spec_name()),
                self@.ring == old(self)@.ring.remove_keys(
                    node_digests(old(self)@.hasher, node.spec_name(), replica as nat),
                ),
            decreases num_replicas - replica,
        {
            let ident = replica_ident(node_name.as_str(), replica);
            let digest = self.hasher.hash(ident.as_slice());
            proof {
                assert(digest@ == replica_digest(
                    old(self)@.hasher,
                    node.spec_name(),
                    replica as nat,
                ));
                assert(node_digests(old(self)@.hasher, node.spec_name(), (replica + 1) as nat)
                    == node_digests(old(self)@.hasher, node.spec_name(), replica as nat).insert(
                    digest@,
                ));
                assert(self@.ring.remove(digest@) =~= old(self)@.ring.remove_keys(
                    node_digests(old(self)@.hasher, node.spec_name(), (replica + 1) as nat),
                ));
            }
            self.remove_entry(&digest);
            replica = replica + 1;
        }
    }

    /// Add a new node
    pub fn add(&mut self, node: &N, num_replicas: usize)
        requires
            old(self).wf(),
        ensures
            final(self).wf(),
            add_effect(old(self)@, final(self)@, node.spec_name(), num_replicas as nat),
    {
        let node_name = node.name();

        // Remove it first
        self.remove(node);

        proof {
            assert(!self@.replicas.contains_key(node.spec_name()));
            lemma_counts_map(self.counts@);
            assert forall|i: int| 0 <= i < self.counts@.len()
                implies (#[trigger] self.counts@[i].name@) != node_name@ by {
                if self.counts@[i].name@ == node_name@ {
                    assert(self@.replicas.dom().contains(node_name@));
                }
            }
        }
        let record = CountRecord { name: node_name.clone(), count: num_replicas };
        proof {
            lemma_counts_push(self.counts@, record);
        }
        self.counts.push(record);
        proof {
            assert(self@.replicas =~= old(self)@.replicas.insert(
                node.spec_name(),
                num_replicas as nat,
            ));
            assert(self@.ring.dom() =~= self@.ring.dom() + node_digests(
                old(self)@.hasher,
                node.spec_name(),
                0,
            ));
            assert(ring_refilled(
                stripped_ring(old(self)@, node.spec_name()),
                self@.ring,
                old(self)@.hasher,
                node.spec_name(),
                0,
            ));
        }
        let mut replica: usize = 0;
        while replica < num_replicas
            invariant
                replica <= num_replicas,
                self.wf(),
                self@.hasher == old(self)@.hasher,
                node_name@ == node.spec_name(),
                self@.replicas == old(self)@.replicas.insert(
                    node.spec_name(),
                    num_replicas as nat,
                ),
                ring_refilled(
                    stripped_ring(old(self)@, node.spec_name()),
                    self@.ring,
                    old(self)@.hasher,
                    node.spec_name(),
                    replica as nat,
                ),
            decreases num_replicas - replica,
        {
            let ident = replica_ident(node_name.as_str(), replica);
            let digest = self.hasher.hash(ident.as_slice());
            let copy = node.duplicate();
            proof {
                let h = old(self)@.hasher;
                let name = node.spec_name();
                assert(digest@ == replica_digest(h, name, replica as nat));
                assert(node_digests(h, name, (replica + 1) as nat) == node_digests(
                    h,
                    name,
                    replica as nat,
                ).insert(digest@));
                let mid = stripped_ring(old(self)@, name);
                let next = self@.ring.insert(digest@, copy);
                assert(next.dom() =~= mid.dom() + node_digests(h, name, (replica + 1) as nat));
                assert forall|d: Seq<u8>| #[trigger] next.dom().contains(d) implies if node_digests(
                    h,
                    name,
                    (replica + 1) as nat,
                ).contains(d) {
                    next[d].spec_name() == name
                } else {
                    next[d] == mid[d]
                } by {
                    if d != digest@ {
                        assert(self@.ring.dom().contains(d));
                        assert(next[d] == self@.ring[d]);
                    }
                }
            }
            self.insert_entry(digest, copy);
            replica = replica + 1;
        }
    }

    /// The total number of virtual-node entries on the ring (not the number
    /// of logical nodes).
    pub fn len(&self) -> (r: usize)
        requires
            self.wf(),
        ensures
            r == self@.ring.len(),
    {
        proof {
            lemma_sorted_distinct(self.entries@);
            lemma_entries_map(self.entries@);
        }
        self.entries.len()
    }

    /// Whether the ring holds no virtual-node entries at all.
    pub fn is_empty(&self) -> (r: bool)
        requires
            self.wf(),
        ensures
            r <==> self@.ring.len() == 0,
    {
        self.len() == 0
    }
}

impl<N: Node> ConsistentHash<N, Md5Hasher> {
    /// Construct with default hash function (Md5)
    pub fn new() -> (r: ConsistentHash<N, Md5Hasher>)
        ensures
            r.wf(),
            r@.hasher == (Md5Hasher),
            r@.ring == Map::<Seq<u8>, N>::empty(),
            r@.replicas == Map::<Seq<char>, nat>::empty(),
    {
        ConsistentHash::with_hash(Md5Hasher)
    }
}

impl<N: Node> Default for ConsistentHash<N, Md5Hasher> {
    /// An empty ring with the default hash function.
    fn default() -> (r: Self)
        ensures
            r.wf(),
            r@.hasher == (Md5Hasher),
            r@.ring == Map::<Seq<u8>, N>::empty(),
            r@.replicas == Map::<Seq<char>, nat>::empty(),
    {
        Self::new()
    }
}

} // verus!
