use vstd::prelude::*;
use conhash::ConsistentHash;
use crate::backend::{node_name, Backend};

verus! {

/// A conhash ring of backends, held opaquely: what it holds is stated
/// through `ring_nodes` and `ring_replicas`.
#[verifier::external_body]
pub struct HashRing {
    inner: ConsistentHash<Backend>,
}

/// The virtual nodes of a conhash ring: each hashed key and the backend placed there.
pub uninterp spec fn ring_nodes(h: HashRing) -> Map<Seq<u8>, (u32, u128)>;

/// The replica count that a conhash ring has recorded for each node name.
pub uninterp spec fn ring_replicas(h: HashRing) -> Map<Seq<char>, nat>;

/// The hashed key under which conhash places replica `replica` of the node
/// named `name` (the MD5 digest of the text `name:replica`).
pub uninterp spec fn replica_key(name: Seq<char>, replica: nat) -> Seq<u8>;

/// The hashed position of a lookup key (its MD5 digest).
pub uninterp spec fn lookup_hash(key: Seq<u8>) -> Seq<u8>;

/// The keys of the first `n` replicas of the node named `name`.
pub open spec fn replica_keys(name: Seq<char>, n: nat) -> Set<Seq<u8>>
    decreases n,
{
    if n == 0 {
        Set::empty()
    } else {
        replica_keys(name, (n - 1) as nat).insert(replica_key(name, (n - 1) as nat))
    }
}

/// The replica count recorded for a name, zero when there is none.
pub open spec fn recorded(reps: Map<Seq<char>, nat>, name: Seq<char>) -> nat {
    if reps.contains_key(name) {
        reps[name]
    } else {
        0
    }
}

/// The virtual nodes after adding `b` with `n` replicas: its earlier replicas
/// go, then each of its `n` replica keys holds it.
pub open spec fn added_nodes(
    nodes: Map<Seq<u8>, (u32, u128)>,
    reps: Map<Seq<char>, nat>,
    b: Backend,
    n: nat,
) -> Map<Seq<u8>, (u32, u128)> {
    nodes.remove_keys(replica_keys(node_name(b), recorded(reps, node_name(b)))).union_prefer_right(
        Map::new(|k: Seq<u8>| replica_keys(node_name(b), n).contains(k), |k: Seq<u8>| b.pair()),
    )
}

/// Lexicographic order on byte strings, a proper prefix coming first.
pub open spec fn lex_le(a: Seq<u8>, b: Seq<u8>) -> bool
    decreases a.len(),
{
    if a.len() == 0 {
        true
    } else if b.len() == 0 {
        false
    } else if a[0] != b[0] {
        a[0] < b[0]
    } else {
        lex_le(a.drop_first(), b.drop_first())
    }
}

/// `k` is the virtual node that the hashed position `h` lands on: the first
/// key at or after `h`, or, when there is none, the smallest key.
pub open spec fn lands_on(nodes: Map<Seq<u8>, (u32, u128)>, h: Seq<u8>, k: Seq<u8>) -> bool {
    &&& nodes.contains_key(k)
    &&& {
        ||| (lex_le(h, k) && forall|k2: Seq<u8>|
            #[trigger] nodes.contains_key(k2) && lex_le(h, k2) ==> lex_le(k, k2))
        ||| ((forall|k2: Seq<u8>| #[trigger] nodes.contains_key(k2) ==> !lex_le(h, k2))
            && forall|k2: Seq<u8>| #[trigger] nodes.contains_key(k2) ==> lex_le(k, k2))
    }
}

/// The backend `v` is what a lookup at hashed position `h` returns.
pub open spec fn picks(nodes: Map<Seq<u8>, (u32, u128)>, h: Seq<u8>, v: (u32, u128)) -> bool {
    exists|k: Seq<u8>| #[trigger] lands_on(nodes, h, k) && nodes[k] == v
}

/// No virtual nodes.
pub open spec fn no_nodes() -> Map<Seq<u8>, (u32, u128)> {
    Map::empty()
}

/// No recorded replica counts.
pub open spec fn no_replicas() -> Map<Seq<char>, nat> {
    Map::empty()
}

/// Relies on `ConsistentHash::new`: a ring with no virtual nodes and no recorded names.
#[verifier::external_body]
fn hash_new() -> (r: HashRing)
    ensures
        ring_nodes(r) == no_nodes(),
        ring_replicas(r) == no_replicas(),
{
    HashRing { inner: ConsistentHash::new() }
}

/// Relies on `ConsistentHash::add`: removes the replicas recorded for the
/// node's name, records the new count, and places the node at each of its
/// `n` replica keys.
#[verifier::external_body]
fn hash_add(h: &mut HashRing, b: &Backend, n: usize)
    ensures
        ring_nodes(*final(h)) == added_nodes(
            ring_nodes(*old(h)),
            ring_replicas(*old(h)),
            *b,
            n as nat,
        ),
        ring_replicas(*final(h)) == ring_replicas(*old(h)).insert(node_name(*b), n as nat),
        forall|i: nat|
            i < n ==> ring_nodes(*final(h)).contains_key(#[trigger] replica_key(node_name(*b), i)),
{
    h.inner.add(b, n)
}

/// Relies on `ConsistentHash::len`: the number of virtual nodes.
#[verifier::external_body]
fn hash_len(h: &HashRing) -> (r: usize)
    ensures
        r as nat == ring_nodes(*h).dom().len(),
{
    h.inner.len()
}

/// Relies on `ConsistentHash::get`: nothing on an empty ring, else the node
/// at the first key at or after the key's hash, wrapping to the smallest key.
#[verifier::external_body]
fn hash_get(h: &HashRing, key: &[u8]) -> (r: Option<Backend>)
    ensures
        r is None <==> ring_nodes(*h).dom() == Set::<Seq<u8>>::empty(),
        r matches Some(b) ==> picks(ring_nodes(*h), lookup_hash(key@), b.pair()),
{
    h.inner.get(key).copied()
}

/// The virtual nodes and recorded counts after adding each backend of `bs`
/// in turn with `n` replicas, starting from an empty ring.
pub open spec fn built(bs: Seq<Backend>, n: nat) -> (Map<Seq<u8>, (u32, u128)>, Map<Seq<char>, nat>)
    decreases bs.len(),
{
    if bs.len() == 0 {
        (Map::empty(), Map::empty())
    } else {
        let p = built(bs.drop_last(), n);
        (added_nodes(p.0, p.1, bs.last(), n), p.1.insert(node_name(bs.last()), n))
    }
}

/// The replica keys of `name` are its first `n` keys, pairwise distinct
/// where the key of each replica differs from the others.
pub proof fn lemma_replica_keys(name: Seq<char>, n: nat)
    ensures
        replica_keys(name, n).finite(),
        forall|k: Seq<u8>|
            replica_keys(name, n).contains(k) <==> exists|i: nat|
                i < n && k == #[trigger] replica_key(name, i),
        (forall|i: nat, j: nat|
            i < n && j < n && i != j ==> #[trigger] replica_key(name, i) != #[trigger] replica_key(
                name,
                j,
            )) ==> replica_keys(name, n).len() == n,
    decreases n,
{
    if n > 0 {
        let m = (n - 1) as nat;
        lemma_replica_keys(name, m);
        assert forall|k: Seq<u8>|
            replica_keys(name, n).contains(k) <==> exists|i: nat|
                i < n && k == #[trigger] replica_key(name, i) by {
            if replica_keys(name, n).contains(k) && k != replica_key(name, m) {
                let i = choose|i: nat| i < m && k == #[trigger] replica_key(name, i);
                assert(i < n && k == replica_key(name, i));
            }
            if exists|i: nat| i < n && k == #[trigger] replica_key(name, i) {
                let i = choose|i: nat| i < n && k == #[trigger] replica_key(name, i);
                if i < m {
                    assert(replica_keys(name, m).contains(k));
                }
            }
        }
        if forall|i: nat, j: nat|
            i < n && j < n && i != j ==> #[trigger] replica_key(name, i) != #[trigger] replica_key(
                name,
                j,
            ) {
            assert(!replica_keys(name, m).contains(replica_key(name, m)));
        }
    }
}

/// Every pair of a backend of `bs` and a replica number under `n` has a
/// virtual-node key of its own.
pub open spec fn keys_distinct(bs: Seq<Backend>, n: nat) -> bool {
    forall|a: int, i: nat, b: int, j: nat|
        0 <= a < bs.len() && 0 <= b < bs.len() && i < n && j < n && (bs[a] != bs[b] || i != j)
            ==> #[trigger] replica_key(node_name(bs[a]), i) != #[trigger] replica_key(
            node_name(bs[b]),
            j,
        )
}

proof fn lemma_built_shape(bs: Seq<Backend>, n: nat)
    requires
        bs.no_duplicates(),
        keys_distinct(bs, n),
    ensures
        built(bs, n).0.dom().finite(),
        built(bs, n).0.dom().len() == n * bs.len(),
        forall|k: Seq<u8>|
            #[trigger] built(bs, n).0.contains_key(k) ==> exists|a: int, i: nat|
                0 <= a < bs.len() && i < n && k == #[trigger] replica_key(node_name(bs[a]), i),
        forall|nm: Seq<char>|
            #[trigger] built(bs, n).1.contains_key(nm) ==> built(bs, n).1[nm] == n && exists|a: int|
                0 <= a < bs.len() && nm == node_name(#[trigger] bs[a]),
    decreases bs.len(),
{
    if bs.len() > 0 {
        let pre = bs.drop_last();
        let b = bs.last();
        let name = node_name(b);
        assert(pre.no_duplicates());
        assert forall|a: int, i: nat, c: int, j: nat|
            0 <= a < pre.len() && 0 <= c < pre.len() && i < n && j < n && (pre[a] != pre[c] || i
                != j) implies #[trigger] replica_key(node_name(pre[a]), i) != #[trigger] replica_key(
            node_name(pre[c]),
            j,
        ) by {
            assert(pre[a] == bs[a] && pre[c] == bs[c]);
        }
        lemma_built_shape(pre, n);
        let p = built(pre, n);
        lemma_replica_keys(name, n);
        lemma_replica_keys(name, recorded(p.1, name));
        assert forall|i: nat, j: nat|
            i < n && j < n && i != j implies #[trigger] replica_key(name, i)
            != #[trigger] replica_key(name, j) by {
            assert(bs[bs.len() - 1] == b);
        }
        if p.1.contains_key(name) && n > 0 {
            let a = choose|a: int| 0 <= a < pre.len() && name == node_name(#[trigger] pre[a]);
            assert(bs[a] == pre[a]);
            assert(bs[a] != bs[bs.len() - 1]);
            assert(replica_key(node_name(bs[a]), 0) != replica_key(node_name(bs[bs.len() - 1]), 0));
        }
        assert(recorded(p.1, name) == 0);
        assert(replica_keys(name, 0) =~= Set::<Seq<u8>>::empty());
        assert(p.0.remove_keys(replica_keys(name, 0)) =~= p.0);
        let fresh = Map::new(
            |k: Seq<u8>| replica_keys(name, n).contains(k),
            |k: Seq<u8>| b.pair(),
        );
        assert(fresh.dom() =~= replica_keys(name, n));
        let q = built(bs, n);
        assert(q.0.dom() =~= p.0.dom() + replica_keys(name, n));
        assert(p.0.dom().disjoint(replica_keys(name, n))) by {
            assert forall|k: Seq<u8>|
                p.0.dom().contains(k) implies !replica_keys(name, n).contains(k) by {
                let (a, i) = choose|a: int, i: nat|
                    0 <= a < pre.len() && i < n && k == #[trigger] replica_key(
                        node_name(pre[a]),
                        i,
                    );
                if replica_keys(name, n).contains(k) {
                    let j = choose|j: nat| j < n && k == #[trigger] replica_key(name, j);
                    assert(bs[a] == pre[a]);
                    assert(bs[a] != bs[bs.len() - 1]);
                    assert(replica_key(node_name(bs[a]), i) != replica_key(
                        node_name(bs[bs.len() - 1]),
                        j,
                    ));
                }
            }
        }
        vstd::set_lib::lemma_set_disjoint_lens(p.0.dom(), replica_keys(name, n));
        assert(n * bs.len() == n * pre.len() + n) by (nonlinear_arith)
            requires
                bs.len() == pre.len() + 1,
        ;
        assert forall|k: Seq<u8>| #[trigger] q.0.contains_key(k) implies exists|a: int, i: nat|
            0 <= a < bs.len() && i < n && k == #[trigger] replica_key(node_name(bs[a]), i) by {
            if p.0.contains_key(k) {
                let (a, i) = choose|a: int, i: nat|
                    0 <= a < pre.len() && i < n && k == #[trigger] replica_key(
                        node_name(pre[a]),
                        i,
                    );
                assert(bs[a] == pre[a]);
            } else {
                let j = choose|j: nat| j < n && k == #[trigger] replica_key(name, j);
                assert(k == replica_key(node_name(bs[bs.len() - 1]), j));
            }
        }
        assert forall|nm: Seq<char>| #[trigger] q.1.contains_key(nm) implies q.1[nm] == n
            && exists|a: int| 0 <= a < bs.len() && nm == node_name(#[trigger] bs[a]) by {
            if nm == name {
                assert(nm == node_name(bs[bs.len() - 1]));
            } else {
                let a = choose|a: int| 0 <= a < pre.len() && nm == node_name(#[trigger] pre[a]);
                assert(bs[a] == pre[a]);
            }
        }
    } else {
        assert(built(bs, n).0.dom() =~= Set::<Seq<u8>>::empty());
    }
}

/// A ring built from distinct backends with `n` replicas each holds `n`
/// virtual nodes per backend, provided no two of those virtual nodes hash to
/// the same key.
pub proof fn lemma_build_size(bs: Seq<Backend>, n: nat)
    requires
        bs.no_duplicates(),
        keys_distinct(bs, n),
    ensures
        built(bs, n).0.dom().len() == n * bs.len(),
{
    lemma_built_shape(bs, n);
}

/// Every byte string is at or before itself.
pub proof fn lemma_lex_refl(a: Seq<u8>)
    ensures
        lex_le(a, a),
    decreases a.len(),
{
    if a.len() > 0 {
        lemma_lex_refl(a.drop_first());
    }
}

/// Two byte strings each at or before the other are equal.
pub proof fn lemma_lex_antisym(a: Seq<u8>, b: Seq<u8>)
    requires
        lex_le(a, b),
        lex_le(b, a),
    ensures
        a == b,
    decreases a.len(),
{
    if a.len() == 0 {
        assert(b.len() == 0);
        assert(a =~= b);
    } else {
        lemma_lex_antisym(a.drop_first(), b.drop_first());
        assert forall|i: int| 0 <= i < a.len() implies a[i] == b[i] by {
            if i > 0 {
                assert(a[i] == a.drop_first()[i - 1]);
                assert(b[i] == b.drop_first()[i - 1]);
            }
        }
        assert(a =~= b);
    }
}

/// A hashed position lands on at most one virtual node.
pub proof fn lemma_lands_on_unique(
    nodes: Map<Seq<u8>, (u32, u128)>,
    h: Seq<u8>,
    k1: Seq<u8>,
    k2: Seq<u8>,
)
    requires
        lands_on(nodes, h, k1),
        lands_on(nodes, h, k2),
    ensures
        k1 == k2,
{
    assert(nodes.contains_key(k1) && nodes.contains_key(k2));
    lemma_lex_antisym(k1, k2);
}

/// A lookup is deterministic: two lookups of the same key on the same ring
/// give the same backend.
pub proof fn lemma_pick_deterministic(ring: Ring, key: Seq<u8>, v1: (u32, u128), v2: (u32, u128))
    requires
        picks(ring@, lookup_hash(key), v1),
        picks(ring@, lookup_hash(key), v2),
    ensures
        v1 == v2,
{
    let k1 = choose|k: Seq<u8>| #[trigger] lands_on(ring@, lookup_hash(key), k) && ring@[k] == v1;
    let k2 = choose|k: Seq<u8>| #[trigger] lands_on(ring@, lookup_hash(key), k) && ring@[k] == v2;
    lemma_lands_on_unique(ring@, lookup_hash(key), k1, k2);
}

/// Affinity: two keys whose hashes land on the same virtual node are sent to
/// the same backend.
pub proof fn lemma_same_vnode_same_backend(
    ring: Ring,
    key1: Seq<u8>,
    key2: Seq<u8>,
    k: Seq<u8>,
    v1: (u32, u128),
    v2: (u32, u128),
)
    requires
        lands_on(ring@, lookup_hash(key1), k),
        lands_on(ring@, lookup_hash(key2), k),
        picks(ring@, lookup_hash(key1), v1),
        picks(ring@, lookup_hash(key2), v2),
    ensures
        v1 == ring@[k],
        v2 == ring@[k],
{
    let k1 = choose|x: Seq<u8>| #[trigger] lands_on(ring@, lookup_hash(key1), x) && ring@[x] == v1;
    let k2 = choose|x: Seq<u8>| #[trigger] lands_on(ring@, lookup_hash(key2), x) && ring@[x] == v2;
    lemma_lands_on_unique(ring@, lookup_hash(key1), k1, k);
    lemma_lands_on_unique(ring@, lookup_hash(key2), k2, k);
}

/// Spread: on a ring where two virtual nodes hold different backends, the
/// hashed positions of those two nodes are sent to different backends.
pub proof fn lemma_spread(nodes: Map<Seq<u8>, (u32, u128)>, ka: Seq<u8>, kb: Seq<u8>)
    requires
        nodes.contains_key(ka),
        nodes.contains_key(kb),
        nodes[ka] != nodes[kb],
    ensures
        picks(nodes, ka, nodes[ka]),
        picks(nodes, kb, nodes[kb]),
{
    lemma_lex_refl(ka);
    lemma_lex_refl(kb);
    assert(lands_on(nodes, ka, ka));
    assert(lands_on(nodes, kb, kb));
}

/// A consistent-hash ring over a fixed set of backends. It is never changed
/// after it is built.
pub struct Ring {
    hash: HashRing,
}

impl View for Ring {
    type V = Map<Seq<u8>, (u32, u128)>;

    closed spec fn view(&self) -> Map<Seq<u8>, (u32, u128)> {
        ring_nodes(self.hash)
    }
}

impl Ring {
    /// Builds a ring holding each backend with `replicas` virtual nodes.
    pub fn build(backends: &Vec<Backend>, replicas: usize) -> (r: Ring)
        ensures
            r@ == built(backends@, replicas as nat).0,
    {
        let mut hash = hash_new();
        let mut i: usize = 0;
        proof {
            assert(backends@.take(0) =~= Seq::<Backend>::empty());
        }
        while i < backends.len()
            invariant
                i <= backends@.len(),
                ring_nodes(hash) == built(backends@.take(i as int), replicas as nat).0,
                ring_replicas(hash) == built(backends@.take(i as int), replicas as nat).1,
            decreases backends@.len() - i,
        {
            hash_add(&mut hash, &backends[i], replicas);
            proof {
                assert(backends@.take(i + 1).drop_last() =~= backends@.take(i as int));
            }
            i = i + 1;
        }
        proof {
            assert(backends@.take(i as int) =~= backends@);
        }
        Ring { hash }
    }

    /// The number of virtual nodes.
    pub fn size(&self) -> (r: usize)
        ensures
            r as nat == self@.dom().len(),
    {
        hash_len(&self.hash)
    }

    /// The backend that `key` maps to; nothing on an empty ring.
    pub fn pick(&self, key: &[u8]) -> (r: Option<Backend>)
        ensures
            r is None <==> self@.dom() == Set::<Seq<u8>>::empty(),
            r matches Some(b) ==> picks(self@, lookup_hash(key@), b.pair()),
    {
        hash_get(&self.hash, key)
    }
}

} // verus!
