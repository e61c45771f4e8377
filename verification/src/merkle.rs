use vstd::prelude::*;
use vstd::relations::sorted_by;
use crate::WalletError;
use crate::types::{PublicKey, keys_view, hashes_view, lex_leq, pk_leq, pk_eq, bytes32_eq};
use crate::types::{lemma_lex_leq_total, lemma_lex_leq_transitive, lemma_lex_leq_total_ordering};
use crate::crypto::{sha256, sha256_of};

verus! {

// ---------------------------------------------------------------------------
// The deterministic Merkle tree over the canonical encodings of a key set.
// Leaves and internal nodes are domain-separated by a distinct first byte.
// ---------------------------------------------------------------------------

pub open spec fn leaf_hash_of(key: Seq<u8>) -> Seq<u8> {
    sha256_of(seq![0u8] + key)
}

pub open spec fn node_hash_of(left: Seq<u8>, right: Seq<u8>) -> Seq<u8> {
    sha256_of(seq![1u8] + left + right)
}

/// One level up: children are combined pairwise; an odd node at the end is
/// paired with itself.
pub open spec fn next_level_of(level: Seq<Seq<u8>>) -> Seq<Seq<u8>> {
    Seq::new(
        ((level.len() + 1) / 2) as nat,
        |i: int|
            node_hash_of(
                level[2 * i],
                if 2 * i + 1 < level.len() {
                    level[2 * i + 1]
                } else {
                    level[2 * i]
                },
            ),
    )
}

/// The root obtained by combining a non-empty level upward until one node is left.
pub open spec fn root_of_level(level: Seq<Seq<u8>>) -> Seq<u8>
    decreases level.len(),
{
    if level.len() <= 1 {
        if level.len() == 1 {
            level[0]
        } else {
            Seq::empty()
        }
    } else {
        root_of_level(next_level_of(level))
    }
}

pub open spec fn leaves_of(keys: Seq<Seq<u8>>) -> Seq<Seq<u8>> {
    keys.map_values(|k: Seq<u8>| leaf_hash_of(k))
}

/// The Merkle root of a sequence of key encodings, leaf order as given.
pub open spec fn merkle_root_of(keys: Seq<Seq<u8>>) -> Seq<u8> {
    root_of_level(leaves_of(keys))
}

pub open spec fn lex_leq_fn() -> spec_fn(Seq<u8>, Seq<u8>) -> bool {
    |x: Seq<u8>, y: Seq<u8>| lex_leq(x, y)
}

/// A threshold spending address: any subset of at least `threshold` member
/// keys may spend. The members are kept in the canonical sort order, and the
/// root hash is the Merkle root over them.
#[derive(Clone, Debug)]
pub struct ThresholdAddress {
    pub root_hash: [u8; 32],
    pub members: Vec<PublicKey>,
    pub threshold: usize,
}

impl ThresholdAddress {
    pub open spec fn wf(self) -> bool {
        &&& self.members@.len() >= 1
        &&& 1 <= self.threshold <= self.members@.len()
        &&& sorted_by(keys_view(self.members@), lex_leq_fn())
        &&& keys_view(self.members@).no_duplicates()
        &&& self.root_hash@ == merkle_root_of(keys_view(self.members@))
    }
}

fn leaf_hash(key: &PublicKey) -> (r: [u8; 32])
    ensures
        r@ == leaf_hash_of(key.bytes@),
{
    let mut buf: Vec<u8> = Vec::new();
    buf.push(0u8);
    let mut i: usize = 0;
    while i < 33
        invariant
            i <= 33,
            buf@ == seq![0u8] + key.bytes@.take(i as int),
        decreases 33 - i,
    {
        buf.push(key.bytes[i]);
        proof {
            assert(buf@ =~= seq![0u8] + key.bytes@.take(i + 1));
        }
        i += 1;
    }
    proof {
        assert(buf@ =~= seq![0u8] + key.bytes@);
    }
    sha256(&buf)
}

fn node_hash(left: &[u8; 32], right: &[u8; 32]) -> (r: [u8; 32])
    ensures
        r@ == node_hash_of(left@, right@),
{
    let mut buf: Vec<u8> = Vec::new();
    buf.push(1u8);
    let mut i: usize = 0;
    while i < 32
        invariant
            i <= 32,
            buf@ == seq![1u8] + left@.take(i as int),
        decreases 32 - i,
    {
        buf.push(left[i]);
        proof {
            assert(buf@ =~= seq![1u8] + left@.take(i + 1));
        }
        i += 1;
    }
    proof {
        assert(buf@ =~= seq![1u8] + left@);
    }
    let mut j: usize = 0;
    while j < 32
        invariant
            j <= 32,
            buf@ == seq![1u8] + left@ + right@.take(j as int),
        decreases 32 - j,
    {
        buf.push(right[j]);
        proof {
            assert(buf@ =~= seq![1u8] + left@ + right@.take(j + 1));
        }
        j += 1;
    }
    proof {
        assert(buf@ =~= seq![1u8] + left@ + right@);
    }
    sha256(&buf)
}

fn next_level(level: &Vec<[u8; 32]>) -> (r: Vec<[u8; 32]>)
    requires
        level@.len() >= 1,
    ensures
        hashes_view(r@) == next_level_of(hashes_view(level@)),
{
    let ghost lv = hashes_view(level@);
    let n = level.len();
    let count = n / 2 + n % 2;
    let mut out: Vec<[u8; 32]> = Vec::new();
    let mut q: usize = 0;
    while q < count
        invariant
            q <= count,
            count == (n + 1) / 2,
            n == level@.len(),
            lv == hashes_view(level@),
            lv.len() == n,
            hashes_view(out@) == next_level_of(lv).take(q as int),
        decreases count - q,
    {
        assert(2 * q < n);
        let left = level[2 * q];
        let right = if 2 * q + 1 < n {
            level[2 * q + 1]
        } else {
            level[2 * q]
        };
        let h = node_hash(&left, &right);
        let ghost pre = out@;
        out.push(h);
        proof {
            let full = next_level_of(lv);
            assert(lv[2 * q as int] == level@[2 * q as int]@);
            assert(full[q as int] == h@);
            assert(out@ == pre.push(h));
            assert(hashes_view(pre).len() == pre.len());
            assert(hashes_view(out@).len() == q + 1);
            assert forall|j: int| 0 <= j < q + 1 implies hashes_view(out@)[j] == full.take(q + 1)[j] by {
                assert(hashes_view(out@)[j] == out@[j]@);
                if j < q {
                    assert(out@[j] == pre[j]);
                    assert(hashes_view(pre)[j] == full.take(q as int)[j]);
                } else {
                    assert(out@[j] == h);
                }
            }
            assert(hashes_view(out@) =~= full.take(q + 1));
        }
        q += 1;
    }
    proof {
        assert(next_level_of(lv).take(count as int) =~= next_level_of(lv));
    }
    out
}

pub fn root_from_level(start: Vec<[u8; 32]>) -> (r: [u8; 32])
    requires
        start@.len() >= 1,
    ensures
        r@ == root_of_level(hashes_view(start@)),
{
    let ghost orig = hashes_view(start@);
    let mut level = start;
    while level.len() > 1
        invariant
            level@.len() >= 1,
            root_of_level(hashes_view(level@)) == root_of_level(orig),
        decreases level@.len(),
    {
        let up = next_level(&level);
        proof {
            assert(hashes_view(level@).len() == level@.len());
            assert(next_level_of(hashes_view(level@)).len() < level@.len());
            assert(hashes_view(up@).len() == next_level_of(hashes_view(level@)).len());
        }
        level = up;
    }
    let r = level[0];
    proof {
        assert(hashes_view(level@).len() == 1);
        assert(root_of_level(hashes_view(level@)) == hashes_view(level@)[0]);
        assert(hashes_view(level@)[0] == r@);
    }
    r
}

fn compute_leaves(keys: &Vec<PublicKey>) -> (r: Vec<[u8; 32]>)
    ensures
        hashes_view(r@) == leaves_of(keys_view(keys@)),
{
    let mut out: Vec<[u8; 32]> = Vec::new();
    let mut i: usize = 0;
    while i < keys.len()
        invariant
            i <= keys@.len(),
            hashes_view(out@) == leaves_of(keys_view(keys@)).take(i as int),
        decreases keys@.len() - i,
    {
        let h = leaf_hash(&keys[i]);
        let ghost pre = out@;
        out.push(h);
        proof {
            let full = leaves_of(keys_view(keys@));
            assert(keys_view(keys@)[i as int] == keys@[i as int].bytes@);
            assert(full[i as int] == h@);
            assert(out@ == pre.push(h));
            assert(hashes_view(pre).len() == pre.len());
            assert(pre.len() == i as int);
            assert(out@.len() == i + 1);
            assert(hashes_view(out@).len() == out@.len());
            assert(hashes_view(out@).len() == i + 1);
            assert forall|j: int| 0 <= j < i + 1 implies hashes_view(out@)[j] == full.take(i + 1)[j] by {
                assert(hashes_view(out@)[j] == out@[j]@);
                if j < i {
                    assert(out@[j] == pre[j]);
                    assert(hashes_view(pre)[j] == full.take(i as int)[j]);
                } else {
                    assert(out@[j] == h);
                }
            }
            assert(hashes_view(out@) =~= full.take(i + 1));
        }
        i += 1;
    }
    proof {
        assert(leaves_of(keys_view(keys@)).take(keys@.len() as int) =~= leaves_of(keys_view(keys@)));
    }
    out
}

/// Sorts keys into the canonical order. The result holds the same keys (as a
/// multiset of encodings) in lexicographic order.
fn sort_keys(keys: &Vec<PublicKey>) -> (r: Vec<PublicKey>)
    ensures
        r@.len() == keys@.len(),
        sorted_by(keys_view(r@), lex_leq_fn()),
        keys_view(r@).to_multiset() == keys_view(keys@).to_multiset(),
{
    broadcast use vstd::seq_lib::group_seq_properties;

    let mut out: Vec<PublicKey> = Vec::new();
    let mut i: usize = 0;
    proof {
        assert(keys_view(out@) =~~= Seq::<Seq<u8>>::empty());
        assert(keys_view(keys@).take(0) =~~= Seq::<Seq<u8>>::empty());
        assert(keys_view(out@).to_multiset() =~= keys_view(keys@).take(0).to_multiset());
    }
    while i < keys.len()
        invariant
            i <= keys@.len(),
            out@.len() == i,
            sorted_by(keys_view(out@), lex_leq_fn()),
            keys_view(out@).to_multiset() == keys_view(keys@).take(i as int).to_multiset(),
        decreases keys@.len() - i,
    {
        let k = keys[i];
        let mut j: usize = 0;
        while j < out.len() && pk_leq(&out[j], &k)
            invariant
                j <= out@.len(),
                forall|l: int| 0 <= l < j ==> lex_leq(keys_view(out@)[l], k.bytes@),
            decreases out@.len() - j,
        {
            j += 1;
        }
        let ghost old_out = out@;
        out.insert(j, k);
        proof {
            let leq = lex_leq_fn();
            let ov = keys_view(old_out);
            let nv = keys_view(out@);
            assert(out@ == old_out.insert(j as int, k));
            assert(nv =~~= ov.insert(j as int, k.bytes@));
            // sortedness of the new view
            assert forall|x: int, y: int| 0 <= x < y < nv.len() implies #[trigger] leq(nv[x], nv[y]) by {
                if y < j {
                    assert(nv[x] == ov[x] && nv[y] == ov[y]);
                } else if x > j {
                    assert(nv[x] == ov[x - 1] && nv[y] == ov[y - 1]);
                } else if x < j && y == j {
                    assert(nv[x] == ov[x] && nv[y] == k.bytes@);
                    assert(lex_leq(ov[x], k.bytes@));
                } else if x < j && y > j {
                    assert(nv[x] == ov[x] && nv[y] == ov[y - 1]);
                } else if x == j && y > j {
                    assert(nv[x] == k.bytes@ && nv[y] == ov[y - 1]);
                    assert(j < old_out.len());
                    assert(!lex_leq(ov[j as int], k.bytes@));
                    lemma_lex_leq_total(ov[j as int], k.bytes@);
                    assert(lex_leq(k.bytes@, ov[j as int]));
                    if y - 1 > j {
                        assert(leq(ov[j as int], ov[y - 1]));
                        lemma_lex_leq_transitive(k.bytes@, ov[j as int], ov[y - 1]);
                    }
                }
            }
            // multiset bookkeeping
            vstd::seq_lib::to_multiset_insert(ov, j as int, k.bytes@);
            assert(keys_view(keys@).take(i + 1) =~~= keys_view(keys@).take(i as int).push(k.bytes@));
            vstd::seq_lib::to_multiset_build(keys_view(keys@).take(i as int), k.bytes@);
        }
        i += 1;
    }
    proof {
        assert(keys_view(keys@).take(keys@.len() as int) =~~= keys_view(keys@));
    }
    out
}

/// Sorts a key list into the canonical order and refuses duplicates: the
/// result holds exactly the given keys, lexicographically ordered.
pub fn sorted_unique_keys(keys: &Vec<PublicKey>) -> (r: Result<Vec<PublicKey>, WalletError>)
    ensures
        r is Ok <==> keys_view(keys@).no_duplicates(),
        r matches Ok(v) ==> {
            &&& v@.len() == keys@.len()
            &&& sorted_by(keys_view(v@), lex_leq_fn())
            &&& keys_view(v@).no_duplicates()
            &&& keys_view(v@).to_multiset() == keys_view(keys@).to_multiset()
        },
        r matches Err(e) ==> e == WalletError::InvalidInput,
{
    let sorted = sort_keys(keys);
    // With the keys in order, a duplicate can only sit next to its twin.
    let mut i: usize = 1;
    while i < sorted.len()
        invariant
            1 <= i,
            i <= sorted@.len() || i == 1,
            sorted@.len() == keys@.len(),
            keys_view(sorted@).to_multiset() == keys_view(keys@).to_multiset(),
            sorted_by(keys_view(sorted@), lex_leq_fn()),
            forall|l: int| 1 <= l < i ==> keys_view(sorted@)[l - 1] != #[trigger] keys_view(sorted@)[l],
        decreases sorted@.len() - i,
    {
        if pk_eq(&sorted[i - 1], &sorted[i]) {
            proof {
                let sv = keys_view(sorted@);
                let mv = keys_view(keys@);
                broadcast use vstd::seq_lib::group_to_multiset_ensures;
                broadcast use vstd::multiset::group_multiset_axioms;

                let e = sv[i as int];
                let removed = sv.remove(i - 1);
                vstd::seq_lib::to_multiset_remove(sv, i - 1);
                assert(removed[i - 1] == e);
                assert(removed.contains(e));
                assert(removed.to_multiset().count(e) >= 1);
                assert(sv.to_multiset().count(e) >= 2);
                if mv.no_duplicates() {
                    mv.lemma_multiset_has_no_duplicates();
                    assert(mv.to_multiset().contains(e));
                    assert(false);
                }
                assert(!keys_view(keys@).no_duplicates());
            }
            return Err(WalletError::InvalidInput);
        }
        i += 1;
    }
    proof {
        // adjacent-distinct plus sortedness gives distinctness everywhere
        let sv = keys_view(sorted@);
        let leq = lex_leq_fn();
        assert forall|x: int, y: int| 0 <= x < y < sv.len() implies sv[x] != sv[y] by {
            if sv[x] == sv[y] {
                assert(leq(sv[x], sv[x + 1]));
                if x + 1 == y {
                    assert(sv[x] != sv[x + 1]);
                } else {
                    assert(leq(sv[x + 1], sv[y]));
                    crate::types::lemma_lex_leq_antisymmetric(sv[x], sv[x + 1]);
                    assert(sv[x] != sv[x + 1]);
                }
            }
        }
        assert(sv.no_duplicates());
    }
    proof {
        // no_duplicates carries across the permutation to the input view
        let sv = keys_view(sorted@);
        let mv = keys_view(keys@);
        sv.lemma_multiset_has_no_duplicates();
        mv.lemma_multiset_has_no_duplicates_conv();
    }
    Ok(sorted)
}

/// Builds a threshold spending address over a set of member keys.
///
/// Fails with `InvalidInput` when the threshold is zero or larger than the
/// member count, when no member is given, or when a key is given twice. The
/// members are sorted canonically, so the same key set yields the same root
/// hash whatever order the keys arrive in.
pub fn create(members: &Vec<PublicKey>, threshold: usize) -> (r: Result<ThresholdAddress, WalletError>)
    ensures
        r is Ok <==> (1 <= threshold <= members@.len() && keys_view(members@).no_duplicates()),
        r matches Ok(a) ==> {
            &&& a.wf()
            &&& a.threshold == threshold
            &&& keys_view(a.members@).to_multiset() == keys_view(members@).to_multiset()
        },
        r matches Err(e) ==> e == WalletError::InvalidInput,
{
    if threshold == 0 || members.len() == 0 || threshold > members.len() {
        return Err(WalletError::InvalidInput);
    }
    let sorted = match sorted_unique_keys(members) {
        Ok(v) => v,
        Err(_) => {
            return Err(WalletError::InvalidInput);
        },
    };
    let leaves = compute_leaves(&sorted);
    proof {
        assert(hashes_view(leaves@).len() == leaves@.len());
        assert(leaves_of(keys_view(sorted@)).len() == keys_view(sorted@).len());
        assert(leaves@.len() == sorted@.len());
    }
    let root = root_from_level(leaves);
    Ok(ThresholdAddress { root_hash: root, members: sorted, threshold })
}

/// Two addresses over the same member key set have the same root hash and the
/// same member order, whatever order their creators presented the keys in.
pub proof fn lemma_address_deterministic(a: ThresholdAddress, b: ThresholdAddress)
    requires
        a.wf(),
        b.wf(),
        keys_view(a.members@).to_multiset() == keys_view(b.members@).to_multiset(),
    ensures
        keys_view(a.members@) == keys_view(b.members@),
        a.root_hash@ == b.root_hash@,
{
    lemma_lex_leq_total_ordering();
    vstd::seq_lib::lemma_sorted_unique(keys_view(a.members@), keys_view(b.members@), lex_leq_fn());
    assert(keys_view(a.members@) =~= keys_view(b.members@));
}

/// The engine's registry of created addresses, looked up by root hash.
pub struct AddressBook {
    pub addresses: Vec<ThresholdAddress>,
}

impl AddressBook {
    pub open spec fn wf(self) -> bool {
        &&& forall|i: int| 0 <= i < self.addresses@.len() ==> (#[trigger] self.addresses@[i]).wf()
        &&& forall|i: int, j: int| 0 <= i < j < self.addresses@.len()
            ==> (#[trigger] self.addresses@[i]).root_hash@ != (#[trigger] self.addresses@[j]).root_hash@
    }

    pub open spec fn spec_find(self, root: Seq<u8>) -> Option<int> {
        if exists|i: int| 0 <= i < self.addresses@.len() && (#[trigger] self.addresses@[i]).root_hash@ == root {
            Some(choose|i: int| 0 <= i < self.addresses@.len() && (#[trigger] self.addresses@[i]).root_hash@ == root)
        } else {
            None
        }
    }

    pub fn new() -> (r: AddressBook)
        ensures
            r.wf(),
            r.addresses@.len() == 0,
    {
        AddressBook { addresses: Vec::new() }
    }

    /// Records a created address so its threshold can be looked up later;
    /// `InvalidInput` when an address with that root is already recorded.
    pub fn add(&mut self, addr: ThresholdAddress) -> (r: Result<(), WalletError>)
        requires
            addr.wf(),
            old(self).wf(),
        ensures
            final(self).wf(),
            r is Ok <==> !(exists|i: int|
                0 <= i < old(self).addresses@.len() && (#[trigger] old(self).addresses@[i]).root_hash@
                    == addr.root_hash@),
            r is Ok ==> final(self).addresses@ == old(self).addresses@.push(addr),
            r is Err ==> *final(self) == *old(self),
            r matches Err(e) ==> e == WalletError::InvalidInput,
    {
        let mut i: usize = 0;
        while i < self.addresses.len()
            invariant
                i <= self.addresses@.len(),
                self.wf(),
                *self == *old(self),
                forall|j: int| 0 <= j < i ==> (#[trigger] self.addresses@[j]).root_hash@
                    != addr.root_hash@,
            decreases self.addresses@.len() - i,
        {
            if bytes32_eq(&self.addresses[i].root_hash, &addr.root_hash) {
                return Err(WalletError::InvalidInput);
            }
            i += 1;
        }
        let ghost pre = self.addresses@;
        self.addresses.push(addr);
        proof {
            assert forall|x: int, y: int| 0 <= x < y < self.addresses@.len()
                implies (#[trigger] self.addresses@[x]).root_hash@
                    != (#[trigger] self.addresses@[y]).root_hash@ by {
                if y < pre.len() {
                    assert(self.addresses@[x] == pre[x] && self.addresses@[y] == pre[y]);
                } else {
                    assert(self.addresses@[x] == pre[x]);
                    assert(self.addresses@[y] == addr);
                }
            }
        }
        Ok(())
    }

    /// The threshold of the address with the given root hash; `NotFound` when
    /// no created address has that root.
    pub fn threshold_of(&self, root_hash: &[u8; 32]) -> (r: Result<usize, WalletError>)
        requires
            self.wf(),
        ensures
            r is Ok <==> (exists|i: int|
                0 <= i < self.addresses@.len() && (#[trigger] self.addresses@[i]).root_hash@ == root_hash@),
            r matches Ok(m) ==> (exists|i: int|
                0 <= i < self.addresses@.len() && (#[trigger] self.addresses@[i]).root_hash@ == root_hash@
                    && self.addresses@[i].threshold == m),
            r matches Err(e) ==> e == WalletError::NotFound,
    {
        let mut i: usize = 0;
        while i < self.addresses.len()
            invariant
                i <= self.addresses@.len(),
                forall|j: int| 0 <= j < i ==> (#[trigger] self.addresses@[j]).root_hash@ != root_hash@,
            decreases self.addresses@.len() - i,
        {
            if bytes32_eq(&self.addresses[i].root_hash, root_hash) {
                return Ok(self.addresses[i].threshold);
            }
            i += 1;
        }
        Err(WalletError::NotFound)
    }

    /// A reference to the address with the given root hash, if one is recorded.
    pub fn find(&self, root_hash: &[u8; 32]) -> (r: Option<&ThresholdAddress>)
        requires
            self.wf(),
        ensures
            r is Some <==> (exists|i: int|
                0 <= i < self.addresses@.len() && (#[trigger] self.addresses@[i]).root_hash@ == root_hash@),
            r matches Some(a) ==> a.wf() && a.root_hash@ == root_hash@ && (forall|i: int|
                0 <= i < self.addresses@.len() && (#[trigger] self.addresses@[i]).root_hash@
                    == root_hash@ ==> self.addresses@[i] == *a),
    {
        let mut i: usize = 0;
        while i < self.addresses.len()
            invariant
                self.wf(),
                i <= self.addresses@.len(),
                forall|j: int| 0 <= j < i ==> (#[trigger] self.addresses@[j]).root_hash@ != root_hash@,
            decreases self.addresses@.len() - i,
        {
            if bytes32_eq(&self.addresses[i].root_hash, root_hash) {
                proof {
                    assert(self.addresses@[i as int].wf());
                    assert forall|j: int| 0 <= j < self.addresses@.len()
                        && (#[trigger] self.addresses@[j]).root_hash@ == root_hash@
                        implies self.addresses@[j] == self.addresses@[i as int] by {
                        if j < i {
                        } else if j > i {
                            assert(self.addresses@[i as int].root_hash@
                                != self.addresses@[j].root_hash@);
                        }
                    }
                }
                return Some(&self.addresses[i]);
            }
            i += 1;
        }
        None
    }
}


// ---------------------------------------------------------------------------
// Inclusion proofs: evidence that a qualifying subset of members hashes up to
// an address's root. The proof carries the subset's keys with their leaf
// positions, and the leaf hashes of every other member as siblings; the
// verifier rebuilds the leaf level and recomputes the root.
// ---------------------------------------------------------------------------

/// Evidence that a key subset belongs to a threshold address.
#[derive(Clone, Debug)]
pub struct InclusionProof {
    pub leaf_count: usize,
    pub entries: Vec<(usize, PublicKey)>,
    pub siblings: Vec<[u8; 32]>,
}

pub open spec fn entries_increasing(entries: Seq<(usize, PublicKey)>) -> bool {
    forall|x: int, y: int|
        0 <= x < y < entries.len() ==> (#[trigger] entries[x]).0 < (#[trigger] entries[y]).0
}

pub open spec fn proof_shape_ok(leaf_count: int, entries: Seq<(usize, PublicKey)>, siblings_len: int) -> bool {
    &&& leaf_count >= 1
    &&& entries.len() >= 1
    &&& entries.len() + siblings_len == leaf_count
    &&& forall|x: int| 0 <= x < entries.len() ==> (#[trigger] entries[x]).0 < leaf_count
    &&& entries_increasing(entries)
}

/// The leaf level a verifier rebuilds from position `p` on: entry keys are
/// hashed into leaves at their claimed positions, siblings fill the gaps.
pub open spec fn merged_rec(entries: Seq<(usize, PublicKey)>, sibs: Seq<Seq<u8>>, p: int, n: int) -> Seq<Seq<u8>>
    decreases n - p,
{
    if p < 0 || p >= n {
        Seq::empty()
    } else if entries.len() > 0 && entries[0].0 == p {
        seq![leaf_hash_of(entries[0].1.bytes@)] + merged_rec(entries.drop_first(), sibs, p + 1, n)
    } else if sibs.len() > 0 {
        seq![sibs[0]] + merged_rec(entries, sibs.drop_first(), p + 1, n)
    } else {
        Seq::empty()
    }
}

/// What it means for a proof to check out against a root hash.
pub open spec fn verify_spec(root: Seq<u8>, leaf_count: int, entries: Seq<(usize, PublicKey)>, sibs: Seq<Seq<u8>>) -> bool {
    &&& proof_shape_ok(leaf_count, entries, sibs.len() as int)
    &&& root_of_level(merged_rec(entries, sibs, 0, leaf_count)) == root
}

pub open spec fn entry_keys(entries: Seq<(usize, PublicKey)>) -> Seq<Seq<u8>> {
    entries.map_values(|e: (usize, PublicKey)| e.1.bytes@)
}

/// Whether each key of `keys` occurs among `subset`'s keys.
pub fn contains_key(keys: &Vec<PublicKey>, k: &PublicKey) -> (r: bool)
    ensures
        r == keys_view(keys@).contains(k.bytes@),
{
    let mut i: usize = 0;
    while i < keys.len()
        invariant
            i <= keys@.len(),
            forall|j: int| 0 <= j < i ==> keys_view(keys@)[j] != k.bytes@,
        decreases keys@.len() - i,
    {
        if pk_eq(&keys[i], k) {
            proof {
                assert(keys_view(keys@)[i as int] == k.bytes@);
            }
            return true;
        }
        i += 1;
    }
    proof {
        assert forall|j: int| 0 <= j < keys_view(keys@).len() implies keys_view(keys@)[j] != k.bytes@ by {}
    }
    false
}

// The selection of members that a proof is generated for, walked from
// position `p` to the end: which members become entries and which siblings.

pub open spec fn gen_entries(members: Seq<PublicKey>, sel: Seq<bool>, p: int) -> Seq<(usize, PublicKey)>
    decreases members.len() - p,
{
    if p < 0 || p >= members.len() {
        Seq::empty()
    } else if sel[p] {
        seq![(p as usize, members[p])] + gen_entries(members, sel, p + 1)
    } else {
        gen_entries(members, sel, p + 1)
    }
}

pub open spec fn gen_sibs(members: Seq<PublicKey>, sel: Seq<bool>, p: int) -> Seq<Seq<u8>>
    decreases members.len() - p,
{
    if p < 0 || p >= members.len() {
        Seq::empty()
    } else if sel[p] {
        gen_sibs(members, sel, p + 1)
    } else {
        seq![leaf_hash_of(members[p].bytes@)] + gen_sibs(members, sel, p + 1)
    }
}

proof fn lemma_gen_entries_positions(members: Seq<PublicKey>, sel: Seq<bool>, p: int)
    requires
        members.len() <= usize::MAX,
    ensures
        forall|x: int| 0 <= x < gen_entries(members, sel, p).len()
            ==> p <= (#[trigger] gen_entries(members, sel, p)[x]).0 < members.len(),
    decreases members.len() - p,
{
    if 0 <= p < members.len() {
        lemma_gen_entries_positions(members, sel, p + 1);
        let g = gen_entries(members, sel, p);
        let g1 = gen_entries(members, sel, p + 1);
        if sel[p] {
            assert forall|x: int| 0 <= x < g.len() implies p <= (#[trigger] g[x]).0 < members.len() by {
                if x > 0 {
                    assert(g[x] == g1[x - 1]);
                }
            }
        }
    }
}

/// Rebuilding the leaf level from a generated proof gives back exactly the
/// member leaves from position `p` on.
proof fn lemma_gen_merges(members: Seq<PublicKey>, sel: Seq<bool>, p: int)
    requires
        members.len() <= usize::MAX,
        sel.len() == members.len(),
        0 <= p <= members.len(),
    ensures
        merged_rec(gen_entries(members, sel, p), gen_sibs(members, sel, p), p, members.len() as int)
            == leaves_of(keys_view(members)).skip(p),
    decreases members.len() - p,
{
    let n = members.len() as int;
    let ge = gen_entries(members, sel, p);
    let gs = gen_sibs(members, sel, p);
    let leaves = leaves_of(keys_view(members));
    if p == n {
        assert(merged_rec(ge, gs, p, n) =~= leaves.skip(p));
    } else {
        lemma_gen_merges(members, sel, p + 1);
        lemma_gen_entries_positions(members, sel, p + 1);
        if sel[p] {
            assert(ge == seq![(p as usize, members[p])] + gen_entries(members, sel, p + 1));
            assert(ge[0].0 == p);
            assert(ge.drop_first() =~= gen_entries(members, sel, p + 1));
            assert(gs == gen_sibs(members, sel, p + 1));
            assert(merged_rec(ge, gs, p, n)
                == seq![leaf_hash_of(members[p].bytes@)]
                    + merged_rec(gen_entries(members, sel, p + 1), gen_sibs(members, sel, p + 1), p + 1, n));
            assert(leaves[p] == leaf_hash_of(keys_view(members)[p]));
            assert(merged_rec(ge, gs, p, n) =~= leaves.skip(p));
        } else {
            assert(ge == gen_entries(members, sel, p + 1));
            assert(gs == seq![leaf_hash_of(members[p].bytes@)] + gen_sibs(members, sel, p + 1));
            if ge.len() > 0 {
                assert(ge[0].0 >= p + 1);
            }
            assert(gs.len() > 0);
            assert(gs.drop_first() =~= gen_sibs(members, sel, p + 1));
            assert(merged_rec(ge, gs, p, n)
                == seq![leaf_hash_of(members[p].bytes@)]
                    + merged_rec(gen_entries(members, sel, p + 1), gen_sibs(members, sel, p + 1), p + 1, n));
            assert(leaves[p] == leaf_hash_of(keys_view(members)[p]));
            assert(merged_rec(ge, gs, p, n) =~= leaves.skip(p));
        }
    }
}

/// The keys in a generated proof's entries are exactly the selected members.
proof fn lemma_gen_entries_keys(members: Seq<PublicKey>, sel: Seq<bool>, p: int, k: Seq<u8>)
    requires
        members.len() <= usize::MAX,
        sel.len() == members.len(),
        0 <= p <= members.len(),
    ensures
        entry_keys(gen_entries(members, sel, p)).contains(k)
            <==> exists|m: int| p <= m < members.len() && sel[m] && keys_view(members)[m] == k,
    decreases members.len() - p,
{
    let n = members.len() as int;
    if p < n {
        lemma_gen_entries_keys(members, sel, p + 1, k);
        let ge = gen_entries(members, sel, p);
        let g1 = gen_entries(members, sel, p + 1);
        if sel[p] {
            assert(ge == seq![(p as usize, members[p])] + g1);
            if members[p].bytes@ == k {
                assert(entry_keys(ge)[0] == k);
                assert(entry_keys(ge).contains(k));
            }
            if entry_keys(ge).contains(k) {
                let x = choose|x: int| 0 <= x < entry_keys(ge).len() && entry_keys(ge)[x] == k;
                if x == 0 {
                    assert(sel[p] && keys_view(members)[p] == k);
                } else {
                    assert(entry_keys(g1)[x - 1] == k);
                    assert(entry_keys(g1).contains(k));
                }
            }
            if exists|m: int| p <= m < n && sel[m] && keys_view(members)[m] == k {
                let m = choose|m: int| p <= m < n && sel[m] && keys_view(members)[m] == k;
                if m == p {
                    assert(entry_keys(ge)[0] == k);
                    assert(entry_keys(ge).contains(k));
                } else {
                    assert(entry_keys(g1).contains(k));
                    let x = choose|x: int| 0 <= x < entry_keys(g1).len() && entry_keys(g1)[x] == k;
                    assert(entry_keys(ge)[x + 1] == k);
                    assert(entry_keys(ge).contains(k));
                }
            }
        } else {
            assert(ge == g1);
            if exists|m: int| p <= m < n && sel[m] && keys_view(members)[m] == k {
                let m = choose|m: int| p <= m < n && sel[m] && keys_view(members)[m] == k;
                assert(m >= p + 1);
            }
        }
    }
}


/// Positions strictly increasing step by step grow at least with the index.
proof fn lemma_entries_gap(entries: Seq<(usize, PublicKey)>, x: int, y: int)
    requires
        entries_increasing(entries),
        0 <= x <= y < entries.len(),
    ensures
        entries[y].0 >= entries[x].0 + (y - x),
    decreases y - x,
{
    if y > x {
        lemma_entries_gap(entries, x, y - 1);
    }
}

/// Checks an inclusion proof against a root hash: the proof must be well
/// shaped and the leaf level it describes must hash up to the root. Pure
/// recomputation; no side effects.
pub fn verify(root_hash: &[u8; 32], pf: &InclusionProof) -> (r: bool)
    ensures
        r == verify_spec(root_hash@, pf.leaf_count as int, pf.entries@, hashes_view(pf.siblings@)),
{
    let n = pf.leaf_count;
    let ghost ev = pf.entries@;
    let ghost sv = hashes_view(pf.siblings@);
    if n == 0 || pf.entries.len() == 0 || pf.entries.len() > n
        || pf.siblings.len() != n - pf.entries.len() {
        return false;
    }
    // positions: in bounds, strictly increasing
    let mut x: usize = 0;
    while x < pf.entries.len()
        invariant
            x <= ev.len(),
            ev == pf.entries@,
            n == pf.leaf_count,
            forall|j: int| 0 <= j < x ==> (#[trigger] ev[j]).0 < n,
            forall|j: int| 1 <= j < x ==> ev[j - 1].0 < (#[trigger] ev[j]).0,
        decreases ev.len() - x,
    {
        if pf.entries[x].0 >= n {
            return false;
        }
        if x > 0 && pf.entries[x - 1].0 >= pf.entries[x].0 {
            return false;
        }
        x += 1;
    }
    proof {
        assert forall|a: int, b: int| 0 <= a < b < ev.len() implies (#[trigger] ev[a]).0 < (#[trigger] ev[b]).0 by {
            // adjacent growth gives the pair: walk from a to b
            lemma_adjacent_to_all(ev, a, b);
        }
        assert(proof_shape_ok(n as int, ev, sv.len() as int));
    }
    // rebuild the leaf level
    let mut level: Vec<[u8; 32]> = Vec::new();
    let mut e: usize = 0;
    let mut s: usize = 0;
    let mut p: usize = 0;
    proof {
        assert(hashes_view(level@) + merged_rec(ev.skip(0), sv.skip(0), 0, n as int)
            =~= merged_rec(ev, sv, 0, n as int)) by {
            assert(ev.skip(0) =~= ev);
            assert(sv.skip(0) =~= sv);
            assert(hashes_view(level@).len() == 0);
        }
    }
    while p < n
        invariant
            proof_shape_ok(n as int, ev, sv.len() as int),
            ev == pf.entries@,
            sv == hashes_view(pf.siblings@),
            n == pf.leaf_count,
            e <= ev.len(),
            s <= sv.len(),
            e + s == p,
            p <= n,
            n - p == (ev.len() - e) + (sv.len() - s),
            e < ev.len() ==> ev[e as int].0 >= p,
            level@.len() == p,
            hashes_view(level@) + merged_rec(ev.skip(e as int), sv.skip(s as int), p as int, n as int)
                == merged_rec(ev, sv, 0, n as int),
        decreases n - p,
    {
        let ghost pre = level@;
        let ghost rem = merged_rec(ev.skip(e as int), sv.skip(s as int), p as int, n as int);
        if e < pf.entries.len() && pf.entries[e].0 == p {
            let h = leaf_hash(&pf.entries[e].1);
            level.push(h);
            proof {
                let es = ev.skip(e as int);
                assert(es[0] == ev[e as int]);
                assert(es[0].0 == p);
                assert(rem == seq![leaf_hash_of(es[0].1.bytes@)]
                    + merged_rec(es.drop_first(), sv.skip(s as int), p + 1, n as int));
                assert(es.drop_first() =~= ev.skip(e + 1));
                assert(h@ == rem[0]);
                lemma_push_concat(pre, h, rem, merged_rec(ev.skip(e + 1), sv.skip(s as int), p + 1, n as int));
                if e + 1 < ev.len() {
                    assert(ev[e as int].0 < ev[e + 1].0);
                }
            }
            e += 1;
        } else {
            proof {
                // a sibling must be available, else the remaining entries
                // could not all fit strictly increasing below n
                if s >= sv.len() {
                    assert(ev.len() - e == n - p);
                    assert(e < ev.len());
                    lemma_entries_gap(ev, e as int, ev.len() - 1);
                    assert(ev[ev.len() - 1].0 >= ev[e as int].0 + (ev.len() - 1 - e));
                    assert(ev[e as int].0 != p);
                    assert(ev[e as int].0 >= p + 1);
                    assert(ev[ev.len() - 1].0 >= n);
                    assert(false);
                }
                if e < ev.len() {
                    assert(ev[e as int].0 != p);
                }
            }
            let h = pf.siblings[s];
            level.push(h);
            proof {
                let ss = sv.skip(s as int);
                assert(ss[0] == sv[s as int]);
                if e < ev.len() {
                    let es = ev.skip(e as int);
                    assert(es[0] == ev[e as int]);
                    assert(es[0].0 != p);
                } else {
                    assert(ev.skip(e as int).len() == 0);
                }
                assert(ss.len() > 0);
                assert(rem == seq![ss[0]]
                    + merged_rec(ev.skip(e as int), ss.drop_first(), p + 1, n as int));
                assert(ss.drop_first() =~= sv.skip(s + 1));
                assert(h@ == sv[s as int]);
                lemma_push_concat(pre, h, rem, merged_rec(ev.skip(e as int), sv.skip(s + 1), p + 1, n as int));
                if e < ev.len() {
                    assert(ev[e as int].0 >= p + 1);
                }
            }
            s += 1;
        }
        p += 1;
    }
    proof {
        assert(e == ev.len() && s == sv.len());
        assert(merged_rec(ev.skip(e as int), sv.skip(s as int), p as int, n as int) =~= Seq::<Seq<u8>>::empty());
        assert(hashes_view(level@) + Seq::<Seq<u8>>::empty() =~= hashes_view(level@));
        assert(hashes_view(level@) == merged_rec(ev, sv, 0, n as int));
        assert(level@.len() >= 1);
    }
    let computed = root_from_level(level);
    bytes32_eq(&computed, root_hash)
}

/// Pushing a hash equal to the head of the remaining leaves extends the
/// rebuilt prefix by one.
proof fn lemma_push_concat(pre: Seq<[u8; 32]>, h: [u8; 32], rem: Seq<Seq<u8>>, tail: Seq<Seq<u8>>)
    requires
        rem == seq![h@] + tail,
    ensures
        hashes_view(pre.push(h)) + tail =~= hashes_view(pre) + rem,
{
    let lhs = hashes_view(pre.push(h)) + tail;
    let rhs = hashes_view(pre) + rem;
    assert(hashes_view(pre.push(h)).len() == pre.len() + 1);
    assert(hashes_view(pre).len() == pre.len());
    assert forall|j: int| 0 <= j < lhs.len() implies lhs[j] == rhs[j] by {
        if j < pre.len() {
            assert(hashes_view(pre.push(h))[j] == pre.push(h)[j]@);
            assert(pre.push(h)[j] == pre[j]);
            assert(rhs[j] == hashes_view(pre)[j]);
        } else if j == pre.len() {
            assert(hashes_view(pre.push(h))[j] == pre.push(h)[j]@);
            assert(pre.push(h)[j] == h);
            assert(rhs[j] == rem[0]);
            assert(rem[0] == h@);
        } else {
            assert(lhs[j] == tail[j - pre.len() - 1]);
            assert(rhs[j] == rem[j - pre.len()]);
            assert(rem[j - pre.len()] == tail[j - pre.len() - 1]);
        }
    }
}

/// Adjacent strict growth of entry positions gives strict growth for every pair.
proof fn lemma_adjacent_to_all(entries: Seq<(usize, PublicKey)>, a: int, b: int)
    requires
        forall|j: int| 1 <= j < entries.len() ==> entries[j - 1].0 < (#[trigger] entries[j]).0,
        0 <= a < b < entries.len(),
    ensures
        entries[a].0 < entries[b].0,
    decreases b - a,
{
    if b > a + 1 {
        lemma_adjacent_to_all(entries, a, b - 1);
    }
}


/// What `prove` asks of a subset: non-empty, at least the threshold, no key
/// twice, every key a member.
pub open spec fn qualifying_subset(addr: ThresholdAddress, subset: Seq<PublicKey>) -> bool {
    &&& subset.len() >= 1
    &&& subset.len() >= addr.threshold
    &&& keys_view(subset).no_duplicates()
    &&& forall|j: int| 0 <= j < subset.len()
        ==> keys_view(addr.members@).contains(#[trigger] keys_view(subset)[j])
}

/// Produces the inclusion proof for a qualifying subset of an address's
/// members.
///
/// Fails with `InvalidInput` when the subset is empty, repeats a key, is not
/// contained in the members, or is smaller than the threshold. On success the
/// proof passes `verify` against the address's root hash, and its entries
/// carry exactly the subset's keys.
pub fn prove(addr: &ThresholdAddress, subset: &Vec<PublicKey>) -> (r: Result<InclusionProof, WalletError>)
    requires
        addr.wf(),
    ensures
        r is Ok <==> qualifying_subset(*addr, subset@),
        r matches Ok(pf) ==> {
            &&& verify_spec(addr.root_hash@, pf.leaf_count as int, pf.entries@, hashes_view(pf.siblings@))
            &&& pf.leaf_count == addr.members@.len()
            &&& forall|k: Seq<u8>|
                entry_keys(pf.entries@).contains(k) <==> keys_view(subset@).contains(k)
        },
        r matches Err(e) ==> e == WalletError::InvalidInput,
{
    let ghost mv = keys_view(addr.members@);
    let ghost sv = keys_view(subset@);
    if subset.len() == 0 || subset.len() < addr.threshold {
        return Err(WalletError::InvalidInput);
    }
    // a subset is a set: no key twice
    let mut a: usize = 0;
    while a < subset.len()
        invariant
            a <= sv.len(),
            sv == keys_view(subset@),
            forall|x: int, y: int| 0 <= x < y < sv.len() && x < a ==> #[trigger] sv[x] != #[trigger] sv[y],
        decreases sv.len() - a,
    {
        let mut b: usize = a + 1;
        while b < subset.len()
            invariant
                a < b || b == a + 1,
                a < sv.len(),
                b <= sv.len(),
                b >= a + 1,
                sv == keys_view(subset@),
                forall|y: int| a < y < b ==> sv[a as int] != #[trigger] sv[y],
            decreases sv.len() - b,
        {
            if pk_eq(&subset[a], &subset[b]) {
                proof {
                    assert(sv[a as int] == sv[b as int]);
                    assert(!sv.no_duplicates());
                }
                return Err(WalletError::InvalidInput);
            }
            b += 1;
        }
        a += 1;
    }
    proof {
        assert forall|x: int, y: int| 0 <= x < sv.len() && 0 <= y < sv.len() && x != y
            implies sv[x] != sv[y] by {
            if x < y {
            } else {
                assert(sv[y] != sv[x]);
            }
        }
        assert(sv.no_duplicates());
    }
    // every subset key must be a member
    let mut j: usize = 0;
    while j < subset.len()
        invariant
            j <= sv.len(),
            sv == keys_view(subset@),
            mv == keys_view(addr.members@),
            forall|l: int| 0 <= l < j ==> mv.contains(#[trigger] sv[l]),
        decreases sv.len() - j,
    {
        if !contains_key(&addr.members, &subset[j]) {
            proof {
                assert(!mv.contains(sv[j as int]));
            }
            return Err(WalletError::InvalidInput);
        }
        j += 1;
    }
    // walk the members in leaf order, keeping subset keys as entries and
    // hashing the rest into siblings
    let n = addr.members.len();
    let ghost sel = Seq::new(mv.len(), |m: int| sv.contains(mv[m]));
    let mut entries: Vec<(usize, PublicKey)> = Vec::new();
    let mut siblings: Vec<[u8; 32]> = Vec::new();
    let mut m: usize = 0;
    proof {
        assert(entries@ + gen_entries(addr.members@, sel, 0) =~= gen_entries(addr.members@, sel, 0));
        assert(hashes_view(siblings@) + gen_sibs(addr.members@, sel, 0) =~= gen_sibs(addr.members@, sel, 0));
    }
    while m < n
        invariant
            m <= n,
            n == addr.members@.len(),
            mv == keys_view(addr.members@),
            sv == keys_view(subset@),
            sel == Seq::new(mv.len(), |q: int| sv.contains(mv[q])),
            entries@.len() + siblings@.len() == m,
            forall|x: int| 0 <= x < entries@.len() ==> (#[trigger] entries@[x]).0 < m,
            forall|x: int| 1 <= x < entries@.len() ==> entries@[x - 1].0 < (#[trigger] entries@[x]).0,
            entries@ + gen_entries(addr.members@, sel, m as int) == gen_entries(addr.members@, sel, 0),
            hashes_view(siblings@) + gen_sibs(addr.members@, sel, m as int) == gen_sibs(addr.members@, sel, 0),
        decreases n - m,
    {
        let ghost pre_e = entries@;
        let ghost pre_s = siblings@;
        let is_in = contains_key(subset, &addr.members[m]);
        proof {
            assert(mv[m as int] == addr.members@[m as int].bytes@);
            assert(sel[m as int] == sv.contains(mv[m as int]));
        }
        if is_in {
            entries.push((m, addr.members[m]));
            proof {
                assert(gen_entries(addr.members@, sel, m as int)
                    == seq![(m, addr.members@[m as int])] + gen_entries(addr.members@, sel, m + 1));
                assert(entries@ =~= pre_e.push((m, addr.members@[m as int])));
                assert(entries@ + gen_entries(addr.members@, sel, m + 1)
                    =~= pre_e + gen_entries(addr.members@, sel, m as int));
                assert(gen_sibs(addr.members@, sel, m as int) == gen_sibs(addr.members@, sel, m + 1));
            }
        } else {
            let h = leaf_hash(&addr.members[m]);
            siblings.push(h);
            proof {
                assert(gen_sibs(addr.members@, sel, m as int)
                    == seq![leaf_hash_of(addr.members@[m as int].bytes@)] + gen_sibs(addr.members@, sel, m + 1));
                assert(gen_entries(addr.members@, sel, m as int) == gen_entries(addr.members@, sel, m + 1));
                lemma_push_concat(pre_s, h, gen_sibs(addr.members@, sel, m as int), gen_sibs(addr.members@, sel, m + 1));
                assert(hashes_view(siblings@) + gen_sibs(addr.members@, sel, m + 1)
                    == hashes_view(pre_s) + gen_sibs(addr.members@, sel, m as int));
            }
        }
        m += 1;
    }
    proof {
        assert(gen_entries(addr.members@, sel, n as int) =~= Seq::<(usize, PublicKey)>::empty());
        assert(gen_sibs(addr.members@, sel, n as int) =~= Seq::<Seq<u8>>::empty());
        assert(entries@ + gen_entries(addr.members@, sel, n as int) =~= entries@);
        assert(hashes_view(siblings@) + gen_sibs(addr.members@, sel, n as int) =~= hashes_view(siblings@));
        assert(entries@ == gen_entries(addr.members@, sel, 0));
        assert(hashes_view(siblings@) == gen_sibs(addr.members@, sel, 0));

        // entry keys are exactly the subset keys
        assert forall|k: Seq<u8>|
            entry_keys(entries@).contains(k) <==> sv.contains(k) by {
            lemma_gen_entries_keys(addr.members@, sel, 0, k);
            if entry_keys(entries@).contains(k) {
                let q = choose|q: int| 0 <= q < mv.len() && sel[q] && mv[q] == k;
                assert(sv.contains(k));
            }
            if sv.contains(k) {
                let l = choose|l: int| 0 <= l < sv.len() && sv[l] == k;
                assert(mv.contains(sv[l]));
                let q = choose|q: int| 0 <= q < mv.len() && mv[q] == k;
                assert(sel[q]);
            }
        }

        // the proof is non-empty: the first subset key selects some member
        assert(sv.contains(sv[0]));
        assert(entry_keys(entries@).contains(sv[0]));
        assert(entry_keys(entries@).len() == entries@.len());
        assert(entries@.len() >= 1);

        // the rebuilt leaf level is the member leaf level, so the roots agree
        lemma_gen_merges(addr.members@, sel, 0);
        assert(leaves_of(mv).skip(0) =~= leaves_of(mv));
        assert(merged_rec(entries@, hashes_view(siblings@), 0, n as int) == leaves_of(mv));
        assert(proof_shape_ok(n as int, entries@, hashes_view(siblings@).len() as int)) by {
            assert forall|x: int, y: int| 0 <= x < y < entries@.len()
                implies (#[trigger] entries@[x]).0 < (#[trigger] entries@[y]).0 by {
                lemma_adjacent_to_all(entries@, x, y);
            }
        }
    }
    Ok(InclusionProof { leaf_count: n, entries, siblings })
}

} // verus!
