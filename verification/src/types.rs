use vstd::prelude::*;
use crate::WalletError;

verus! {

/// Largest representable amount of coin; sums beyond it are overflow.
pub const MAX_COIN: u64 = 10_000_000_000_000_000_000;

/// An amount of coin. Well-formed values never exceed `MAX_COIN`.
#[derive(Clone, Copy, Debug)]
pub struct Coin {
    pub value: u64,
}

impl Coin {
    pub open spec fn wf(self) -> bool {
        self.value <= MAX_COIN
    }

    pub fn zero() -> (r: Coin)
        ensures
            r.value == 0,
            r.wf(),
    {
        Coin { value: 0 }
    }

    pub fn new(v: u64) -> (r: Result<Coin, WalletError>)
        ensures
            r is Ok <==> v <= MAX_COIN,
            r matches Ok(c) ==> c.value == v,
            r matches Err(e) ==> e == WalletError::InvalidInput,
    {
        if v <= MAX_COIN {
            Ok(Coin { value: v })
        } else {
            Err(WalletError::InvalidInput)
        }
    }

    /// Checked addition: fails with `InvalidInput` on coin overflow.
    pub fn add(self, other: Coin) -> (r: Result<Coin, WalletError>)
        ensures
            r is Ok <==> self.value + other.value <= MAX_COIN,
            r matches Ok(c) ==> c.value == self.value + other.value,
            r matches Err(e) ==> e == WalletError::InvalidInput,
    {
        let s: u128 = self.value as u128 + other.value as u128;
        if s <= MAX_COIN as u128 {
            Ok(Coin { value: s as u64 })
        } else {
            Err(WalletError::InvalidInput)
        }
    }
}

/// Compressed encoding of a public key; opaque to the core except for its bytes.
#[derive(Clone, Copy, Debug)]
pub struct PublicKey {
    pub bytes: [u8; 33],
}

/// Secret scalar of a key pair; never serialized by the core.
#[derive(Clone, Copy, Debug)]
pub struct PrivateKey {
    pub bytes: [u8; 32],
}

/// Unique identifier of a transaction output.
#[derive(Clone, Copy, Debug)]
pub struct TxoPointer {
    pub txid: [u8; 32],
    pub index: u64,
}

impl TxoPointer {
    pub open spec fn key(self) -> (Seq<u8>, u64) {
        (self.txid@, self.index)
    }
}

/// One output of a transaction: a spending address and an amount.
#[derive(Clone, Copy, Debug)]
pub struct TxOut {
    pub address: [u8; 32],
    pub value: Coin,
}

/// Net effect of a reconciled transaction on the wallet's balance.
#[derive(Clone, Copy, Debug)]
pub enum BalanceChange {
    Incoming(Coin),
    Outgoing(Coin),
    NoChange,
}

/// A transfer transaction: inputs it spends and outputs it creates.
#[derive(Clone, Debug)]
pub struct Transaction {
    pub inputs: Vec<TxoPointer>,
    pub outputs: Vec<TxOut>,
}

/// Immutable record of one reconciled transaction.
#[derive(Clone, Debug)]
pub struct TransactionChange {
    pub transaction_id: [u8; 32],
    pub outputs: Vec<TxOut>,
    pub balance_change: BalanceChange,
    pub block_height: u64,
    pub block_time: u64,
}

/// Tracking record for an outgoing transaction that is not yet confirmed.
#[derive(Clone, Debug)]
pub struct TransactionPending {
    pub block_height: u64,
    pub used_inputs: Vec<TxoPointer>,
    pub return_amount: Coin,
}

/// Byte-wise equality of two 32-byte values.
pub fn bytes32_eq(a: &[u8; 32], b: &[u8; 32]) -> (r: bool)
    ensures
        r == (a@ == b@),
{
    let mut i: usize = 0;
    while i < 32
        invariant
            i <= 32,
            forall|j: int| 0 <= j < i ==> a@[j] == b@[j],
        decreases 32 - i,
    {
        if a[i] != b[i] {
            return false;
        }
        i += 1;
    }
    proof {
        assert(a@ =~= b@);
    }
    true
}

/// Byte-wise equality of two 33-byte values.
pub fn bytes33_eq(a: &[u8; 33], b: &[u8; 33]) -> (r: bool)
    ensures
        r == (a@ == b@),
{
    let mut i: usize = 0;
    while i < 33
        invariant
            i <= 33,
            forall|j: int| 0 <= j < i ==> a@[j] == b@[j],
        decreases 33 - i,
    {
        if a[i] != b[i] {
            return false;
        }
        i += 1;
    }
    proof {
        assert(a@ =~= b@);
    }
    true
}

pub open spec fn ptr_key_eq(a: TxoPointer, b: TxoPointer) -> bool {
    a.txid@ == b.txid@ && a.index == b.index
}

pub fn ptr_eq(a: &TxoPointer, b: &TxoPointer) -> (r: bool)
    ensures
        r == ptr_key_eq(*a, *b),
{
    a.index == b.index && bytes32_eq(&a.txid, &b.txid)
}

/// Lexicographic order on byte sequences.
pub open spec fn lex_leq(a: Seq<u8>, b: Seq<u8>) -> bool
    decreases a.len(),
{
    if a.len() == 0 {
        true
    } else if b.len() == 0 {
        false
    } else if a[0] < b[0] {
        true
    } else if a[0] > b[0] {
        false
    } else {
        lex_leq(a.drop_first(), b.drop_first())
    }
}

/// The byte views of a sequence of public keys.
pub open spec fn keys_view(s: Seq<PublicKey>) -> Seq<Seq<u8>> {
    s.map_values(|k: PublicKey| k.bytes@)
}

/// The byte views of a sequence of 32-byte hashes.
pub open spec fn hashes_view(s: Seq<[u8; 32]>) -> Seq<Seq<u8>> {
    s.map_values(|h: [u8; 32]| h@)
}

pub proof fn lemma_lex_leq_reflexive(a: Seq<u8>)
    ensures
        lex_leq(a, a),
    decreases a.len(),
{
    if a.len() > 0 {
        lemma_lex_leq_reflexive(a.drop_first());
    }
}

pub proof fn lemma_lex_leq_total(a: Seq<u8>, b: Seq<u8>)
    ensures
        lex_leq(a, b) || lex_leq(b, a),
    decreases a.len(),
{
    if a.len() > 0 && b.len() > 0 && a[0] == b[0] {
        lemma_lex_leq_total(a.drop_first(), b.drop_first());
    }
}

pub proof fn lemma_lex_leq_antisymmetric(a: Seq<u8>, b: Seq<u8>)
    requires
        lex_leq(a, b),
        lex_leq(b, a),
    ensures
        a == b,
    decreases a.len(),
{
    if a.len() == 0 {
        assert(b.len() == 0);
        assert(a =~= b);
    } else {
        assert(b.len() > 0);
        assert(a[0] == b[0]);
        lemma_lex_leq_antisymmetric(a.drop_first(), b.drop_first());
        assert(a.len() == b.len());
        assert forall|k: int| 0 <= k < a.len() implies a[k] == b[k] by {
            if k > 0 {
                assert(a.drop_first()[k - 1] == b.drop_first()[k - 1]);
            }
        }
        assert(a =~= b);
    }
}

pub proof fn lemma_lex_leq_transitive(a: Seq<u8>, b: Seq<u8>, c: Seq<u8>)
    requires
        lex_leq(a, b),
        lex_leq(b, c),
    ensures
        lex_leq(a, c),
    decreases a.len(),
{
    if a.len() > 0 && b.len() > 0 && c.len() > 0 && a[0] == b[0] && b[0] == c[0] {
        lemma_lex_leq_transitive(a.drop_first(), b.drop_first(), c.drop_first());
    }
}

/// The lexicographic order is a total order, as vstd's ordering lemmas require.
pub proof fn lemma_lex_leq_total_ordering()
    ensures
        vstd::relations::total_ordering(|x: Seq<u8>, y: Seq<u8>| lex_leq(x, y)),
{
    let leq = |x: Seq<u8>, y: Seq<u8>| lex_leq(x, y);
    assert forall|x: Seq<u8>| #[trigger] leq(x, x) by {
        lemma_lex_leq_reflexive(x);
    }
    assert forall|x: Seq<u8>, y: Seq<u8>| #[trigger] leq(x, y) && #[trigger] leq(y, x)
        implies x == y by {
        lemma_lex_leq_antisymmetric(x, y);
    }
    assert forall|x: Seq<u8>, y: Seq<u8>, z: Seq<u8>| #[trigger] leq(x, y) && #[trigger] leq(y, z)
        implies leq(x, z) by {
        lemma_lex_leq_transitive(x, y, z);
    }
    assert forall|x: Seq<u8>, y: Seq<u8>| #[trigger] leq(x, y) || #[trigger] leq(y, x) by {
        lemma_lex_leq_total(x, y);
    }
}

/// Exec comparison of two 33-byte keys in the order of `lex_leq`.
pub fn pk_leq(a: &PublicKey, b: &PublicKey) -> (r: bool)
    ensures
        r == lex_leq(a.bytes@, b.bytes@),
{
    proof {
        assert(a.bytes@.skip(0) =~= a.bytes@);
        assert(b.bytes@.skip(0) =~= b.bytes@);
    }
    let mut i: usize = 0;
    while i < 33
        invariant
            i <= 33,
            forall|j: int| 0 <= j < i ==> a.bytes@[j] == b.bytes@[j],
            lex_leq(a.bytes@, b.bytes@) == lex_leq(a.bytes@.skip(i as int), b.bytes@.skip(i as int)),
        decreases 33 - i,
    {
        let ghost sa = a.bytes@.skip(i as int);
        let ghost sb = b.bytes@.skip(i as int);
        if a.bytes[i] < b.bytes[i] {
            assert(lex_leq(sa, sb)) by {
                assert(sa[0] == a.bytes@[i as int]);
                assert(sb[0] == b.bytes@[i as int]);
            }
            return true;
        }
        if a.bytes[i] > b.bytes[i] {
            assert(!lex_leq(sa, sb)) by {
                assert(sa[0] == a.bytes@[i as int]);
                assert(sb[0] == b.bytes@[i as int]);
            }
            return false;
        }
        proof {
            assert(sa[0] == sb[0]);
            assert(sa.drop_first() =~= a.bytes@.skip(i + 1));
            assert(sb.drop_first() =~= b.bytes@.skip(i + 1));
        }
        i += 1;
    }
    proof {
        assert(a.bytes@.skip(33) =~= Seq::<u8>::empty());
    }
    true
}

pub fn pk_eq(a: &PublicKey, b: &PublicKey) -> (r: bool)
    ensures
        r == (a.bytes@ == b.bytes@),
{
    bytes33_eq(&a.bytes, &b.bytes)
}

} // verus!
