use vstd::prelude::*;
use vstd::relations::sorted_by;
use vstd::pervasive::VecAdditionalExecFns;
use crate::WalletError;
use crate::types::{PublicKey, PrivateKey, keys_view, pk_eq, bytes32_eq};
use crate::crypto::{
    sha256, sha256_of, base_mul, base_mul_of, point_add, point_add_of, scalar_add, scalar_add_of,
    scalar_mul, scalar_mul_of, gen_scalar, challenge, challenge_of, check_equation, eq_holds, SchnorrSignature,
    opt33_view, opt32_view, combine_points_of, combine_scalars_of,
};
use crate::merkle::lex_leq_fn;

verus! {

// ---------------------------------------------------------------------------
// Spec-level helpers for per-signer round bookkeeping.
// ---------------------------------------------------------------------------

pub open spec fn all_some<T>(s: Seq<Option<T>>) -> bool {
    forall|i: int| 0 <= i < s.len() ==> (#[trigger] s[i]) is Some
}

pub open spec fn all_none<T>(s: Seq<Option<T>>) -> bool {
    forall|i: int| 0 <= i < s.len() ==> (#[trigger] s[i]) is None
}

pub open spec fn nonce_views(s: Seq<Option<[u8; 33]>>) -> Seq<Seq<u8>> {
    s.map_values(|o: Option<[u8; 33]>| (o->0)@)
}

pub open spec fn scalar_views(s: Seq<Option<[u8; 32]>>) -> Seq<Seq<u8>> {
    s.map_values(|o: Option<[u8; 32]>| (o->0)@)
}

/// Concatenation of the signers' canonical encodings, in order.
pub open spec fn keys_concat(keys: Seq<PublicKey>) -> Seq<u8>
    decreases keys.len(),
{
    if keys.len() == 0 {
        Seq::empty()
    } else {
        keys_concat(keys.drop_last()) + keys.last().bytes@
    }
}

/// The session identifier: every cosigner derives the same one from the
/// message and the canonically ordered signer set.
pub open spec fn session_id_of(message: Seq<u8>, signers: Seq<PublicKey>) -> Seq<u8> {
    sha256_of(message + keys_concat(signers))
}

/// The index of a key among the (duplicate-free) signers.
pub open spec fn signer_index_of(signers: Seq<PublicKey>, pk: PublicKey) -> int {
    choose|i: int| 0 <= i < signers.len() && signers[i].bytes@ == pk.bytes@
}

/// The rounds of a signing session, strictly in order; `Complete` is terminal.
#[derive(Clone, Copy, Debug, PartialEq, Eq, Structural)]
pub enum SessionState {
    CollectingCommitments,
    CollectingNonces,
    CollectingPartials,
    Complete,
}

/// The per-spend state machine that turns one commitment, one nonce and one
/// partial signature from every signer into a single aggregate signature.
#[derive(Clone, Debug)]
pub struct SigningSession {
    pub session_id: [u8; 32],
    pub message: [u8; 32],
    pub signers: Vec<PublicKey>,
    pub self_index: usize,
    pub self_private: [u8; 32],
    pub own_nonce_scalar: [u8; 32],
    pub own_nonce_point: [u8; 33],
    pub state: SessionState,
    pub commitments: Vec<Option<[u8; 32]>>,
    pub nonces: Vec<Option<[u8; 33]>>,
    pub partials: Vec<Option<[u8; 32]>>,
    pub agg_nonce: Option<[u8; 33]>,
    pub agg_response: Option<[u8; 32]>,
}

impl SigningSession {
    pub open spec fn n(self) -> int {
        self.signers@.len() as int
    }

    /// The session's internal invariant. It makes the round structure exact:
    /// which maps are filled in which state, that every recorded nonce hashes
    /// to its recorded commitment, and that every recorded partial signature
    /// satisfies the verification equation against the aggregate nonce.
    pub open spec fn wf(self) -> bool {
        let n = self.n();
        let si = self.self_index as int;
        &&& n >= 1
        &&& si < n
        &&& self.commitments@.len() == n
        &&& self.nonces@.len() == n
        &&& self.partials@.len() == n
        &&& keys_view(self.signers@).no_duplicates()
        &&& sorted_by(keys_view(self.signers@), lex_leq_fn())
        &&& self.session_id@ == session_id_of(self.message@, self.signers@)
        &&& base_mul_of(self.own_nonce_scalar@) == Some(self.own_nonce_point@)
        &&& base_mul_of(self.self_private@) == Some(self.signers@[si].bytes@)
        &&& (self.commitments@[si] matches Some(c) && c@ == sha256_of(self.own_nonce_point@))
        &&& (self.nonces@[si] matches Some(np) ==> np == self.own_nonce_point)
        &&& (forall|i: int| 0 <= i < n ==> ((#[trigger] self.nonces@[i]) matches Some(np)
                ==> self.commitments@[i] matches Some(c) && c@ == sha256_of(np@)))
        &&& match self.agg_nonce {
            Some(ar) => {
                &&& all_some(self.nonces@)
                &&& combine_points_of(nonce_views(self.nonces@)) == Some(ar@)
                &&& forall|i: int| 0 <= i < n ==> ((#[trigger] self.partials@[i]) matches Some(s)
                        ==> eq_holds(
                            self.signers@[i].bytes@,
                            (self.nonces@[i]->0)@,
                            challenge_of(ar@, self.message@),
                            s@,
                        ))
            },
            None => all_none(self.partials@),
        }
        &&& match self.state {
            SessionState::CollectingCommitments => {
                &&& !all_some(self.commitments@)
                &&& all_none(self.nonces@)
                &&& all_none(self.partials@)
                &&& self.agg_nonce is None
                &&& self.agg_response is None
            },
            SessionState::CollectingNonces => {
                &&& all_some(self.commitments@)
                &&& self.nonces@[si] is Some
                &&& !all_some(self.nonces@)
                &&& all_none(self.partials@)
                &&& self.agg_nonce is None
                &&& self.agg_response is None
            },
            SessionState::CollectingPartials => {
                &&& all_some(self.commitments@)
                &&& all_some(self.nonces@)
                &&& self.agg_nonce is Some
                &&& self.partials@[si] is Some
                &&& !all_some(self.partials@)
                &&& self.agg_response is None
            },
            SessionState::Complete => {
                &&& all_some(self.commitments@)
                &&& all_some(self.nonces@)
                &&& all_some(self.partials@)
                &&& self.agg_nonce is Some
                &&& (self.agg_response matches Some(s)
                    && combine_scalars_of(scalar_views(self.partials@)) == Some(s@))
            },
        }
    }
}

/// A session is complete exactly when every signer's commitment, nonce and
/// partial signature has been recorded; and the session never holds a nonce
/// that does not hash to its recorded commitment, nor a partial signature
/// that fails the verification equation against the aggregate nonce.
pub proof fn lemma_complete_iff_all_rounds(s: SigningSession)
    requires
        s.wf(),
    ensures
        (s.state is Complete) <==> (all_some(s.commitments@) && all_some(s.nonces@) && all_some(
            s.partials@,
        )),
        forall|i: int| 0 <= i < s.n() ==> ((#[trigger] s.nonces@[i]) matches Some(np)
            ==> s.commitments@[i] matches Some(c) && c@ == sha256_of(np@)),
        s.state is Complete ==> forall|i: int| 0 <= i < s.n()
            ==> ((#[trigger] s.partials@[i]) matches Some(p) ==> eq_holds(
                s.signers@[i].bytes@,
                (s.nonces@[i]->0)@,
                challenge_of((s.agg_nonce->0)@, s.message@),
                p@,
            )),
{
    match s.state {
        SessionState::CollectingCommitments => {
            assert(!all_some(s.commitments@));
        },
        SessionState::CollectingNonces => {
            assert(!all_some(s.nonces@));
        },
        SessionState::CollectingPartials => {
            assert(!all_some(s.partials@));
        },
        SessionState::Complete => {},
    }
}

// ---------------------------------------------------------------------------
// Exec helpers.
// ---------------------------------------------------------------------------

fn copy_opt_vec<T: Copy>(v: &Vec<Option<T>>) -> (r: Vec<Option<T>>)
    ensures
        r@ == v@,
{
    let mut out: Vec<Option<T>> = Vec::new();
    let mut i: usize = 0;
    while i < v.len()
        invariant
            i <= v@.len(),
            out@ == v@.take(i as int),
        decreases v@.len() - i,
    {
        out.push(v[i]);
        proof {
            assert(out@ =~= v@.take(i + 1));
        }
        i += 1;
    }
    proof {
        assert(out@ =~= v@);
    }
    out
}

fn vec_all_some<T: Copy>(v: &Vec<Option<T>>) -> (r: bool)
    ensures
        r == all_some(v@),
{
    let mut i: usize = 0;
    while i < v.len()
        invariant
            i <= v@.len(),
            forall|j: int| 0 <= j < i ==> (#[trigger] v@[j]) is Some,
        decreases v@.len() - i,
    {
        if v[i].is_none() {
            return false;
        }
        i += 1;
    }
    true
}

fn none_vec<T: Copy>(n: usize) -> (r: Vec<Option<T>>)
    ensures
        r@.len() == n,
        all_none(r@),
        forall|j: int| 0 <= j < n ==> (#[trigger] r@[j]) is None,
{
    let mut out: Vec<Option<T>> = Vec::new();
    let mut i: usize = 0;
    while i < n
        invariant
            i <= n,
            out@.len() == i,
            forall|j: int| 0 <= j < i ==> (#[trigger] out@[j]) is None,
        decreases n - i,
    {
        out.push(None);
        i += 1;
    }
    out
}

/// The position of a key among the signers, when it is one of them.
fn find_index(signers: &Vec<PublicKey>, pk: &PublicKey) -> (r: Option<usize>)
    requires
        keys_view(signers@).no_duplicates(),
    ensures
        r is Some <==> keys_view(signers@).contains(pk.bytes@),
        r matches Some(i) ==> i < signers@.len() && signers@[i as int].bytes@ == pk.bytes@
            && i == signer_index_of(signers@, *pk),
{
    let mut i: usize = 0;
    while i < signers.len()
        invariant
            i <= signers@.len(),
            keys_view(signers@).no_duplicates(),
            forall|j: int| 0 <= j < i ==> (#[trigger] keys_view(signers@)[j]) != pk.bytes@,
        decreases signers@.len() - i,
    {
        if pk_eq(&signers[i], pk) {
            proof {
                assert(keys_view(signers@)[i as int] == pk.bytes@);
                assert(signers@[i as int].bytes@ == pk.bytes@);
                assert(exists|q: int| 0 <= q < signers@.len() && signers@[q].bytes@ == pk.bytes@);
                let w = signer_index_of(signers@, *pk);
                assert(signers@[w].bytes@ == pk.bytes@);
                if w != i {
                    assert(keys_view(signers@)[w] == keys_view(signers@)[i as int]);
                    assert(false);
                }
            }
            return Some(i);
        }
        i += 1;
    }
    proof {
        assert forall|j: int| 0 <= j < keys_view(signers@).len()
            implies keys_view(signers@)[j] != pk.bytes@ by {}
    }
    None
}

/// The digest of a point's serialized form, as used for nonce commitments.
fn point_hash(p: &[u8; 33]) -> (r: [u8; 32])
    ensures
        r@ == sha256_of(p@),
{
    let mut buf: Vec<u8> = Vec::new();
    let mut i: usize = 0;
    while i < 33
        invariant
            i <= 33,
            buf@ == p@.take(i as int),
        decreases 33 - i,
    {
        buf.push(p[i]);
        proof {
            assert(buf@ =~= p@.take(i + 1));
        }
        i += 1;
    }
    proof {
        assert(buf@ =~= p@);
    }
    sha256(&buf)
}

fn session_id_bytes(message: &[u8; 32], signers: &Vec<PublicKey>) -> (r: [u8; 32])
    ensures
        r@ == session_id_of(message@, signers@),
{
    let mut buf: Vec<u8> = Vec::new();
    let mut i: usize = 0;
    while i < 32
        invariant
            i <= 32,
            buf@ == message@.take(i as int),
        decreases 32 - i,
    {
        buf.push(message[i]);
        proof {
            assert(buf@ =~= message@.take(i + 1));
        }
        i += 1;
    }
    proof {
        assert(buf@ =~= message@);
    }
    let mut k: usize = 0;
    while k < signers.len()
        invariant
            k <= signers@.len(),
            buf@ == message@ + keys_concat(signers@.take(k as int)),
        decreases signers@.len() - k,
    {
        let mut j: usize = 0;
        while j < 33
            invariant
                j <= 33,
                k < signers@.len(),
                buf@ == message@ + keys_concat(signers@.take(k as int))
                    + signers@[k as int].bytes@.take(j as int),
            decreases 33 - j,
        {
            buf.push(signers[k].bytes[j]);
            proof {
                assert(buf@ =~= message@ + keys_concat(signers@.take(k as int))
                    + signers@[k as int].bytes@.take(j + 1));
            }
            j += 1;
        }
        proof {
            let t1 = signers@.take(k + 1);
            assert(t1.drop_last() =~= signers@.take(k as int));
            assert(t1.last() == signers@[k as int]);
            assert(keys_concat(t1) == keys_concat(signers@.take(k as int)) + signers@[k as int].bytes@);
            assert(buf@ =~= message@ + keys_concat(t1));
        }
        k += 1;
    }
    proof {
        assert(signers@.take(signers@.len() as int) =~= signers@);
        assert(buf@ =~= message@ + keys_concat(signers@));
    }
    sha256(&buf)
}

/// Combines all revealed nonce points into the aggregate nonce.
fn combine_nonce_points(nonces: &Vec<Option<[u8; 33]>>) -> (r: Option<[u8; 33]>)
    requires
        nonces@.len() >= 1,
        all_some(nonces@),
    ensures
        opt33_view(r) == combine_points_of(nonce_views(nonces@)),
{
    let ghost views = nonce_views(nonces@);
    let mut acc: [u8; 33] = match nonces[0] {
        Some(p) => p,
        None => {
            proof {
                assert(nonces@[0] is Some);
                assert(false);
            }
            unreached()
        },
    };
    proof {
        assert(views.take(1).len() == 1);
        assert(views.take(1)[0] == views[0]);
        assert(combine_points_of(views.take(1)) == Some(acc@));
    }
    let mut i: usize = 1;
    while i < nonces.len()
        invariant
            1 <= i <= nonces@.len(),
            all_some(nonces@),
            views == nonce_views(nonces@),
            combine_points_of(views.take(i as int)) == Some(acc@),
        decreases nonces@.len() - i,
    {
        let next = match nonces[i] {
            Some(p) => p,
            None => {
                proof {
                    assert(nonces@[i as int] is Some);
                    assert(false);
                }
                unreached()
            },
        };
        let combined = match point_add(&acc, &next) {
            Some(p) => p,
            None => {
                proof {
                    let t = views.take(i + 1);
                    assert(t.drop_last() =~= views.take(i as int));
                    assert(t.last() == views[i as int]);
                    assert(combine_points_of(t) == point_add_of(acc@, next@));
                    crate::crypto::lemma_combine_points_prefix_none(views, i + 1);
                }
                return None;
            },
        };
        proof {
            let t = views.take(i + 1);
            assert(t.drop_last() =~= views.take(i as int));
            assert(t.last() == views[i as int]);
            assert(combine_points_of(t) == point_add_of(acc@, next@));
        }
        acc = combined;
        i += 1;
    }
    proof {
        assert(views.take(views.len() as int) =~= views);
    }
    Some(acc)
}

/// Combines all recorded partial signatures into the aggregate response.
fn combine_partials(partials: &Vec<Option<[u8; 32]>>) -> (r: Option<[u8; 32]>)
    requires
        partials@.len() >= 1,
        all_some(partials@),
    ensures
        opt32_view(r) == combine_scalars_of(scalar_views(partials@)),
{
    let ghost views = scalar_views(partials@);
    let mut acc: [u8; 32] = match partials[0] {
        Some(p) => p,
        None => {
            proof {
                assert(partials@[0] is Some);
                assert(false);
            }
            unreached()
        },
    };
    proof {
        assert(views.take(1).len() == 1);
        assert(views.take(1)[0] == views[0]);
        assert(combine_scalars_of(views.take(1)) == Some(acc@));
    }
    let mut i: usize = 1;
    while i < partials.len()
        invariant
            1 <= i <= partials@.len(),
            all_some(partials@),
            views == scalar_views(partials@),
            combine_scalars_of(views.take(i as int)) == Some(acc@),
        decreases partials@.len() - i,
    {
        let next = match partials[i] {
            Some(p) => p,
            None => {
                proof {
                    assert(partials@[i as int] is Some);
                    assert(false);
                }
                unreached()
            },
        };
        let combined = match scalar_add(&acc, &next) {
            Some(p) => p,
            None => {
                proof {
                    let t = views.take(i + 1);
                    assert(t.drop_last() =~= views.take(i as int));
                    assert(t.last() == views[i as int]);
                    assert(combine_scalars_of(t) == scalar_add_of(acc@, next@));
                    lemma_combine_scalars_prefix_none(views, i + 1);
                }
                return None;
            },
        };
        proof {
            let t = views.take(i + 1);
            assert(t.drop_last() =~= views.take(i as int));
            assert(t.last() == views[i as int]);
            assert(combine_scalars_of(t) == scalar_add_of(acc@, next@));
        }
        acc = combined;
        i += 1;
    }
    proof {
        assert(views.take(views.len() as int) =~= views);
    }
    Some(acc)
}

proof fn lemma_combine_scalars_prefix_none(views: Seq<Seq<u8>>, k: int)
    requires
        1 <= k <= views.len(),
        combine_scalars_of(views.take(k)) is None,
    ensures
        combine_scalars_of(views) is None,
    decreases views.len() - k,
{
    if k == views.len() {
        assert(views.take(k) =~= views);
    } else {
        let t1 = views.take(k + 1);
        assert(t1.drop_last() =~= views.take(k));
        assert(t1.len() >= 2);
        assert(combine_scalars_of(t1) is None);
        lemma_combine_scalars_prefix_none(views, k + 1);
    }
}


impl SigningSession {
    /// Opens a signing session for a message and signer set, with the caller
    /// as one of the signers.
    ///
    /// Fails with `InvalidInput` when the signer set is empty or repeats a
    /// key, when the caller's key is not among the signers, or when the
    /// private key does not belong to the caller's public key; with two or
    /// more well-formed signers, creation always succeeds. A fresh nonce
    /// pair is drawn and the session starts in the commitment round holding
    /// only the caller's own commitment; with a single signer every round
    /// completes at once.
    pub fn new(
        message: &[u8; 32],
        signer_keys: &Vec<PublicKey>,
        self_key: &PublicKey,
        self_private: &PrivateKey,
    ) -> (r: Result<SigningSession, WalletError>)
        ensures
            r matches Ok(s) ==> {
                &&& s.wf()
                &&& s.message == *message
                &&& keys_view(s.signers@).to_multiset() == keys_view(signer_keys@).to_multiset()
                &&& s.signers@.len() == signer_keys@.len()
                &&& s.session_id@ == session_id_of(message@, s.signers@)
                &&& s.signers@[s.self_index as int].bytes@ == self_key.bytes@
                &&& s.self_private == self_private.bytes
                &&& (s.signers@.len() >= 2 ==> {
                    &&& s.state is CollectingCommitments
                    &&& (forall|i: int| 0 <= i < s.n() && i != s.self_index as int
                        ==> (#[trigger] s.commitments@[i]) is None)
                    &&& all_none(s.nonces@)
                    &&& all_none(s.partials@)
                })
                &&& (s.signers@.len() == 1 ==> s.state is Complete)
            },
            !keys_view(signer_keys@).contains(self_key.bytes@) ==> r is Err,
            !keys_view(signer_keys@).no_duplicates() ==> r is Err,
            base_mul_of(self_private.bytes@) != Some(self_key.bytes@) ==> r is Err,
            (keys_view(signer_keys@).no_duplicates() && keys_view(signer_keys@).contains(
                self_key.bytes@,
            ) && base_mul_of(self_private.bytes@) == Some(self_key.bytes@) && signer_keys@.len()
                >= 2) ==> r is Ok,
            r matches Err(e) ==> e == WalletError::InvalidInput,
    {
        let sorted = match crate::merkle::sorted_unique_keys(signer_keys) {
            Ok(v) => v,
            Err(e) => {
                return Err(WalletError::InvalidInput);
            },
        };
        let idx = match find_index(&sorted, self_key) {
            Some(i) => i,
            None => {
                proof {
                    if keys_view(signer_keys@).contains(self_key.bytes@) {
                        let l = choose|l: int|
                            0 <= l < keys_view(signer_keys@).len()
                                && keys_view(signer_keys@)[l] == self_key.bytes@;
                        broadcast use vstd::seq_lib::group_to_multiset_ensures;

                        assert(keys_view(signer_keys@).to_multiset().contains(self_key.bytes@));
                        assert(keys_view(sorted@).to_multiset().contains(self_key.bytes@));
                        assert(keys_view(sorted@).contains(self_key.bytes@));
                        assert(false);
                    }
                }
                return Err(WalletError::InvalidInput);
            },
        };
        proof {
            broadcast use vstd::seq_lib::group_to_multiset_ensures;

            assert(keys_view(sorted@)[idx as int] == self_key.bytes@);
            assert(keys_view(sorted@).contains(self_key.bytes@));
            assert(keys_view(sorted@).to_multiset().contains(self_key.bytes@));
            assert(keys_view(signer_keys@).to_multiset().contains(self_key.bytes@));
            assert(keys_view(signer_keys@).contains(self_key.bytes@));
        }
        // the private key must belong to the caller's public key
        let derived = match base_mul(&self_private.bytes) {
            Some(p) => p,
            None => {
                return Err(WalletError::InvalidInput);
            },
        };
        if !crate::types::bytes33_eq(&derived, &self_key.bytes) {
            return Err(WalletError::InvalidInput);
        }
        let n = sorted.len();
        let sid = session_id_bytes(message, &sorted);
        let nonce_scalar = gen_scalar();
        let nonce_point = match base_mul(&nonce_scalar) {
            Some(p) => p,
            None => {
                proof {
                    assert(false);
                }
                unreached()
            },
        };
        let own_commitment = point_hash(&nonce_point);
        let mut commitments: Vec<Option<[u8; 32]>> = none_vec(n);
        let nonces: Vec<Option<[u8; 33]>> = none_vec(n);
        let partials: Vec<Option<[u8; 32]>> = none_vec(n);
        commitments.set(idx, Some(own_commitment));
        let mut session = SigningSession {
            session_id: sid,
            message: *message,
            signers: sorted,
            self_index: idx,
            self_private: self_private.bytes,
            own_nonce_scalar: nonce_scalar,
            own_nonce_point: nonce_point,
            state: SessionState::CollectingCommitments,
            commitments,
            nonces,
            partials,
            agg_nonce: None,
            agg_response: None,
        };
        if n == 1 {
            // sole signer: every round is already complete
            session.nonces.set(0, Some(nonce_point));
            proof {
                assert(nonce_views(session.nonces@).len() == 1);
                assert(nonce_views(session.nonces@)[0] == nonce_point@);
                assert(combine_points_of(nonce_views(session.nonces@)) == Some(nonce_point@));
            }
            let e = challenge(&nonce_point, message);
            let ex = match scalar_mul(&self_private.bytes, &e) {
                Some(v) => v,
                None => {
                    return Err(WalletError::InvalidInput);
                },
            };
            let s_own = match scalar_add(&nonce_scalar, &ex) {
                Some(v) => v,
                None => {
                    return Err(WalletError::InvalidInput);
                },
            };
            if !check_equation(&session.signers[0].bytes, &nonce_point, &e, &s_own) {
                return Err(WalletError::InvalidInput);
            }
            session.partials.set(0, Some(s_own));
            proof {
                assert(scalar_views(session.partials@).len() == 1);
                assert(scalar_views(session.partials@)[0] == s_own@);
                assert(combine_scalars_of(scalar_views(session.partials@)) == Some(s_own@));
            }
            session.agg_nonce = Some(nonce_point);
            session.agg_response = Some(s_own);
            session.state = SessionState::Complete;
            proof {
                assert(session.wf());
            }
            return Ok(session);
        }
        proof {
            assert(!all_some(session.commitments@)) by {
                let other: int = if idx == 0 { 1 } else { 0 };
                assert(session.commitments@[other] is None);
            }
            assert(session.wf());
        }
        Ok(session)
    }

    /// Records one signer's nonce commitment.
    ///
    /// Rejected with `InvalidInput` after completion or for a key outside the
    /// signer set; with `IllegalInput` when the key already committed — the
    /// first commitment is never overwritten. When the last commitment
    /// arrives, the session advances to the nonce round and reveals its own
    /// nonce.
    pub fn add_commitment(&mut self, pk: &PublicKey, commitment: &[u8; 32]) -> (r: Result<
        (),
        WalletError,
    >)
        requires
            old(self).wf(),
        ensures
            final(self).wf(),
            final(self).signers@ == old(self).signers@,
            final(self).message == old(self).message,
            final(self).session_id == old(self).session_id,
            final(self).self_index == old(self).self_index,
            r is Err ==> *final(self) == *old(self),
            old(self).state is Complete ==> (r matches Err(e) && e == WalletError::InvalidInput),
            (!(old(self).state is Complete) && !keys_view(old(self).signers@).contains(pk.bytes@))
                ==> (r matches Err(e) && e == WalletError::InvalidInput),
            (!(old(self).state is Complete) && keys_view(old(self).signers@).contains(pk.bytes@)
                && old(self).commitments@[signer_index_of(old(self).signers@, *pk)] is Some)
                ==> (r matches Err(e) && e == WalletError::IllegalInput),
            (!(old(self).state is Complete) && keys_view(old(self).signers@).contains(pk.bytes@)
                && old(self).commitments@[signer_index_of(old(self).signers@, *pk)] is None)
                ==> r is Ok,
            r is Ok ==> {
                let i = signer_index_of(old(self).signers@, *pk);
                &&& old(self).commitments@[i] is None
                &&& final(self).commitments@ == old(self).commitments@.update(i, Some(*commitment))
                &&& final(self).partials@ == old(self).partials@
                &&& (all_some(final(self).commitments@) ==> final(self).state is CollectingNonces)
                &&& (!all_some(final(self).commitments@) ==> final(self).state
                    == old(self).state && final(self).nonces@ == old(self).nonces@)
            },
    {
        if matches!(self.state, SessionState::Complete) {
            return Err(WalletError::InvalidInput);
        }
        let idx = match find_index(&self.signers, pk) {
            Some(i) => i,
            None => {
                return Err(WalletError::InvalidInput);
            },
        };
        if self.commitments[idx].is_some() {
            return Err(WalletError::IllegalInput);
        }
        proof {
            // a free commitment slot only exists while commitments are being
            // collected
            match self.state {
                SessionState::CollectingCommitments => {},
                _ => {
                    assert(all_some(self.commitments@));
                    assert(false);
                },
            }
            assert(idx != self.self_index);
        }
        self.commitments.set(idx, Some(*commitment));
        if vec_all_some(&self.commitments) {
            self.state = SessionState::CollectingNonces;
            self.nonces.set(self.self_index, Some(self.own_nonce_point));
            proof {
                assert(!all_some(self.nonces@)) by {
                    let other: int = if idx == self.self_index as int { 0 } else { idx as int };
                    assert(self.nonces@[other] is None);
                }
                assert(self.wf());
            }
        } else {
            proof {
                assert(self.wf());
            }
        }
        Ok(())
    }
}


impl SigningSession {
    /// Records one signer's revealed nonce.
    ///
    /// Rejected with `InvalidInput` after completion, for a key outside the
    /// signer set, or before the commitment round has closed; with
    /// `IllegalInput` when the key already revealed its nonce (the first
    /// value is never overwritten) or when the nonce does not hash to the
    /// previously recorded commitment — a rejection never advances the
    /// state. A key can lack a recorded commitment only in the first two of
    /// those cases, since the nonce round opens only once every commitment
    /// is in; both are malformed requests (`InvalidInput`), while
    /// `IllegalInput` is kept for the protocol violations: a duplicate or a
    /// commitment mismatch. When the last matching nonce arrives, the
    /// aggregate nonce is computed and the session's own partial signature
    /// is recorded.
    pub fn add_nonce(&mut self, pk: &PublicKey, nonce_point: &[u8; 33]) -> (r: Result<
        (),
        WalletError,
    >)
        requires
            old(self).wf(),
        ensures
            final(self).wf(),
            final(self).signers@ == old(self).signers@,
            final(self).message == old(self).message,
            final(self).session_id == old(self).session_id,
            final(self).self_index == old(self).self_index,
            final(self).commitments@ == old(self).commitments@,
            r is Err ==> *final(self) == *old(self),
            old(self).state is Complete ==> (r matches Err(e) && e == WalletError::InvalidInput),
            (old(self).state is CollectingCommitments) ==> (r matches Err(e) && e
                == WalletError::InvalidInput),
            (!(old(self).state is Complete) && !(old(self).state is CollectingCommitments)
                && !keys_view(old(self).signers@).contains(pk.bytes@)) ==> (r matches Err(e) && e
                == WalletError::InvalidInput),
            ({
                let i = signer_index_of(old(self).signers@, *pk);
                !(old(self).state is Complete) && !(old(self).state is CollectingCommitments)
                    && keys_view(old(self).signers@).contains(pk.bytes@) && old(
                    self,
                ).nonces@[i] is Some
            }) ==> (r matches Err(e) && e == WalletError::IllegalInput),
            ({
                let i = signer_index_of(old(self).signers@, *pk);
                !(old(self).state is Complete) && !(old(self).state is CollectingCommitments)
                    && keys_view(old(self).signers@).contains(pk.bytes@) && old(
                    self,
                ).nonces@[i] is None && sha256_of(nonce_point@) != (old(self).commitments@[i]->0)@
            }) ==> (r matches Err(e) && e == WalletError::IllegalInput),
            ({
                let i = signer_index_of(old(self).signers@, *pk);
                !(old(self).state is Complete) && !(old(self).state is CollectingCommitments)
                    && keys_view(old(self).signers@).contains(pk.bytes@) && old(
                    self,
                ).nonces@[i] is None && sha256_of(nonce_point@) == (old(self).commitments@[i]->0)@
                    && !all_some(old(self).nonces@.update(i, Some(*nonce_point)))
            }) ==> r is Ok,
            ({
                let i = signer_index_of(old(self).signers@, *pk);
                old(self).state is CollectingNonces && keys_view(old(self).signers@).contains(
                    pk.bytes@,
                ) && old(self).nonces@[i] is None && sha256_of(nonce_point@) == (old(
                    self,
                ).commitments@[i]->0)@ && all_some(old(self).nonces@.update(i, Some(*nonce_point)))
            }) ==> (r is Ok <==> ({
                let i = signer_index_of(old(self).signers@, *pk);
                let upd = old(self).nonces@.update(i, Some(*nonce_point));
                match combine_points_of(nonce_views(upd)) {
                    Some(ar) => {
                        let e = challenge_of(ar, old(self).message@);
                        match scalar_mul_of(old(self).self_private@, e) {
                            Some(ex) => match scalar_add_of(old(self).own_nonce_scalar@, ex) {
                                Some(sw) => eq_holds(
                                    old(self).signers@[old(self).self_index as int].bytes@,
                                    old(self).own_nonce_point@,
                                    e,
                                    sw,
                                ),
                                None => false,
                            },
                            None => false,
                        }
                    },
                    None => false,
                }
            })),
            r is Ok ==> {
                let i = signer_index_of(old(self).signers@, *pk);
                &&& old(self).state is CollectingNonces
                &&& old(self).nonces@[i] is None
                &&& sha256_of(nonce_point@) == (old(self).commitments@[i]->0)@
                &&& final(self).nonces@ == old(self).nonces@.update(i, Some(*nonce_point))
                &&& (all_some(final(self).nonces@) <==> final(self).state is CollectingPartials)
                &&& (!all_some(final(self).nonces@) ==> final(self).state is CollectingNonces
                    && final(self).partials@ == old(self).partials@)
            },
    {
        if matches!(self.state, SessionState::Complete) {
            return Err(WalletError::InvalidInput);
        }
        if matches!(self.state, SessionState::CollectingCommitments) {
            return Err(WalletError::InvalidInput);
        }
        let idx = match find_index(&self.signers, pk) {
            Some(i) => i,
            None => {
                return Err(WalletError::InvalidInput);
            },
        };
        if self.nonces[idx].is_some() {
            return Err(WalletError::IllegalInput);
        }
        proof {
            match self.state {
                SessionState::CollectingNonces => {},
                SessionState::CollectingPartials => {
                    assert(all_some(self.nonces@));
                    assert(false);
                },
                _ => {
                    assert(false);
                },
            }
            assert(idx != self.self_index);
        }
        let c = match self.commitments[idx] {
            Some(c) => c,
            None => {
                proof {
                    assert(all_some(self.commitments@));
                    assert(false);
                }
                unreached()
            },
        };
        let h = point_hash(nonce_point);
        if !bytes32_eq(&h, &c) {
            return Err(WalletError::IllegalInput);
        }
        let mut cand = copy_opt_vec(&self.nonces);
        cand.set(idx, Some(*nonce_point));
        if !vec_all_some(&cand) {
            self.nonces = cand;
            proof {
                assert(self.wf());
            }
            return Ok(());
        }
        // final nonce: fix the aggregate and record our own partial signature
        let ar = match combine_nonce_points(&cand) {
            Some(p) => p,
            None => {
                return Err(WalletError::IllegalInput);
            },
        };
        let e = challenge(&ar, &self.message);
        let ex = match scalar_mul(&self.self_private, &e) {
            Some(v) => v,
            None => {
                return Err(WalletError::IllegalInput);
            },
        };
        let s_own = match scalar_add(&self.own_nonce_scalar, &ex) {
            Some(v) => v,
            None => {
                return Err(WalletError::IllegalInput);
            },
        };
        let self_pk = self.signers[self.self_index].bytes;
        if !check_equation(&self_pk, &self.own_nonce_point, &e, &s_own) {
            return Err(WalletError::IllegalInput);
        }
        let ghost old_partials = self.partials@;
        self.nonces = cand;
        self.agg_nonce = Some(ar);
        self.partials.set(self.self_index, Some(s_own));
        self.state = SessionState::CollectingPartials;
        proof {
            let si = self.self_index as int;
            assert(self.nonces@[si] == Some(self.own_nonce_point));
            assert(!all_some(self.partials@)) by {
                assert(self.partials@[idx as int] is None);
            }
            assert forall|i: int| 0 <= i < self.n() implies ((#[trigger] self.partials@[i]) matches Some(p)
                ==> eq_holds(
                    self.signers@[i].bytes@,
                    (self.nonces@[i]->0)@,
                    challenge_of(ar@, self.message@),
                    p@,
                )) by {
                if i != si {
                    assert(self.partials@[i] == old_partials[i]);
                    assert(old_partials[i] is None);
                }
            }
            assert(self.wf());
        }
        Ok(())
    }

    /// Records one signer's partial signature.
    ///
    /// Rejected with `InvalidInput` after completion, for a key outside the
    /// signer set, or before the nonce round has closed; with `IllegalInput`
    /// when the key already contributed (the first value is never
    /// overwritten) or when the value fails the per-signer verification
    /// equation against the aggregate nonce. The last valid partial completes
    /// the session and fixes the aggregate signature.
    pub fn add_partial_signature(&mut self, pk: &PublicKey, partial: &[u8; 32]) -> (r: Result<
        (),
        WalletError,
    >)
        requires
            old(self).wf(),
        ensures
            final(self).wf(),
            final(self).signers@ == old(self).signers@,
            final(self).message == old(self).message,
            final(self).session_id == old(self).session_id,
            final(self).self_index == old(self).self_index,
            final(self).commitments@ == old(self).commitments@,
            final(self).nonces@ == old(self).nonces@,
            r is Err ==> *final(self) == *old(self),
            old(self).state is Complete ==> (r matches Err(e) && e == WalletError::InvalidInput),
            (old(self).state is CollectingCommitments || old(self).state is CollectingNonces)
                ==> (r matches Err(e) && e == WalletError::InvalidInput),
            (old(self).state is CollectingPartials && !keys_view(old(self).signers@).contains(
                pk.bytes@,
            )) ==> (r matches Err(e) && e == WalletError::InvalidInput),
            ({
                let i = signer_index_of(old(self).signers@, *pk);
                old(self).state is CollectingPartials && keys_view(old(self).signers@).contains(
                    pk.bytes@,
                ) && old(self).partials@[i] is Some
            }) ==> (r matches Err(e) && e == WalletError::IllegalInput),
            ({
                let i = signer_index_of(old(self).signers@, *pk);
                old(self).state is CollectingPartials && keys_view(old(self).signers@).contains(
                    pk.bytes@,
                ) && old(self).partials@[i] is None && !eq_holds(
                    old(self).signers@[i].bytes@,
                    (old(self).nonces@[i]->0)@,
                    challenge_of((old(self).agg_nonce->0)@, old(self).message@),
                    partial@,
                )
            }) ==> (r matches Err(e) && e == WalletError::IllegalInput),
            ({
                let i = signer_index_of(old(self).signers@, *pk);
                old(self).state is CollectingPartials && keys_view(old(self).signers@).contains(
                    pk.bytes@,
                ) && old(self).partials@[i] is None && eq_holds(
                    old(self).signers@[i].bytes@,
                    (old(self).nonces@[i]->0)@,
                    challenge_of((old(self).agg_nonce->0)@, old(self).message@),
                    partial@,
                ) && !all_some(old(self).partials@.update(i, Some(*partial)))
            }) ==> r is Ok,
            ({
                let i = signer_index_of(old(self).signers@, *pk);
                old(self).state is CollectingPartials && keys_view(old(self).signers@).contains(
                    pk.bytes@,
                ) && old(self).partials@[i] is None && eq_holds(
                    old(self).signers@[i].bytes@,
                    (old(self).nonces@[i]->0)@,
                    challenge_of((old(self).agg_nonce->0)@, old(self).message@),
                    partial@,
                ) && all_some(old(self).partials@.update(i, Some(*partial)))
            }) ==> (r is Ok <==> combine_scalars_of(
                scalar_views(
                    old(self).partials@.update(
                        signer_index_of(old(self).signers@, *pk),
                        Some(*partial),
                    ),
                ),
            ) is Some),
            r is Ok ==> {
                let i = signer_index_of(old(self).signers@, *pk);
                &&& old(self).state is CollectingPartials
                &&& old(self).partials@[i] is None
                &&& final(self).partials@ == old(self).partials@.update(i, Some(*partial))
                &&& (all_some(final(self).partials@) <==> final(self).state is Complete)
            },
    {
        if matches!(self.state, SessionState::Complete) {
            return Err(WalletError::InvalidInput);
        }
        if !matches!(self.state, SessionState::CollectingPartials) {
            return Err(WalletError::InvalidInput);
        }
        let idx = match find_index(&self.signers, pk) {
            Some(i) => i,
            None => {
                return Err(WalletError::InvalidInput);
            },
        };
        if self.partials[idx].is_some() {
            return Err(WalletError::IllegalInput);
        }
        let ar = match self.agg_nonce {
            Some(a) => a,
            None => {
                proof {
                    assert(false);
                }
                unreached()
            },
        };
        let np = match self.nonces[idx] {
            Some(p) => p,
            None => {
                proof {
                    assert(all_some(self.nonces@));
                    assert(false);
                }
                unreached()
            },
        };
        let e = challenge(&ar, &self.message);
        let signer_pk = self.signers[idx].bytes;
        if !check_equation(&signer_pk, &np, &e, partial) {
            return Err(WalletError::IllegalInput);
        }
        let mut cand = copy_opt_vec(&self.partials);
        cand.set(idx, Some(*partial));
        if !vec_all_some(&cand) {
            self.partials = cand;
            proof {
                assert(self.partials@[self.self_index as int] is Some);
                assert(self.wf());
            }
            return Ok(());
        }
        // final partial: combine everything into the aggregate signature
        let s_agg = match combine_partials(&cand) {
            Some(v) => v,
            None => {
                return Err(WalletError::IllegalInput);
            },
        };
        self.partials = cand;
        self.agg_response = Some(s_agg);
        self.state = SessionState::Complete;
        proof {
            assert(self.wf());
        }
        Ok(())
    }

    /// The caller's own nonce commitment, available from creation on, for
    /// relaying to the other signers.
    pub fn nonce_commitment(&self) -> (r: [u8; 32])
        requires
            self.wf(),
        ensures
            Some(r) == self.commitments@[self.self_index as int],
    {
        match self.commitments[self.self_index] {
            Some(c) => c,
            None => {
                proof {
                    assert(false);
                }
                unreached()
            },
        }
    }

    /// The caller's own nonce, revealed once every commitment is in; fails
    /// with `InvalidInput` before that round.
    pub fn nonce(&self) -> (r: Result<[u8; 33], WalletError>)
        requires
            self.wf(),
        ensures
            r is Ok <==> !(self.state is CollectingCommitments),
            r matches Ok(p) ==> p == self.own_nonce_point,
            r matches Err(e) ==> e == WalletError::InvalidInput,
    {
        if matches!(self.state, SessionState::CollectingCommitments) {
            Err(WalletError::InvalidInput)
        } else {
            Ok(self.own_nonce_point)
        }
    }

    /// The caller's own partial signature, available once every nonce is in;
    /// fails with `InvalidInput` before that round.
    pub fn partial_signature(&self) -> (r: Result<[u8; 32], WalletError>)
        requires
            self.wf(),
        ensures
            r is Ok <==> (self.state is CollectingPartials || self.state is Complete),
            r matches Ok(p) ==> Some(p) == self.partials@[self.self_index as int],
            r matches Err(e) ==> e == WalletError::InvalidInput,
    {
        match self.state {
            SessionState::CollectingPartials | SessionState::Complete => {
                match self.partials[self.self_index] {
                    Some(p) => Ok(p),
                    None => {
                        proof {
                            assert(all_some(self.partials@) || self.partials@[self.self_index as int] is Some);
                            assert(false);
                        }
                        unreached()
                    },
                }
            },
            _ => Err(WalletError::InvalidInput),
        }
    }

    /// The aggregate signature of a complete session; `InvalidInput` before.
    pub fn signature(&self) -> (r: Result<SchnorrSignature, WalletError>)
        requires
            self.wf(),
        ensures
            r is Ok <==> self.state is Complete,
            r matches Ok(sig) ==> Some(sig.nonce_point) == self.agg_nonce && Some(sig.response)
                == self.agg_response,
            r matches Err(e) ==> e == WalletError::InvalidInput,
    {
        if !matches!(self.state, SessionState::Complete) {
            return Err(WalletError::InvalidInput);
        }
        let np = match self.agg_nonce {
            Some(p) => p,
            None => {
                proof {
                    assert(false);
                }
                unreached()
            },
        };
        let sr = match self.agg_response {
            Some(v) => v,
            None => {
                proof {
                    assert(false);
                }
                unreached()
            },
        };
        Ok(SchnorrSignature { nonce_point: np, response: sr })
    }

    /// The signer set, for proof generation when the spend is assembled.
    pub fn public_keys(&self) -> (r: &Vec<PublicKey>)
        ensures
            r@ == self.signers@,
    {
        &self.signers
    }
}

/// Cosigners computing the session identifier independently for the same
/// message and the same signer set arrive at the same identifier, whatever
/// order each presents the signers in.
pub proof fn lemma_session_id_deterministic(
    message: Seq<u8>,
    s1: Seq<PublicKey>,
    s2: Seq<PublicKey>,
)
    requires
        sorted_by(keys_view(s1), lex_leq_fn()),
        sorted_by(keys_view(s2), lex_leq_fn()),
        keys_view(s1).to_multiset() == keys_view(s2).to_multiset(),
    ensures
        session_id_of(message, s1) == session_id_of(message, s2),
{
    crate::types::lemma_lex_leq_total_ordering();
    vstd::seq_lib::lemma_sorted_unique(keys_view(s1), keys_view(s2), lex_leq_fn());
    assert(keys_view(s1) =~= keys_view(s2));
    lemma_keys_concat_from_views(s1, s2);
}

proof fn lemma_keys_concat_from_views(s1: Seq<PublicKey>, s2: Seq<PublicKey>)
    requires
        keys_view(s1) == keys_view(s2),
    ensures
        keys_concat(s1) == keys_concat(s2),
    decreases s1.len(),
{
    assert(keys_view(s1).len() == s1.len());
    assert(keys_view(s2).len() == s2.len());
    assert(s1.len() == s2.len());
    if s1.len() > 0 {
        assert(keys_view(s1.drop_last()) =~= keys_view(s2.drop_last())) by {
            assert forall|i: int| 0 <= i < s1.len() - 1
                implies keys_view(s1.drop_last())[i] == keys_view(s2.drop_last())[i] by {
                assert(keys_view(s1)[i] == keys_view(s2)[i]);
            }
        }
        lemma_keys_concat_from_views(s1.drop_last(), s2.drop_last());
        assert(keys_view(s1)[s1.len() - 1] == keys_view(s2)[s2.len() - 1]);
        assert(s1.last().bytes@ == s2.last().bytes@);
    }
}

} // verus!
