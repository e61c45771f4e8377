use vstd::prelude::*;
use crate::WalletError;
use crate::types::{Coin, MAX_COIN, TxoPointer, TxOut, TransactionChange, TransactionPending,
    BalanceChange, ptr_key_eq, ptr_eq, bytes32_eq};

verus! {

// ---------------------------------------------------------------------------
// Views: the ledger's mathematical model. Entries that hold vectors are
// modelled by per-type views so contracts speak over sequences only.
// ---------------------------------------------------------------------------

pub struct ChangeView {
    pub transaction_id: Seq<u8>,
    pub outputs: Seq<TxOut>,
    pub balance_change: BalanceChange,
    pub block_height: u64,
    pub block_time: u64,
}

impl TransactionChange {
    pub open spec fn cview(self) -> ChangeView {
        ChangeView {
            transaction_id: self.transaction_id@,
            outputs: self.outputs@,
            balance_change: self.balance_change,
            block_height: self.block_height,
            block_time: self.block_time,
        }
    }
}

pub struct PendingView {
    pub block_height: u64,
    pub used_inputs: Seq<TxoPointer>,
    pub return_amount: Coin,
}

impl TransactionPending {
    pub open spec fn pview(self) -> PendingView {
        PendingView {
            block_height: self.block_height,
            used_inputs: self.used_inputs@,
            return_amount: self.return_amount,
        }
    }
}

pub open spec fn changes_view(s: Seq<TransactionChange>) -> Seq<ChangeView> {
    s.map_values(|c: TransactionChange| c.cview())
}

pub open spec fn pending_view(s: Seq<([u8; 32], TransactionPending)>) -> Seq<(Seq<u8>, PendingView)> {
    s.map_values(|e: ([u8; 32], TransactionPending)| (e.0@, e.1.pview()))
}

/// The ledger's logical state: unspent outputs, reconciliation history in
/// insertion order, and pending outgoing transactions.
pub struct WalletView {
    pub unspent: Seq<(TxoPointer, TxOut)>,
    pub history: Seq<ChangeView>,
    pub pending: Seq<(Seq<u8>, PendingView)>,
}

pub open spec fn find_unspent_at(s: Seq<(TxoPointer, TxOut)>, p: TxoPointer) -> Option<TxOut>
    decreases s.len(),
{
    if s.len() == 0 {
        None
    } else if ptr_key_eq(s[0].0, p) {
        Some(s[0].1)
    } else {
        find_unspent_at(s.drop_first(), p)
    }
}

pub open spec fn find_pending_at(s: Seq<(Seq<u8>, PendingView)>, id: Seq<u8>) -> Option<PendingView>
    decreases s.len(),
{
    if s.len() == 0 {
        None
    } else if s[0].0 == id {
        Some(s[0].1)
    } else {
        find_pending_at(s.drop_first(), id)
    }
}

pub open spec fn remove_pending_at(s: Seq<(Seq<u8>, PendingView)>, id: Seq<u8>) -> Seq<(Seq<u8>, PendingView)>
    decreases s.len(),
{
    if s.len() == 0 {
        s
    } else if s[0].0 == id {
        s.drop_first()
    } else {
        seq![s[0]] + remove_pending_at(s.drop_first(), id)
    }
}

proof fn lemma_find_unspent_none(s: Seq<(TxoPointer, TxOut)>, p: TxoPointer)
    ensures
        (find_unspent_at(s, p) is None) <==> (forall|i: int|
            0 <= i < s.len() ==> !ptr_key_eq((#[trigger] s[i]).0, p)),
    decreases s.len(),
{
    if s.len() > 0 {
        lemma_find_unspent_none(s.drop_first(), p);
        if find_unspent_at(s, p) is None {
            assert forall|i: int| 0 <= i < s.len() implies !ptr_key_eq((#[trigger] s[i]).0, p) by {
                if i > 0 {
                    assert(s.drop_first()[i - 1] == s[i]);
                }
            }
        } else {
            if !ptr_key_eq(s[0].0, p) {
                let j = choose|j: int|
                    0 <= j < s.drop_first().len() && ptr_key_eq(s.drop_first()[j].0, p);
                assert(s[j + 1] == s.drop_first()[j]);
            }
        }
    }
}

proof fn lemma_find_pending_none(s: Seq<(Seq<u8>, PendingView)>, id: Seq<u8>)
    ensures
        (find_pending_at(s, id) is None) <==> (forall|i: int|
            0 <= i < s.len() ==> (#[trigger] s[i]).0 != id),
    decreases s.len(),
{
    if s.len() > 0 {
        lemma_find_pending_none(s.drop_first(), id);
        if find_pending_at(s, id) is None {
            assert forall|i: int| 0 <= i < s.len() implies (#[trigger] s[i]).0 != id by {
                if i > 0 {
                    assert(s.drop_first()[i - 1] == s[i]);
                }
            }
        } else {
            if s[0].0 != id {
                let j = choose|j: int|
                    0 <= j < s.drop_first().len() && s.drop_first()[j].0 == id;
                assert(s[j + 1] == s.drop_first()[j]);
            }
        }
    }
}

proof fn lemma_remove_first_match(s: Seq<(Seq<u8>, PendingView)>, id: Seq<u8>, idx: int)
    requires
        0 <= idx < s.len(),
        s[idx].0 == id,
        forall|j: int| 0 <= j < idx ==> (#[trigger] s[j]).0 != id,
    ensures
        remove_pending_at(s, id) == s.remove(idx),
    decreases idx,
{
    if idx == 0 {
        assert(remove_pending_at(s, id) == s.drop_first());
        assert(s.drop_first() =~= s.remove(0));
    } else {
        assert(s[0].0 != id);
        let d = s.drop_first();
        assert(d[idx - 1] == s[idx]);
        assert forall|j: int| 0 <= j < idx - 1 implies (#[trigger] d[j]).0 != id by {
            assert(d[j] == s[j + 1]);
        }
        lemma_remove_first_match(d, id, idx - 1);
        assert(seq![s[0]] + d.remove(idx - 1) =~= s.remove(idx));
    }
}

// ---------------------------------------------------------------------------
// The memento: staged mutations, applied as one atomic batch.
// ---------------------------------------------------------------------------

/// One staged ledger mutation.
pub enum MementoOp {
    AddUnspent(TxoPointer, TxOut),
    AddChange(TransactionChange),
    AddPending([u8; 32], TransactionPending),
    RemovePending([u8; 32]),
}

/// An ordered batch of staged mutations; nothing is visible in the ledger
/// until the whole batch is applied.
pub struct WalletStateMemento {
    pub ops: Vec<MementoOp>,
}

impl WalletStateMemento {
    pub fn new() -> (r: WalletStateMemento)
        ensures
            r.ops@.len() == 0,
    {
        WalletStateMemento { ops: Vec::new() }
    }

    pub fn add_unspent_transaction(&mut self, pointer: TxoPointer, output: TxOut)
        ensures
            final(self).ops@ == old(self).ops@.push(MementoOp::AddUnspent(pointer, output)),
    {
        self.ops.push(MementoOp::AddUnspent(pointer, output));
    }

    pub fn add_transaction_change(&mut self, change: TransactionChange)
        ensures
            final(self).ops@.len() == old(self).ops@.len() + 1,
            final(self).ops@.subrange(0, old(self).ops@.len() as int) == old(self).ops@,
            final(self).ops@.last() matches MementoOp::AddChange(c) && c.cview() == change.cview(),
    {
        let ghost pre = self.ops@;
        self.ops.push(MementoOp::AddChange(change));
        proof {
            assert(self.ops@.subrange(0, pre.len() as int) =~= pre);
        }
    }

    pub fn add_pending_transaction(&mut self, tx_id: [u8; 32], pending: TransactionPending)
        ensures
            final(self).ops@.len() == old(self).ops@.len() + 1,
            final(self).ops@.subrange(0, old(self).ops@.len() as int) == old(self).ops@,
            final(self).ops@.last() matches MementoOp::AddPending(id, p) && id == tx_id
                && p.pview() == pending.pview(),
    {
        let ghost pre = self.ops@;
        self.ops.push(MementoOp::AddPending(tx_id, pending));
        proof {
            assert(self.ops@.subrange(0, pre.len() as int) =~= pre);
        }
    }

    pub fn remove_pending_transaction(&mut self, tx_id: [u8; 32])
        ensures
            final(self).ops@ == old(self).ops@.push(MementoOp::RemovePending(tx_id)),
    {
        self.ops.push(MementoOp::RemovePending(tx_id));
    }
}

/// What one staged operation does to the ledger's state, or `None` when it is
/// invalid there: adding an unspent output or a pending transaction that is
/// already present, or removing a pending transaction that is absent.
pub open spec fn apply_op_spec(v: WalletView, op: MementoOp) -> Option<WalletView> {
    match op {
        MementoOp::AddUnspent(p, o) => {
            if find_unspent_at(v.unspent, p) is Some {
                None
            } else {
                Some(WalletView { unspent: v.unspent.push((p, o)), ..v })
            }
        },
        MementoOp::AddChange(c) => Some(WalletView { history: v.history.push(c.cview()), ..v }),
        MementoOp::AddPending(id, pd) => {
            if find_pending_at(v.pending, id@) is Some {
                None
            } else {
                Some(WalletView { pending: v.pending.push((id@, pd.pview())), ..v })
            }
        },
        MementoOp::RemovePending(id) => {
            if find_pending_at(v.pending, id@) is None {
                None
            } else {
                Some(WalletView { pending: remove_pending_at(v.pending, id@), ..v })
            }
        },
    }
}

/// A batch applies in order; one invalid operation invalidates the whole
/// batch.
pub open spec fn apply_ops_spec(v: WalletView, ops: Seq<MementoOp>) -> Option<WalletView>
    decreases ops.len(),
{
    if ops.len() == 0 {
        Some(v)
    } else {
        match apply_op_spec(v, ops[0]) {
            Some(v2) => apply_ops_spec(v2, ops.drop_first()),
            None => None,
        }
    }
}

// ---------------------------------------------------------------------------
// The ledger itself.
// ---------------------------------------------------------------------------

/// One wallet's durable view of its unspent outputs, reconciliation history
/// and pending transactions. Mutated only through `apply`.
pub struct WalletState {
    pub unspent: Vec<(TxoPointer, TxOut)>,
    pub history: Vec<TransactionChange>,
    pub pending: Vec<([u8; 32], TransactionPending)>,
}

impl WalletState {
    pub open spec fn wview(self) -> WalletView {
        WalletView {
            unspent: self.unspent@,
            history: changes_view(self.history@),
            pending: pending_view(self.pending@),
        }
    }

    /// Keys are unique: one entry per output pointer and per pending id.
    pub open spec fn wf(self) -> bool {
        &&& forall|i: int, j: int| 0 <= i < j < self.unspent@.len()
            ==> !ptr_key_eq((#[trigger] self.unspent@[i]).0, (#[trigger] self.unspent@[j]).0)
        &&& forall|i: int, j: int| 0 <= i < j < self.pending@.len()
            ==> (#[trigger] self.pending@[i]).0@ != (#[trigger] self.pending@[j]).0@
    }

    pub fn new() -> (r: WalletState)
        ensures
            r.wf(),
            r.wview().unspent.len() == 0,
            r.wview().history.len() == 0,
            r.wview().pending.len() == 0,
    {
        WalletState { unspent: Vec::new(), history: Vec::new(), pending: Vec::new() }
    }
}

fn find_unspent_idx(s: &Vec<(TxoPointer, TxOut)>, p: &TxoPointer) -> (r: Option<usize>)
    ensures
        r is Some <==> find_unspent_at(s@, *p) is Some,
        r matches Some(i) ==> i < s@.len() && ptr_key_eq(s@[i as int].0, *p)
            && find_unspent_at(s@, *p) == Some(s@[i as int].1)
            && (forall|j: int| 0 <= j < i ==> !ptr_key_eq((#[trigger] s@[j]).0, *p)),
{
    let ghost full = s@;
    let mut i: usize = 0;
    proof {
        assert(full.skip(0) =~= full);
    }
    while i < s.len()
        invariant
            i <= full.len(),
            full == s@,
            forall|j: int| 0 <= j < i ==> !ptr_key_eq((#[trigger] full[j]).0, *p),
            find_unspent_at(full.skip(i as int), *p) == find_unspent_at(full, *p),
        decreases full.len() - i,
    {
        let ghost suffix = full.skip(i as int);
        proof {
            assert(suffix[0] == full[i as int]);
            assert(suffix.drop_first() =~= full.skip(i + 1));
        }
        if ptr_eq(&s[i].0, p) {
            return Some(i);
        }
        i += 1;
    }
    proof {
        assert(full.skip(full.len() as int) =~= Seq::<(TxoPointer, TxOut)>::empty());
    }
    None
}

fn find_pending_idx(s: &Vec<([u8; 32], TransactionPending)>, id: &[u8; 32]) -> (r: Option<usize>)
    ensures
        r is Some <==> find_pending_at(pending_view(s@), id@) is Some,
        r matches Some(i) ==> i < s@.len() && s@[i as int].0@ == id@
            && (forall|j: int| 0 <= j < i ==> (#[trigger] pending_view(s@)[j]).0 != id@),
{
    let ghost full = pending_view(s@);
    let mut i: usize = 0;
    proof {
        assert(full.skip(0) =~= full);
    }
    while i < s.len()
        invariant
            i <= s@.len(),
            full == pending_view(s@),
            full.len() == s@.len(),
            forall|j: int| 0 <= j < i ==> (#[trigger] full[j]).0 != id@,
            find_pending_at(full.skip(i as int), id@) == find_pending_at(full, id@),
        decreases s@.len() - i,
    {
        let ghost suffix = full.skip(i as int);
        proof {
            assert(suffix[0] == full[i as int]);
            assert(suffix.drop_first() =~= full.skip(i + 1));
        }
        if bytes32_eq(&s[i].0, id) {
            proof {
                assert(full[i as int].0 == s@[i as int].0@);
            }
            return Some(i);
        }
        i += 1;
    }
    proof {
        assert(full.skip(full.len() as int) =~= Seq::<(Seq<u8>, PendingView)>::empty());
    }
    None
}

pub fn copy_outputs(v: &Vec<TxOut>) -> (r: Vec<TxOut>)
    ensures
        r@ == v@,
{
    let mut out: Vec<TxOut> = Vec::new();
    let mut i: usize = 0;
    while i < v.len()
        invariant
            i <= v@.len(),
            out@ == v@.take(i as int),
        decreases v@.len() - i,
    {
        out.push(v[i]);
        proof {
            assert(out@ =~= v@.take(i + 1));
        }
        i += 1;
    }
    proof {
        assert(out@ =~= v@);
    }
    out
}

fn copy_pointers(v: &Vec<TxoPointer>) -> (r: Vec<TxoPointer>)
    ensures
        r@ == v@,
{
    let mut out: Vec<TxoPointer> = Vec::new();
    let mut i: usize = 0;
    while i < v.len()
        invariant
            i <= v@.len(),
            out@ == v@.take(i as int),
        decreases v@.len() - i,
    {
        out.push(v[i]);
        proof {
            assert(out@ =~= v@.take(i + 1));
        }
        i += 1;
    }
    proof {
        assert(out@ =~= v@);
    }
    out
}

pub fn copy_change(c: &TransactionChange) -> (r: TransactionChange)
    ensures
        r.cview() == c.cview(),
{
    TransactionChange {
        transaction_id: c.transaction_id,
        outputs: copy_outputs(&c.outputs),
        balance_change: c.balance_change,
        block_height: c.block_height,
        block_time: c.block_time,
    }
}

fn copy_pending(p: &TransactionPending) -> (r: TransactionPending)
    ensures
        r.pview() == p.pview(),
{
    TransactionPending {
        block_height: p.block_height,
        used_inputs: copy_pointers(&p.used_inputs),
        return_amount: p.return_amount,
    }
}

fn copy_unspent(v: &Vec<(TxoPointer, TxOut)>) -> (r: Vec<(TxoPointer, TxOut)>)
    ensures
        r@ == v@,
{
    let mut out: Vec<(TxoPointer, TxOut)> = Vec::new();
    let mut i: usize = 0;
    while i < v.len()
        invariant
            i <= v@.len(),
            out@ == v@.take(i as int),
        decreases v@.len() - i,
    {
        out.push(v[i]);
        proof {
            assert(out@ =~= v@.take(i + 1));
        }
        i += 1;
    }
    proof {
        assert(out@ =~= v@);
    }
    out
}

fn copy_history(v: &Vec<TransactionChange>) -> (r: Vec<TransactionChange>)
    ensures
        changes_view(r@) == changes_view(v@),
{
    let mut out: Vec<TransactionChange> = Vec::new();
    let mut i: usize = 0;
    while i < v.len()
        invariant
            i <= v@.len(),
            out@.len() == i,
            changes_view(out@) == changes_view(v@).take(i as int),
        decreases v@.len() - i,
    {
        let ghost pre = out@;
        out.push(copy_change(&v[i]));
        proof {
            assert(changes_view(out@).len() == i + 1);
            assert forall|j: int| 0 <= j < i + 1
                implies changes_view(out@)[j] == changes_view(v@).take(i + 1)[j] by {
                if j < i {
                    assert(out@[j] == pre[j]);
                    assert(changes_view(pre)[j] == changes_view(v@).take(i as int)[j]);
                }
            }
            assert(changes_view(out@) =~= changes_view(v@).take(i + 1));
        }
        i += 1;
    }
    proof {
        assert(changes_view(v@).take(v@.len() as int) =~= changes_view(v@));
    }
    out
}

fn copy_pending_vec(v: &Vec<([u8; 32], TransactionPending)>) -> (r: Vec<([u8; 32], TransactionPending)>)
    ensures
        pending_view(r@) == pending_view(v@),
{
    let mut out: Vec<([u8; 32], TransactionPending)> = Vec::new();
    let mut i: usize = 0;
    while i < v.len()
        invariant
            i <= v@.len(),
            out@.len() == i,
            pending_view(out@) == pending_view(v@).take(i as int),
        decreases v@.len() - i,
    {
        let ghost pre = out@;
        let entry = (v[i].0, copy_pending(&v[i].1));
        out.push(entry);
        proof {
            assert(pending_view(out@).len() == i + 1);
            assert forall|j: int| 0 <= j < i + 1
                implies pending_view(out@)[j] == pending_view(v@).take(i + 1)[j] by {
                if j < i {
                    assert(out@[j] == pre[j]);
                    assert(pending_view(pre)[j] == pending_view(v@).take(i as int)[j]);
                }
            }
            assert(pending_view(out@) =~= pending_view(v@).take(i + 1));
        }
        i += 1;
    }
    proof {
        assert(pending_view(v@).take(v@.len() as int) =~= pending_view(v@));
    }
    out
}

impl WalletState {
    /// Applies every staged operation of the memento in order, or fails with
    /// `InvalidInput` and leaves the ledger exactly as it was: all or
    /// nothing, never a half-applied batch.
    pub fn apply(&mut self, memento: &WalletStateMemento) -> (r: Result<(), WalletError>)
        requires
            old(self).wf(),
        ensures
            final(self).wf(),
            r is Ok <==> apply_ops_spec(old(self).wview(), memento.ops@) is Some,
            r is Ok ==> Some(final(self).wview()) == apply_ops_spec(old(self).wview(), memento.ops@),
            r is Err ==> *final(self) == *old(self),
            r matches Err(e) ==> e == WalletError::InvalidInput,
    {
        let ghost ops = memento.ops@;
        let ghost v0 = old(self).wview();
        let mut uc = copy_unspent(&self.unspent);
        let mut hc = copy_history(&self.history);
        let mut pc = copy_pending_vec(&self.pending);
        let mut k: usize = 0;
        proof {
            assert(ops.skip(0) =~= ops);
            assert forall|i: int, j: int| 0 <= i < j < pc@.len()
                implies (#[trigger] pc@[i]).0@ != (#[trigger] pc@[j]).0@ by {
                assert(pending_view(pc@)[i] == pending_view(self.pending@)[i]);
                assert(pending_view(pc@)[j] == pending_view(self.pending@)[j]);
                assert(pc@[i].0@ == pending_view(pc@)[i].0);
                assert(pc@[j].0@ == pending_view(pc@)[j].0);
                assert(self.pending@[i].0@ != self.pending@[j].0@);
            }
        }
        while k < memento.ops.len()
            invariant
                k <= ops.len(),
                ops == memento.ops@,
                v0 == old(self).wview(),
                *self == *old(self),
                old(self).wf(),
                apply_ops_spec(
                    WalletView {
                        unspent: uc@,
                        history: changes_view(hc@),
                        pending: pending_view(pc@),
                    },
                    ops.skip(k as int),
                ) == apply_ops_spec(v0, ops),
                forall|i: int, j: int| 0 <= i < j < uc@.len()
                    ==> !ptr_key_eq((#[trigger] uc@[i]).0, (#[trigger] uc@[j]).0),
                forall|i: int, j: int| 0 <= i < j < pc@.len()
                    ==> (#[trigger] pc@[i]).0@ != (#[trigger] pc@[j]).0@,
            decreases ops.len() - k,
        {
            let ghost cur = WalletView {
                unspent: uc@,
                history: changes_view(hc@),
                pending: pending_view(pc@),
            };
            proof {
                assert(ops.skip(k as int)[0] == ops[k as int]);
                assert(ops.skip(k as int).drop_first() =~= ops.skip(k + 1));
            }
            match &memento.ops[k] {
                MementoOp::AddUnspent(p, o) => {
                    match find_unspent_idx(&uc, p) {
                        Some(_) => {
                            return Err(WalletError::InvalidInput);
                        },
                        None => {
                            proof {
                                lemma_find_unspent_none(uc@, *p);
                            }
                            uc.push((*p, *o));
                        },
                    }
                },
                MementoOp::AddChange(c) => {
                    let ghost pre = hc@;
                    hc.push(copy_change(c));
                    proof {
                        assert(changes_view(hc@).len() == pre.len() + 1);
                        assert forall|j: int| 0 <= j < changes_view(hc@).len()
                            implies changes_view(hc@)[j] == cur.history.push(c.cview())[j] by {
                            if j < pre.len() {
                                assert(hc@[j] == pre[j]);
                                assert(changes_view(pre)[j] == cur.history[j]);
                            }
                        }
                        assert(changes_view(hc@) =~= cur.history.push(c.cview()));
                    }
                },
                MementoOp::AddPending(id, pd) => {
                    match find_pending_idx(&pc, id) {
                        Some(_) => {
                            return Err(WalletError::InvalidInput);
                        },
                        None => {
                            proof {
                                lemma_find_pending_none(pending_view(pc@), id@);
                            }
                            let ghost pre = pc@;
                            let entry = (*id, copy_pending(pd));
                            pc.push(entry);
                            proof {
                                assert(pending_view(pc@).len() == pre.len() + 1);
                                assert forall|j: int| 0 <= j < pending_view(pc@).len()
                                    implies pending_view(pc@)[j] == cur.pending.push(
                                    (id@, pd.pview()),
                                )[j] by {
                                    if j < pre.len() {
                                        assert(pc@[j] == pre[j]);
                                        assert(pending_view(pre)[j] == cur.pending[j]);
                                    }
                                }
                                assert(pending_view(pc@) =~= cur.pending.push((id@, pd.pview())));
                                assert forall|i: int, j: int| 0 <= i < j < pc@.len()
                                    implies (#[trigger] pc@[i]).0@ != (#[trigger] pc@[j]).0@ by {
                                    if j == pc@.len() - 1 {
                                        assert(pending_view(pre)[i].0 == pc@[i].0@);
                                    }
                                }
                            }
                        },
                    }
                },
                MementoOp::RemovePending(id) => {
                    match find_pending_idx(&pc, id) {
                        Some(i) => {
                            let ghost pre = pc@;
                            pc.remove(i);
                            proof {
                                lemma_remove_first_match(pending_view(pre), id@, i as int);
                                assert(pending_view(pc@) =~= pending_view(pre).remove(i as int)) by {
                                    assert(pc@ == pre.remove(i as int));
                                    assert(pending_view(pc@).len() == pre.len() - 1);
                                    assert forall|j: int| 0 <= j < pending_view(pc@).len()
                                        implies pending_view(pc@)[j] == pending_view(pre).remove(
                                        i as int,
                                    )[j] by {
                                        if j < i {
                                            assert(pc@[j] == pre[j]);
                                        } else {
                                            assert(pc@[j] == pre[j + 1]);
                                        }
                                    }
                                }
                                assert forall|a: int, b: int| 0 <= a < b < pc@.len()
                                    implies (#[trigger] pc@[a]).0@ != (#[trigger] pc@[b]).0@ by {
                                    let pa: int = if a < i { a } else { a + 1 };
                                    let pb: int = if b < i { b } else { b + 1 };
                                    assert(pc@[a] == pre[pa]);
                                    assert(pc@[b] == pre[pb]);
                                }
                            }
                        },
                        None => {
                            return Err(WalletError::InvalidInput);
                        },
                    }
                },
            }
            k += 1;
        }
        proof {
            assert(ops.skip(ops.len() as int) =~= Seq::<MementoOp>::empty());
        }
        self.unspent = uc;
        self.history = hc;
        self.pending = pc;
        Ok(())
    }
}


// ---------------------------------------------------------------------------
// Read contract.
// ---------------------------------------------------------------------------

/// The total value held in a run of unspent entries.
pub open spec fn sum_values(s: Seq<(TxoPointer, TxOut)>) -> int
    decreases s.len(),
{
    if s.len() == 0 {
        0
    } else {
        sum_values(s.drop_last()) + s.last().1.value.value
    }
}

pub proof fn lemma_sum_take_monotone(s: Seq<(TxoPointer, TxOut)>, i: int)
    requires
        0 <= i <= s.len(),
    ensures
        sum_values(s.take(i)) <= sum_values(s),
    decreases s.len(),
{
    if i < s.len() {
        assert(s.take(i) =~= s.drop_last().take(i));
        lemma_sum_take_monotone(s.drop_last(), i);
    } else {
        assert(s.take(i) =~= s);
    }
}

/// The history entries a query shows: everything whose balance effect is not
/// `NoChange`, in reconciliation order.
pub open spec fn visible_changes(s: Seq<ChangeView>) -> Seq<ChangeView>
    decreases s.len(),
{
    if s.len() == 0 {
        s
    } else {
        visible_changes(s.drop_last()) + (if s.last().balance_change is NoChange {
            Seq::<ChangeView>::empty()
        } else {
            seq![s.last()]
        })
    }
}

/// One page of the visible history: reversal first, then offset and limit.
pub open spec fn history_page(h: Seq<ChangeView>, offset: int, limit: int, reversed: bool) -> Seq<ChangeView> {
    let vis = visible_changes(h);
    let ord = if reversed {
        vis.reverse()
    } else {
        vis
    };
    let start = if offset <= ord.len() {
        offset
    } else {
        ord.len() as int
    };
    let stop = if offset + limit <= ord.len() {
        offset + limit
    } else {
        ord.len() as int
    };
    ord.subrange(start, stop)
}

impl WalletState {
    /// The wallet's total unspent value; `InvalidInput` when the sum exceeds
    /// the largest representable coin amount.
    pub fn balance(&self) -> (r: Result<Coin, WalletError>)
        ensures
            r is Ok <==> sum_values(self.wview().unspent) <= MAX_COIN,
            r matches Ok(c) ==> c.value == sum_values(self.wview().unspent),
            r matches Err(e) ==> e == WalletError::InvalidInput,
    {
        let ghost full = self.unspent@;
        let mut acc: u128 = 0;
        let mut i: usize = 0;
        proof {
            assert(full.take(0) =~= Seq::<(TxoPointer, TxOut)>::empty());
        }
        while i < self.unspent.len()
            invariant
                i <= full.len(),
                full == self.unspent@,
                acc == sum_values(full.take(i as int)),
                acc <= MAX_COIN,
            decreases full.len() - i,
        {
            let v = self.unspent[i].1.value.value;
            proof {
                assert(full.take(i + 1).drop_last() =~= full.take(i as int));
                assert(full.take(i + 1).last() == full[i as int]);
            }
            let next: u128 = acc + v as u128;
            if next > MAX_COIN as u128 {
                proof {
                    lemma_sum_take_monotone(full, i + 1);
                }
                return Err(WalletError::InvalidInput);
            }
            acc = next;
            i += 1;
        }
        proof {
            assert(full.take(full.len() as int) =~= full);
        }
        Ok(Coin { value: acc as u64 })
    }

    /// One page of the wallet's reconciliation history, `NoChange` entries
    /// hidden, newest first when `reversed`.
    pub fn history(&self, offset: usize, limit: usize, reversed: bool) -> (r: Vec<TransactionChange>)
        ensures
            changes_view(r@) == history_page(
                changes_view(self.history@),
                offset as int,
                limit as int,
                reversed,
            ),
    {
        let ghost hv = changes_view(self.history@);
        // keep the entries with a visible balance effect
        let mut filt: Vec<TransactionChange> = Vec::new();
        let mut i: usize = 0;
        proof {
            assert(hv.take(0) =~= Seq::<ChangeView>::empty());
            assert(changes_view(filt@) =~= visible_changes(hv.take(0)));
        }
        while i < self.history.len()
            invariant
                i <= self.history@.len(),
                hv == changes_view(self.history@),
                hv.len() == self.history@.len(),
                changes_view(filt@) == visible_changes(hv.take(i as int)),
            decreases self.history@.len() - i,
        {
            proof {
                assert(hv.take(i + 1).drop_last() =~= hv.take(i as int));
                assert(hv.take(i + 1).last() == hv[i as int]);
            }
            let keep = match self.history[i].balance_change {
                BalanceChange::NoChange => false,
                _ => true,
            };
            if keep {
                let ghost pre = filt@;
                filt.push(copy_change(&self.history[i]));
                proof {
                    assert(changes_view(filt@).len() == pre.len() + 1);
                    assert forall|j: int| 0 <= j < changes_view(filt@).len()
                        implies changes_view(filt@)[j] == visible_changes(hv.take(i + 1))[j] by {
                        if j < pre.len() {
                            assert(filt@[j] == pre[j]);
                            assert(changes_view(pre)[j] == visible_changes(hv.take(i as int))[j]);
                        }
                    }
                    assert(changes_view(filt@) =~= visible_changes(hv.take(i + 1)));
                }
            } else {
                proof {
                    assert(visible_changes(hv.take(i + 1)) =~= visible_changes(hv.take(i as int)));
                }
            }
            i += 1;
        }
        proof {
            assert(hv.take(hv.len() as int) =~= hv);
        }
        let ghost vis = visible_changes(hv);
        let ghost page = history_page(hv, offset as int, limit as int, reversed);
        let n = filt.len();
        let start = if offset <= n {
            offset
        } else {
            n
        };
        let room = n - start;
        let take_count = if limit <= room {
            limit
        } else {
            room
        };
        let mut out: Vec<TransactionChange> = Vec::new();
        let mut k: usize = 0;
        proof {
            assert(vis.len() == filt@.len());
            let ord = if reversed { vis.reverse() } else { vis };
            assert(ord.len() == vis.len());
            assert(page.len() == take_count);
            assert(changes_view(out@) =~= page.take(0));
        }
        while k < take_count
            invariant
                k <= take_count,
                n == filt@.len(),
                start <= n,
                take_count <= n - start,
                vis == changes_view(filt@),
                vis == visible_changes(hv),
                page == history_page(hv, offset as int, limit as int, reversed),
                page.len() == take_count,
                start == (if offset <= n { offset as int } else { n as int }),
                changes_view(out@) == page.take(k as int),
            decreases take_count - k,
        {
            let idx = if reversed {
                n - 1 - (start + k)
            } else {
                start + k
            };
            let ghost pre = out@;
            let c = copy_change(&filt[idx]);
            out.push(c);
            proof {
                assert(page[k as int] == changes_view(filt@)[idx as int]) by {
                    if reversed {
                        assert(page[k as int] == vis.reverse()[start + k]);
                        assert(vis.reverse()[start + k] == vis[n - 1 - (start + k)]);
                    } else {
                        assert(page[k as int] == vis[start + k]);
                    }
                }
                assert(changes_view(out@).len() == pre.len() + 1);
                assert(changes_view(pre).len() == pre.len());
                assert(pre.len() == k as int);
                assert forall|j: int| 0 <= j < changes_view(out@).len()
                    implies changes_view(out@)[j] == page.take(k + 1)[j] by {
                    if j < pre.len() {
                        assert(out@[j] == pre[j]);
                        assert(changes_view(pre)[j] == page.take(k as int)[j]);
                    } else {
                        assert(j == k as int);
                        assert(idx < filt@.len());
                        assert(out@[j] == c);
                        assert(changes_view(out@)[j] == out@[j].cview());
                        assert(changes_view(filt@)[idx as int] == filt@[idx as int].cview());
                        assert(c.cview() == filt@[idx as int].cview());
                        assert(page.take(k + 1)[j] == page[k as int]);
                    }
                }
                assert(changes_view(out@) =~= page.take(k + 1));
            }
            k += 1;
        }
        proof {
            assert(page.take(page.len() as int) =~= page);
        }
        out
    }

    /// Whether every one of the given pointers is an unspent output of this
    /// wallet.
    pub fn has_unspent_transactions(&self, inputs: &Vec<TxoPointer>) -> (r: bool)
        ensures
            r == (forall|i: int| 0 <= i < inputs@.len()
                ==> find_unspent_at(self.wview().unspent, #[trigger] inputs@[i]) is Some),
    {
        let mut i: usize = 0;
        while i < inputs.len()
            invariant
                i <= inputs@.len(),
                forall|j: int| 0 <= j < i
                    ==> find_unspent_at(self.wview().unspent, #[trigger] inputs@[j]) is Some,
            decreases inputs@.len() - i,
        {
            match find_unspent_idx(&self.unspent, &inputs[i]) {
                Some(_) => {},
                None => {
                    return false;
                },
            }
            i += 1;
        }
        true
    }

    /// The output a pointer refers to; `InvalidInput` when this wallet holds
    /// no such unspent output.
    pub fn output(&self, input: &TxoPointer) -> (r: Result<TxOut, WalletError>)
        ensures
            r is Ok <==> find_unspent_at(self.wview().unspent, *input) is Some,
            r matches Ok(o) ==> Some(o) == find_unspent_at(self.wview().unspent, *input),
            r matches Err(e) ==> e == WalletError::InvalidInput,
    {
        match find_unspent_idx(&self.unspent, input) {
            Some(i) => Ok(self.unspent[i].1),
            None => Err(WalletError::InvalidInput),
        }
    }

    /// A snapshot copy of the unspent set, for input selection.
    pub fn snapshot_unspent(&self) -> (r: Vec<(TxoPointer, TxOut)>)
        ensures
            r@ == self.unspent@,
    {
        copy_unspent(&self.unspent)
    }

    /// Stages and applies a pending-state record for an outgoing transaction,
    /// in one atomic step. A transaction id that is already tracked is
    /// rejected rather than overwritten, so an earlier record is never
    /// silently replaced.
    pub fn update_tx_pending_state(&mut self, tx_id: [u8; 32], tx_pending: TransactionPending) -> (r: Result<(), WalletError>)
        requires
            old(self).wf(),
        ensures
            final(self).wf(),
            r is Ok <==> find_pending_at(old(self).wview().pending, tx_id@) is None,
            r is Ok ==> final(self).wview().pending == old(self).wview().pending.push(
                (tx_id@, tx_pending.pview()),
            ) && final(self).wview().unspent == old(self).wview().unspent
                && final(self).wview().history == old(self).wview().history,
            r is Err ==> *final(self) == *old(self),
            r matches Err(e) ==> e == WalletError::InvalidInput,
    {
        let mut memento = WalletStateMemento::new();
        memento.add_pending_transaction(tx_id, tx_pending);
        let ghost v0 = old(self).wview();
        let r = self.apply(&memento);
        proof {
            let ops = memento.ops@;
            assert(ops.len() == 1);
            assert(ops[0] == ops.last());
            assert(ops.drop_first() =~= Seq::<MementoOp>::empty());
            match ops[0] {
                MementoOp::AddPending(id, pd) => {
                    assert(id == tx_id);
                    assert(pd.pview() == tx_pending.pview());
                    if find_pending_at(v0.pending, tx_id@) is None {
                        assert(id@ == tx_id@);
                        assert(find_pending_at(v0.pending, id@) is None);
                        let v1 = WalletView {
                            pending: v0.pending.push((tx_id@, tx_pending.pview())),
                            ..v0
                        };
                        assert((id@, pd.pview()) == (tx_id@, tx_pending.pview()));
                        assert(v0.pending.push((id@, pd.pview())) == v0.pending.push(
                            (tx_id@, tx_pending.pview()),
                        ));
                        assert(apply_op_spec(v0, ops[0]) == Some(v1));
                        assert(apply_ops_spec(v1, ops.drop_first()) == Some(v1));
                        assert(apply_ops_spec(v0, ops) == Some(v1));
                    } else {
                        assert(apply_op_spec(v0, ops[0]) is None);
                        assert(apply_ops_spec(v0, ops) is None);
                    }
                },
                _ => {
                    assert(false);
                },
            }
        }
        r
    }
}

} // verus!
