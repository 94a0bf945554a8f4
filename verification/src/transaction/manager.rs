use std::collections::{BTreeSet, HashMap};
use vstd::prelude::*;
use vstd::std_specs::btree::increasing_seq;
use vstd::std_specs::iter::IteratorSpec;

use super::snapshot::{snapshot_ordered, SnapshotView};
use super::{Snapshot, TransactionState};

verus! {

/// Identifier of a transaction; identifiers are handed out in increasing order.
pub type TransactionId = u64;

/// A transaction as handed out by [`TransactionManager::begin`].
#[derive(Debug, Clone, PartialEq, Eq)]
pub struct Transaction {
    id: TransactionId,
    state: TransactionState,
    snapshot: Snapshot,
}

impl Transaction {
    pub closed spec fn spec_id(&self) -> TransactionId {
        self.id
    }

    pub closed spec fn spec_state(&self) -> TransactionState {
        self.state
    }

    pub closed spec fn spec_snapshot(&self) -> SnapshotView {
        self.snapshot@
    }

    pub fn id(&self) -> (id: TransactionId)
        ensures
            id == self.spec_id(),
    {
        self.id
    }

    /// The state the transaction had when it was handed out.
    pub fn state(&self) -> (state: TransactionState)
        ensures
            state == self.spec_state(),
    {
        self.state
    }

    pub fn snapshot(&self) -> (snapshot: &Snapshot)
        ensures
            snapshot@ == self.spec_snapshot(),
    {
        &self.snapshot
    }
}

/// Errors of transaction lifecycle operations.
#[derive(Debug, Clone, Copy, PartialEq, Eq, Structural)]
pub enum TransactionError {
    /// No transaction has this identifier.
    UnknownTransaction,
    /// The transaction already committed or aborted.
    NotActive,
}

/// Mathematical model of a transaction manager.
pub struct ManagerView {
    /// The identifier the next transaction receives.
    pub next: TransactionId,
    /// State of every known transaction.
    pub states: Map<TransactionId, TransactionState>,
    /// Transactions that are active.
    pub active: Set<TransactionId>,
    /// For each active transaction, the `xmin` of the snapshot it began with
    /// (zero when it was recovered, its snapshot being unknown).
    pub xmins: Map<TransactionId, TransactionId>,
}

/// The smallest element of `s`, or `default` when `s` is empty.
pub open spec fn min_or(s: Set<TransactionId>, default: TransactionId) -> TransactionId {
    if s.is_empty() {
        default
    } else {
        s.find_unique_minimal(|a: TransactionId, b: TransactionId| a <= b)
    }
}

/// Whether `m` is the smallest element of `s`.
pub open spec fn is_min(s: Set<TransactionId>, m: TransactionId) -> bool {
    s.contains(m) && forall|t: TransactionId| #[trigger] s.contains(t) ==> m <= t
}

/// The active transactions of a state map.
pub open spec fn active_of(states: Map<TransactionId, TransactionState>) -> Set<TransactionId> {
    states.dom().filter(|t: TransactionId| states[t] == TransactionState::Active)
}

impl ManagerView {
    /// The snapshot a transaction beginning now receives.
    pub open spec fn current_snapshot(self) -> SnapshotView {
        SnapshotView { xmin: min_or(self.active, self.next), xmax: self.next, active: self.active }
    }

    /// The snapshot of a transaction that begins now: the identifier counter
    /// has already moved past it, and it is not yet among the active ones.
    pub open spec fn begin_snapshot(self) -> SnapshotView {
        SnapshotView {
            xmin: min_or(self.active, (self.next + 1) as u64),
            xmax: (self.next + 1) as u64,
            active: self.active,
        }
    }

    /// Every known identifier lies below the next one.
    pub open spec fn ordered(self) -> bool {
        forall|t: TransactionId| #[trigger] self.states.contains_key(t) ==> t < self.next
    }
}

/// Hands out transaction identifiers and snapshots and tracks transaction
/// states.
pub struct TransactionManager {
    next_transaction_id: TransactionId,
    states: HashMap<TransactionId, TransactionState>,
    active: BTreeSet<TransactionId>,
    snapshot_xmins: HashMap<TransactionId, TransactionId>,
}

impl View for TransactionManager {
    type V = ManagerView;

    closed spec fn view(&self) -> ManagerView {
        ManagerView {
            next: self.next_transaction_id,
            states: self.states@,
            active: self.active@,
            xmins: self.snapshot_xmins@,
        }
    }
}

impl TransactionManager {
    /// Well-formedness: the active set is exactly the transactions in state
    /// `Active`, and each has a recorded snapshot bound.
    pub closed spec fn wf(&self) -> bool {
        &&& self.active@ == active_of(self.states@)
        &&& self.snapshot_xmins@.dom() == self.active@
        &&& self.active@.finite()
    }

    pub fn new() -> (m: Self)
        ensures
            m.wf(),
            m@.ordered(),
            m@.next == 1,
            m@.states == Map::<TransactionId, TransactionState>::empty(),
            m@.active == Set::<TransactionId>::empty(),
    {
        let m = Self {
            next_transaction_id: 1,
            states: HashMap::new(),
            active: BTreeSet::new(),
            snapshot_xmins: HashMap::new(),
        };
        assert(active_of(m.states@) =~= Set::<TransactionId>::empty());
        assert(m.snapshot_xmins@.dom() =~= Set::<TransactionId>::empty());
        m
    }

    /// A manager that continues from recovered transaction states.
    pub fn from_recovered(
        states: HashMap<TransactionId, TransactionState>,
        next_transaction_id: TransactionId,
    ) -> (m: Self)
        ensures
            m.wf(),
            m@.next == next_transaction_id,
            m@.states == states@,
            m@.active == active_of(states@),
            forall|t: TransactionId| #[trigger] m@.active.contains(t) ==> m@.xmins[t] == 0,
            m@.ordered() <==> forall|t: TransactionId|
                #[trigger] states@.contains_key(t) ==> t < next_transaction_id,
    {
        let mut active: BTreeSet<TransactionId> = BTreeSet::new();
        let mut xmins: HashMap<TransactionId, TransactionId> = HashMap::new();
        let ghost target = active_of(states@);
        for entry in it: states.iter()
            invariant
                target == active_of(states@),
                forall|i: int|
                    0 <= i < it.seq().len() ==> #[trigger] states@.contains_key(*it.seq()[i].0)
                        && states@[*it.seq()[i].0] == *it.seq()[i].1,
                forall|t: TransactionId| #[trigger]
                    states@.contains_key(t) ==> it.seq().contains((&t, &states@[t])),
                forall|t: TransactionId| #[trigger]
                    active@.contains(t) <==> exists|j: int|
                        0 <= j < it.index() && *it.seq()[j].0 == t && *it.seq()[j].1
                            == TransactionState::Active,
                xmins@.dom() == active@,
                forall|t: TransactionId| #[trigger] active@.contains(t) ==> xmins@[t] == 0,
                it.index() < it.seq().len() || active@ == target,
        {
            let (k, v) = entry;
            let ghost i = it.index();
            proof {
                assert(*it.seq()[i].0 == *k && *it.seq()[i].1 == *v);
            }
            if *v == TransactionState::Active {
                active.insert(*k);
                xmins.insert(*k, 0);
            }
            proof {
                assert forall|t: TransactionId| #[trigger] active@.contains(t) <==> exists|j: int|
                    0 <= j < i + 1 && *it.seq()[j].0 == t && *it.seq()[j].1
                        == TransactionState::Active by {
                    if active@.contains(t) && (t != *k || *v != TransactionState::Active) {
                        let j = choose|j: int|
                            0 <= j < i && *it.seq()[j].0 == t && *it.seq()[j].1
                                == TransactionState::Active;
                        assert(0 <= j < i + 1);
                    }
                    if exists|j: int|
                        0 <= j < i + 1 && *it.seq()[j].0 == t && *it.seq()[j].1
                            == TransactionState::Active {
                        let j = choose|j: int|
                            0 <= j < i + 1 && *it.seq()[j].0 == t && *it.seq()[j].1
                                == TransactionState::Active;
                        if j == i {
                            assert(t == *k && *v == TransactionState::Active);
                        }
                    }
                }
                assert(xmins@.dom() =~= active@);
                assert forall|t: TransactionId|
                    i + 1 == it.seq().len() && #[trigger] target.contains(t) implies active@.contains(t) by {
                    assert(it.seq().contains((&t, &states@[t])));
                    let j = choose|j: int| 0 <= j < it.seq().len() && it.seq()[j] == (&t, &states@[t]);
                    assert(*it.seq()[j].0 == t);
                }
                assert(i + 1 == it.seq().len() ==> active@ =~= target);
            }
        }
        proof {
            if states@.dom().len() == 0 {
                assert(states@.dom() =~= Set::<TransactionId>::empty());
                assert(target =~= Set::<TransactionId>::empty());
                assert(active@ =~= target);
            }
        }
        let m = Self {
            next_transaction_id,
            states,
            active,
            snapshot_xmins: xmins,
        };
        proof {
            lemma_set_finite_of_map(m.states@);
        }
        m
    }

    /// Begins a transaction: it receives the next identifier, the counter
    /// moves past it, and it takes a snapshot of the transactions active
    /// before it; then it is recorded as active.
    pub fn begin(&mut self) -> (transaction: Transaction)
        requires
            old(self).wf(),
            old(self)@.next < u64::MAX,
        ensures
            final(self).wf(),
            transaction.spec_id() == old(self)@.next,
            transaction.spec_state() == TransactionState::Active,
            transaction.spec_snapshot() == old(self)@.begin_snapshot(),
            final(self)@ == (ManagerView {
                next: (old(self)@.next + 1) as u64,
                states: old(self)@.states.insert(old(self)@.next, TransactionState::Active),
                active: old(self)@.active.insert(old(self)@.next),
                xmins: old(self)@.xmins.insert(old(self)@.next, old(self)@.begin_snapshot().xmin),
            }),
            old(self)@.ordered() ==> final(self)@.ordered() && snapshot_ordered(
                transaction.spec_snapshot(),
            ),
    {
        let id = self.next_transaction_id;
        self.next_transaction_id = id + 1;
        let snapshot = self.current_snapshot();
        self.states.insert(id, TransactionState::Active);
        self.active.insert(id);
        let xmin = snapshot.xmin();
        self.snapshot_xmins.insert(id, xmin);
        proof {
            assert(self.active@ =~= active_of(self.states@));
            assert(self.snapshot_xmins@.dom() =~= self.active@);
            let o = old(self)@;
            let n = self@;
            if o.ordered() {
                assert forall|t: TransactionId| #[trigger] n.states.contains_key(t) implies t
                    < n.next by {
                    if t != id {
                        assert(o.states.contains_key(t));
                    }
                }
                if !o.active.is_empty() {
                    assert(is_min(o.active, snapshot@.xmin));
                    assert(o.active.contains(snapshot@.xmin));
                    assert(o.states.contains_key(snapshot@.xmin));
                }
                assert forall|t: TransactionId| #[trigger] o.active.contains(t) implies snapshot@.xmin
                    <= t by {
                    assert(is_min(o.active, snapshot@.xmin));
                }
            }
        }
        Transaction { id, state: TransactionState::Active, snapshot }
    }

    /// Commits an active transaction.
    pub fn commit(&mut self, transaction_id: TransactionId) -> (result: Result<
        (),
        TransactionError,
    >)
        requires
            old(self).wf(),
        ensures
            final(self).wf(),
            finish_spec(old(self)@, final(self)@, transaction_id, TransactionState::Committed, result),
            old(self)@.ordered() ==> final(self)@.ordered(),
    {
        self.finish(transaction_id, TransactionState::Committed)
    }

    /// Aborts an active transaction.
    pub fn abort(&mut self, transaction_id: TransactionId) -> (result: Result<
        (),
        TransactionError,
    >)
        requires
            old(self).wf(),
        ensures
            final(self).wf(),
            finish_spec(old(self)@, final(self)@, transaction_id, TransactionState::Aborted, result),
            old(self)@.ordered() ==> final(self)@.ordered(),
    {
        self.finish(transaction_id, TransactionState::Aborted)
    }

    /// The state of a transaction, if it is known.
    pub fn state(&self, transaction_id: TransactionId) -> (state: Option<TransactionState>)
        ensures
            state == (if self@.states.contains_key(transaction_id) {
                Some(self@.states[transaction_id])
            } else {
                None
            }),
    {
        match self.states.get(&transaction_id) {
            Some(s) => Some(*s),
            None => None,
        }
    }

    pub fn states(&self) -> (states: &HashMap<TransactionId, TransactionState>)
        ensures
            states@ == self@.states,
    {
        &self.states
    }

    pub fn next_transaction_id(&self) -> (next: TransactionId)
        ensures
            next == self@.next,
    {
        self.next_transaction_id
    }

    pub fn is_active(&self, transaction_id: TransactionId) -> (active: bool)
        ensures
            active == self@.active.contains(transaction_id),
    {
        self.active.contains(&transaction_id)
    }

    pub fn active_transactions(&self) -> (active: &BTreeSet<TransactionId>)
        ensures
            active@ == self@.active,
    {
        &self.active
    }

    fn min_active(&self) -> (m: Option<TransactionId>)
        ensures
            match m {
                Some(x) => is_min(self@.active, x),
                None => self@.active.is_empty(),
            },
    {
        let mut first: Option<TransactionId> = None;
        for t in it: self.active.iter()
            invariant
                it.seq().unref().to_set() == self.active@,
                increasing_seq(it.seq()),
                first is None ==> it.index() == 0,
                it.index() < it.seq().len() || (first is None ==> self.active@.is_empty()),
                first is Some ==> is_min(self.active@, first.unwrap()),
        {
            if first.is_none() {
                proof {
                    let r = it.seq();
                    assert(*t == *r[0]);
                    assert(r.unref()[0] == *t);
                    assert(r.unref().contains(*t));
                    assert forall|x: TransactionId| #[trigger] self.active@.contains(x) implies *t
                        <= x by {
                        assert(r.unref().to_set().contains(x));
                        assert(r.unref().contains(x));
                        let j = choose|j: int| 0 <= j < r.unref().len() && r.unref()[j] == x;
                        if j > 0 {
                            lemma_increasing_first(r, j);
                        }
                    }
                }
                first = Some(*t);
            }
        }
        proof {
            if first is None {
                assert(self.active@ =~= Set::<TransactionId>::empty());
            }
        }
        first
    }

    /// The oldest active transaction, or the next identifier when none is
    /// active.
    pub fn oldest_active_xmin(&self) -> (oldest: TransactionId)
        requires
            self.wf(),
        ensures
            oldest == min_or(self@.active, self@.next),
    {
        match self.min_active() {
            Some(t) => {
                proof {
                    lemma_min_or_is_min(self@.active, t, self@.next);
                }
                t
            },
            None => self.next_transaction_id,
        }
    }

    /// The lowest snapshot bound among active transactions, or the next
    /// identifier when none is active. A deletion committed by a transaction
    /// below this bound is visible to every active transaction.
    pub fn vacuum_horizon(&self) -> (horizon: TransactionId)
        requires
            self.wf(),
        ensures
            forall|t: TransactionId| #[trigger] self@.active.contains(t) ==> horizon <= self@.xmins[t],
            self@.active.is_empty() ==> horizon == self@.next,
            !self@.active.is_empty() ==> exists|t: TransactionId|
                #[trigger] self@.active.contains(t) && horizon == self@.xmins[t],
    {
        broadcast use vstd::std_specs::hash::group_hash_axioms;

        let mut best: Option<TransactionId> = None;
        for k in it: self.snapshot_xmins.keys()
            invariant
                it.seq().unref().to_set() == self@.xmins.dom(),
                self@.xmins.dom() == self@.active,
                best is None ==> it.index() == 0,
                best is Some ==> exists|t: TransactionId|
                    #[trigger] self@.active.contains(t) && best->Some_0 == self@.xmins[t],
                best is Some ==> forall|j: int|
                    0 <= j < it.index() ==> best->Some_0 <= self@.xmins[#[trigger] it.seq().unref()[j]],
                it.index() < it.seq().len() || (best is None ==> self@.active.is_empty()),
                it.index() < it.seq().len() || (best is Some ==> forall|t: TransactionId|
                    #[trigger] self@.active.contains(t) ==> best->Some_0 <= self@.xmins[t]),
        {
            let ghost i = it.index();
            proof {
                assert(it.seq().unref()[i] == *k);
                assert(it.seq().unref().to_set().contains(*k));
            }
            let v = match self.snapshot_xmins.get(k) {
                Some(v) => *v,
                None => 0,
            };
            let next_best = match best {
                None => v,
                Some(b) => if v < b {
                    v
                } else {
                    b
                },
            };
            best = Some(next_best);
            proof {
                assert(self@.active.contains(*k));
                assert forall|t: TransactionId|
                    i + 1 == it.seq().len() && #[trigger] self@.active.contains(t) implies next_best
                    <= self@.xmins[t] by {
                    assert(it.seq().unref().to_set().contains(t));
                    let j = choose|j: int|
                        0 <= j < it.seq().unref().len() && it.seq().unref()[j] == t;
                    assert(next_best <= self@.xmins[it.seq().unref()[j]]);
                }
            }
        }
        match best {
            Some(b) => b,
            None => self.next_transaction_id,
        }
    }

    /// The snapshot a transaction beginning now would receive.
    pub fn current_snapshot(&self) -> (snapshot: Snapshot)
        requires
            self.wf(),
        ensures
            snapshot@ == self@.current_snapshot(),
            !self@.active.is_empty() ==> is_min(self@.active, snapshot@.xmin),
    {
        let xmin = match self.min_active() {
            Some(t) => {
                proof {
                    lemma_min_or_is_min(self@.active, t, self@.next);
                }
                t
            },
            None => self.next_transaction_id,
        };
        Snapshot::new(xmin, self.next_transaction_id, self.active.clone())
    }

    fn finish(&mut self, transaction_id: TransactionId, final_state: TransactionState) -> (result:
        Result<(), TransactionError>)
        requires
            old(self).wf(),
            final_state != TransactionState::Active,
        ensures
            final(self).wf(),
            finish_spec(old(self)@, final(self)@, transaction_id, final_state, result),
            old(self)@.ordered() ==> final(self)@.ordered(),
    {
        let state = match self.states.get(&transaction_id) {
            Some(s) => *s,
            None => {
                return Err(TransactionError::UnknownTransaction);
            },
        };
        if state != TransactionState::Active {
            return Err(TransactionError::NotActive);
        }
        self.states.insert(transaction_id, final_state);
        self.active.remove(&transaction_id);
        self.snapshot_xmins.remove(&transaction_id);
        proof {
            assert(self.active@ =~= active_of(self.states@));
            assert(self.snapshot_xmins@.dom() =~= self.active@);
            let o = old(self)@;
            let n = self@;
            if o.ordered() {
                assert forall|t: TransactionId| #[trigger] n.states.contains_key(t) implies t
                    < n.next by {
                    assert(o.states.contains_key(t));
                }
            }
        }
        Ok(())
    }
}

/// What finishing `id` with `final_state` does: an unknown transaction is
/// refused, as is one that is no longer active; an active one takes the final
/// state and leaves the active set.
pub open spec fn finish_spec(
    old_m: ManagerView,
    new_m: ManagerView,
    id: TransactionId,
    final_state: TransactionState,
    result: Result<(), TransactionError>,
) -> bool {
    if !old_m.states.contains_key(id) {
        result == Err::<(), TransactionError>(TransactionError::UnknownTransaction) && new_m == old_m
    } else if old_m.states[id] != TransactionState::Active {
        result == Err::<(), TransactionError>(TransactionError::NotActive) && new_m == old_m
    } else {
        &&& result is Ok
        &&& new_m == ManagerView {
            states: old_m.states.insert(id, final_state),
            active: old_m.active.remove(id),
            xmins: old_m.xmins.remove(id),
            ..old_m
        }
    }
}

impl Default for TransactionManager {
    fn default() -> (m: Self)
        ensures
            m.wf(),
            m@.ordered(),
            m@.next == 1,
            m@.states == Map::<TransactionId, TransactionState>::empty(),
    {
        Self::new()
    }
}

impl TransactionManager {
    /// In a well-formed manager a transaction is active exactly when its
    /// recorded state is `Active`, and exactly the active transactions have a
    /// recorded snapshot bound. `new`, `from_recovered`, `begin`, `commit` and
    /// `abort` all keep the manager well-formed.
    pub proof fn lemma_active_matches_states(&self)
        requires
            self.wf(),
        ensures
            forall|t: TransactionId| #[trigger]
                self@.active.contains(t) <==> (self@.states.contains_key(t)
                    && self@.states[t] == TransactionState::Active),
            self@.xmins.dom() == self@.active,
    {
        assert forall|t: TransactionId| #[trigger]
            self@.active.contains(t) <==> (self@.states.contains_key(t)
                && self@.states[t] == TransactionState::Active) by {
            assert(active_of(self@.states).contains(t) <==> (self@.states.contains_key(t)
                && self@.states[t] == TransactionState::Active));
        }
    }
}

/// The identifier `begin` hands out is new: while every known identifier lies
/// below the next one (which `new` establishes and `begin`, `commit` and
/// `abort` keep), no transaction has it yet, so identifiers are never handed
/// out twice; and `begin` only ever raises the next identifier.
pub proof fn lemma_begin_id_is_fresh(m: ManagerView)
    requires
        m.ordered(),
    ensures
        !m.states.contains_key(m.next),
{
}

/// A transaction that committed before a snapshot is taken is visible
/// through that snapshot to every other transaction.
pub proof fn lemma_committed_visible_to_later_snapshot(
    m: ManagerView,
    committed: TransactionId,
    reader: TransactionId,
)
    requires
        m.ordered(),
        m.active == active_of(m.states),
        m.states.contains_key(committed),
        m.states[committed] == TransactionState::Committed,
        reader != committed,
    ensures
        super::visibility::visible_spec(
            committed,
            TransactionState::Committed,
            m.current_snapshot(),
            reader,
        ),
{
}

proof fn lemma_increasing_first(r: Seq<&TransactionId>, j: int)
    requires
        increasing_seq(r),
        0 < j < r.len(),
    ensures
        *r[0] < *r[j],
{
    assert(vstd::laws_cmp::obeys_cmp::<TransactionId>());
    assert(vstd::laws_cmp::obeys_cmp::<&TransactionId>());
    vstd::std_specs::btree::axiom_increasing_seq_meaning(r);
    assert(vstd::std_specs::cmp::OrdSpec::cmp_spec(&r[0], &r[j]) is Less);
}

proof fn lemma_set_finite_of_map(m: Map<TransactionId, TransactionState>)
    requires
        m.dom().finite(),
    ensures
        active_of(m).finite(),
{
}

proof fn lemma_min_or_is_min(s: Set<TransactionId>, m: TransactionId, default: TransactionId)
    requires
        is_min(s, m),
        s.finite(),
    ensures
        min_or(s, default) == m,
{
    let r = |a: TransactionId, b: TransactionId| a <= b;
    assert(vstd::relations::total_ordering(r));
    s.find_unique_minimal_ensures(r);
    let f = s.find_unique_minimal(r);
    assert(s.contains(f));
    assert(r(m, f) && r(f, m));
}

} // verus!
