//! The position ledger: who holds how many shares of which outcome.
//!
//! Positions are keyed by `(wallet, pool, outcome)` and only ever grow,
//! except when a whole pool is purged at settlement. The store keeps one
//! entry per key, in first-trade order; its model is the sequence of
//! `(wallet characters, pool, outcome, shares)` tuples.

use vstd::prelude::*;

verus! {

/// The mathematical model of one position entry.
pub type PositionModel = (Seq<char>, u64, u8, u64);

/// One user's holding of one outcome in one pool.
#[derive(Debug, Clone)]
pub struct Position {
    /// The holder's wallet address.
    pub wallet: String,
    /// The pool the position belongs to.
    pub pool_id: u64,
    /// The outcome (world index) the shares pay on.
    pub outcome: u8,
    /// Held share quantity, in the caller's fixed-point scale.
    pub shares: u64,
}

impl View for Position {
    type V = PositionModel;

    open spec fn view(&self) -> PositionModel {
        (self.wallet@, self.pool_id, self.outcome, self.shares)
    }
}

/// The models of a list of position entries.
pub open spec fn position_models(s: Seq<Position>) -> Seq<PositionModel> {
    s.map_values(|p: Position| p@)
}

/// Whether an entry carries the given key.
pub open spec fn entry_has_key(
    e: PositionModel,
    wallet: Seq<char>,
    pool_id: u64,
    outcome: u8,
) -> bool {
    e.0 == wallet && e.1 == pool_id && e.2 == outcome
}

/// No two entries share a key.
pub open spec fn keys_distinct(s: Seq<PositionModel>) -> bool {
    forall|i: int, k: int|
        0 <= i < k < s.len() ==> !((#[trigger] s[i]).0 == (#[trigger] s[k]).0 && s[i].1 == s[k].1
            && s[i].2 == s[k].2)
}

/// The shares held under a key, `0` when the key has no entry.
pub open spec fn shares_at(
    s: Seq<PositionModel>,
    wallet: Seq<char>,
    pool_id: u64,
    outcome: u8,
) -> u64
    decreases s.len(),
{
    if s.len() == 0 {
        0
    } else if entry_has_key(s.last(), wallet, pool_id, outcome) {
        s.last().3
    } else {
        shares_at(s.drop_last(), wallet, pool_id, outcome)
    }
}

/// Whether some entry carries the key.
pub open spec fn has_key(
    s: Seq<PositionModel>,
    wallet: Seq<char>,
    pool_id: u64,
    outcome: u8,
) -> bool
    decreases s.len(),
{
    if s.len() == 0 {
        false
    } else {
        entry_has_key(s.last(), wallet, pool_id, outcome) || has_key(
            s.drop_last(),
            wallet,
            pool_id,
            outcome,
        )
    }
}

/// The entries of `s` that pay on `outcome` in `pool_id`, in order.
pub open spec fn winning_entries(
    s: Seq<PositionModel>,
    pool_id: u64,
    outcome: u8,
) -> Seq<PositionModel>
    decreases s.len(),
{
    if s.len() == 0 {
        Seq::empty()
    } else if s.last().1 == pool_id && s.last().2 == outcome {
        winning_entries(s.drop_last(), pool_id, outcome).push(s.last())
    } else {
        winning_entries(s.drop_last(), pool_id, outcome)
    }
}

/// The entries of `s` that survive purging `pool_id`, in order.
pub open spec fn purged_entries(s: Seq<PositionModel>, pool_id: u64) -> Seq<PositionModel>
    decreases s.len(),
{
    if s.len() == 0 {
        Seq::empty()
    } else if s.last().1 != pool_id {
        purged_entries(s.drop_last(), pool_id).push(s.last())
    } else {
        purged_entries(s.drop_last(), pool_id)
    }
}

/// The entries of `s` that belong to `pool_id`, in order.
pub open spec fn pool_entries(s: Seq<PositionModel>, pool_id: u64) -> Seq<PositionModel>
    decreases s.len(),
{
    if s.len() == 0 {
        Seq::empty()
    } else if s.last().1 == pool_id {
        pool_entries(s.drop_last(), pool_id).push(s.last())
    } else {
        pool_entries(s.drop_last(), pool_id)
    }
}

/// The `(outcome, shares)` pairs that `wallet` holds in `pool_id`, in
/// first-trade order.
pub open spec fn user_pool_pairs(
    s: Seq<PositionModel>,
    wallet: Seq<char>,
    pool_id: u64,
) -> Seq<(u8, u64)>
    decreases s.len(),
{
    if s.len() == 0 {
        Seq::empty()
    } else if s.last().0 == wallet && s.last().1 == pool_id {
        user_pool_pairs(s.drop_last(), wallet, pool_id).push((s.last().2, s.last().3))
    } else {
        user_pool_pairs(s.drop_last(), wallet, pool_id)
    }
}

/// In-memory store of every open position, one entry per
/// `(wallet, pool, outcome)` key.
#[derive(Debug)]
pub struct PositionStore {
    entries: Vec<Position>,
}

impl View for PositionStore {
    type V = Seq<PositionModel>;

    closed spec fn view(&self) -> Seq<PositionModel> {
        position_models(self.entries@)
    }
}

impl PositionStore {
    /// The store's invariant: one entry per key.
    pub open spec fn wf(self) -> bool {
        keys_distinct(self@)
    }

    /// An empty store.
    pub fn new() -> (store: Self)
        ensures
            store@ == Seq::<PositionModel>::empty(),
            store.wf(),
    {
        let store = PositionStore { entries: Vec::new() };
        proof {
            assert(store@ =~= Seq::<PositionModel>::empty());
        }
        store
    }

    /// Credits `shares` to the `(wallet, pool_id, outcome)` key: an
    /// existing entry grows in place, a new key is appended at the end.
    /// Every other key keeps its shares; positions only ever grow here.
    #[verifier::loop_isolation(false)]
    pub fn add_position(&mut self, wallet: String, pool_id: u64, outcome: u8, shares: u64)
        requires
            old(self).wf(),
            shares_at(old(self)@, wallet@, pool_id, outcome) + shares <= u64::MAX,
        ensures
            final(self).wf(),
            forall|w: Seq<char>, p: u64, o: u8|
                #[trigger] shares_at(final(self)@, w, p, o) == if w == wallet@ && p == pool_id
                    && o == outcome {
                    (shares_at(old(self)@, wallet@, pool_id, outcome) + shares) as u64
                } else {
                    shares_at(old(self)@, w, p, o)
                },
            has_key(final(self)@, wallet@, pool_id, outcome),
            final(self)@.len() == if has_key(old(self)@, wallet@, pool_id, outcome) {
                old(self)@.len() as int
            } else {
                old(self)@.len() + 1 as int
            },
    {
        let ghost s0 = self@;
        let n = self.entries.len();
        let mut i: usize = 0;
        while i < n
            invariant
                n == self.entries@.len(),
                i <= n,
                self@ == s0,
                self.wf(),
                shares_at(s0, wallet@, pool_id, outcome) + shares <= u64::MAX,
                forall|k: int|
                    0 <= k < i ==> !entry_has_key(#[trigger] s0[k], wallet@, pool_id, outcome),
            decreases n - i,
        {
            let matches_key = self.entries[i].pool_id == pool_id && self.entries[i].outcome
                == outcome && self.entries[i].wallet == wallet;
            if matches_key {
                proof {
                    assert(s0[i as int] == self.entries@[i as int]@);
                    lemma_shares_at_found(s0, i as int, wallet@, pool_id, outcome);
                }
                let grown = self.entries[i].shares + shares;
                let updated = Position { wallet, pool_id, outcome, shares: grown };
                let ghost em = updated@;
                self.entries[i] = updated;
                proof {
                    assert(self@ =~= s0.update(i as int, em));
                    lemma_update_key(s0, i as int, em);
                    lemma_has_key_from_entry(self@, i as int, wallet@, pool_id, outcome);
                }
                return ;
            }
            i += 1;
        }
        let added = Position { wallet, pool_id, outcome, shares };
        let ghost e = added@;
        self.entries.push(added);
        proof {
            assert(self@ =~= s0.push(e));
            lemma_no_key_from_entries(s0, e.0, e.1, e.2);
            lemma_absent_key_zero(s0, e.0, e.1, e.2);
            lemma_push_key(s0, e);
        }
    }

    /// The shares held under a key, `0` when the key has no entry.
    pub fn get_shares(&self, wallet: &String, pool_id: u64, outcome: u8) -> (r: u64)
        requires
            self.wf(),
        ensures
            r == shares_at(self@, wallet@, pool_id, outcome),
    {
        let n = self.entries.len();
        let mut i: usize = 0;
        while i < n
            invariant
                n == self.entries@.len(),
                self.wf(),
                i <= n,
                forall|k: int|
                    0 <= k < i ==> !entry_has_key(#[trigger] self@[k], wallet@, pool_id, outcome),
            decreases n - i,
        {
            let matches_key = self.entries[i].pool_id == pool_id && self.entries[i].outcome
                == outcome && self.entries[i].wallet == *wallet;
            if matches_key {
                proof {
                    assert(self@[i as int] == self.entries@[i as int]@);
                    lemma_shares_at_found(self@, i as int, wallet@, pool_id, outcome);
                }
                return self.entries[i].shares;
            }
            i += 1;
        }
        proof {
            lemma_no_key_from_entries(self@, wallet@, pool_id, outcome);
            lemma_absent_key_zero(self@, wallet@, pool_id, outcome);
        }
        0
    }

    /// The positions that pay on `winning_outcome` in `pool_id`, in store
    /// order.
    pub fn get_winning_positions(&self, pool_id: u64, winning_outcome: u8) -> (winners: Vec<
        Position,
    >)
        ensures
            position_models(winners@) == winning_entries(self@, pool_id, winning_outcome),
    {
        let n = self.entries.len();
        let mut out: Vec<Position> = Vec::new();
        let mut i: usize = 0;
        proof {
            assert(position_models(out@) =~= winning_entries(self@.take(0), pool_id, winning_outcome));
        }
        while i < n
            invariant
                n == self.entries@.len(),
                i <= n,
                position_models(out@) == winning_entries(
                    self@.take(i as int),
                    pool_id,
                    winning_outcome,
                ),
            decreases n - i,
        {
            let e = &self.entries[i];
            let ghost prev = out@;
            if e.pool_id == pool_id && e.outcome == winning_outcome {
                let copied = Position {
                    wallet: e.wallet.clone(),
                    pool_id: e.pool_id,
                    outcome: e.outcome,
                    shares: e.shares,
                };
                out.push(copied);
                proof {
                    assert(position_models(out@) =~= position_models(prev).push(self@[i as int]));
                }
            }
            proof {
                assert(self@.take(i + 1).drop_last() =~= self@.take(i as int));
                assert(self@.take(i + 1).last() == self@[i as int]);
            }
            i += 1;
        }
        proof {
            assert(self@.take(n as int) =~= self@);
        }
        out
    }

    /// Every position of `pool_id`, in store order.
    pub fn get_positions_for_pool(&self, pool_id: u64) -> (r: Vec<Position>)
        ensures
            position_models(r@) == pool_entries(self@, pool_id),
    {
        let n = self.entries.len();
        let mut out: Vec<Position> = Vec::new();
        let mut i: usize = 0;
        proof {
            assert(position_models(out@) =~= pool_entries(self@.take(0), pool_id));
        }
        while i < n
            invariant
                n == self.entries@.len(),
                i <= n,
                position_models(out@) == pool_entries(self@.take(i as int), pool_id),
            decreases n - i,
        {
            let e = &self.entries[i];
            let ghost prev = out@;
            if e.pool_id == pool_id {
                let copied = Position {
                    wallet: e.wallet.clone(),
                    pool_id: e.pool_id,
                    outcome: e.outcome,
                    shares: e.shares,
                };
                out.push(copied);
                proof {
                    assert(position_models(out@) =~= position_models(prev).push(self@[i as int]));
                }
            }
            proof {
                assert(self@.take(i + 1).drop_last() =~= self@.take(i as int));
                assert(self@.take(i + 1).last() == self@[i as int]);
            }
            i += 1;
        }
        proof {
            assert(self@.take(n as int) =~= self@);
        }
        out
    }

    /// The `(outcome, shares)` pairs `wallet` holds in `pool_id`, in
    /// first-trade order.
    pub fn get_user_pool_pairs(&self, wallet: &String, pool_id: u64) -> (r: Vec<(u8, u64)>)
        ensures
            r@ == user_pool_pairs(self@, wallet@, pool_id),
    {
        let n = self.entries.len();
        let mut out: Vec<(u8, u64)> = Vec::new();
        let mut i: usize = 0;
        proof {
            assert(out@ =~= user_pool_pairs(self@.take(0), wallet@, pool_id));
        }
        while i < n
            invariant
                n == self.entries@.len(),
                i <= n,
                out@ == user_pool_pairs(self@.take(i as int), wallet@, pool_id),
            decreases n - i,
        {
            let e = &self.entries[i];
            if e.pool_id == pool_id && e.wallet == *wallet {
                out.push((e.outcome, e.shares));
            }
            proof {
                assert(self@.take(i + 1).drop_last() =~= self@.take(i as int));
                assert(self@.take(i + 1).last() == self@[i as int]);
            }
            i += 1;
        }
        proof {
            assert(self@.take(n as int) =~= self@);
        }
        out
    }

    /// Every position in the store, in store order.
    pub fn get_all_positions(&self) -> (r: Vec<Position>)
        ensures
            position_models(r@) == self@,
    {
        let n = self.entries.len();
        let mut out: Vec<Position> = Vec::new();
        let mut i: usize = 0;
        while i < n
            invariant
                n == self.entries@.len(),
                i <= n,
                position_models(out@) == self@.take(i as int),
            decreases n - i,
        {
            let e = &self.entries[i];
            let ghost prev = out@;
            let copied = Position {
                wallet: e.wallet.clone(),
                pool_id: e.pool_id,
                outcome: e.outcome,
                shares: e.shares,
            };
            out.push(copied);
            proof {
                assert(position_models(out@) =~= position_models(prev).push(self@[i as int]));
                assert(self@.take(i + 1) =~= self@.take(i as int).push(self@[i as int]));
            }
            i += 1;
        }
        proof {
            assert(self@.take(n as int) =~= self@);
        }
        out
    }

    /// Removes every position of `pool_id`; positions of other pools are
    /// untouched, in their old order.
    pub fn clear_pool(&mut self, pool_id: u64)
        requires
            old(self).wf(),
        ensures
            final(self).wf(),
            final(self)@ == purged_entries(old(self)@, pool_id),
    {
        let ghost s0 = self@;
        let n = self.entries.len();
        let mut kept: Vec<Position> = Vec::new();
        let mut i: usize = 0;
        proof {
            assert(position_models(kept@) =~= purged_entries(s0.take(0), pool_id));
        }
        while i < n
            invariant
                n == self.entries@.len(),
                self@ == s0,
                i <= n,
                position_models(kept@) == purged_entries(s0.take(i as int), pool_id),
            decreases n - i,
        {
            let e = &self.entries[i];
            let ghost prev = kept@;
            if e.pool_id != pool_id {
                let copied = Position {
                    wallet: e.wallet.clone(),
                    pool_id: e.pool_id,
                    outcome: e.outcome,
                    shares: e.shares,
                };
                kept.push(copied);
                proof {
                    assert(position_models(kept@) =~= position_models(prev).push(s0[i as int]));
                }
            }
            proof {
                assert(s0.take(i + 1).drop_last() =~= s0.take(i as int));
                assert(s0.take(i + 1).last() == s0[i as int]);
            }
            i += 1;
        }
        self.entries = kept;
        proof {
            assert(s0.take(n as int) =~= s0);
            lemma_purged_keeps_distinct(s0, pool_id);
        }
    }
}

impl Default for PositionStore {
    /// An empty store.
    fn default() -> (store: Self)
        ensures
            store@ == Seq::<PositionModel>::empty(),
            store.wf(),
    {
        PositionStore::new()
    }
}

/// If the entries before `i` miss the key and entry `i` carries it, the
/// key's shares are entry `i`'s: with distinct keys, no later entry can
/// carry it.
proof fn lemma_shares_at_found(
    s: Seq<PositionModel>,
    i: int,
    wallet: Seq<char>,
    pool_id: u64,
    outcome: u8,
)
    requires
        0 <= i < s.len(),
        keys_distinct(s),
        entry_has_key(s[i], wallet, pool_id, outcome),
    ensures
        shares_at(s, wallet, pool_id, outcome) == s[i].3,
        has_key(s, wallet, pool_id, outcome),
    decreases s.len(),
{
    if i == s.len() - 1 {
    } else {
        assert(!entry_has_key(s.last(), wallet, pool_id, outcome));
        assert(s.drop_last()[i] == s[i]);
        lemma_shares_at_found(s.drop_last(), i, wallet, pool_id, outcome);
    }
}

/// A key outside every entry has no shares.
proof fn lemma_absent_key_zero(s: Seq<PositionModel>, wallet: Seq<char>, pool_id: u64, outcome: u8)
    requires
        !has_key(s, wallet, pool_id, outcome),
    ensures
        shares_at(s, wallet, pool_id, outcome) == 0,
    decreases s.len(),
{
    if s.len() > 0 {
        lemma_absent_key_zero(s.drop_last(), wallet, pool_id, outcome);
    }
}

/// A key that no entry carries is not in the store.
proof fn lemma_no_key_from_entries(
    s: Seq<PositionModel>,
    wallet: Seq<char>,
    pool_id: u64,
    outcome: u8,
)
    requires
        forall|k: int|
            0 <= k < s.len() ==> !entry_has_key(#[trigger] s[k], wallet, pool_id, outcome),
    ensures
        !has_key(s, wallet, pool_id, outcome),
    decreases s.len(),
{
    if s.len() > 0 {
        assert(forall|k: int| 0 <= k < s.drop_last().len() ==> s.drop_last()[k] == s[k]);
        lemma_no_key_from_entries(s.drop_last(), wallet, pool_id, outcome);
    }
}

/// An entry carrying a key puts the key in the store.
proof fn lemma_has_key_from_entry(
    s: Seq<PositionModel>,
    i: int,
    wallet: Seq<char>,
    pool_id: u64,
    outcome: u8,
)
    requires
        0 <= i < s.len(),
        entry_has_key(s[i], wallet, pool_id, outcome),
    ensures
        has_key(s, wallet, pool_id, outcome),
    decreases s.len(),
{
    if i < s.len() - 1 {
        assert(s.drop_last()[i] == s[i]);
        lemma_has_key_from_entry(s.drop_last(), i, wallet, pool_id, outcome);
    }
}

/// Appending an entry with a fresh key: the new key's shares are the
/// entry's, every other key keeps its shares, and keys stay distinct.
proof fn lemma_push_key(s: Seq<PositionModel>, e: PositionModel)
    requires
        keys_distinct(s),
        !has_key(s, e.0, e.1, e.2),
    ensures
        keys_distinct(s.push(e)),
        forall|w: Seq<char>, p: u64, o: u8|
            #[trigger] shares_at(s.push(e), w, p, o) == if w == e.0 && p == e.1 && o == e.2 {
                e.3
            } else {
                shares_at(s, w, p, o)
            },
        has_key(s.push(e), e.0, e.1, e.2),
    decreases s.len(),
{
    assert(s.push(e).last() == e);
    assert(s.push(e).drop_last() =~= s);
    assert(keys_distinct(s.push(e))) by {
        assert forall|i: int, k: int| 0 <= i < k < s.push(e).len() implies !((#[trigger] s.push(
            e,
        )[i]).0 == (#[trigger] s.push(e)[k]).0 && s.push(e)[i].1 == s.push(e)[k].1 && s.push(
            e,
        )[i].2 == s.push(e)[k].2) by {
            if k == s.len() {
                assert(s.push(e)[i] == s[i]);
                if entry_has_key(s[i], e.0, e.1, e.2) {
                    lemma_has_key_from_entry(s, i, e.0, e.1, e.2);
                }
            }
        }
    }
    assert forall|w: Seq<char>, p: u64, o: u8| #[trigger] shares_at(s.push(e), w, p, o) == if w
        == e.0 && p == e.1 && o == e.2 {
        e.3
    } else {
        shares_at(s, w, p, o)
    } by {
        if w == e.0 && p == e.1 && o == e.2 {
        } else {
            assert(!entry_has_key(e, w, p, o));
        }
    }
}

/// Growing the shares of entry `i` in place: that entry's key moves to
/// the new amount, every other key keeps its shares, and keys stay
/// distinct.
proof fn lemma_update_key(s: Seq<PositionModel>, i: int, e: PositionModel)
    requires
        keys_distinct(s),
        0 <= i < s.len(),
        e.0 == s[i].0,
        e.1 == s[i].1,
        e.2 == s[i].2,
    ensures
        keys_distinct(s.update(i, e)),
        forall|w: Seq<char>, p: u64, o: u8|
            #[trigger] shares_at(s.update(i, e), w, p, o) == if w == s[i].0 && p == s[i].1 && o
                == s[i].2 {
                e.3
            } else {
                shares_at(s, w, p, o)
            },
    decreases s.len(),
{
    let grown = e.3;
    let t = s.update(i, e);
    assert(keys_distinct(t)) by {
        assert forall|a: int, b: int| 0 <= a < b < t.len() implies !((#[trigger] t[a]).0
            == (#[trigger] t[b]).0 && t[a].1 == t[b].1 && t[a].2 == t[b].2) by {
            assert(t[a].0 == s[a].0 && t[a].1 == s[a].1 && t[a].2 == s[a].2);
            assert(t[b].0 == s[b].0 && t[b].1 == s[b].1 && t[b].2 == s[b].2);
        }
    }
    if i == s.len() - 1 {
        assert(t.last() == e);
        assert(t.drop_last() =~= s.drop_last());
        assert forall|w: Seq<char>, p: u64, o: u8| #[trigger] shares_at(t, w, p, o) == if w
            == s[i].0 && p == s[i].1 && o == s[i].2 {
            grown
        } else {
            shares_at(s, w, p, o)
        } by {
            if w == s[i].0 && p == s[i].1 && o == s[i].2 {
            } else {
                assert(!entry_has_key(e, w, p, o));
                assert(!entry_has_key(s.last(), w, p, o));
            }
        }
    } else {
        assert(t.last() == s.last());
        assert(t.drop_last() =~= s.drop_last().update(i, e));
        assert(s.drop_last()[i] == s[i]);
        lemma_update_key(s.drop_last(), i, e);
        assert forall|w: Seq<char>, p: u64, o: u8| #[trigger] shares_at(t, w, p, o) == if w
            == s[i].0 && p == s[i].1 && o == s[i].2 {
            grown
        } else {
            shares_at(s, w, p, o)
        } by {
            if entry_has_key(t.last(), w, p, o) {
                if w == s[i].0 && p == s[i].1 && o == s[i].2 {
                    assert(entry_has_key(s.last(), s[i].0, s[i].1, s[i].2));
                    assert(false);
                }
                assert(shares_at(t, w, p, o) == t.last().3);
                assert(shares_at(s, w, p, o) == s.last().3);
            } else {
                assert(shares_at(t, w, p, o) == shares_at(t.drop_last(), w, p, o));
                assert(shares_at(s, w, p, o) == shares_at(s.drop_last(), w, p, o));
                assert(shares_at(t.drop_last(), w, p, o) == shares_at(
                    s.drop_last().update(i, e),
                    w,
                    p,
                    o,
                ));
            }
        }
    }
}

/// Every surviving entry of a purge comes from the store it was filtered out of.
proof fn lemma_purged_origin(s: Seq<PositionModel>, pool_id: u64, i: int)
    requires
        0 <= i < purged_entries(s, pool_id).len(),
    ensures
        exists|j: int| 0 <= j < s.len() && s[j] == purged_entries(s, pool_id)[i],
    decreases s.len(),
{
    if s.len() > 0 {
        let p = purged_entries(s, pool_id);
        let pd = purged_entries(s.drop_last(), pool_id);
        if s.last().1 != pool_id && i == p.len() - 1 {
            assert(s[s.len() - 1] == p[i]);
        } else {
            assert(p[i] == pd[i]);
            lemma_purged_origin(s.drop_last(), pool_id, i);
            let j = choose|j: int|
                0 <= j < s.drop_last().len() && s.drop_last()[j] == pd[i];
            assert(s[j] == pd[i]);
        }
    }
}

/// Purging a pool preserves key distinctness.
proof fn lemma_purged_keeps_distinct(s: Seq<PositionModel>, pool_id: u64)
    requires
        keys_distinct(s),
    ensures
        keys_distinct(purged_entries(s, pool_id)),
    decreases s.len(),
{
    if s.len() > 0 {
        lemma_purged_keeps_distinct(s.drop_last(), pool_id);
        let p = purged_entries(s, pool_id);
        let pd = purged_entries(s.drop_last(), pool_id);
        if s.last().1 != pool_id {
            assert(p == pd.push(s.last()));
            assert forall|i: int, k: int| 0 <= i < k < p.len() implies !((#[trigger] p[i]).0
                == (#[trigger] p[k]).0 && p[i].1 == p[k].1 && p[i].2 == p[k].2) by {
                if k == p.len() - 1 {
                    assert(p[i] == pd[i]);
                    lemma_purged_origin(s.drop_last(), pool_id, i);
                    let j = choose|j: int|
                        0 <= j < s.drop_last().len() && s.drop_last()[j] == pd[i];
                    assert(s[j] == pd[i]);
                    assert(p[k] == s[s.len() - 1]);
                } else {
                    assert(p[i] == pd[i] && p[k] == pd[k]);
                }
            }
        }
    }
}

} // verus!
