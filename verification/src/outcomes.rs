//! Mapping bet specifications to outcome-index sets.
//!
//! A market over `n` binary events has `2^n` outcomes ("worlds"), indexed
//! by the integers in `[0, 2^n)`. Bit `n - 1 - event` of a world's index
//! (most-significant-bit-first) encodes the truth value that the world
//! assigns to `event`. A bet covers a set of worlds: a marginal bet covers
//! every world consistent with one event's truth value, a slice bet every
//! world consistent with a conjunction of such conditions, and a corner
//! bet exactly one world.

use vstd::prelude::*;
use vstd::arithmetic::div_mod::*;
use vstd::arithmetic::power2::*;
use vstd::bits::*;
use vstd::set_lib::*;

use crate::errors::MarketError;

verus! {

/// Number of binary events in the default market configuration.
pub const NUM_EVENTS: usize = 3;

/// Number of worlds in the default market configuration.
pub const NUM_WORLDS: usize = 1 << NUM_EVENTS;

/// The truth value that world `world` assigns to event `event`, in a
/// market of `num_events` events: bit `num_events - 1 - event` of the
/// world index.
pub open spec fn world_assigns(world: nat, event: nat, num_events: nat) -> bool
    recommends
        event < num_events,
{
    (world / pow2((num_events - 1 - event) as nat)) % 2 == 1
}

/// Every condition names an event of the market.
pub open spec fn conditions_in_range(conditions: Seq<(usize, bool)>, num_events: nat) -> bool {
    forall|i: int|
        0 <= i < conditions.len() ==> ((#[trigger] conditions[i].0) as nat) < num_events
}

/// Whether `world` is consistent with every `(event, truth)` condition.
pub open spec fn world_satisfies_all(
    world: nat,
    conditions: Seq<(usize, bool)>,
    num_events: nat,
) -> bool {
    forall|i: int|
        0 <= i < conditions.len() ==> world_assigns(
            world,
            #[trigger] conditions[i].0 as nat,
            num_events,
        ) == conditions[i].1
}

/// The full outcome space: every world index in `[0, 2^num_events)`.
pub open spec fn all_worlds(num_events: nat) -> Set<int> {
    Set::new(|w: int| 0 <= w < pow2(num_events))
}

/// The worlds covered by a marginal bet on `event` with truth `value`.
pub open spec fn marginal_world_set(event: nat, value: bool, num_events: nat) -> Set<int> {
    Set::new(
        |w: int|
            0 <= w < pow2(num_events) && world_assigns(w as nat, event, num_events) == value,
    )
}

/// The worlds covered by a slice bet with the given conditions.
pub open spec fn slice_world_set(conditions: Seq<(usize, bool)>, num_events: nat) -> Set<int> {
    Set::new(
        |w: int|
            0 <= w < pow2(num_events) && world_satisfies_all(w as nat, conditions, num_events),
    )
}

/// A sequence of world indices listed in strictly increasing order.
pub open spec fn strictly_increasing(s: Seq<usize>) -> bool {
    forall|i: int, j: int| 0 <= i < j < s.len() ==> s[i] < s[j]
}

/// `worlds` lists, in strictly increasing order, exactly the members of
/// the world set `ws`.
pub open spec fn lists_world_set(worlds: Seq<usize>, ws: Set<int>) -> bool {
    &&& strictly_increasing(worlds)
    &&& forall|i: int| 0 <= i < worlds.len() ==> ws.contains(#[trigger] worlds[i] as int)
    &&& forall|w: usize| ws.contains(w as int) ==> #[trigger] worlds.contains(w)
}

/// The truth value that `world` assigns to `event`, computed by shifting.
pub fn world_event_value(world: usize, event_idx: usize, num_events: usize) -> (r: bool)
    requires
        event_idx < num_events,
        num_events < usize::BITS,
    ensures
        r == world_assigns(world as nat, event_idx as nat, num_events as nat),
{
    let shift: usize = num_events - 1 - event_idx;
    let bit: usize = (world >> shift) & 1;
    proof {
        lemma_usize_shr_is_div(world, shift);
        assert((world >> shift) & 1 == (world >> shift) % 2) by (bit_vector);
    }
    bit == 1
}

/// All worlds whose `event_idx` truth value equals `value`, in increasing
/// order. A marginal bet on one event covers exactly these worlds.
pub fn marginal_worlds(event_idx: usize, value: bool, num_events: usize) -> (worlds: Vec<usize>)
    requires
        event_idx < num_events,
        num_events < usize::BITS,
    ensures
        lists_world_set(
            worlds@,
            marginal_world_set(event_idx as nat, value, num_events as nat),
        ),
        worlds@.len() == pow2((num_events - 1) as nat),
{
    let ghost ws = marginal_world_set(event_idx as nat, value, num_events as nat);
    let num_worlds: usize = 1usize << num_events;
    proof {
        lemma_usize_pow2_no_overflow(num_events as nat);
        lemma_usize_shl_is_mul(1usize, num_events);
    }
    let mut worlds: Vec<usize> = Vec::new();
    let mut world: usize = 0;
    while world < num_worlds
        invariant
            event_idx < num_events,
            num_events < usize::BITS,
            num_worlds == pow2(num_events as nat),
            world <= num_worlds,
            ws == marginal_world_set(event_idx as nat, value, num_events as nat),
            strictly_increasing(worlds@),
            forall|i: int| 0 <= i < worlds@.len() ==> #[trigger] worlds@[i] < world,
            forall|i: int| 0 <= i < worlds@.len() ==> ws.contains(#[trigger] worlds@[i] as int),
            forall|w: usize| w < world && ws.contains(w as int) ==> #[trigger] worlds@.contains(w),
        decreases num_worlds - world,
    {
        let ghost prev = worlds@;
        if world_event_value(world, event_idx, num_events) == value {
            worlds.push(world);
        }
        proof {
            assert forall|w: usize| w < world + 1 && ws.contains(w as int) implies #[trigger] worlds@.contains(w) by {
                if w < world {
                    assert(prev.contains(w));
                    let k = choose|k: int| 0 <= k < prev.len() && prev[k] == w;
                    assert(worlds@[k] == w);
                } else {
                    assert(worlds@.last() == w);
                }
            }
        }
        world += 1;
    }
    proof {
        lemma_marginal_partition(event_idx as nat, value, num_events as nat);
        lemma_listed_set_len(worlds@, ws);
    }
    worlds
}

/// Whether `world` satisfies every condition of `conditions`.
pub fn satisfies_conditions(
    world: usize,
    conditions: &[(usize, bool)],
    num_events: usize,
) -> (r: bool)
    requires
        forall|i: int| 0 <= i < conditions@.len() ==> (#[trigger] conditions@[i].0) < num_events,
        num_events < usize::BITS,
    ensures
        r == world_satisfies_all(world as nat, conditions@, num_events as nat),
{
    let n = conditions.len();
    let mut i: usize = 0;
    while i < n
        invariant
            n == conditions@.len(),
            i <= n,
            num_events < usize::BITS,
            forall|k: int| 0 <= k < conditions@.len() ==> (#[trigger] conditions@[k].0) < num_events,
            forall|k: int|
                0 <= k < i ==> world_assigns(
                    world as nat,
                    #[trigger] conditions@[k].0 as nat,
                    num_events as nat,
                ) == conditions@[k].1,
        decreases n - i,
    {
        let (event_idx, value) = conditions[i];
        if world_event_value(world, event_idx, num_events) != value {
            return false;
        }
        i += 1;
    }
    true
}

/// All worlds consistent with the conjunction of the conditions, in
/// increasing order. Empty conditions cover the full outcome space;
/// conditions that assign both truth values to one event cover nothing.
pub fn slice_worlds(conditions: &[(usize, bool)], num_events: usize) -> (worlds: Vec<usize>)
    requires
        forall|i: int| 0 <= i < conditions@.len() ==> (#[trigger] conditions@[i].0) < num_events,
        num_events < usize::BITS,
    ensures
        lists_world_set(worlds@, slice_world_set(conditions@, num_events as nat)),
{
    let ghost ws = slice_world_set(conditions@, num_events as nat);
    let num_worlds: usize = 1usize << num_events;
    proof {
        lemma_usize_pow2_no_overflow(num_events as nat);
        lemma_usize_shl_is_mul(1usize, num_events);
    }
    let mut worlds: Vec<usize> = Vec::new();
    let mut world: usize = 0;
    while world < num_worlds
        invariant
            num_events < usize::BITS,
            num_worlds == pow2(num_events as nat),
            world <= num_worlds,
            forall|k: int| 0 <= k < conditions@.len() ==> (#[trigger] conditions@[k].0) < num_events,
            ws == slice_world_set(conditions@, num_events as nat),
            strictly_increasing(worlds@),
            forall|i: int| 0 <= i < worlds@.len() ==> #[trigger] worlds@[i] < world,
            forall|i: int| 0 <= i < worlds@.len() ==> ws.contains(#[trigger] worlds@[i] as int),
            forall|w: usize| w < world && ws.contains(w as int) ==> #[trigger] worlds@.contains(w),
        decreases num_worlds - world,
    {
        let ghost prev = worlds@;
        if satisfies_conditions(world, conditions, num_events) {
            worlds.push(world);
        }
        proof {
            assert forall|w: usize| w < world + 1 && ws.contains(w as int) implies #[trigger] worlds@.contains(w) by {
                if w < world {
                    assert(prev.contains(w));
                    let k = choose|k: int| 0 <= k < prev.len() && prev[k] == w;
                    assert(worlds@[k] == w);
                } else {
                    assert(worlds@.last() == w);
                }
            }
        }
        world += 1;
    }
    worlds
}

/// A bet specification: the three closed shapes of bet that the market
/// accepts, resolved to world-index sets by [`bet_worlds`].
#[derive(Debug, Clone)]
pub enum BetType {
    /// A bet that one event comes out with the given truth value.
    Marginal { event: usize, yes: bool },
    /// A bet on the conjunction of several `(event, truth)` conditions.
    Slice { conditions: Vec<(usize, bool)> },
    /// A bet on one exact world.
    Corner { world: usize },
}

impl BetType {
    /// The specification is well-formed for a market of `num_events`
    /// events: all event indices in range, a corner world in `[0, 2^n)`.
    pub open spec fn wf(self, num_events: nat) -> bool {
        match self {
            BetType::Marginal { event, yes } => (event as nat) < num_events,
            BetType::Slice { conditions } => conditions_in_range(conditions@, num_events),
            BetType::Corner { world } => (world as nat) < pow2(num_events),
        }
    }

    /// The set of worlds this bet covers.
    pub open spec fn covered_worlds(self, num_events: nat) -> Set<int> {
        match self {
            BetType::Marginal { event, yes } => marginal_world_set(
                event as nat,
                yes,
                num_events,
            ),
            BetType::Slice { conditions } => slice_world_set(conditions@, num_events),
            BetType::Corner { world } => Set::<int>::empty().insert(world as int),
        }
    }

    /// The worlds covered by this bet in the default market
    /// configuration of [`NUM_EVENTS`] events, in increasing order.
    pub fn get_worlds(&self) -> (worlds: Vec<usize>)
        requires
            self.wf(NUM_EVENTS as nat),
        ensures
            lists_world_set(worlds@, self.covered_worlds(NUM_EVENTS as nat)),
    {
        let r = bet_worlds(self, NUM_EVENTS);
        match r {
            Ok(worlds) => worlds,
            Err(_) => {
                proof {
                    assert(false);
                }
                Vec::new()
            },
        }
    }
}

/// Resolves a bet specification to the worlds it covers in a market of
/// `num_events` events, in increasing order. Returns `InvalidBet` if and
/// only if the specification is malformed: an event index at or beyond
/// `num_events`, or a corner world at or beyond `2^num_events`. Slice
/// conditions that contradict each other are not malformed; they resolve
/// to an empty world list.
#[verifier::loop_isolation(false)]
pub fn bet_worlds(bet: &BetType, num_events: usize) -> (r: Result<Vec<usize>, MarketError>)
    requires
        num_events < usize::BITS,
    ensures
        r is Ok <==> bet.wf(num_events as nat),
        r matches Ok(worlds) ==> lists_world_set(
            worlds@,
            bet.covered_worlds(num_events as nat),
        ),
        r matches Err(e) ==> e == MarketError::InvalidBet,
{
    match bet {
        BetType::Marginal { event, yes } => {
            if *event < num_events {
                Ok(marginal_worlds(*event, *yes, num_events))
            } else {
                Err(MarketError::InvalidBet)
            }
        },
        BetType::Slice { conditions } => {
            let n = conditions.len();
            let mut i: usize = 0;
            while i < n
                invariant
                    n == conditions@.len(),
                    i <= n,
                    forall|k: int| 0 <= k < i ==> (#[trigger] conditions@[k].0) < num_events,
                decreases n - i,
            {
                if conditions[i].0 >= num_events {
                    proof {
                        assert(!conditions_in_range(conditions@, num_events as nat));
                    }
                    return Err(MarketError::InvalidBet);
                }
                i += 1;
            }
            Ok(slice_worlds(conditions.as_slice(), num_events))
        },
        BetType::Corner { world } => {
            let num_worlds: usize = 1usize << num_events;
            proof {
                lemma_usize_pow2_no_overflow(num_events as nat);
                lemma_usize_shl_is_mul(1usize, num_events);
            }
            if *world < num_worlds {
                let mut worlds: Vec<usize> = Vec::new();
                worlds.push(*world);
                proof {
                    let ws = bet.covered_worlds(num_events as nat);
                    assert forall|w: usize| ws.contains(w as int) implies #[trigger] worlds@.contains(w) by {
                        assert(worlds@[0] == w);
                    }
                }
                Ok(worlds)
            } else {
                Err(MarketError::InvalidBet)
            }
        },
    }
}

/// Builds a bet specification from the tagged wire fields of a bet
/// request: the tag picks the variant, which takes its fields from the
/// matching optional arguments. Returns `InvalidBet` if and only if the
/// tag is unknown or the variant's fields are missing.
pub fn parse_bet(
    bet_type: &String,
    event: Option<usize>,
    yes: Option<bool>,
    conditions: Option<Vec<(usize, bool)>>,
    world: Option<usize>,
) -> (r: Result<BetType, MarketError>)
    ensures
        r is Ok <==> ((bet_type@ == "marginal"@ && event is Some && yes is Some) || (bet_type@
            == "slice"@ && conditions is Some) || (bet_type@ == "corner"@ && world is Some)),
        r matches Ok(bet) ==> ({
            &&& bet_type@ == "marginal"@ ==> (event matches Some(e) && yes matches Some(y) && bet
                == (BetType::Marginal { event: e, yes: y }))
            &&& bet_type@ == "slice"@ ==> (conditions matches Some(c) && bet == (BetType::Slice {
                conditions: c,
            }))
            &&& bet_type@ == "corner"@ ==> (world matches Some(w) && bet == (BetType::Corner {
                world: w,
            }))
        }),
        r matches Err(e) ==> e == MarketError::InvalidBet,
{
    proof {
        reveal_strlit("marginal");
        reveal_strlit("slice");
        reveal_strlit("corner");
        assert("marginal"@.len() == 8 && "slice"@.len() == 5 && "corner"@.len() == 6);
        assert("marginal"@ != "slice"@ && "marginal"@ != "corner"@);
        assert("slice"@ != "corner"@) by {
            assert("slice"@.len() != "corner"@.len());
        }
    }
    if *bet_type == "marginal".to_owned() {
        match (event, yes) {
            (Some(e), Some(y)) => Ok(BetType::Marginal { event: e, yes: y }),
            _ => Err(MarketError::InvalidBet),
        }
    } else if *bet_type == "slice".to_owned() {
        match conditions {
            Some(c) => Ok(BetType::Slice { conditions: c }),
            None => Err(MarketError::InvalidBet),
        }
    } else if *bet_type == "corner".to_owned() {
        match world {
            Some(w) => Ok(BetType::Corner { world: w }),
            None => Err(MarketError::InvalidBet),
        }
    } else {
        Err(MarketError::InvalidBet)
    }
}

/// A strictly increasing list of exactly the members of a finite world
/// set has the set's cardinality as its length.
pub proof fn lemma_listed_set_len(worlds: Seq<usize>, ws: Set<int>)
    requires
        lists_world_set(worlds, ws),
        ws.finite(),
        forall|w: int| ws.contains(w) ==> 0 <= w <= usize::MAX,
    ensures
        worlds.len() == ws.len(),
{
    assert(worlds.no_duplicates()) by {
        assert forall|i: int, j: int|
            0 <= i < worlds.len() && 0 <= j < worlds.len() && i != j implies worlds[i]
            != worlds[j] by {
            if i < j {
                assert(worlds[i] < worlds[j]);
            } else {
                assert(worlds[j] < worlds[i]);
            }
        }
    }
    worlds.unique_seq_to_set();
    let f = |w: usize| w as int;
    assert(worlds.to_set().map(f) =~= ws) by {
        assert forall|wi: int| ws.contains(wi) implies worlds.to_set().map(f).contains(wi) by {
            let w = wi as usize;
            assert(worlds.contains(w));
            assert(worlds.to_set().contains(w));
            assert(f(w) == wi);
        }
        assert forall|wi: int| worlds.to_set().map(f).contains(wi) implies ws.contains(wi) by {
            let w = choose|w: usize| worlds.to_set().contains(w) && f(w) == wi;
            assert(worlds.contains(w));
            let k = choose|k: int| 0 <= k < worlds.len() && worlds[k] == w;
            assert(ws.contains(worlds[k] as int));
        }
    }
    assert(vstd::relations::injective_on(f, worlds.to_set()));
    lemma_map_size(worlds.to_set(), ws, f);
}

/// The two marginal world sets of one event partition the full outcome
/// space: they are disjoint, their union is every world, and each holds
/// exactly half of the `2^num_events` worlds.
pub proof fn lemma_marginal_partition(event: nat, value: bool, num_events: nat)
    requires
        event < num_events,
    ensures
        marginal_world_set(event, true, num_events).finite(),
        marginal_world_set(event, false, num_events).finite(),
        marginal_world_set(event, true, num_events).disjoint(
            marginal_world_set(event, false, num_events),
        ),
        marginal_world_set(event, true, num_events).union(
            marginal_world_set(event, false, num_events),
        ) =~= all_worlds(num_events),
        marginal_world_set(event, value, num_events).len() == pow2((num_events - 1) as nat),
        all_worlds(num_events).finite(),
        all_worlds(num_events).len() == pow2(num_events),
{
    let j = (num_events - 1 - event) as nat;
    let p = pow2(j) as int;
    let pn = pow2(num_events) as int;
    let s_true = marginal_world_set(event, true, num_events);
    let s_false = marginal_world_set(event, false, num_events);
    lemma_pow2_pos(j);
    lemma_pow2_pos(num_events);

    assert(all_worlds(num_events) =~= set_int_range(0, pn));
    lemma_int_range(0, pn);
    assert(s_true =~= set_int_range(0, pn).intersect(s_true));
    assert(s_false =~= set_int_range(0, pn).intersect(s_false));
    lemma_len_intersect(set_int_range(0, pn), s_true);
    lemma_len_intersect(set_int_range(0, pn), s_false);

    assert(s_true.union(s_false) =~= all_worlds(num_events));
    lemma_set_disjoint_lens(s_true, s_false);
    assert(s_true.len() + s_false.len() == pn);

    // Adding 2^j flips the event's bit from false to true, a bijection
    // between the two halves.
    let f = |w: int| w + p;
    assert(s_false.map(f) =~= s_true) by {
        assert forall|v: int| s_false.map(f).contains(v) implies s_true.contains(v) by {
            let w = choose|w: int| s_false.contains(w) && f(w) == v;
            lemma_world_bit_flip_up(w as nat, j, num_events);
        }
        assert forall|v: int| s_true.contains(v) implies s_false.map(f).contains(v) by {
            lemma_world_bit_flip_down(v as nat, j, num_events);
            assert(s_false.contains(v - p));
            assert(f(v - p) == v);
        }
    }
    assert(vstd::relations::injective_on(f, s_false));
    lemma_map_size(s_false, s_true, f);

    assert(pow2(num_events) == 2 * pow2((num_events - 1) as nat)) by {
        lemma_pow2_adds(1, (num_events - 1) as nat);
        lemma2_to64();
    }
}

/// Some condition of the slice names `event`.
pub open spec fn some_condition_for(conditions: Seq<(usize, bool)>, event: nat) -> bool {
    exists|i: int| 0 <= i < conditions.len() && ((#[trigger] conditions[i].0) as nat) == event
}

/// The slice constrains every event of the market.
pub open spec fn covers_all_events(conditions: Seq<(usize, bool)>, num_events: nat) -> bool {
    forall|e: nat| e < num_events ==> #[trigger] some_condition_for(conditions, e)
}

/// No two conditions assign different truth values to one event.
pub open spec fn consistent_conditions(conditions: Seq<(usize, bool)>) -> bool {
    forall|i: int, k: int|
        0 <= i < conditions.len() && 0 <= k < conditions.len() && (#[trigger] conditions[i]).0
            == (#[trigger] conditions[k]).0 ==> conditions[i].1 == conditions[k].1
}

/// The truth value that the slice assigns to `event` (by any of its
/// conditions naming that event; for a consistent slice they all agree).
pub open spec fn condition_truth(conditions: Seq<(usize, bool)>, event: nat) -> bool {
    let i = choose|i: int|
        0 <= i < conditions.len() && ((#[trigger] conditions[i].0) as nat) == event;
    conditions[i].1
}

/// The world whose bit `j` is `bits(j)` for every `j < width`.
pub open spec fn world_from_bits(bits: spec_fn(nat) -> bool, width: nat) -> nat
    decreases width,
{
    if width == 0 {
        0
    } else {
        world_from_bits(bits, (width - 1) as nat) + if bits((width - 1) as nat) {
            pow2((width - 1) as nat)
        } else {
            0
        }
    }
}

/// The single world implied by a slice that constrains every event: the
/// one assigning each event the truth value of its condition.
pub open spec fn implied_corner(conditions: Seq<(usize, bool)>, num_events: nat) -> nat {
    world_from_bits(
        |j: nat| condition_truth(conditions, (num_events - 1 - j) as nat),
        num_events,
    )
}

/// A slice with no conditions covers the full outcome space, all
/// `2^num_events` worlds.
pub proof fn lemma_slice_no_conditions(num_events: nat)
    ensures
        slice_world_set(Seq::<(usize, bool)>::empty(), num_events) =~= all_worlds(num_events),
        all_worlds(num_events).finite(),
        all_worlds(num_events).len() == pow2(num_events),
{
    lemma_int_range(0, pow2(num_events) as int);
    assert(all_worlds(num_events) =~= set_int_range(0, pow2(num_events) as int));
}

/// `world_from_bits` stays inside the outcome space and assigns exactly
/// the requested bits.
proof fn lemma_world_from_bits(bits: spec_fn(nat) -> bool, width: nat)
    ensures
        world_from_bits(bits, width) < pow2(width),
        forall|j: nat|
            j < width ==> ((world_from_bits(bits, width) / pow2(j)) % 2 == 1) == #[trigger] bits(
                j,
            ),
    decreases width,
{
    lemma_pow2_pos(width);
    if width > 0 {
        let m1 = (width - 1) as nat;
        let w0 = world_from_bits(bits, m1);
        let w = world_from_bits(bits, width);
        lemma_world_from_bits(bits, m1);
        assert(pow2(width) == 2 * pow2(m1)) by {
            lemma_pow2_adds(1, m1);
            lemma2_to64();
        }
        assert(w < pow2(width));
        assert forall|j: nat| j < width implies ((w / pow2(j)) % 2 == 1) == #[trigger] bits(j) by {
            lemma_pow2_pos(j);
            if j == m1 {
                lemma_basic_div(w0 as int, pow2(m1) as int);
                if bits(m1) {
                    lemma_hoist_over_denominator(w0 as int, 1int, pow2(m1));
                    assert(w as int == w0 as int + 1 * pow2(m1));
                    assert(w / pow2(m1) == 1);
                } else {
                    assert(w == w0);
                    assert(w / pow2(m1) == 0);
                }
            } else {
                // j < width - 1: the top bit leaves the low quotient's
                // parity alone because its weight is an even multiple
                // of 2^j.
                if bits(m1) {
                    let c = pow2((m1 - j) as nat) as int;
                    assert(pow2(m1) == pow2((m1 - j) as nat) * pow2(j)) by {
                        lemma_pow2_adds((m1 - j) as nat, j);
                    }
                    lemma_hoist_over_denominator(w0 as int, c, pow2(j));
                    assert(w as int == w0 as int + c * pow2(j)) by (nonlinear_arith)
                        requires
                            w as int == w0 as int + pow2(m1),
                            pow2(m1) == pow2((m1 - j) as nat) * pow2(j),
                            c == pow2((m1 - j) as nat) as int,
                    ;
                    assert(w / pow2(j) == w0 as int / pow2(j) as int + c);
                    assert(c % 2 == 0) by {
                        lemma_pow2_adds(1, (m1 - j - 1) as nat);
                        lemma2_to64();
                        lemma_mod_multiples_basic(pow2((m1 - j - 1) as nat) as int, 2);
                    }
                    let t = w0 as int / pow2(j) as int;
                    assert((t + c) % 2 == t % 2) by {
                        lemma_mod_multiples_vanish(c / 2, t, 2);
                        assert(c == 2 * (c / 2)) by {
                            lemma_fundamental_div_mod(c, 2);
                        }
                    }
                } else {
                    assert(w == w0);
                }
            }
        }
    }
}

/// Two worlds of the outcome space that assign the same truth value at
/// every bit position are the same world.
proof fn lemma_bits_determine_world(w1: nat, w2: nat, width: nat)
    requires
        w1 < pow2(width),
        w2 < pow2(width),
        forall|j: nat| j < width ==> ((w1 / pow2(j)) % 2 == 1) == (((w2 / pow2(j)) % 2) == 1),
    ensures
        w1 == w2,
    decreases width,
{
    if width == 0 {
        assert(pow2(0) == 1) by {
            lemma2_to64();
        }
    } else {
        let m1 = (width - 1) as nat;
        assert(pow2(width) == pow2(m1) * 2) by {
            lemma_pow2_adds(m1, 1);
            lemma2_to64();
        }
        let v1 = w1 / 2;
        let v2 = w2 / 2;
        assert(v1 < pow2(m1) && v2 < pow2(m1)) by {
            lemma_multiply_divide_lt(w1 as int, 2, pow2(m1) as int);
            lemma_multiply_divide_lt(w2 as int, 2, pow2(m1) as int);
            assert(w1 < 2 * pow2(m1) && w2 < 2 * pow2(m1));
        }
        assert(w1 % 2 == w2 % 2) by {
            assert(pow2(0) == 1) by {
                lemma2_to64();
            }
            lemma_div_basics(w1 as int);
            lemma_div_basics(w2 as int);
            assert(((w1 / pow2(0)) % 2 == 1) == (((w2 / pow2(0)) % 2) == 1));
            lemma_mod_bound(w1 as int, 2);
            lemma_mod_bound(w2 as int, 2);
        }
        assert forall|j: nat| j < m1 implies ((v1 / pow2(j)) % 2 == 1) == (((v2 / pow2(j)) % 2)
            == 1) by {
            lemma_pow2_pos(j);
            assert(pow2((j + 1) as nat) == 2 * pow2(j)) by {
                lemma_pow2_adds(1, j);
                lemma2_to64();
            }
            lemma_div_denominator(w1 as int, 2, pow2(j) as int);
            lemma_div_denominator(w2 as int, 2, pow2(j) as int);
            assert(v1 / pow2(j) == w1 as int / pow2((j + 1) as nat) as int);
            assert(v2 / pow2(j) == w2 as int / pow2((j + 1) as nat) as int);
            assert(((w1 / pow2((j + 1) as nat)) % 2 == 1) == (((w2 / pow2((j + 1) as nat)) % 2)
                == 1));
        }
        lemma_bits_determine_world(v1, v2, m1);
        lemma_fundamental_div_mod(w1 as int, 2);
        lemma_fundamental_div_mod(w2 as int, 2);
    }
}

/// A consistent slice that constrains every event covers exactly one
/// world: the corner it implies.
pub proof fn lemma_slice_all_events_corner(conditions: Seq<(usize, bool)>, num_events: nat)
    requires
        conditions_in_range(conditions, num_events),
        covers_all_events(conditions, num_events),
        consistent_conditions(conditions),
    ensures
        slice_world_set(conditions, num_events) =~= Set::<int>::empty().insert(
            implied_corner(conditions, num_events) as int,
        ),
        slice_world_set(conditions, num_events).len() == 1,
{
    let n = num_events;
    let bits = |j: nat| condition_truth(conditions, (n - 1 - j) as nat);
    let corner = implied_corner(conditions, n);
    lemma_world_from_bits(bits, n);
    assert(corner < pow2(n));

    // Every condition agrees with the chosen truth value of its event.
    assert forall|i: int| 0 <= i < conditions.len() implies condition_truth(
        conditions,
        (#[trigger] conditions[i].0) as nat,
    ) == conditions[i].1 by {
        let e = (conditions[i].0) as nat;
        assert(0 <= i < conditions.len() && ((conditions[i].0) as nat) == e);
        let k = choose|k: int| 0 <= k < conditions.len() && ((#[trigger] conditions[k].0) as nat)
            == e;
        assert(conditions[k].0 == conditions[i].0);
    }

    // The implied corner satisfies every condition.
    assert(world_satisfies_all(corner, conditions, n)) by {
        assert forall|i: int| 0 <= i < conditions.len() implies world_assigns(
            corner,
            (#[trigger] conditions[i].0) as nat,
            n,
        ) == conditions[i].1 by {
            let e = (conditions[i].0) as nat;
            let j = (n - 1 - e) as nat;
            assert(bits(j) == condition_truth(conditions, e));
            assert(((corner / pow2(j)) % 2 == 1) == bits(j));
        }
    }

    // And any world satisfying every condition has the corner's bits.
    assert forall|w: int| slice_world_set(conditions, n).contains(w) implies w
        == corner as int by {
        let wn = w as nat;
        assert forall|j: nat| j < n implies ((wn / pow2(j)) % 2 == 1) == (((corner / pow2(j)) % 2)
            == 1) by {
            let e = (n - 1 - j) as nat;
            assert(some_condition_for(conditions, e));
            let i = choose|i: int|
                0 <= i < conditions.len() && ((#[trigger] conditions[i].0) as nat) == e;
            assert(world_assigns(wn, e, n) == conditions[i].1);
            assert(condition_truth(conditions, e) == conditions[i].1);
            assert(((corner / pow2(j)) % 2 == 1) == bits(j));
        }
        lemma_bits_determine_world(wn, corner, n);
    }

    assert(slice_world_set(conditions, n).contains(corner as int));
    assert(Set::<int>::empty().insert(corner as int).len() == 1) by {
        assert(!Set::<int>::empty().contains(corner as int));
    }
}

/// Adding `2^j` to a world whose bit `j` is clear stays inside the
/// outcome space and sets bit `j`.
proof fn lemma_world_bit_flip_up(w: nat, j: nat, n: nat)
    requires
        j < n,
        w < pow2(n),
        (w / pow2(j)) % 2 == 0,
    ensures
        w + pow2(j) < pow2(n),
        ((w + pow2(j)) / pow2(j)) % 2 == 1,
{
    let p = pow2(j) as int;
    let q = pow2((n - j) as nat) as int;
    lemma_pow2_pos(j);
    lemma_pow2_pos((n - j) as nat);
    lemma_pow2_adds(j, (n - j) as nat);
    let t = w as int / p;
    let r = w as int % p;
    lemma_fundamental_div_mod(w as int, p);
    lemma_mod_bound(w as int, p);
    // t is even and below 2^(n-j), so t <= 2^(n-j) - 2.
    assert(t < q) by {
        assert(w < p * q);
        lemma_multiply_divide_lt(w as int, p, q);
    }
    assert(q % 2 == 0) by {
        lemma_pow2_adds(1, (n - j - 1) as nat);
        lemma2_to64();
        lemma_mod_multiples_basic(pow2((n - j - 1) as nat) as int, 2);
    }
    assert(t % 2 == 0);
    assert(t + 1 < q) by {
        if t + 1 == q {
            lemma_mod_multiples_basic(t + 1, 2);
            lemma_fundamental_div_mod(t, 2);
            lemma_fundamental_div_mod(t + 1, 2);
            assert((t + 1) % 2 == 0);
            assert(t % 2 == 0);
            assert(false) by (nonlinear_arith)
                requires
                    t % 2 == 0,
                    (t + 1) % 2 == 0,
                    t == 2 * (t / 2) + t % 2,
                    t + 1 == 2 * ((t + 1) / 2) + (t + 1) % 2,
            ;
        }
    }
    // w + p == (t + 1) * p + r, with 0 <= r < p.
    assert(w + p == (t + 1) * p + r) by (nonlinear_arith)
        requires
            w as int == p * t + r,
    ;
    lemma_fundamental_div_mod_converse(w as int + p, p, t + 1, r);
    assert((w as int + p) / p == t + 1);
    assert((t + 1) % 2 == 1) by {
        lemma_fundamental_div_mod(t, 2);
        lemma_mod_bound(t, 2);
        lemma_fundamental_div_mod_converse(t + 1, 2, t / 2, 1);
    }
    assert(w as int + p < p * q) by (nonlinear_arith)
        requires
            w as int == p * t + r,
            t + 1 < q,
            0 <= r < p,
            p > 0,
    ;
}

/// A world whose bit `j` is set is at least `2^j`, and subtracting `2^j`
/// clears bit `j`.
proof fn lemma_world_bit_flip_down(v: nat, j: nat, n: nat)
    requires
        j < n,
        v < pow2(n),
        (v / pow2(j)) % 2 == 1,
    ensures
        pow2(j) <= v,
        ((v - pow2(j)) / pow2(j) as int) % 2 == 0,
{
    let p = pow2(j) as int;
    lemma_pow2_pos(j);
    let t = v as int / p;
    let r = v as int % p;
    lemma_fundamental_div_mod(v as int, p);
    lemma_mod_bound(v as int, p);
    assert(t >= 1) by {
        if t <= 0 {
            lemma_fundamental_div_mod(t, 2);
            lemma_div_pos_is_pos(v as int, p);
            assert(t == 0);
            assert(0int % 2 == 0);
        }
    }
    assert(v as int - p == (t - 1) * p + r) by (nonlinear_arith)
        requires
            v as int == p * t + r,
    ;
    assert(p * 1 <= p * t) by (nonlinear_arith)
        requires
            p > 0,
            1 <= t,
    ;
    lemma_fundamental_div_mod_converse(v as int - p, p, t - 1, r);
    assert((t - 1) % 2 == 0) by {
        lemma_fundamental_div_mod(t, 2);
        lemma_mod_bound(t, 2);
        lemma_fundamental_div_mod_converse(t - 1, 2, t / 2, 0);
    }
}

} // verus!
