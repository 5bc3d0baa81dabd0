//! Depth-bounded minimax search with alpha-beta pruning and a transposition table.
//!
//! The game-specific parts are supplied by the caller: the state (`GameState`), the static evaluation function
//! (`StaticEvaluator`) and the response generator (a function from a state and its ply to the responses). Values are
//! integers seen from Alice's side: Alice picks the highest, Bob the lowest. The transposition table persists between
//! searches and is handed to each search by the caller.

use vstd::prelude::*;

use crate::game_state::GameState;
use crate::static_evaluator::StaticEvaluator;
use crate::transposition_table::{Slot, TranspositionTable};

verus! {

/// Quality of a value that comes straight from the static evaluation function.
pub const SEF_QUALITY: i16 = 0;

/// Below every value: the initial alpha and Alice's initial best value.
pub const NEG_INF: i64 = -0x1_0000_0000;

/// Above every value: the initial beta and Bob's initial best value.
pub const POS_INF: i64 = 0x1_0000_0000;

/// A response considered by a search: the responding state, its value and the quality of that value.
struct Response<G> {
    /// The responding state
    pub state: G,
    /// The value of the responding state
    pub value: i32,
    /// Plies searched to find the value
    pub quality: i16,
}

/// Every value in the table lies in `[lo, hi]`.
pub open spec fn values_within(slots: Seq<Option<Slot<i32>>>, lo: int, hi: int) -> bool {
    forall|j: int| 0 <= j < slots.len() && (#[trigger] slots[j]) is Some ==> lo <= slots[j]->Some_0.value <= hi
}

/// A game tree search using the minimax strategy, alpha-beta pruning and a transposition table.
///
/// The response generator `R` is called as `rg(state, depth)` and returns every possible response to `state`, where
/// `depth` is the ply of `state` in the search. No response means only that the player cannot respond: it is not by
/// itself the end of the game.
///
/// The evaluator's win values are read once, when the tree is made. A static value outside them is taken as the nearer
/// win value, so that every value the search produces or stores lies between Bob's and Alice's win values.
pub struct GameTree<G, E, R> {
    /// Static evaluation function
    static_evaluator: E,
    /// Response generator
    response_generator: R,
    /// How many plies to search
    max_depth: i32,
    /// The evaluator's value for a win by Alice
    alice_wins: i32,
    /// The evaluator's value for a win by Bob
    bob_wins: i32,
    /// The state type searched
    state_type: std::marker::PhantomData<G>,
}

impl<G: GameState, E: StaticEvaluator<G>, R: Fn(&G, i32) -> Vec<G>> GameTree<G, E, R> {
    /// The response generator.
    pub closed spec fn generator(&self) -> R {
        self.response_generator
    }

    /// The number of plies searched.
    pub closed spec fn depth_limit(&self) -> i32 {
        self.max_depth
    }

    /// The value that means that Alice has won, as the evaluator gave it when the tree was made.
    pub closed spec fn hi(&self) -> int {
        self.alice_wins as int
    }

    /// The value that means that Bob has won, as the evaluator gave it when the tree was made.
    pub closed spec fn lo(&self) -> int {
        self.bob_wins as int
    }

    /// `responses` is a possible result of generating the responses to `state` at ply `depth`.
    pub open spec fn may_respond(&self, state: &G, depth: i32, responses: Vec<G>) -> bool {
        self.generator().ensures((state, depth), responses)
    }

    /// The tree can search: a non-negative depth, ordered win values, and a generator that accepts every state and
    /// gives the same responses to the same state at the same ply.
    pub open spec fn wf(&self) -> bool {
        &&& self.depth_limit() >= 0
        &&& self.lo() <= self.hi()
        &&& forall|state: &G, depth: i32| #[trigger] self.generator().requires((state, depth))
        &&& forall|state: &G, depth: i32, v1: Vec<G>, v2: Vec<G>|
            #![trigger self.may_respond(state, depth, v1), self.may_respond(state, depth, v2)]
            self.may_respond(state, depth, v1) && self.may_respond(state, depth, v2) ==> v1@ == v2@
    }

    /// A table that a search can use: well formed, with every value between Bob's and Alice's win values.
    pub open spec fn table_ok(&self, tt: &TranspositionTable<i32>) -> bool {
        tt.wf() && values_within(tt.slots(), self.lo(), self.hi())
    }

    /// What a search keeps of the table: its shape and the range of its values.
    pub open spec fn table_kept(&self, before: &TranspositionTable<i32>, after: &TranspositionTable<i32>) -> bool {
        &&& self.table_ok(after)
        &&& after.slots().len() == before.slots().len()
        &&& after.max_age_limit() == before.max_age_limit()
    }

    /// The static evaluation function.
    pub closed spec fn evaluator(&self) -> E {
        self.static_evaluator
    }

    /// The responses to `state` at ply `depth`: what the generator returns for them.
    pub open spec fn responses(&self, state: G, depth: i32) -> Seq<G> {
        (choose|v: Vec<G>| self.may_respond(&state, depth, v))@
    }

    /// The preliminary value and quality of `state`, and the slots after finding them: the table's entry for the state
    /// if it has one (its age reset), else the static value taken into the win values, stored with quality 0.
    pub open spec fn preliminary(&self, slots: Seq<Option<Slot<i32>>>, state: G) -> (i32, i16, Seq<Option<Slot<i32>>>) {
        let f = state.fingerprint_of();
        match TranspositionTable::<i32>::lookup(slots, f, -1i16) {
            Some(found) => (found.0, found.1, TranspositionTable::<i32>::after_check(slots, f)),
            None => {
                let v = clamped(self.evaluator().value_of(&state) as int, self.lo(), self.hi()) as i32;
                (v, SEF_QUALITY, TranspositionTable::<i32>::after_update(slots, f, v, SEF_QUALITY))
            },
        }
    }

    /// The preliminary values and qualities of `states`, found first to last, and the slots after finding them.
    pub open spec fn preliminaries(&self, slots: Seq<Option<Slot<i32>>>, states: Seq<G>) -> (
        Seq<i32>,
        Seq<i16>,
        Seq<Option<Slot<i32>>>,
    )
        decreases states.len(),
    {
        if states.len() == 0 {
            (Seq::empty(), Seq::empty(), slots)
        } else {
            let (values, qualities, before) = self.preliminaries(slots, states.drop_last());
            let (v, q, after) = self.preliminary(before, states.last());
            (values.push(v), qualities.push(q), after)
        }
    }

    /// A response at ply `response_depth` with preliminary `value` and `quality` is searched deeper: its value is not
    /// already a win for the chooser, the depth is not exhausted, and its quality is below what a search would give.
    pub open spec fn searches_deeper(&self, maximizing: bool, value: i32, quality: i16, response_depth: int) -> bool {
        &&& if maximizing { value < self.hi() } else { value > self.lo() }
        &&& response_depth < self.depth_limit()
        &&& quality < self.depth_limit() - response_depth
    }

    /// The choice and the slots after examining the responses `states` from the `k`-th in `order` on: each is searched
    /// deeper where `searches_deeper` says so (keeping its preliminary value if the opponent has no reply), then
    /// considered, until the choice is done.
    pub open spec fn examine(
        &self,
        slots: Seq<Option<Slot<i32>>>,
        maximizing: bool,
        choice: Choice,
        states: Seq<G>,
        values: Seq<i32>,
        qualities: Seq<i16>,
        order: Seq<usize>,
        depth: i32,
        k: int,
    ) -> (Choice, Seq<Option<Slot<i32>>>)
        decreases self.depth_limit() - depth, 0int, order.len() - k,
    {
        if k < 0 || k >= order.len() || choice.done {
            (choice, slots)
        } else {
            let i = order[k] as int;
            let (value, quality, after) = if self.searches_deeper(maximizing, values[i], qualities[i], depth + 1) {
                let (reply, after) = self.search(slots, states[i], !maximizing, choice.alpha, choice.beta, (depth + 1) as i32);
                match reply {
                    Some(found) => (found.1, found.2, after),
                    None => (values[i], qualities[i], after),
                }
            } else {
                (values[i], qualities[i], slots)
            };
            let win = if maximizing { self.hi() } else { self.lo() };
            self.examine(
                after,
                maximizing,
                choice.considered(order[k], value, quality, win as i32),
                states,
                values,
                qualities,
                order,
                depth,
                k + 1,
            )
        }
    }

    /// The search of the responses to `state` at ply `depth` by Alice (`maximizing`) or Bob within `[alpha, beta]`:
    /// the index of the chosen response, its value and quality, and the slots afterwards. The responses get their
    /// preliminary values, are examined in order of them (best first), and the state's value is stored unless the
    /// search was cut off. `None` when there is no response.
    pub open spec fn search(
        &self,
        slots: Seq<Option<Slot<i32>>>,
        state: G,
        maximizing: bool,
        alpha: i64,
        beta: i64,
        depth: i32,
    ) -> (Option<(usize, i32, i16)>, Seq<Option<Slot<i32>>>)
        decreases self.depth_limit() - depth, 1int, 0int,
    {
        let states = self.responses(state, depth);
        let (values, qualities, before) = self.preliminaries(slots, states);
        if states.len() == 0 {
            (None, before)
        } else {
            let order = sorted_order(values, maximizing, values.len());
            let start = Choice::start(maximizing, alpha, beta);
            let (choice, after) = self.examine(before, maximizing, start, states, values, qualities, order, depth, 0);
            let quality = next_quality_of(choice.quality);
            let stored = if choice.pruned {
                after
            } else {
                TranspositionTable::<i32>::after_update(after, state.fingerprint_of(), choice.value as i32, quality)
            };
            (Some((choice.best, choice.value as i32, quality)), stored)
        }
    }

    /// The search is a function of the table and the state: two searches of the same state from tables with the same
    /// slots choose the same response, with the same value and quality, and leave the same slots.
    pub proof fn lemma_search_deterministic(
        self,
        t1: TranspositionTable<i32>,
        t2: TranspositionTable<i32>,
        state: G,
        maximizing: bool,
    )
        requires
            t1.slots() == t2.slots(),
        ensures
            self.search(t1.slots(), state, maximizing, NEG_INF, POS_INF, 0) == self.search(
                t2.slots(),
                state,
                maximizing,
                NEG_INF,
                POS_INF,
                0,
            ),
    {
    }

    /// Once the best preliminary value is the choice, examining responses without deeper search keeps it.
    proof fn lemma_examine_keeps_best(
        self,
        slots: Seq<Option<Slot<i32>>>,
        maximizing: bool,
        choice: Choice,
        states: Seq<G>,
        values: Seq<i32>,
        qualities: Seq<i16>,
        order: Seq<usize>,
        k: int,
    )
        requires
            self.depth_limit() <= 1,
            1 <= k <= order.len(),
            order.len() == values.len(),
            forall|a: int| 0 <= a < order.len() ==> #[trigger] order[a] < values.len(),
            choice.maximizing == maximizing,
            choice.value == values[choice.best as int] as i64,
            forall|a: int| 0 <= a < order.len() ==> comes_before(values[choice.best as int], #[trigger] values[order[a] as int], maximizing),
        ensures
            self.examine(slots, maximizing, choice, states, values, qualities, order, 0, k).0 == choice,
        decreases order.len() - k,
    {
        if k < order.len() && !choice.done {
            let i = order[k] as int;
            assert(comes_before(values[choice.best as int], values[i], maximizing));
            assert(!self.searches_deeper(maximizing, values[i], qualities[i], 1));
            let win = if maximizing { self.hi() } else { self.lo() };
            assert(choice.considered(order[k], values[i], qualities[i], win as i32) == choice);
            self.lemma_examine_keeps_best(slots, maximizing, choice, states, values, qualities, order, k + 1);
        }
    }

    /// A one-ply search picks the best preliminary value: with a depth of at most one, a state with responses gets one
    /// whose preliminary value is the highest of all (Alice, `maximizing`) or the lowest (Bob).
    pub proof fn lemma_one_ply_picks_best(self, slots: Seq<Option<Slot<i32>>>, state: G, maximizing: bool)
        requires
            self.depth_limit() <= 1,
            self.responses(state, 0).len() > 0,
        ensures
            ({
                let states = self.responses(state, 0);
                let values = self.preliminaries(slots, states).0;
                let found = self.search(slots, state, maximizing, NEG_INF, POS_INF, 0).0;
                &&& found is Some
                &&& found->Some_0.0 < states.len()
                &&& found->Some_0.1 == values[found->Some_0.0 as int]
                &&& forall|j: int| 0 <= j < states.len() ==> comes_before(values[found->Some_0.0 as int], #[trigger] values[j], maximizing)
            }),
    {
        let states = self.responses(state, 0);
        let chosen = choose|v: Vec<G>| self.may_respond(&state, 0, v);
        assert(chosen.len() == states.len());
        let (values, qualities, before) = self.preliminaries(slots, states);
        self.lemma_preliminaries_len(slots, states);
        let order = sorted_order(values, maximizing, values.len());
        lemma_sorted_order(values, maximizing, values.len());
        let start = Choice::start(maximizing, NEG_INF, POS_INF);
        let i0 = order[0] as int;
        assert(!self.searches_deeper(maximizing, values[i0], qualities[i0], 1));
        let win = if maximizing { self.hi() } else { self.lo() };
        let first = start.considered(order[0], values[i0], qualities[i0], win as i32);
        assert(first.best == order[0]);
        assert forall|a: int| 0 <= a < order.len() implies comes_before(values[first.best as int], #[trigger] values[order[a] as int], maximizing) by {
            if a > 0 {
                assert(comes_before(values[order[0] as int], values[order[a] as int], maximizing));
            }
        }
        assert(self.examine(before, maximizing, start, states, values, qualities, order, 0, 0) == self.examine(
            before,
            maximizing,
            first,
            states,
            values,
            qualities,
            order,
            0,
            1,
        ));
        self.lemma_examine_keeps_best(before, maximizing, first, states, values, qualities, order, 1);
        let (choice, after) = self.examine(before, maximizing, start, states, values, qualities, order, 0, 0);
        assert(choice == first);
        assert(self.search(slots, state, maximizing, NEG_INF, POS_INF, 0).0 == Some(
            (choice.best, choice.value as i32, next_quality_of(choice.quality)),
        ));
        assert forall|j: int| 0 <= j < states.len() implies comes_before(values[i0], #[trigger] values[j], maximizing) by {
            assert(order.contains(j as usize));
            let a = choose|a: int| 0 <= a < order.len() && order[a] == j as usize;
            assert(comes_before(values[first.best as int], values[order[a] as int], maximizing));
        }
    }

    /// Finding preliminary values gives one value and one quality per state.
    proof fn lemma_preliminaries_len(self, slots: Seq<Option<Slot<i32>>>, states: Seq<G>)
        ensures
            self.preliminaries(slots, states).0.len() == states.len(),
            self.preliminaries(slots, states).1.len() == states.len(),
        decreases states.len(),
    {
        if states.len() > 0 {
            self.lemma_preliminaries_len(slots, states.drop_last());
        }
    }

    /// Creates a game tree that searches `max_depth` plies with the given evaluation function and response generator.
    /// The win values are taken from `sef` here, once.
    pub fn new(sef: E, rg: R, max_depth: i32) -> (r: Self)
        ensures
            r.evaluator() == sef,
            r.generator() == rg,
            r.depth_limit() == max_depth,
            r.hi() == sef.alice_wins_of(),
            r.lo() == sef.bob_wins_of(),
    {
        let alice_wins = sef.alice_wins_value();
        let bob_wins = sef.bob_wins_value();
        GameTree {
            static_evaluator: sef,
            response_generator: rg,
            max_depth,
            alice_wins,
            bob_wins,
            state_type: std::marker::PhantomData,
        }
    }

    /// Returns true when the evaluator's win values are ordered, Bob's at most Alice's.
    pub fn win_values_ordered(&self) -> (r: bool)
        ensures
            r == (self.lo() <= self.hi()),
    {
        self.bob_wins <= self.alice_wins
    }

    /// Searches for the best response to `s0` for the player to move (Alice when `whose_turn` is 0, else Bob), using
    /// and filling the transposition table `tt`. Returns `None` when the player to move has no response.
    pub fn find_best_response(&self, tt: &mut TranspositionTable<i32>, s0: &G) -> (r: Option<G>)
        requires
            self.wf(),
            self.table_ok(old(tt)),
        ensures
            self.table_kept(old(tt), final(tt)),
            ({
                let (found, after) = self.search(old(tt).slots(), *s0, s0.turn_of() == 0, NEG_INF, POS_INF, 0);
                &&& final(tt).slots() == after
                &&& (r is None <==> found is None)
                &&& r is Some ==> {
                    &&& found->Some_0.0 < self.responses(*s0, 0).len()
                    &&& r->Some_0 == self.responses(*s0, 0)[found->Some_0.0 as int]
                    &&& self.lo() <= found->Some_0.1 <= self.hi()
                    &&& found->Some_0.2 >= 1
                }
            }),
    {
        let response = if s0.whose_turn() == 0 {
            self.alice_search(tt, s0, NEG_INF, POS_INF, 0)
        } else {
            self.bob_search(tt, s0, NEG_INF, POS_INF, 0)
        };
        match response {
            Some(response) => Some(response.state),
            None => None,
        }
    }

    // Evaluates Alice's responses to the state and returns the one with the highest value.
    fn alice_search(&self, tt: &mut TranspositionTable<i32>, state: &G, alpha: i64, beta: i64, depth: i32) -> (r:
        Option<Response<G>>)
        requires
            self.wf(),
            self.table_ok(old(tt)),
            0 <= depth,
            depth == 0 || depth < self.depth_limit(),
            NEG_INF <= alpha,
            beta <= POS_INF,
        ensures
            self.table_kept(old(tt), final(tt)),
            ({
                let (found, after) = self.search(old(tt).slots(), *state, true, alpha, beta, depth);
                &&& final(tt).slots() == after
                &&& (r is None <==> found is None)
                &&& r is Some ==> {
                    &&& found->Some_0.0 < self.responses(*state, depth).len()
                    &&& r->Some_0.state == self.responses(*state, depth)[found->Some_0.0 as int]
                    &&& r->Some_0.value == found->Some_0.1
                    &&& r->Some_0.quality == found->Some_0.2
                }
            }),
            r is Some ==> {
                let resp = r->Some_0;
                &&& self.lo() <= resp.value <= self.hi()
                &&& resp.quality >= 1
            },
        decreases self.depth_limit() - depth,
    {
        // Depth of the responses to this state
        let response_depth = depth + 1;
        // Quality that a search of a response would give
        let search_quality: i32 = self.max_depth - response_depth;
        let alice_wins = self.alice_wins;

        let (mut states, values, qualities) = self.generate_responses(tt, state, depth);
        let ghost all = states@;
        let ghost before = tt.slots();
        let n = states.len();
        if n == 0 {
            return None;
        }
        // Highest preliminary values first, for early beta cutoffs.
        let order = order_by_value(&values, true);

        let mut choice = Choice::new(true, alpha, beta);
        let mut k: usize = 0;
        while k < n && !choice.done
            invariant
                n == states@.len(),
                states@ == all,
                all == self.responses(*state, depth),
                (values@, qualities@, before) == self.preliminaries(old(tt).slots(), all),
                order@ == sorted_order(values@, true, values@.len()),
                self.examine(before, true, Choice::start(true, alpha, beta), all, values@, qualities@, order@, depth, 0)
                    == self.examine(tt.slots(), true, choice, all, values@, qualities@, order@, depth, k as int),
                values@.len() == n,
                qualities@.len() == n,
                order@.len() == n,
                forall|m: int| 0 <= m < n ==> order@[m] < n,
                forall|m: int| 0 <= m < n ==> self.lo() <= #[trigger] values@[m] <= self.hi(),
                forall|m: int| 0 <= m < n ==> #[trigger] qualities@[m] >= 0,
                self.wf(),
                0 <= depth,
                depth == 0 || depth < self.depth_limit(),
                response_depth == depth + 1,
                search_quality == self.depth_limit() - response_depth,
                alice_wins == self.hi(),
                k <= n,
                self.table_kept(old(tt), tt),
                choice.maximizing == true,
                NEG_INF <= choice.alpha,
                choice.beta <= POS_INF,
                k == 0 ==> choice == Choice::start(true, alpha, beta),
                k > 0 ==> {
                    &&& choice.best < n
                    &&& choice.quality >= 0
                    &&& self.lo() <= choice.value <= self.hi()
                },
            decreases n - k,
        {
            let i = order[k];
            let ghost (cur, c0) = (tt.slots(), choice);
            let mut value = values[i];
            let mut quality = qualities[i];
            // Search deeper unless the value is already a win for Alice, the depth is exhausted, or the value is
            // already at least as good as what a search from here would give.
            let deeper = value < alice_wins && response_depth < self.max_depth && (quality as i32) < search_quality;
            if deeper {
                // If Bob has no response, the preliminary value stands.
                if let Some(reply) = self.bob_search(tt, &states[i], choice.alpha, choice.beta, response_depth) {
                    value = reply.value;
                    quality = reply.quality;
                }
            }
            proof {
                let spec_deeper = self.searches_deeper(true, values@[i as int], qualities@[i as int], depth + 1);
                let (reply, after) = self.search(cur, all[i as int], false, c0.alpha, c0.beta, (depth + 1) as i32);
                assert(spec_deeper == deeper);
                let expected = if deeper {
                    match reply {
                        Some(found) => (found.1, found.2, after),
                        None => (values@[i as int], qualities@[i as int], after),
                    }
                } else {
                    (values@[i as int], qualities@[i as int], cur)
                };
                assert(expected == (value, quality, tt.slots()));
            }
            choice.consider(i, value, quality, alice_wins);
            proof {
                assert(self.examine(cur, true, c0, all, values@, qualities@, order@, depth, k as int) == self.examine(
                    tt.slots(),
                    true,
                    choice,
                    all,
                    values@,
                    qualities@,
                    order@,
                    depth,
                    k + 1,
                ));
            }
            k = k + 1;
        }
        let quality = next_quality(choice.quality);
        // A pruned search only bounds the value of this state, so it is not stored.
        if !choice.pruned {
            tt.update(state.fingerprint(), choice.value as i32, quality);
        }
        let best_state = states.remove(choice.best);
        Some(Response { state: best_state, value: choice.value as i32, quality })
    }

    // Evaluates Bob's responses to the state and returns the one with the lowest value.
    fn bob_search(&self, tt: &mut TranspositionTable<i32>, state: &G, alpha: i64, beta: i64, depth: i32) -> (r:
        Option<Response<G>>)
        requires
            self.wf(),
            self.table_ok(old(tt)),
            0 <= depth,
            depth == 0 || depth < self.depth_limit(),
            NEG_INF <= alpha,
            beta <= POS_INF,
        ensures
            self.table_kept(old(tt), final(tt)),
            ({
                let (found, after) = self.search(old(tt).slots(), *state, false, alpha, beta, depth);
                &&& final(tt).slots() == after
                &&& (r is None <==> found is None)
                &&& r is Some ==> {
                    &&& found->Some_0.0 < self.responses(*state, depth).len()
                    &&& r->Some_0.state == self.responses(*state, depth)[found->Some_0.0 as int]
                    &&& r->Some_0.value == found->Some_0.1
                    &&& r->Some_0.quality == found->Some_0.2
                }
            }),
            r is Some ==> {
                let resp = r->Some_0;
                &&& self.lo() <= resp.value <= self.hi()
                &&& resp.quality >= 1
            },
        decreases self.depth_limit() - depth,
    {
        // Depth of the responses to this state
        let response_depth = depth + 1;
        // Quality that a search of a response would give
        let search_quality: i32 = self.max_depth - response_depth;
        let bob_wins = self.bob_wins;

        let (mut states, values, qualities) = self.generate_responses(tt, state, depth);
        let ghost all = states@;
        let ghost before = tt.slots();
        let n = states.len();
        if n == 0 {
            return None;
        }
        // Lowest preliminary values first, for early alpha cutoffs.
        let order = order_by_value(&values, false);

        let mut choice = Choice::new(false, alpha, beta);
        let mut k: usize = 0;
        while k < n && !choice.done
            invariant
                n == states@.len(),
                states@ == all,
                all == self.responses(*state, depth),
                (values@, qualities@, before) == self.preliminaries(old(tt).slots(), all),
                order@ == sorted_order(values@, false, values@.len()),
                self.examine(before, false, Choice::start(false, alpha, beta), all, values@, qualities@, order@, depth, 0)
                    == self.examine(tt.slots(), false, choice, all, values@, qualities@, order@, depth, k as int),
                values@.len() == n,
                qualities@.len() == n,
                order@.len() == n,
                forall|m: int| 0 <= m < n ==> order@[m] < n,
                forall|m: int| 0 <= m < n ==> self.lo() <= #[trigger] values@[m] <= self.hi(),
                forall|m: int| 0 <= m < n ==> #[trigger] qualities@[m] >= 0,
                self.wf(),
                0 <= depth,
                depth == 0 || depth < self.depth_limit(),
                response_depth == depth + 1,
                search_quality == self.depth_limit() - response_depth,
                bob_wins == self.lo(),
                k <= n,
                self.table_kept(old(tt), tt),
                choice.maximizing == false,
                NEG_INF <= choice.alpha,
                choice.beta <= POS_INF,
                k == 0 ==> choice == Choice::start(false, alpha, beta),
                k > 0 ==> {
                    &&& choice.best < n
                    &&& choice.quality >= 0
                    &&& self.lo() <= choice.value <= self.hi()
                },
            decreases n - k,
        {
            let i = order[k];
            let ghost (cur, c0) = (tt.slots(), choice);
            let mut value = values[i];
            let mut quality = qualities[i];
            // Search deeper unless the value is already a win for Bob, the depth is exhausted, or the value is
            // already at least as good as what a search from here would give.
            let deeper = value > bob_wins && response_depth < self.max_depth && (quality as i32) < search_quality;
            if deeper {
                // If Alice has no response, the preliminary value stands.
                if let Some(reply) = self.alice_search(tt, &states[i], choice.alpha, choice.beta, response_depth) {
                    value = reply.value;
                    quality = reply.quality;
                }
            }
            proof {
                let spec_deeper = self.searches_deeper(false, values@[i as int], qualities@[i as int], depth + 1);
                let (reply, after) = self.search(cur, all[i as int], true, c0.alpha, c0.beta, (depth + 1) as i32);
                assert(spec_deeper == deeper);
                let expected = if deeper {
                    match reply {
                        Some(found) => (found.1, found.2, after),
                        None => (values@[i as int], qualities@[i as int], after),
                    }
                } else {
                    (values@[i as int], qualities@[i as int], cur)
                };
                assert(expected == (value, quality, tt.slots()));
            }
            choice.consider(i, value, quality, bob_wins);
            proof {
                assert(self.examine(cur, false, c0, all, values@, qualities@, order@, depth, k as int) == self.examine(
                    tt.slots(),
                    false,
                    choice,
                    all,
                    values@,
                    qualities@,
                    order@,
                    depth,
                    k + 1,
                ));
            }
            k = k + 1;
        }
        let quality = next_quality(choice.quality);
        // A pruned search only bounds the value of this state, so it is not stored.
        if !choice.pruned {
            tt.update(state.fingerprint(), choice.value as i32, quality);
        }
        let best_state = states.remove(choice.best);
        Some(Response { state: best_state, value: choice.value as i32, quality })
    }

    // Generates the responses to the state, each with its preliminary value and quality.
    fn generate_responses(&self, tt: &mut TranspositionTable<i32>, state: &G, depth: i32) -> (r: (
        Vec<G>,
        Vec<i32>,
        Vec<i16>,
    ))
        requires
            self.wf(),
            self.table_ok(old(tt)),
        ensures
            self.table_kept(old(tt), final(tt)),
            r.0@ == self.responses(*state, depth),
            (r.1@, r.2@, final(tt).slots()) == self.preliminaries(old(tt).slots(), r.0@),
            r.1@.len() == r.0@.len(),
            r.2@.len() == r.0@.len(),
            forall|m: int| 0 <= m < r.0@.len() ==> self.lo() <= #[trigger] r.1@[m] <= self.hi(),
            forall|m: int| 0 <= m < r.0@.len() ==> #[trigger] r.2@[m] >= 0,
    {
        assert(self.generator().requires((state, depth)));
        let states = (self.response_generator)(state, depth);
        proof {
            assert(self.may_respond(state, depth, states));
            let chosen = choose|v: Vec<G>| self.may_respond(state, depth, v);
            assert(self.may_respond(state, depth, chosen));
            assert(chosen@ == states@);
        }
        let mut values: Vec<i32> = Vec::new();
        let mut qualities: Vec<i16> = Vec::new();
        let mut k: usize = 0;
        while k < states.len()
            invariant
                self.wf(),
                k <= states@.len(),
                values@.len() == k,
                qualities@.len() == k,
                (values@, qualities@, tt.slots()) == self.preliminaries(old(tt).slots(), states@.take(k as int)),
                forall|m: int| 0 <= m < k ==> self.lo() <= #[trigger] values@[m] <= self.hi(),
                forall|m: int| 0 <= m < k ==> #[trigger] qualities@[m] >= 0,
                self.table_kept(old(tt), tt),
            decreases states@.len() - k,
        {
            let (value, quality) = self.get_preliminary_value(tt, &states[k]);
            proof {
                let next = states@.take(k + 1);
                assert(next.drop_last() =~= states@.take(k as int));
                assert(next.last() == states@[k as int]);
            }
            values.push(value);
            qualities.push(quality);
            k = k + 1;
        }
        assert(states@.take(states@.len() as int) =~= states@);
        (states, values, qualities)
    }

    // The value and quality of the state as the table holds them, or else from the static evaluation function, in which
    // case the value is stored in the table. A value outside the win values is taken as the nearer of them.
    fn get_preliminary_value(&self, tt: &mut TranspositionTable<i32>, state: &G) -> (r: (i32, i16))
        requires
            self.wf(),
            self.table_ok(old(tt)),
        ensures
            self.table_kept(old(tt), final(tt)),
            (r.0, r.1, final(tt).slots()) == self.preliminary(old(tt).slots(), *state),
            self.lo() <= r.0 <= self.hi(),
            r.1 >= 0,
    {
        let f = state.fingerprint();
        match tt.check(f, -1) {
            Some(found) => found,
            None => {
                let value = clamp(self.static_evaluator.evaluate(state), self.bob_wins, self.alice_wins);
                tt.update(f, value, SEF_QUALITY);
                (value, SEF_QUALITY)
            },
        }
    }
}

/// `v` brought into `[lo, hi]`.
pub open spec fn clamped(v: int, lo: int, hi: int) -> int {
    if v < lo {
        lo
    } else if v > hi {
        hi
    } else {
        v
    }
}

/// `v` brought into `[lo, hi]`.
fn clamp(v: i32, lo: i32, hi: i32) -> (r: i32)
    requires
        lo <= hi,
    ensures
        r == clamped(v as int, lo as int, hi as int),
        lo <= r <= hi,
        lo <= v <= hi ==> r == v,
        v < lo ==> r == lo,
        v > hi ==> r == hi,
{
    if v < lo {
        lo
    } else if v > hi {
        hi
    } else {
        v
    }
}

/// The running choice of a search over the responses to one state, in the order they are considered.
pub struct Choice {
    /// Alice's choice (highest value) or Bob's (lowest value)
    pub maximizing: bool,
    /// Index of the best response so far
    pub best: usize,
    /// Value of the best response so far; beyond every value before the first
    pub value: i64,
    /// Quality of the best response so far; -1 before the first
    pub quality: i16,
    /// Best value Alice can guarantee so far
    pub alpha: i64,
    /// Best value Bob can guarantee so far
    pub beta: i64,
    /// The search was cut off: the value only bounds the state's value
    pub pruned: bool,
    /// No further response needs to be considered
    pub done: bool,
}

impl Choice {
    /// The choice before any response has been considered.
    pub open spec fn start(maximizing: bool, alpha: i64, beta: i64) -> Choice {
        Choice {
            maximizing,
            best: 0,
            value: if maximizing { NEG_INF } else { POS_INF },
            quality: -1i16,
            alpha,
            beta,
            pruned: false,
            done: false,
        }
    }

    /// `value` is better than the best so far for the chooser.
    pub open spec fn improves(self, value: i32) -> bool {
        if self.maximizing { value > self.value } else { value < self.value }
    }

    /// `value` is a win for the chooser, given the chooser's win value `win`.
    pub open spec fn wins(self, value: i32, win: i32) -> bool {
        if self.maximizing { value >= win } else { value <= win }
    }

    /// `value` is beyond what the opponent already has: Bob would not let Alice reach it (beta cutoff), or Alice would
    /// not let Bob reach it (alpha cutoff).
    pub open spec fn cuts_off(self, value: i32) -> bool {
        if self.maximizing { value > self.beta } else { value < self.alpha }
    }

    /// The choice after considering response `index` with `value` and `quality`. A better value becomes the best; then
    /// a win ends the choice, a cutoff ends it as pruned, and otherwise the chooser's bound moves to the value.
    pub open spec fn considered(self, index: usize, value: i32, quality: i16, win: i32) -> Choice {
        if !self.improves(value) {
            self
        } else {
            let won = self.wins(value, win);
            let cut = !won && self.cuts_off(value);
            let tightens = !won && !cut;
            Choice {
                maximizing: self.maximizing,
                best: index,
                value: value as i64,
                quality,
                alpha: if self.maximizing && tightens && value > self.alpha { value as i64 } else { self.alpha },
                beta: if !self.maximizing && tightens && value < self.beta { value as i64 } else { self.beta },
                pruned: self.pruned || cut,
                done: won || cut,
            }
        }
    }

    /// Starts a choice for Alice (`maximizing`) or Bob within the window `[alpha, beta]`.
    pub fn new(maximizing: bool, alpha: i64, beta: i64) -> (r: Choice)
        ensures
            r == Choice::start(maximizing, alpha, beta),
    {
        Choice {
            maximizing,
            best: 0,
            value: if maximizing { NEG_INF } else { POS_INF },
            quality: -1,
            alpha,
            beta,
            pruned: false,
            done: false,
        }
    }

    /// Considers response `index` with `value` and `quality`; `win` is the chooser's win value.
    pub fn consider(&mut self, index: usize, value: i32, quality: i16, win: i32)
        requires
            !old(self).done,
        ensures
            *final(self) == old(self).considered(index, value, quality, win),
    {
        let better = if self.maximizing { value as i64 > self.value } else { (value as i64) < self.value };
        if better {
            self.best = index;
            self.value = value as i64;
            self.quality = quality;
            let won = if self.maximizing { value >= win } else { value <= win };
            if won {
                self.done = true;
            } else if self.maximizing {
                if self.value > self.beta {
                    self.pruned = true;
                    self.done = true;
                } else if self.value > self.alpha {
                    self.alpha = self.value;
                }
            } else {
                if self.value < self.alpha {
                    self.pruned = true;
                    self.done = true;
                } else if self.value < self.beta {
                    self.beta = self.value;
                }
            }
        }
    }
}

/// The quality of a value backed by one more ply than `q`; it stays at `i16::MAX` once there.
pub open spec fn next_quality_of(q: i16) -> i16 {
    if q < i16::MAX {
        (q + 1) as i16
    } else {
        q
    }
}

/// The quality of a value backed by one more ply than `q`; it stays at `i16::MAX` once there.
fn next_quality(q: i16) -> (r: i16)
    requires
        q >= 0,
    ensures
        r == next_quality_of(q),
        r >= 1,
        q < i16::MAX ==> r == q + 1,
        q == i16::MAX ==> r == q,
{
    if q < i16::MAX {
        q + 1
    } else {
        q
    }
}

/// `a` may come before `b`: highest first when `descending`, lowest first otherwise.
pub open spec fn comes_before(a: i32, b: i32, descending: bool) -> bool {
    if descending {
        a >= b
    } else {
        a <= b
    }
}

/// Where index `values.len()`-to-be goes in `order` when inserted with value `v`: after the last of `order[..pos]`
/// that may come before it.
pub open spec fn insert_pos(order: Seq<usize>, values: Seq<i32>, v: i32, descending: bool, pos: int) -> int
    decreases pos,
{
    if pos <= 0 {
        0
    } else if comes_before(values[order[pos - 1] as int], v, descending) {
        pos
    } else {
        insert_pos(order, values, v, descending, pos - 1)
    }
}

/// The first `k` indices of `values`, ordered by value (highest first when `descending`), equal values in index
/// order: each index in turn is inserted after every earlier index that may come before it.
pub open spec fn sorted_order(values: Seq<i32>, descending: bool, k: nat) -> Seq<usize>
    decreases k,
{
    if k == 0 {
        Seq::empty()
    } else {
        let o = sorted_order(values, descending, (k - 1) as nat);
        o.insert(insert_pos(o, values, values[k - 1], descending, o.len() as int), (k - 1) as usize)
    }
}

/// Where `insert_pos` puts a value: after every index of `order[..pos]` that may come before it, when `order` is
/// sorted and none from `pos` on may come before it.
proof fn lemma_insert_pos(order: Seq<usize>, values: Seq<i32>, v: i32, descending: bool, pos: int)
    requires
        0 <= pos <= order.len(),
        forall|a: int, b: int|
            0 <= a < b < order.len() ==> comes_before(values[order[a] as int], values[order[b] as int], descending),
        forall|a: int| pos <= a < order.len() ==> !comes_before(values[order[a] as int], v, descending),
    ensures
        ({
            let r = insert_pos(order, values, v, descending, pos);
            &&& 0 <= r <= pos
            &&& forall|a: int| 0 <= a < r ==> comes_before(values[order[a] as int], v, descending)
            &&& forall|a: int| r <= a < order.len() ==> !comes_before(values[order[a] as int], v, descending)
        }),
    decreases pos,
{
    if pos > 0 {
        if comes_before(values[order[pos - 1] as int], v, descending) {
            assert forall|a: int| 0 <= a < pos implies comes_before(values[order[a] as int], v, descending) by {
                if a < pos - 1 {
                    assert(comes_before(values[order[a] as int], values[order[pos - 1] as int], descending));
                }
            }
        } else {
            lemma_insert_pos(order, values, v, descending, pos - 1);
        }
    }
}

/// `sorted_order(values, descending, k)` lists each of the first `k` indices once, sorted by value.
pub proof fn lemma_sorted_order(values: Seq<i32>, descending: bool, k: nat)
    requires
        k <= values.len(),
        k <= usize::MAX,
    ensures
        ({
            let order = sorted_order(values, descending, k);
            &&& order.len() == k
            &&& forall|a: int| 0 <= a < k ==> #[trigger] order[a] < k
            &&& forall|m: int| 0 <= m < k ==> #[trigger] order.contains(m as usize)
            &&& forall|a: int, b: int|
                0 <= a < b < k ==> comes_before(values[order[a] as int], values[order[b] as int], descending)
        }),
    decreases k,
{
    if k > 0 {
        let before = sorted_order(values, descending, (k - 1) as nat);
        lemma_sorted_order(values, descending, (k - 1) as nat);
        let v = values[k - 1];
        let pos = insert_pos(before, values, v, descending, before.len() as int);
        lemma_insert_pos(before, values, v, descending, before.len() as int);
        let order = sorted_order(values, descending, k);
        assert(order == before.insert(pos, (k - 1) as usize));
        assert forall|a: int| 0 <= a < k implies #[trigger] order[a] < k by {
            if a < pos {
                assert(order[a] == before[a]);
            } else if a > pos {
                assert(order[a] == before[a - 1]);
            }
        }
        assert forall|m: int| 0 <= m < k implies #[trigger] order.contains(m as usize) by {
            if m < k - 1 {
                assert(before.contains(m as usize));
                let j = choose|j: int| 0 <= j < before.len() && before[j] == m as usize;
                if j < pos {
                    assert(order[j] == m as usize);
                } else {
                    assert(order[j + 1] == m as usize);
                }
            } else {
                assert(order[pos] == m as usize);
            }
        }
        assert forall|a: int, b: int| 0 <= a < b < k implies comes_before(
            values[order[a] as int],
            values[order[b] as int],
            descending,
        ) by {
            if b < pos {
                assert(order[a] == before[a] && order[b] == before[b]);
            } else if b == pos {
                assert(order[a] == before[a]);
            } else if a < pos {
                assert(order[a] == before[a] && order[b] == before[b - 1]);
                assert(comes_before(values[before[a] as int], v, descending));
                assert(!comes_before(values[before[b - 1] as int], v, descending));
            } else if a == pos {
                assert(order[a] == (k - 1) as usize);
                assert(order[b] == before[b - 1]);
                assert(!comes_before(values[before[b - 1] as int], v, descending));
            } else {
                assert(order[a] == before[a - 1] && order[b] == before[b - 1]);
            }
        }
    }
}

/// Returns the indices of `values` ordered by value, highest first when `descending` and lowest first otherwise.
/// Indices of equal values keep their order.
pub fn order_by_value(values: &Vec<i32>, descending: bool) -> (order: Vec<usize>)
    ensures
        order@ == sorted_order(values@, descending, values@.len()),
        order@.len() == values@.len(),
        forall|a: int| 0 <= a < order@.len() ==> #[trigger] order@[a] < values@.len(),
        forall|m: int| 0 <= m < values@.len() ==> #[trigger] order@.contains(m as usize),
        forall|a: int, b: int|
            0 <= a < b < order@.len() ==> comes_before(values@[order@[a] as int], values@[order@[b] as int], descending),
        forall|a: int, b: int|
            0 <= a < b < order@.len() && values@[order@[a] as int] == values@[order@[b] as int] ==> order@[a] < order@[b],
{
    let mut order: Vec<usize> = Vec::new();
    let mut k: usize = 0;
    while k < values.len()
        invariant
            k <= values@.len(),
            order@.len() == k,
            order@ == sorted_order(values@, descending, k as nat),
            forall|a: int| 0 <= a < order@.len() ==> #[trigger] order@[a] < k,
            forall|m: int| 0 <= m < k ==> #[trigger] order@.contains(m as usize),
            forall|a: int, b: int|
                0 <= a < b < order@.len() ==> comes_before(
                    values@[order@[a] as int],
                    values@[order@[b] as int],
                    descending,
                ),
            forall|a: int, b: int|
                0 <= a < b < order@.len() && values@[order@[a] as int] == values@[order@[b] as int] ==> order@[a]
                    < order@[b],
        decreases values@.len() - k,
    {
        let v = values[k];
        let mut pos: usize = k;
        while pos > 0 && !comes_before_exec(values[order[pos - 1]], v, descending)
            invariant
                pos <= k,
                order@.len() == k,
                k < values@.len(),
                v == values@[k as int],
                forall|a: int| 0 <= a < order@.len() ==> #[trigger] order@[a] < k,
                forall|a: int| pos <= a < k ==> !comes_before(values@[order@[a] as int], v, descending),
                insert_pos(order@, values@, v, descending, pos as int) == insert_pos(
                    order@,
                    values@,
                    v,
                    descending,
                    k as int,
                ),
            decreases pos,
        {
            pos = pos - 1;
        }
        let ghost before = order@;
        order.insert(pos, k);
        proof {
            assert(order@ == before.insert(pos as int, k));
            assert forall|a: int| 0 <= a < pos implies comes_before(values@[before[a] as int], v, descending) by {
                if a < pos - 1 {
                    assert(comes_before(values@[before[a] as int], values@[before[pos - 1] as int], descending));
                }
            }
            assert forall|a: int, b: int| 0 <= a < b < order@.len() implies comes_before(
                values@[order@[a] as int],
                values@[order@[b] as int],
                descending,
            ) by {
                if b < pos {
                    assert(order@[a] == before[a] && order@[b] == before[b]);
                } else if b == pos {
                    assert(order@[a] == before[a]);
                } else if a < pos {
                    assert(order@[a] == before[a] && order@[b] == before[b - 1]);
                    assert(comes_before(values@[before[a] as int], v, descending));
                    assert(!comes_before(values@[before[b - 1] as int], v, descending));
                } else if a == pos {
                    assert(order@[b] == before[b - 1]);
                    assert(!comes_before(values@[before[b - 1] as int], v, descending));
                } else {
                    assert(order@[a] == before[a - 1] && order@[b] == before[b - 1]);
                }
            }
            assert forall|m: int| 0 <= m < k + 1 implies #[trigger] order@.contains(m as usize) by {
                if m < k {
                    assert(before.contains(m as usize));
                    let j = choose|j: int| 0 <= j < before.len() && before[j] == m as usize;
                    if j < pos {
                        assert(order@[j] == m as usize);
                    } else {
                        assert(order@[j + 1] == m as usize);
                    }
                } else {
                    assert(order@[pos as int] == m as usize);
                }
            }
        }
        k = k + 1;
    }
    order
}

/// Executable form of `comes_before`.
fn comes_before_exec(a: i32, b: i32, descending: bool) -> (r: bool)
    ensures
        r == comes_before(a, b, descending),
{
    if descending {
        a >= b
    } else {
        a <= b
    }
}

} // verus!
