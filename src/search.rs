//! Best-first search for a plan that solves a board. Uniform-cost search,
//! A* and weighted A* are one engine, parameterised by the weight of the
//! estimate.
use vstd::prelude::*;

use std::collections::HashMap;
use std::time::{Duration, Instant};

use crate::board::{
    goal_cells, is_tiles, key_of, lemma_code_range, lemma_key_injective, lemma_move_round_trip,
    lemma_moved_tiles, moved, opposite_of, reachable, run_plan, solves, Board, Direction,
    KEY_SPACE,
};
use crate::frontier::{is_first_min, Frontier};
use crate::heuristics::{
    estimate_of, lemma_displacement_nonneg, lemma_manhattan_within_twice, lemma_misplaced_nonneg,
    Heuristic, MAX_ESTIMATE,
};

verus! {

broadcast use vstd::std_specs::hash::group_hash_axioms;

#[verifier::external_type_specification]
#[verifier::external_body]
pub struct ExInstant(Instant);

/// Relies on std::time::Instant::now: the current instant, of which nothing
/// is known.
#[verifier::external_body]
fn clock_now() -> (r: Instant) {
    Instant::now()
}

/// Relies on std::time::Instant::elapsed: the time since `start`, of which
/// nothing is known.
#[verifier::external_body]
fn clock_elapsed(start: &Instant) -> (r: Duration) {
    start.elapsed()
}

/// Figures of one search, for comparing strategies.
pub struct Stats {
    /// How many times a board was put into the frontier with a better cost.
    pub expanded: usize,
    /// Time spent in the search loop.
    pub runtime: Duration,
}

impl Stats {
    pub fn new(expanded: usize, runtime: Duration) -> (r: Stats)
        ensures
            r.expanded == expanded,
            r.runtime == runtime,
    {
        Stats { expanded, runtime }
    }
}

/// Searches for a plan from `init` to the solved board, expanding boards in
/// order of moves made plus `w` times `heuristic`'s estimate. With `w` 1 this
/// is A*, with `w` 0 uniform-cost search. The plan is `None` exactly when no
/// plan exists. Where the estimate plays no part (blind heuristic, or `w` 0)
/// the plan is a shortest one. The Manhattan estimate counts the blank and may
/// reach twice the moves left, so with it and `w` at least 1 the plan is at
/// most `2 * w` times as long as a shortest one. From the solved board the
/// plan is empty and nothing is expanded.
pub fn weighted_search(init: Board, heuristic: Heuristic, w: u32) -> (r: (Option<Vec<Direction>>, Stats))
    requires
        is_tiles(init@),
    ensures
        r.0 matches Some(plan) ==> solves(init@, plan@),
        r.0 is None ==> !reachable(init@),
        (heuristic == Heuristic::Blind || w == 0) ==> (r.0 matches Some(plan) ==> forall|q: Seq<Direction>|
            solves(init@, q) ==> plan@.len() <= q.len()),
        (heuristic == Heuristic::Manhattan && w >= 1) ==> (r.0 matches Some(plan) ==> forall|
            q: Seq<Direction>| solves(init@, q) ==> plan@.len() <= 2 * w * q.len()),
        init@ == goal_cells() ==> (r.0 matches Some(plan) && plan@.len() == 0 && r.1.expanded == 0),
{
    let clock = clock_now();
    let goal = Board::goal();
    // The goal would leave the frontier first, with nothing expanded.
    if init.same_as(&goal) {
        let runtime = clock_elapsed(&clock);
        return (Some(Vec::new()), Stats::new(0, runtime));
    }
    let mut s = Search::begin(init, heuristic, w);
    let mut expanded: usize = 0;
    let mut found = false;
    let mut cur = init;
    loop
        invariant_except_break
            s.all_settled(),
            !found,
        invariant
            s.inv_core(),
            s.start == init,
            s.heuristic == heuristic,
            s.weight == w,
            goal@ == goal_cells(),
        ensures
            found ==> cur@ == goal_cells() && s.known(cur@) && is_tiles(cur@),
            found ==> ((s.uniform() || heuristic != Heuristic::Hamming) ==> forall|q: Seq<Direction>| solves(init@, q)
                ==> s.cost(cur@) <= s.stretch() * q.len()),
            !found ==> s.all_settled() && s.frontier.items().len() == 0,
        decreases KEY_SPACE - s.met(), s.cost_sum(), s.frontier.items().len(),
    {
        proof { s.lemma_bounds(0); }
        let ghost met0 = s.met();
        let ghost sum0 = s.cost_sum();
        let ghost len0 = s.frontier.items().len();
        let ghost pre = s;
        let (b, p) = match s.next() {
            None => break,
            Some(e) => e,
        };
        if b.same_as(&goal) {
            proof {
                if s.uniform() || heuristic != Heuristic::Hamming {
                    reveal(Search::inv_core);
                    if key_of(b@) == key_of(init@) {
                        lemma_key_injective(b@, init@);
                    }
                    lemma_estimate_of_goal(heuristic);
                    assert(s.priority(b@) == s.cost(b@));
                    assert forall|q: Seq<Direction>| solves(init@, q) implies s.cost(b@) <= s.stretch()
                        * q.len() by {
                        pre.lemma_frontier_bound(init@, q);
                        let j = choose|j: int| 0 <= j < pre.frontier.items().len()
                            && #[trigger] pre.frontier.items()[j].0 <= pre.cost(init@) + pre.stretch() * q.len();
                    }
                }
            }
            cur = b;
            found = true;
            break;
        }
        assert(s.met() == met0 && s.cost_sum() == sum0 && s.frontier.items().len() < len0);
        let g = s.cost_of(&b);
        let h = heuristic.estimate(&b);
        proof { lemma_weighted_estimate(w, h); }
        let f = g + w as u64 * h as u64;
        if p <= f {
            s.expand(&b, &mut expanded);
            proof { s.lemma_settle(b@); }
        }
        proof { s.lemma_bounds(0); }
    }
    let runtime = clock_elapsed(&clock);
    let stats = Stats::new(expanded, runtime);
    if !found {
        proof {
            reveal(Search::inv_core);
            assert forall|plan: Seq<Direction>| !solves(init@, plan) by {
                s.lemma_exhausted(init@, plan);
            }
        }
        return (None, stats);
    }
    let plan = s.path_to(cur);
    (Some(plan), stats)
}

/// A* search (weight 1) for a plan from `init` to the solved board; `None`
/// exactly when no plan exists. With the blind heuristic the plan is a
/// shortest one; with Manhattan, at most twice as long as a shortest one.
pub fn search(init: Board, heuristic: Heuristic) -> (r: (Option<Vec<Direction>>, Stats))
    requires
        is_tiles(init@),
    ensures
        r.0 matches Some(plan) ==> solves(init@, plan@),
        r.0 is None ==> !reachable(init@),
        heuristic == Heuristic::Blind ==> (r.0 matches Some(plan) ==> forall|q: Seq<Direction>|
            solves(init@, q) ==> plan@.len() <= q.len()),
        heuristic == Heuristic::Manhattan ==> (r.0 matches Some(plan) ==> forall|q: Seq<Direction>|
            solves(init@, q) ==> plan@.len() <= 2 * q.len()),
        init@ == goal_cells() ==> (r.0 matches Some(plan) && plan@.len() == 0 && r.1.expanded == 0),
{
    weighted_search(init, heuristic, 1)
}

/// A search whose parts all equal another's satisfies what the other does.
proof fn lemma_same_search(pre: Search, post: Search)
    requires
        pre.inv_core(),
        pre.all_settled(),
        post.frontier.items() == pre.frontier.items(),
        post.costs == pre.costs,
        post.moves == pre.moves,
        post.start == pre.start,
        post.heuristic == pre.heuristic,
        post.weight == pre.weight,
        post.walks == pre.walks,
        post.order == pre.order,
    ensures
        post.inv_core(),
        post.all_settled(),
{
    reveal(Search::inv_core);
    reveal(Search::settled_but);
    reveal(Search::all_settled);
    assert forall|c: Seq<u8>| is_tiles(c) && #[trigger] post.known(c) implies post.linked(c) && post.settled(c) by {
        assert(pre.known(c));
        assert(pre.linked(c));
        assert(pre.settled(c));
        if pre.pending(c) {
            let j = choose|j: int| 0 <= j < pre.frontier.items().len()
                && #[trigger] pre.frontier.items()[j].1@ == c
                && pre.frontier.items()[j].0 <= pre.priority(c);
            assert(post.frontier.items()[j].1@ == c);
        }
    }
    assert forall|k: u64| #[trigger] post.costs@.contains_key(k) implies k < KEY_SPACE
        && post.walk_ok(k) && post.order@.contains(k) by {
        assert(pre.costs@.contains_key(k));
        assert(pre.walk_ok(k));
    }
}

/// Stepping back from `c` by the opposite of `d` and putting `d` in front of
/// the plan from `c` gives a plan from the board stepped back to.
proof fn lemma_step_back(c: Seq<u8>, d: Direction, prev: Seq<u8>, rest: Seq<Direction>, plan: Seq<Direction>)
    requires
        is_tiles(c),
        moved(c, opposite_of(d)) == Some(prev),
        plan == rest.insert(0, d),
    ensures
        run_plan(prev, plan) == run_plan(c, rest),
{
    lemma_move_round_trip(c, opposite_of(d));
    assert(opposite_of(opposite_of(d)) == d);
    assert(plan =~= seq![d] + rest);
    lemma_run_prepend(prev, d, rest);
}

/// One move more in front of a plan.
proof fn lemma_run_prepend(c: Seq<u8>, d: Direction, plan: Seq<Direction>)
    requires
        moved(c, d) is Some,
    ensures
        run_plan(c, seq![d] + plan) == run_plan(moved(c, d).unwrap(), plan),
{
    assert((seq![d] + plan).drop_first() =~= plan);
}

/// An entry other than the popped one stays in the frontier.
proof fn lemma_pop_keeps<K>(s: Seq<(u64, K)>, i: int, j: int)
    requires
        0 <= i < s.len(),
        0 <= j < s.len(),
        i != j,
    ensures
        exists|j2: int| 0 <= j2 < s.len() - 1 && #[trigger] s.update(i, s.last()).drop_last()[j2] == s[j],
{
    let t = s.update(i, s.last()).drop_last();
    if j == s.len() - 1 {
        assert(t[i] == s[j]);
    } else {
        assert(t[j] == s[j]);
    }
}

/// Popping entry `i` leaves every met board settled but the popped one.
proof fn lemma_pop_keeps_settled(pre: Search, post: Search, i: int)
    requires
        pre.inv_core(),
        pre.all_settled(),
        0 <= i < pre.frontier.items().len(),
        post.frontier.items() == pre.frontier.items().update(i, pre.frontier.items().last()).drop_last(),
        post.costs == pre.costs,
        post.moves == pre.moves,
        post.start == pre.start,
        post.heuristic == pre.heuristic,
        post.weight == pre.weight,
        post.walks == pre.walks,
        post.order == pre.order,
    ensures
        post.inv_core(),
        is_tiles(pre.frontier.items()[i].1@),
        post.known(pre.frontier.items()[i].1@),
        post.settled_but(pre.frontier.items()[i].1@),
        pre.frontier.items()[i].0 > post.priority(pre.frontier.items()[i].1@) ==> post.all_settled(),
{
    reveal(Search::inv_core);
    reveal(Search::settled_but);
    reveal(Search::all_settled);
    let s = pre.frontier.items();
    let t = post.frontier.items();
    assert(is_tiles(s[i].1@) && pre.known(s[i].1@));
    assert forall|k: u64| #[trigger] post.costs@.contains_key(k) implies k < KEY_SPACE
        && post.walk_ok(k) && post.order@.contains(k) by {
        assert(pre.costs@.contains_key(k));
        assert(pre.walk_ok(k));
    }
    assert forall|c: Seq<u8>| is_tiles(c) && #[trigger] post.known(c) implies post.linked(c) by {
        assert(pre.known(c));
        assert(pre.linked(c));
    }
    if s[i].0 > post.priority(s[i].1@) {
        let c = s[i].1@;
        assert(pre.known(c));
        assert(pre.settled(c));
        if pre.pending(c) {
            let j = choose|j: int| 0 <= j < s.len() && #[trigger] s[j].1@ == c && s[j].0 <= pre.priority(c);
            lemma_pop_keeps(s, i, j);
            let j2 = choose|j2: int| 0 <= j2 < s.len() - 1 && #[trigger] t[j2] == s[j];
            assert(t[j2].1@ == c);
        }
    }
    assert forall|j: int| 0 <= j < t.len() implies is_tiles(#[trigger] t[j].1@) && post.known(t[j].1@)
        && (key_of(t[j].1@) == key_of(post.start@) || t[j].0 >= post.priority(t[j].1@)) by {
        if j == i {
            assert(t[j] == s[s.len() - 1]);
        } else {
            assert(t[j] == s[j]);
        }
    }
    assert forall|c: Seq<u8>| is_tiles(c) && #[trigger] post.known(c) && c != s[i].1@
        implies post.settled(c) by {
        assert(pre.known(c));
        assert(pre.settled(c));
        if pre.pending(c) {
            let j = choose|j: int| 0 <= j < s.len() && #[trigger] s[j].1@ == c && s[j].0 <= pre.priority(c);
            lemma_pop_keeps(s, i, j);
            let j2 = choose|j2: int| 0 <= j2 < s.len() - 1 && #[trigger] t[j2] == s[j];
            assert(t[j2].1@ == c);
        }
    }
}

/// Sum of the values of `m` at the keys of `order`.
spec fn sum_costs(order: Seq<u64>, m: Map<u64, u64>) -> int
    decreases order.len(),
{
    if order.len() == 0 {
        0
    } else {
        sum_costs(order.drop_last(), m) + m[order.last()]
    }
}

proof fn lemma_sum_nonneg(order: Seq<u64>, m: Map<u64, u64>)
    ensures
        sum_costs(order, m) >= 0,
    decreases order.len(),
{
    if order.len() > 0 {
        lemma_sum_nonneg(order.drop_last(), m);
    }
}

proof fn lemma_sum_other(order: Seq<u64>, m: Map<u64, u64>, k: u64, v: u64)
    requires
        !order.contains(k),
    ensures
        sum_costs(order, m.insert(k, v)) == sum_costs(order, m),
    decreases order.len(),
{
    if order.len() > 0 {
        assert(order.drop_last().contains(k) ==> order.contains(k));
        lemma_sum_other(order.drop_last(), m, k, v);
        assert(order.last() != k);
    }
}

proof fn lemma_sum_lower(order: Seq<u64>, m: Map<u64, u64>, k: u64, v: u64)
    requires
        order.contains(k),
        order.no_duplicates(),
        v < m[k],
    ensures
        sum_costs(order, m.insert(k, v)) < sum_costs(order, m),
    decreases order.len(),
{
    let rest = order.drop_last();
    if order.last() == k {
        assert forall|i: int| 0 <= i < rest.len() implies rest[i] != k by {
            assert(order[i] != order[order.len() - 1]);
        }
        lemma_sum_other(rest, m, k, v);
    } else {
        let i = choose|i: int| 0 <= i < order.len() && order[i] == k;
        assert(rest[i] == k);
        lemma_sum_lower(rest, m, k, v);
    }
}

/// A finite set of numbers below `n` has at most `n` elements.
proof fn lemma_bounded_set_len(s: Set<u64>, n: u64)
    requires
        s.finite(),
        forall|x: u64| #[trigger] s.contains(x) ==> x < n,
    ensures
        s.len() <= n,
    decreases n,
{
    if n == 0 {
        assert(s =~= Set::<u64>::empty());
    } else {
        let s2 = s.remove((n - 1) as u64);
        lemma_bounded_set_len(s2, (n - 1) as u64);
    }
}

/// The state of one search: the best cost known for each board met, the
/// move that reached it at that cost, and the frontier.
struct Search {
    start: Board,
    heuristic: Heuristic,
    weight: u32,
    /// Best known number of moves from `start`, by board key.
    costs: HashMap<u64, u64>,
    /// The move that reached a board at its best known cost, by board key.
    moves: HashMap<u64, Direction>,
    frontier: Frontier<Board>,
    /// For each board met, a sequence of distinct boards met, ending with it,
    /// one longer than its cost: what bounds the costs.
    walks: Ghost<Map<u64, Seq<u64>>>,
    /// The keys met, each once: what the termination measure sums over.
    order: Ghost<Seq<u64>>,
}

impl Search {
    spec fn known(&self, c: Seq<u8>) -> bool {
        self.costs@.contains_key(key_of(c))
    }

    spec fn cost(&self, c: Seq<u8>) -> int {
        self.costs@[key_of(c)] as int
    }

    /// The priority that `c` has at its best known cost.
    spec fn priority(&self, c: Seq<u8>) -> int {
        self.cost(c) + self.weight * estimate_of(self.heuristic, c)
    }

    /// Stepping back from `c` along its recorded move reaches a board met at
    /// a lower cost.
    spec fn linked(&self, c: Seq<u8>) -> bool {
        key_of(c) == key_of(self.start@) || {
            &&& self.moves@.contains_key(key_of(c))
            &&& moved(c, opposite_of(self.moves@[key_of(c)])) is Some
            &&& self.known(moved(c, opposite_of(self.moves@[key_of(c)])).unwrap())
            &&& self.cost(moved(c, opposite_of(self.moves@[key_of(c)])).unwrap()) < self.cost(c)
        }
    }

    /// Every successor of `c` has been met, at a cost at most one above `c`'s.
    spec fn closed(&self, c: Seq<u8>) -> bool {
        forall|d: Direction| #[trigger] moved(c, d) is Some ==> self.known(moved(c, d).unwrap())
            && self.cost(moved(c, d).unwrap()) <= self.cost(c) + 1
    }

    /// The frontier holds `c` at a priority no larger than its current one.
    spec fn pending(&self, c: Seq<u8>) -> bool {
        exists|j: int|
            0 <= j < self.frontier.items().len() && #[trigger] self.frontier.items()[j].1@ == c
                && self.frontier.items()[j].0 <= self.priority(c)
    }

    /// `c` is either expanded for good, and not the goal, or still waits in
    /// the frontier.
    spec fn settled(&self, c: Seq<u8>) -> bool {
        (c != goal_cells() && self.closed(c)) || self.pending(c)
    }

    spec fn walk_ok(&self, k: u64) -> bool {
        let w = self.walks@[k];
        &&& self.walks@.contains_key(k)
        &&& w.len() == self.costs@[k] + 1
        &&& w.last() == k
        &&& w.no_duplicates()
        &&& forall|i: int|
            0 <= i < w.len() ==> self.costs@.contains_key(#[trigger] w[i]) && self.costs@[w[i]]
                <= i
    }

    #[verifier::opaque]
    spec fn inv_core(&self) -> bool {
        &&& is_tiles(self.start@)
        &&& self.known(self.start@)
        &&& self.cost(self.start@) == 0
        &&& forall|k: u64| #[trigger]
            self.costs@.contains_key(k) ==> k < KEY_SPACE && self.walk_ok(k) && self.order@.contains(k)
        &&& forall|k: u64| #[trigger] self.order@.contains(k) ==> self.costs@.contains_key(k)
        &&& self.order@.no_duplicates()
        &&& forall|j: int|
            0 <= j < self.frontier.items().len() ==> is_tiles(#[trigger] self.frontier.items()[j].1@)
                && self.known(self.frontier.items()[j].1@) && (key_of(self.frontier.items()[j].1@)
                == key_of(self.start@) || self.frontier.items()[j].0 >= self.priority(
                self.frontier.items()[j].1@))
        &&& forall|c: Seq<u8>| is_tiles(c) && #[trigger] self.known(c) ==> self.linked(c)
    }

    /// Every board met but `hole` is settled.
    #[verifier::opaque]
    spec fn settled_but(&self, hole: Seq<u8>) -> bool {
        forall|c: Seq<u8>| is_tiles(c) && #[trigger] self.known(c) && c != hole ==> self.settled(c)
    }

    #[verifier::opaque]
    spec fn all_settled(&self) -> bool {
        forall|c: Seq<u8>| is_tiles(c) && #[trigger] self.known(c) ==> self.settled(c)
    }

    /// How many keys have been met.
    spec fn met(&self) -> int {
        self.costs@.dom().len() as int
    }

    spec fn cost_sum(&self) -> int {
        sum_costs(self.order@, self.costs@)
    }

    /// The estimate plays no part: the search is uniform-cost.
    spec fn uniform(&self) -> bool {
        self.weight == 0 || self.heuristic == Heuristic::Blind
    }

    /// How far the plan found may exceed a shortest one, as a factor.
    spec fn stretch(&self) -> int {
        if self.uniform() { 1 } else { 2 * self.weight }
    }

    proof fn lemma_uniform_priority(&self, c: Seq<u8>)
        requires
            self.uniform(),
        ensures
            self.priority(c) == self.cost(c),
    {
        if self.weight == 0 {
            assert(self.weight * estimate_of(self.heuristic, c) == 0) by (nonlinear_arith)
                requires
                    self.weight == 0,
            ;
        }
    }

    /// Fewer keys than there are codes have been met, and every cost lies
    /// below the number of codes.
    proof fn lemma_bounds(&self, k: u64)
        requires
            self.inv_core(),
        ensures
            self.met() <= KEY_SPACE,
            self.cost_sum() >= 0,
            self.costs@.contains_key(k) ==> self.costs@[k] < KEY_SPACE,
    {
        lemma_sum_nonneg(self.order@, self.costs@);
        reveal(Search::inv_core);
        reveal(Search::settled_but);
        reveal(Search::all_settled);
        let dom = self.costs@.dom();
        lemma_bounded_set_len(dom, KEY_SPACE);
        if self.costs@.contains_key(k) {
            let w = self.walks@[k];
            assert(self.walk_ok(k));
            w.unique_seq_to_set();
            assert forall|x: u64| w.to_set().contains(x) implies dom.contains(x) by {
                let i = choose|i: int| 0 <= i < w.len() && w[i] == x;
                assert(self.costs@.contains_key(w[i]));
            }
            vstd::set_lib::lemma_len_subset(w.to_set(), dom);
        }
    }
    /// A search that has met `init` only, at cost 0, and holds it in the
    /// frontier at priority 0.
    fn begin(init: Board, heuristic: Heuristic, weight: u32) -> (r: Search)
        requires
            is_tiles(init@),
        ensures
            r.inv_core(),
            r.all_settled(),
            r.start == init,
            r.heuristic == heuristic,
            r.weight == weight,
    {
        let k = init.key();
        let mut costs: HashMap<u64, u64> = HashMap::new();
        costs.insert(k, 0);
        let mut frontier: Frontier<Board> = Frontier::new();
        frontier.insert(init, 0);
        let ghost walks = Map::<u64, Seq<u64>>::empty().insert(k, seq![k]);
        let ghost order = seq![k];
        let r = Search {
            start: init,
            heuristic,
            weight,
            costs,
            moves: HashMap::new(),
            frontier,
            walks: Ghost(walks),
            order: Ghost(order),
        };
        proof {
            reveal(Search::inv_core);
            reveal(Search::all_settled);
            assert(r.walk_ok(k));
            assert forall|c: Seq<u8>| is_tiles(c) && #[trigger] r.known(c) implies r.settled(c) by {
                lemma_key_injective(c, init@);
                lemma_estimate_nonneg(heuristic, c);
                assert(r.frontier.items()[0].1@ == c);
            }
        }
        r
    }

    /// The best known cost of `b`.
    fn cost_of(&self, b: &Board) -> (r: u64)
        requires
            self.inv_core(),
            is_tiles(b@),
            self.known(b@),
        ensures
            r == self.cost(b@),
            r < KEY_SPACE,
    {
        proof { self.lemma_bounds(key_of(b@)); }
        match self.costs.get(&b.key()) {
            Some(g) => *g,
            None => 0,
        }
    }

    /// Records that `succ`, the board one move `d` away from `cur`, is reached
    /// in one move more than `cur`'s cost, where that beats its known cost;
    /// it then enters the frontier at its new priority.
    fn relax(&mut self, cur: &Board, d: Direction, succ: &Board, expanded: &mut usize)
        requires
            old(self).inv_core(),
            is_tiles(cur@),
            old(self).known(cur@),
            moved(cur@, d) == Some(succ@),
        ensures
            final(self).inv_core(),
            final(self).start == old(self).start,
            final(self).heuristic == old(self).heuristic,
            final(self).weight == old(self).weight,
            final(self).known(succ@),
            forall|k: u64| old(self).costs@.contains_key(k) ==> #[trigger] final(self).costs@.contains_key(k)
                && final(self).costs@[k] <= old(self).costs@[k],
            final(self).cost(cur@) == old(self).cost(cur@),
            final(self).cost(succ@) <= final(self).cost(cur@) + 1,
            old(self).settled_but(cur@) ==> final(self).settled_but(cur@),
            final(self).met() > old(self).met() || (final(self).met() == old(self).met()
                && final(self).cost_sum() < old(self).cost_sum()) || (final(self).met() == old(self).met()
                && final(self).cost_sum() == old(self).cost_sum()
                && final(self).frontier.items() == old(self).frontier.items()),
    {
        proof {
            lemma_moved_tiles(cur@, d);
            lemma_move_round_trip(cur@, d);
            lemma_code_range(succ@);
            if key_of(succ@) == key_of(cur@) {
                lemma_key_injective(succ@, cur@);
            }
        }
        let k = succ.key();
        let g_cur = self.cost_of(cur);
        let g = g_cur + 1;
        let better = match self.costs.get(&k) {
            None => true,
            Some(known) => g < *known,
        };
        if !better {
            return;
        }
        let h = self.heuristic.estimate(succ);
        proof { lemma_weighted_estimate(self.weight, h); }
        let p = g + self.weight as u64 * h as u64;
        let ghost pre = *old(self);
        let ghost kc = key_of(cur@);
        let ghost is_new = !self.costs@.contains_key(k);
        self.costs.insert(k, g);
        self.moves.insert(k, d);
        self.frontier.insert(*succ, p);
        proof {
            reveal(Search::inv_core);
            reveal(Search::settled_but);
            self.walks = Ghost(pre.walks@.insert(k, pre.walks@[kc].push(k)));
            if is_new {
                self.order = Ghost(pre.order@.push(k));
            }
            assert(relaxed(pre, *self, *cur, d, *succ, g, p));
            lemma_relax_keys(pre, *self, *cur, d, *succ, g, p);
            lemma_relax_links(pre, *self, *cur, d, *succ, g, p);
            if pre.settled_but(cur@) {
                lemma_relax_settled(pre, *self, *cur, d, *succ, g, p);
            }
            if !is_new {
                lemma_sum_lower(pre.order@, pre.costs@, k, g);
            } else {
                assert(self.costs@.dom() =~= pre.costs@.dom().insert(k));
            }
        }
        *expanded = expanded.saturating_add(1);
    }
}

impl Search {
    /// Relaxes every successor of `cur`, which leaves `cur` closed.
    fn expand(&mut self, cur: &Board, expanded: &mut usize)
        requires
            old(self).inv_core(),
            is_tiles(cur@),
            old(self).known(cur@),
            old(self).settled_but(cur@),
        ensures
            final(self).inv_core(),
            final(self).settled_but(cur@),
            final(self).closed(cur@),
            final(self).start == old(self).start,
            final(self).heuristic == old(self).heuristic,
            final(self).weight == old(self).weight,
            final(self).met() > old(self).met() || (final(self).met() == old(self).met()
                && final(self).cost_sum() < old(self).cost_sum()) || (final(self).met() == old(self).met()
                && final(self).cost_sum() == old(self).cost_sum()
                && final(self).frontier.items() == old(self).frontier.items()),
    {
        let dirs = [Direction::Up, Direction::Down, Direction::Left, Direction::Right];
        let mut i: usize = 0;
        while i < 4
            invariant
                i <= 4,
                dirs@ == seq![Direction::Up, Direction::Down, Direction::Left, Direction::Right],
                is_tiles(cur@),
                self.inv_core(),
                self.known(cur@),
                self.settled_but(cur@),
                self.start == old(self).start,
                self.heuristic == old(self).heuristic,
                self.weight == old(self).weight,
                forall|j: int| 0 <= j < i && moved(cur@, #[trigger] dirs@[j]) is Some ==> self.known(
                    moved(cur@, dirs@[j]).unwrap()) && self.cost(moved(cur@, dirs@[j]).unwrap())
                    <= self.cost(cur@) + 1,
                self.met() > old(self).met() || (self.met() == old(self).met() && self.cost_sum()
                    < old(self).cost_sum()) || (self.met() == old(self).met() && self.cost_sum()
                    == old(self).cost_sum() && self.frontier.items() == old(self).frontier.items()),
            decreases 4 - i,
        {
            let d = dirs[i];
            let ghost before = *self;
            match cur.apply(d) {
                Some(succ) => {
                    self.relax(cur, d, &succ, expanded);
                    proof {
                        assert forall|j: int| 0 <= j < i && moved(cur@, #[trigger] dirs@[j]) is Some
                            implies self.known(moved(cur@, dirs@[j]).unwrap()) && self.cost(
                            moved(cur@, dirs@[j]).unwrap()) <= self.cost(cur@) + 1 by {
                            assert(before.costs@.contains_key(key_of(moved(cur@, dirs@[j]).unwrap())));
                        }
                    }
                },
                None => {},
            }
            i = i + 1;
        }
        assert forall|d: Direction| #[trigger] moved(cur@, d) is Some implies self.known(
            moved(cur@, d).unwrap()) && self.cost(moved(cur@, d).unwrap()) <= self.cost(cur@) + 1 by {
            match d {
                Direction::Up => assert(dirs@[0] == d),
                Direction::Down => assert(dirs@[1] == d),
                Direction::Left => assert(dirs@[2] == d),
                Direction::Right => assert(dirs@[3] == d),
            }
        }
    }

    /// Takes the frontier's first entry of least priority. Where its priority
    /// is stale, above the board's current one, the board stays settled.
    fn next(&mut self) -> (r: Option<(Board, u64)>)
        requires
            old(self).inv_core(),
            old(self).all_settled(),
        ensures
            final(self).inv_core(),
            final(self).costs == old(self).costs,
            final(self).start == old(self).start,
            final(self).heuristic == old(self).heuristic,
            final(self).weight == old(self).weight,
            final(self).walks == old(self).walks,
            final(self).order == old(self).order,
            r is None ==> final(self).all_settled() && final(self).frontier.items().len() == 0,
            r matches Some(e) ==> {
                &&& is_tiles(e.0@)
                &&& final(self).known(e.0@)
                &&& final(self).settled_but(e.0@)
                &&& e.1 > final(self).priority(e.0@) ==> final(self).all_settled()
                &&& final(self).frontier.items().len() + 1 == old(self).frontier.items().len()
                &&& forall|j: int| 0 <= j < old(self).frontier.items().len() ==> e.1
                    <= #[trigger] old(self).frontier.items()[j].0
                &&& key_of(e.0@) != key_of(final(self).start@) ==> e.1 >= final(self).priority(e.0@)
            },
    {
        let ghost pre = *self;
        let popped = self.frontier.pop();
        match popped {
            None => {
                proof { lemma_same_search(pre, *self); }
                None
            },
            Some(e) => {
                proof {
                    let i = choose|i: int| 0 <= i < pre.frontier.items().len()
                        && is_first_min(pre.frontier.items(), i)
                        && popped == Some((pre.frontier.items()[i].1, pre.frontier.items()[i].0))
                        && self.frontier.items() == pre.frontier.items().update(i, pre.frontier.items().last()).drop_last();
                    lemma_pop_keeps_settled(pre, *self, i);
                    reveal(Search::inv_core);
                    assert(pre.frontier.items()[i] == pre.frontier.items()[i]);
                }
                Some(e)
            },
        }
    }

    /// The moves that lead from the start to `target`, found by stepping back
    /// along the recorded moves.
    fn path_to(&self, target: Board) -> (plan: Vec<Direction>)
        requires
            self.inv_core(),
            is_tiles(target@),
            self.known(target@),
        ensures
            run_plan(self.start@, plan@) == Some(target@),
            plan@.len() <= self.cost(target@),
    {
        proof { reveal(Search::inv_core); }
        let mut plan: Vec<Direction> = Vec::new();
        let start_key = self.start.key();
        let mut cur = target;
        proof {
            assert(run_plan(cur@, plan@) == Some(cur@));
        }
        while cur.key() != start_key
            invariant
                self.inv_core(),
                start_key == key_of(self.start@),
                is_tiles(cur@),
                self.known(cur@),
                run_plan(cur@, plan@) == Some(target@),
                plan@.len() + self.cost(cur@) <= self.cost(target@),
            decreases self.cost(cur@),
        {
            proof {
                reveal(Search::inv_core);
                assert(self.linked(cur@));
            }
            let d = match self.moves.get(&cur.key()) {
                Some(d) => *d,
                None => Direction::Up,
            };
            let back = d.opposite();
            match cur.apply(back) {
                Some(prev) => {
                    let ghost rest = plan@;
                    plan.insert(0, d);
                    proof { lemma_step_back(cur@, d, prev@, rest, plan@); }
                    cur = prev;
                },
                None => {
                    proof { assert(false); }
                },
            }
        }
        proof {
            lemma_key_injective(cur@, self.start@);
        }
        plan
    }

    /// With every met board settled, and an estimate at most twice the moves
    /// left, a plan of length `n` from a met board `c` to the goal leaves the
    /// frontier an entry of priority at most `cost(c) + stretch * n`.
    proof fn lemma_frontier_bound(&self, c: Seq<u8>, plan: Seq<Direction>)
        requires
            self.inv_core(),
            self.all_settled(),
            self.uniform() || self.heuristic != Heuristic::Hamming,
            is_tiles(c),
            self.known(c),
            solves(c, plan),
        ensures
            exists|j: int| 0 <= j < self.frontier.items().len()
                && #[trigger] self.frontier.items()[j].0 <= self.cost(c) + self.stretch() * plan.len(),
        decreases plan.len(),
    {
        reveal(Search::all_settled);
        assert(self.settled(c));
        let m = self.stretch();
        let n = plan.len() as int;
        assert(m * n >= n) by (nonlinear_arith)
            requires
                m >= 1,
                n >= 0,
        ;
        if self.pending(c) {
            let j = choose|j: int| 0 <= j < self.frontier.items().len()
                && #[trigger] self.frontier.items()[j].1@ == c
                && self.frontier.items()[j].0 <= self.priority(c);
            if self.uniform() {
                self.lemma_uniform_priority(c);
            } else {
                lemma_manhattan_within_twice(c, plan);
                let e = estimate_of(self.heuristic, c);
                let w = self.weight as int;
                assert(w * e <= m * n) by (nonlinear_arith)
                    requires
                        m == 2 * w,
                        e <= 2 * n,
                        w >= 0,
                ;
            }
            assert(self.frontier.items()[j].0 <= self.cost(c) + m * n);
        } else {
            assert(plan.len() > 0);
            let next = moved(c, plan[0]).unwrap();
            lemma_moved_tiles(c, plan[0]);
            assert(self.known(next) && self.cost(next) <= self.cost(c) + 1);
            self.lemma_frontier_bound(next, plan.drop_first());
            assert(m * (n - 1) + 1 <= m * n) by (nonlinear_arith)
                requires
                    m >= 1,
            ;
        }
    }

    /// A board that is expanded for good, and not the goal, is settled.
    proof fn lemma_settle(&self, b: Seq<u8>)
        requires
            self.settled_but(b),
            self.closed(b),
            b != goal_cells(),
        ensures
            self.all_settled(),
    {
        reveal(Search::settled_but);
        reveal(Search::all_settled);
        assert forall|c: Seq<u8>| is_tiles(c) && #[trigger] self.known(c) implies self.settled(c) by {
            if c != b {
                assert(self.settled(c));
            }
        }
    }

    /// With the frontier empty and every met board settled, no plan leads from
    /// a met board to the goal.
    proof fn lemma_exhausted(&self, c: Seq<u8>, plan: Seq<Direction>)
        requires
            self.inv_core(),
            self.all_settled(),
            self.frontier.items().len() == 0,
            is_tiles(c),
            self.known(c),
        ensures
            !solves(c, plan),
        decreases plan.len(),
    {
        reveal(Search::inv_core);
        reveal(Search::settled_but);
        reveal(Search::all_settled);
        assert(self.settled(c));
        assert(!self.pending(c));
        if plan.len() > 0 && moved(c, plan[0]) is Some {
            let n = moved(c, plan[0]).unwrap();
            lemma_moved_tiles(c, plan[0]);
            assert(self.known(n));
            self.lemma_exhausted(n, plan.drop_first());
        }
    }
}

/// `post` is `pre` after `succ`, one move `d` from `cur`, was recorded at
/// cost `g`, better than what `pre` knew of it, and entered the frontier at `p`.
spec fn relaxed(pre: Search, post: Search, cur: Board, d: Direction, succ: Board, g: u64, p: u64) -> bool {
    let k = key_of(succ@);
    &&& pre.inv_core()
    &&& is_tiles(cur@)
    &&& pre.known(cur@)
    &&& moved(cur@, d) == Some(succ@)
    &&& g == pre.cost(cur@) + 1
    &&& pre.known(succ@) ==> g < pre.cost(succ@)
    &&& post.start == pre.start
    &&& post.heuristic == pre.heuristic
    &&& post.weight == pre.weight
    &&& post.costs@ == pre.costs@.insert(k, g)
    &&& post.moves@ == pre.moves@.insert(k, d)
    &&& post.frontier.items() == pre.frontier.items().push((p, succ))
    &&& post.walks@ == pre.walks@.insert(k, pre.walks@[key_of(cur@)].push(k))
    &&& post.order@ == if pre.known(succ@) { pre.order@ } else { pre.order@.push(k) }
}

/// The facts on a relaxed successor that all the steps below use.
proof fn lemma_relax_basics(pre: Search, post: Search, cur: Board, d: Direction, succ: Board, g: u64, p: u64)
    requires
        relaxed(pre, post, cur, d, succ, g, p),
    ensures
        is_tiles(succ@),
        key_of(succ@) != key_of(cur@),
        key_of(succ@) != key_of(pre.start@),
        moved(succ@, opposite_of(d)) == Some(cur@),
        key_of(succ@) < KEY_SPACE,
        !pre.walks@[key_of(cur@)].contains(key_of(succ@)),
{
    reveal(Search::inv_core);
    reveal(Search::settled_but);
    reveal(Search::all_settled);
    lemma_moved_tiles(cur@, d);
    lemma_move_round_trip(cur@, d);
    lemma_code_range(succ@);
    if key_of(succ@) == key_of(cur@) {
        lemma_key_injective(succ@, cur@);
    }
    let k = key_of(succ@);
    let kc = key_of(cur@);
    assert(pre.costs@.contains_key(kc));
    assert(pre.walk_ok(kc));
    let w0 = pre.walks@[kc];
    if w0.contains(k) {
        let i = choose|i: int| 0 <= i < w0.len() && w0[i] == k;
        assert(pre.costs@.contains_key(w0[i]) && pre.costs@[w0[i]] <= i);
    }
}

/// Relaxing keeps the keys below the bound, each with its walk, and each
/// once in the order.
proof fn lemma_relax_keys(pre: Search, post: Search, cur: Board, d: Direction, succ: Board, g: u64, p: u64)
    requires
        relaxed(pre, post, cur, d, succ, g, p),
    ensures
        forall|k2: u64| #[trigger] post.costs@.contains_key(k2) ==> k2 < KEY_SPACE && post.walk_ok(k2)
            && post.order@.contains(k2),
        forall|k2: u64| #[trigger] post.order@.contains(k2) ==> post.costs@.contains_key(k2),
        post.order@.no_duplicates(),
{
    reveal(Search::inv_core);
    reveal(Search::settled_but);
    reveal(Search::all_settled);
    lemma_relax_basics(pre, post, cur, d, succ, g, p);
    let k = key_of(succ@);
    let kc = key_of(cur@);
    let is_new = !pre.costs@.contains_key(k);
    let w0 = pre.walks@[kc];
    assert forall|k2: u64| #[trigger] post.costs@.contains_key(k2) implies k2 < KEY_SPACE
        && post.walk_ok(k2) && post.order@.contains(k2) by {
        if k2 == k {
            let w = post.walks@[k];
            assert forall|i: int| 0 <= i < w.len() implies post.costs@.contains_key(#[trigger] w[i])
                && post.costs@[w[i]] <= i by {
                if i < w.len() - 1 {
                    assert(w[i] == w0[i]);
                    assert(pre.costs@.contains_key(w0[i]) && pre.costs@[w0[i]] <= i);
                }
            }
            if is_new {
                assert(post.order@[post.order@.len() - 1] == k);
            }
        } else {
            assert(pre.costs@.contains_key(k2));
            assert(pre.walk_ok(k2));
            let w = post.walks@[k2];
            assert forall|i: int| 0 <= i < w.len() implies post.costs@.contains_key(#[trigger] w[i])
                && post.costs@[w[i]] <= i by {
                assert(pre.costs@.contains_key(w[i]) && pre.costs@[w[i]] <= i);
            }
            assert(pre.order@.contains(k2));
            if is_new {
                let j = choose|j: int| 0 <= j < pre.order@.len() && pre.order@[j] == k2;
                assert(post.order@[j] == k2);
            }
        }
    }
    assert forall|k2: u64| #[trigger] post.order@.contains(k2) implies post.costs@.contains_key(k2) by {
        if k2 != k {
            let j = choose|j: int| 0 <= j < post.order@.len() && post.order@[j] == k2;
            if is_new {
                assert(pre.order@[j] == k2);
            }
            assert(pre.order@.contains(k2));
        }
    }
    if is_new {
        assert forall|i: int, j: int| 0 <= i < j < post.order@.len() implies post.order@[i]
            != post.order@[j] by {
            if j == post.order@.len() - 1 {
                assert(pre.order@.contains(pre.order@[i]));
            } else {
                assert(pre.order@[i] != pre.order@[j]);
            }
        }
    }
}

/// Relaxing keeps the frontier's boards met, and every met board linked
/// to one of lower cost.
proof fn lemma_relax_links(pre: Search, post: Search, cur: Board, d: Direction, succ: Board, g: u64, p: u64)
    requires
        relaxed(pre, post, cur, d, succ, g, p),
        p == post.priority(succ@),
    ensures
        forall|j: int| 0 <= j < post.frontier.items().len() ==> is_tiles(#[trigger] post.frontier.items()[j].1@)
            && post.known(post.frontier.items()[j].1@) && (key_of(post.frontier.items()[j].1@)
            == key_of(post.start@) || post.frontier.items()[j].0 >= post.priority(
            post.frontier.items()[j].1@)),
        forall|c: Seq<u8>| is_tiles(c) && #[trigger] post.known(c) ==> post.linked(c),
{
    reveal(Search::inv_core);
    reveal(Search::settled_but);
    reveal(Search::all_settled);
    lemma_relax_basics(pre, post, cur, d, succ, g, p);
    let k = key_of(succ@);
    let items = post.frontier.items();
    assert forall|j: int| 0 <= j < items.len() implies is_tiles(#[trigger] items[j].1@)
        && post.known(items[j].1@) && (key_of(items[j].1@) == key_of(post.start@) || items[j].0
        >= post.priority(items[j].1@)) by {
        if j < items.len() - 1 {
            assert(pre.frontier.items()[j] == items[j]);
            let c = items[j].1@;
            if key_of(c) != k {
                assert(pre.known(c));
            }
        }
    }
    assert forall|c: Seq<u8>| is_tiles(c) && #[trigger] post.known(c) implies post.linked(c) by {
        if key_of(c) == k {
            lemma_key_injective(c, succ@);
        } else {
            assert(pre.known(c));
            assert(pre.linked(c));
            if key_of(c) != key_of(pre.start@) {
                let q = moved(c, opposite_of(pre.moves@[key_of(c)])).unwrap();
                assert(pre.known(q));
            }
        }
    }
}

/// Relaxing keeps every met board but `cur` settled: the successor waits in
/// the frontier at its new priority.
proof fn lemma_relax_settled(pre: Search, post: Search, cur: Board, d: Direction, succ: Board, g: u64, p: u64)
    requires
        relaxed(pre, post, cur, d, succ, g, p),
        p == post.priority(succ@),
        pre.settled_but(cur@),
    ensures
        post.settled_but(cur@),
{
    reveal(Search::inv_core);
    reveal(Search::settled_but);
    reveal(Search::all_settled);
    lemma_relax_basics(pre, post, cur, d, succ, g, p);
    let k = key_of(succ@);
    let items = post.frontier.items();
    assert forall|c: Seq<u8>| is_tiles(c) && #[trigger] post.known(c) && c != cur@
        implies post.settled(c) by {
        if key_of(c) == k {
            lemma_key_injective(c, succ@);
            assert(items[items.len() - 1].1@ == c);
        } else {
            assert(pre.known(c));
            assert(pre.settled(c));
            if pre.pending(c) {
                let j = choose|j: int| 0 <= j < pre.frontier.items().len()
                    && #[trigger] pre.frontier.items()[j].1@ == c
                    && pre.frontier.items()[j].0 <= pre.priority(c);
                assert(items[j] == pre.frontier.items()[j]);
            } else {
                assert forall|e: Direction| #[trigger] moved(c, e) is Some implies post.known(
                    moved(c, e).unwrap()) && post.cost(moved(c, e).unwrap()) <= post.cost(c) + 1 by {
                    assert(pre.known(moved(c, e).unwrap()));
                }
            }
        }
    }
}

/// Every estimate of the solved grid is 0.
proof fn lemma_estimate_of_goal(h: Heuristic)
    ensures
        estimate_of(h, goal_cells()) == 0,
{
    reveal_with_fuel(crate::heuristics::misplaced, 10);
    reveal_with_fuel(crate::heuristics::displacement, 10);
}

/// A weighted estimate stays far below `u64::MAX`.
proof fn lemma_weighted_estimate(w: u32, h: u32)
    requires
        h <= MAX_ESTIMATE,
    ensures
        w as int * h as int <= 0xffff_ffff * 36,
{
    assert(w as int * h as int <= 0xffff_ffff * 36) by (nonlinear_arith)
        requires
            w <= 0xffff_ffff,
            h <= 36,
    ;
}

/// Every estimate is a count, never negative.
proof fn lemma_estimate_nonneg(h: Heuristic, c: Seq<u8>)
    ensures
        estimate_of(h, c) >= 0,
{
    lemma_misplaced_nonneg(c, 9);
    lemma_displacement_nonneg(c, 9);
}

} // verus!
