//! The generic game-tree engine.
//!
//! [`GameTree::from_rules`] expands a rule set into an explicit arena of
//! nodes: node 0 is the root, child indices always point at later positions,
//! and the arena is immutable after construction.  [`Play`] tracks the full
//! move history and both players' observation histories in lock-step while a
//! tree is walked.

use crate::game_tree::rules::{
    distribution_sound, near_one, probs_of, project, rules_sound, sum_fits, sum_ratios, GameRules,
    Move, Observation, State,
};
use crate::game_tree::strategy::{
    agrees_on, copy_obs_vec, differ_as_maps, lemma_lookup_extends, lemma_lookup_none_no_key,
    lemma_lookup_push, lookup_entries, FirstStrategy, NaiveStrategy, SecondStrategy,
};
use crate::ratio::{q_add, q_fits, q_mul, QVal, Ratio};
use std::marker::PhantomData;
use vstd::prelude::*;
use vstd::seq_lib::seq_to_set_is_finite;
use vstd::set_lib::lemma_len_subset;

pub mod rules;
pub mod strategy;

verus! {

/// One node of the extensive-form tree.  Entries of a row are
/// `(move, child index)`, chance rows additionally carry the probability.
#[derive(Debug)]
pub enum GameTreeNode<M: Move> {
    RandomEvent(Vec<(M, usize, Ratio)>),
    FirstMoves(Vec<(M, usize)>),
    SecondMoves(Vec<(M, usize)>),
    GameOver(Ratio),
}

/// A transient, stack-disciplined record of a walk: the full move history
/// and, synchronized with it, each player's observation history.
#[derive(Debug)]
pub struct Play<M: Move, F: Observation<M>, S: Observation<M>> {
    pub moves: Vec<M>,
    pub first: Vec<F>,
    pub second: Vec<S>,
}

impl<M: Move, F: Observation<M>, S: Observation<M>> Play<M, F, S> {
    /// The observation histories are exactly the projections of the move
    /// history.
    pub open spec fn wf(self) -> bool {
        &&& self.first@.len() == self.moves@.len()
        &&& self.second@.len() == self.moves@.len()
        &&& forall|i: int|
            0 <= i < self.moves@.len() ==> self.first@[i] == F::spec_observe(
                #[trigger] self.moves@[i],
            )
        &&& forall|i: int|
            0 <= i < self.moves@.len() ==> self.second@[i] == S::spec_observe(
                #[trigger] self.moves@[i],
            )
    }

    pub fn new() -> (r: Self)
        ensures
            r.wf(),
            r.moves@.len() == 0,
    {
        Play { moves: Vec::new(), first: Vec::new(), second: Vec::new() }
    }

    /// Appends a move and its projections in lock-step.
    pub fn push_move(&mut self, event: M)
        requires
            old(self).wf(),
        ensures
            final(self).wf(),
            final(self).moves@ == old(self).moves@.push(event),
            final(self).first@ == old(self).first@.push(F::spec_observe(event)),
            final(self).second@ == old(self).second@.push(S::spec_observe(event)),
    {
        self.moves.push(event);
        self.first.push(F::observe(&event));
        self.second.push(S::observe(&event));
    }

    /// Removes the last move and its projections in lock-step.
    pub fn pop_move(&mut self) -> (r: Option<M>)
        requires
            old(self).wf(),
        ensures
            final(self).wf(),
            old(self).moves@.len() == 0 ==> {
                &&& final(self).moves@ == old(self).moves@
                &&& final(self).first@ == old(self).first@
                &&& final(self).second@ == old(self).second@
                &&& r is None
            },
            old(self).moves@.len() > 0 ==> {
                &&& final(self).moves@ == old(self).moves@.drop_last()
                &&& final(self).first@ == old(self).first@.drop_last()
                &&& final(self).second@ == old(self).second@.drop_last()
                &&& r == Some(old(self).moves@.last())
            },
    {
        self.first.pop();
        self.second.pop();
        self.moves.pop()
    }

    /// The exact history, as the arbiter sees it.
    pub fn to_arbiter(&self) -> (r: &Vec<M>)
        ensures
            r@ == self.moves@,
    {
        &self.moves
    }

    /// The first player's observation history.
    pub fn to_first(&self) -> (r: &Vec<F>)
        ensures
            r@ == self.first@,
    {
        &self.first
    }

    /// The second player's observation history.
    pub fn to_second(&self) -> (r: &Vec<S>)
        ensures
            r@ == self.second@,
    {
        &self.second
    }

    pub fn len(&self) -> (r: usize)
        ensures
            r == self.moves@.len(),
    {
        self.moves.len()
    }

    pub fn is_empty(&self) -> (r: bool)
        ensures
            r == (self.moves@.len() == 0),
    {
        self.moves.len() == 0
    }
}

/// A wf `Play` projects exactly: its observation histories equal the
/// projections of its move history.
pub proof fn lemma_play_projects<M: Move, F: Observation<M>, S: Observation<M>>(
    p: Play<M, F, S>,
)
    requires
        p.wf(),
    ensures
        p.first@ == project::<M, F>(p.moves@),
        p.second@ == project::<M, S>(p.moves@),
{
    assert(p.first@ =~= project::<M, F>(p.moves@));
    assert(p.second@ =~= project::<M, S>(p.moves@));
}

/// A construction failure: the rule set violated its contract.
#[derive(Clone, Copy, Debug, PartialEq, Eq, Structural)]
pub enum BuildError {
    /// A chance distribution was malformed: a negative or ill-formed
    /// probability, or a total not within tolerance of one.
    ChanceProbabilities,
    /// A decision state offered no legal moves.
    NoLegalMoves,
    /// A terminal payoff was not a well-formed ratio.
    BadPayoff,
    /// Probability bookkeeping left the representable range.
    Overflow,
}

/// Well-formedness of the children of a decision row: every child index
/// points past this node, the first child sits immediately after it, and
/// children appear in strictly increasing index order (each child's subtree
/// is laid out before the next child begins).
pub open spec fn children_ok<M: Move>(
    nodes_len: int,
    hist: Seq<Seq<M>>,
    i: int,
    h: Seq<M>,
    row: Seq<(M, usize)>,
) -> bool {
    &&& forall|j: int|
        0 <= j < row.len() ==> {
            &&& i < (#[trigger] row[j]).1 < nodes_len
            &&& hist[row[j].1 as int] == h.push(row[j].0)
        }
    &&& row.len() > 0 ==> row[0].1 == i + 1
    &&& forall|j1: int, j2: int|
        0 <= j1 < j2 < row.len() ==> (#[trigger] row[j1]).1 < (#[trigger] row[j2]).1
}

/// Well-formedness of the children of a chance row; see `children_ok`.
pub open spec fn chance_children_ok<M: Move>(
    nodes_len: int,
    hist: Seq<Seq<M>>,
    i: int,
    h: Seq<M>,
    row: Seq<(M, usize, Ratio)>,
) -> bool {
    &&& forall|j: int|
        0 <= j < row.len() ==> {
            &&& i < (#[trigger] row[j]).1 < nodes_len
            &&& hist[row[j].1 as int] == h.push(row[j].0)
        }
    &&& row.len() > 0 ==> row[0].1 == i + 1
    &&& forall|j1: int, j2: int|
        0 <= j1 < j2 < row.len() ==> (#[trigger] row[j1]).1 < (#[trigger] row[j2]).1
}

/// A node agrees with the rules at its own history: its kind matches the
/// turn state, its row lists exactly the legal moves (or the chance
/// distribution, validated), and every child index points at a later node
/// whose history extends this one by the edge's move.
pub open spec fn node_ok<M: Move, F: Observation<M>, S: Observation<M>, R: GameRules<M, F, S>>(
    rules: R,
    nodes: Seq<GameTreeNode<M>>,
    hist: Seq<Seq<M>>,
    i: int,
) -> bool {
    let h = hist[i];
    match nodes[i] {
        GameTreeNode::RandomEvent(row) => {
            let ev = rules.spec_random_event(h);
            &&& rules.spec_state(h) is RandomEvent
            &&& row@.len() == ev.len()
            &&& forall|j: int|
                0 <= j < row@.len() ==> (#[trigger] row@[j]).0 == ev[j].0 && row@[j].2 == ev[j].1
            &&& distribution_sound(ev)
            &&& chance_children_ok(nodes.len() as int, hist, i, h, row@)
        }
        GameTreeNode::FirstMoves(row) => {
            let mv = rules.spec_first_moves(project::<M, F>(h));
            &&& rules.spec_state(h) is FirstToMove
            &&& row@.len() == mv.len()
            &&& mv.len() > 0
            &&& forall|j: int| 0 <= j < row@.len() ==> (#[trigger] row@[j]).0 == mv[j]
            &&& children_ok(nodes.len() as int, hist, i, h, row@)
        }
        GameTreeNode::SecondMoves(row) => {
            let mv = rules.spec_second_moves(project::<M, S>(h));
            &&& rules.spec_state(h) is SecondToMove
            &&& row@.len() == mv.len()
            &&& mv.len() > 0
            &&& forall|j: int| 0 <= j < row@.len() ==> (#[trigger] row@[j]).0 == mv[j]
            &&& children_ok(nodes.len() as int, hist, i, h, row@)
        }
        GameTreeNode::GameOver(x) => {
            &&& rules.spec_state(h) == State::GameOver(x)
            &&& x.wf()
        }
    }
}

/// A node stays well-formed when the arena and the history table grow.
proof fn lemma_node_ok_grow<M: Move, F: Observation<M>, S: Observation<M>, R: GameRules<M, F, S>>(
    rules: R,
    nodes1: Seq<GameTreeNode<M>>,
    hist1: Seq<Seq<M>>,
    nodes2: Seq<GameTreeNode<M>>,
    hist2: Seq<Seq<M>>,
    i: int,
)
    requires
        0 <= i < nodes1.len(),
        hist1.len() == nodes1.len(),
        nodes1.len() <= nodes2.len(),
        hist2.len() == nodes2.len(),
        nodes2.subrange(0, nodes1.len() as int) == nodes1,
        hist2.subrange(0, hist1.len() as int) == hist1,
        node_ok::<M, F, S, R>(rules, nodes1, hist1, i),
    ensures
        node_ok::<M, F, S, R>(rules, nodes2, hist2, i),
{
    assert forall|k: int| 0 <= k < nodes1.len() implies nodes2[k] == nodes1[k] && hist2[k]
        == hist1[k] by {
        assert(nodes2.subrange(0, nodes1.len() as int)[k] == nodes2[k]);
        assert(hist2.subrange(0, hist1.len() as int)[k] == hist2[k]);
    }
}

/// The extensive-form game tree: the rule set together with the node arena.
/// Node 0 is the root; the structure is immutable after construction.
pub struct GameTree<M: Move, F: Observation<M>, S: Observation<M>, R: GameRules<M, F, S>> {
    pub rules: R,
    pub nodes: Vec<GameTreeNode<M>>,
    pub histories: Ghost<Seq<Seq<M>>>,
    pub _phantom_f: PhantomData<F>,
    pub _phantom_s: PhantomData<S>,
}

impl<M: Move, F: Observation<M>, S: Observation<M>, R: GameRules<M, F, S>> GameTree<M, F, S, R> {
    /// The history (move sequence from the root) of each node.
    pub open spec fn hist(self) -> Seq<Seq<M>> {
        self.histories@
    }

    /// The whole arena is well-formed: non-empty, rooted at the empty
    /// history, every node agreeing with the rules.
    pub open spec fn wf(self) -> bool {
        &&& self.nodes@.len() >= 1
        &&& self.hist().len() == self.nodes@.len()
        &&& self.hist()[0] == Seq::<M>::empty()
        &&& forall|i: int|
            0 <= i < self.nodes@.len() ==> node_ok::<M, F, S, R>(
                self.rules,
                self.nodes@,
                self.hist(),
                i,
            )
    }

    /// Recursive depth-first expansion.  Reserves this node's index, builds
    /// each child subtree in order, then writes the finished row, so a
    /// node's children always occupy the index range after the node itself.
    fn build(
        rules: &R,
        nodes: &mut Vec<GameTreeNode<M>>,
        hist: Ghost<Seq<Seq<M>>>,
        path: &mut Play<M, F, S>,
        depth: Ghost<Seq<M>>,
    ) -> (res: Result<Ghost<Seq<Seq<M>>>, BuildError>)
        requires
            old(path).wf(),
            hist@.len() == old(nodes)@.len(),
            depth@ == old(path).moves@,
        ensures
            rules_sound::<M, F, S, R>(*rules) ==> res is Ok,
            res matches Ok(h2) ==> {
                &&& h2@.len() == final(nodes)@.len()
                &&& final(nodes)@.len() > old(nodes)@.len()
                &&& final(nodes)@.subrange(0, old(nodes)@.len() as int) == old(nodes)@
                &&& h2@.subrange(0, old(nodes)@.len() as int) == hist@
                &&& h2@[old(nodes)@.len() as int] == old(path).moves@
                &&& forall|i: int|
                    old(nodes)@.len() <= i < final(nodes)@.len() ==> node_ok::<M, F, S, R>(
                        *rules,
                        final(nodes)@,
                        h2@,
                        i,
                    )
                &&& final(path).wf()
                &&& final(path).moves@ == old(path).moves@
            },
        decreases rules.spec_horizon() - depth@.len(),
    {
        let ghost h = path.moves@;
        let ghost n0 = nodes@.len();
        let index = nodes.len();
        let s = rules.ask_arbiter(path.to_arbiter());
        proof {
            rules.lemma_horizon(h);
        }
        match s {
            State::GameOver(x) => {
                if x.den < 1 || x.num == i64::MIN {
                    assert(!rules_sound::<M, F, S, R>(*rules)) by {
                        assert(rules.spec_state(h) is GameOver);
                    }
                    return Err(BuildError::BadPayoff);
                }
                nodes.push(GameTreeNode::GameOver(x));
                let res: Ghost<Seq<Seq<M>>> = Ghost(hist@.push(h));
                proof {
                    assert(nodes@.subrange(0, n0 as int) =~= old(nodes)@);
                    assert(res@.subrange(0, n0 as int) =~= hist@);
                }
                Ok(res)
            }
            State::RandomEvent => {
                let events = rules.random_event(path.to_arbiter());
                let n = events.len();
                // Validate the distribution: well-formed, non-negative
                // probabilities with representable running sums.
                let mut acc = Ratio::zero();
                let mut j: usize = 0;
                while j < n
                    invariant
                        j <= n,
                        n == events@.len(),
                        events@ == rules.spec_random_event(h),
                        rules.spec_state(h) is RandomEvent,
                        acc.wf(),
                        forall|k: int|
                            0 <= k < j ==> (#[trigger] events@[k].1).wf() && events@[k].1.num
                                >= 0,
                        sum_fits(probs_of(events@).take(j as int)),
                        acc.v() == sum_ratios(probs_of(events@).take(j as int)),
                    decreases n - j,
                {
                    let p = events[j].1;
                    assert(probs_of(events@)[j as int] == p);
                    if p.den < 1 || p.num < 0 {
                        assert(!rules_sound::<M, F, S, R>(*rules));
                        return Err(BuildError::ChanceProbabilities);
                    }
                    let next = acc.checked_add(p);
                    proof {
                        assert(probs_of(events@).take(j + 1).drop_last() =~= probs_of(
                            events@,
                        ).take(j as int));
                        assert(probs_of(events@).take(j + 1).last() == p);
                    }
                    match next {
                        None => {
                            assert(!sum_fits(probs_of(events@).take(j + 1)));
                            assert(!distribution_sound(events@)) by {
                                if sum_fits(probs_of(events@)) {
                                    lemma_sum_fits_prefix(probs_of(events@), j + 1);
                                }
                            }
                            assert(!rules_sound::<M, F, S, R>(*rules));
                            return Err(BuildError::Overflow);
                        }
                        Some(a2) => {
                            acc = a2;
                        }
                    }
                    j += 1;
                }
                proof {
                    assert(probs_of(events@).take(n as int) =~= probs_of(events@));
                }
                if !ratio_near_one(acc) {
                    assert(!distribution_sound(events@));
                    assert(!rules_sound::<M, F, S, R>(*rules));
                    return Err(BuildError::ChanceProbabilities);
                }
                assert(distribution_sound(events@));
                // Reserve this node's index before expanding children.
                nodes.push(GameTreeNode::GameOver(Ratio::zero()));
                let mut cur: Ghost<Seq<Seq<M>>> = Ghost(hist@.push(h));
                proof {
                    assert(nodes@.subrange(0, n0 as int) =~= old(nodes)@);
                    assert(cur@.subrange(0, n0 as int) =~= hist@);
                }
                let mut row: Vec<(M, usize, Ratio)> = Vec::new();
                let mut j: usize = 0;
                while j < n
                    invariant
                        j <= n,
                        n == events@.len(),
                        events@ == rules.spec_random_event(h),
                        rules.spec_state(h) is RandomEvent,
                        distribution_sound(events@),
                        rules.spec_horizon() > h.len(),
                        depth@ == h,
                        path.wf(),
                        path.moves@ == h,
                        nodes@.len() > n0 + 0,
                        j == 0 ==> nodes@.len() == n0 + 1,
                        index == n0,
                        cur@.len() == nodes@.len(),
                        nodes@.subrange(0, n0 as int) == old(nodes)@,
                        cur@.subrange(0, n0 as int) == hist@,
                        cur@[n0 as int] == h,
                        row@.len() == j,
                        forall|k: int|
                            0 <= k < j ==> {
                                &&& (#[trigger] row@[k]).0 == events@[k].0
                                &&& row@[k].2 == events@[k].1
                                &&& n0 < row@[k].1 < nodes@.len()
                                &&& cur@[row@[k].1 as int] == h.push(row@[k].0)
                            },
                        j > 0 ==> row@[0].1 == n0 + 1,
                        forall|k1: int, k2: int|
                            0 <= k1 < k2 < j ==> (#[trigger] row@[k1]).1
                                < (#[trigger] row@[k2]).1,
                        forall|i: int|
                            n0 < i < nodes@.len() ==> node_ok::<M, F, S, R>(
                                *rules,
                                nodes@,
                                cur@,
                                i,
                            ),
                    decreases n - j,
                {
                    let e = events[j];
                    let u = nodes.len();
                    let ghost nodes_before = nodes@;
                    let ghost cur_before = cur@;
                    path.push_move(e.0);
                    let r = Self::build(rules, nodes, cur, path, Ghost(h.push(e.0)));
                    match r {
                        Err(err) => {
                            return Err(err);
                        }
                        Ok(g2) => {
                            cur = g2;
                        }
                    }
                    path.pop_move();
                    proof {
                        assert(path.moves@ =~= h);
                        assert(nodes@.subrange(0, n0 as int) =~= old(nodes)@);
                        assert(cur@.subrange(0, n0 as int) =~= hist@);
                        assert(cur@[n0 as int] == cur_before[n0 as int]);
                        assert forall|i: int|
                            n0 < i < nodes_before.len() implies node_ok::<M, F, S, R>(
                            *rules,
                            nodes@,
                            cur@,
                            i,
                        ) by {
                            lemma_node_ok_grow::<M, F, S, R>(
                                *rules,
                                nodes_before,
                                cur_before,
                                nodes@,
                                cur@,
                                i,
                            );
                        }
                        assert forall|k: int| 0 <= k < j implies cur@[row@[k].1 as int]
                            == cur_before[row@[k].1 as int] by {
                            assert(cur@.subrange(0, cur_before.len() as int)[row@[k].1 as int]
                                == cur@[row@[k].1 as int]);
                        }
                    }
                    row.push((e.0, u, e.1));
                    j += 1;
                }
                let ghost nodes_before = nodes@;
                nodes.set(index, GameTreeNode::RandomEvent(row));
                proof {
                    assert(nodes@.subrange(0, n0 as int) =~= old(nodes)@);
                    assert forall|i: int| n0 < i < nodes@.len() implies node_ok::<M, F, S, R>(
                        *rules,
                        nodes@,
                        cur@,
                        i,
                    ) by {
                        assert(nodes@[i] == nodes_before[i]);
                        assert(node_ok::<M, F, S, R>(*rules, nodes_before, cur@, i));
                    }
                    assert(node_ok::<M, F, S, R>(*rules, nodes@, cur@, index as int));
                }
                Ok(cur)
            }
            State::FirstToMove => {
                let obs = path.to_first();
                proof {
                    lemma_play_projects(*path);
                }
                let events = rules.ask_first(obs);
                let n = events.len();
                if n == 0 {
                    assert(!rules_sound::<M, F, S, R>(*rules));
                    return Err(BuildError::NoLegalMoves);
                }
                nodes.push(GameTreeNode::GameOver(Ratio::zero()));
                let mut cur: Ghost<Seq<Seq<M>>> = Ghost(hist@.push(h));
                proof {
                    assert(nodes@.subrange(0, n0 as int) =~= old(nodes)@);
                    assert(cur@.subrange(0, n0 as int) =~= hist@);
                }
                let mut row: Vec<(M, usize)> = Vec::new();
                let mut j: usize = 0;
                while j < n
                    invariant
                        j <= n,
                        n == events@.len(),
                        n > 0,
                        events@ == rules.spec_first_moves(project::<M, F>(h)),
                        rules.spec_state(h) is FirstToMove,
                        rules.spec_horizon() > h.len(),
                        depth@ == h,
                        path.wf(),
                        path.moves@ == h,
                        nodes@.len() > n0 + 0,
                        j == 0 ==> nodes@.len() == n0 + 1,
                        index == n0,
                        cur@.len() == nodes@.len(),
                        nodes@.subrange(0, n0 as int) == old(nodes)@,
                        cur@.subrange(0, n0 as int) == hist@,
                        cur@[n0 as int] == h,
                        row@.len() == j,
                        forall|k: int|
                            0 <= k < j ==> {
                                &&& (#[trigger] row@[k]).0 == events@[k]
                                &&& n0 < row@[k].1 < nodes@.len()
                                &&& cur@[row@[k].1 as int] == h.push(row@[k].0)
                            },
                        j > 0 ==> row@[0].1 == n0 + 1,
                        forall|k1: int, k2: int|
                            0 <= k1 < k2 < j ==> (#[trigger] row@[k1]).1
                                < (#[trigger] row@[k2]).1,
                        forall|i: int|
                            n0 < i < nodes@.len() ==> node_ok::<M, F, S, R>(
                                *rules,
                                nodes@,
                                cur@,
                                i,
                            ),
                    decreases n - j,
                {
                    let m = events[j];
                    let u = nodes.len();
                    let ghost nodes_before = nodes@;
                    let ghost cur_before = cur@;
                    path.push_move(m);
                    let r = Self::build(rules, nodes, cur, path, Ghost(h.push(m)));
                    match r {
                        Err(err) => {
                            return Err(err);
                        }
                        Ok(g2) => {
                            cur = g2;
                        }
                    }
                    path.pop_move();
                    proof {
                        assert(path.moves@ =~= h);
                        assert(nodes@.subrange(0, n0 as int) =~= old(nodes)@);
                        assert(cur@.subrange(0, n0 as int) =~= hist@);
                        assert(cur@[n0 as int] == cur_before[n0 as int]);
                        assert forall|i: int|
                            n0 < i < nodes_before.len() implies node_ok::<M, F, S, R>(
                            *rules,
                            nodes@,
                            cur@,
                            i,
                        ) by {
                            lemma_node_ok_grow::<M, F, S, R>(
                                *rules,
                                nodes_before,
                                cur_before,
                                nodes@,
                                cur@,
                                i,
                            );
                        }
                        assert forall|k: int| 0 <= k < j implies cur@[row@[k].1 as int]
                            == cur_before[row@[k].1 as int] by {
                            assert(cur@.subrange(0, cur_before.len() as int)[row@[k].1 as int]
                                == cur@[row@[k].1 as int]);
                        }
                    }
                    row.push((m, u));
                    j += 1;
                }
                let ghost nodes_before = nodes@;
                nodes.set(index, GameTreeNode::FirstMoves(row));
                proof {
                    assert(nodes@.subrange(0, n0 as int) =~= old(nodes)@);
                    assert forall|i: int| n0 < i < nodes@.len() implies node_ok::<M, F, S, R>(
                        *rules,
                        nodes@,
                        cur@,
                        i,
                    ) by {
                        assert(nodes@[i] == nodes_before[i]);
                        assert(node_ok::<M, F, S, R>(*rules, nodes_before, cur@, i));
                    }
                    assert(node_ok::<M, F, S, R>(*rules, nodes@, cur@, index as int));
                }
                Ok(cur)
            }
            State::SecondToMove => {
                let obs = path.to_second();
                proof {
                    lemma_play_projects(*path);
                }
                let events = rules.ask_second(obs);
                let n = events.len();
                if n == 0 {
                    assert(!rules_sound::<M, F, S, R>(*rules));
                    return Err(BuildError::NoLegalMoves);
                }
                nodes.push(GameTreeNode::GameOver(Ratio::zero()));
                let mut cur: Ghost<Seq<Seq<M>>> = Ghost(hist@.push(h));
                proof {
                    assert(nodes@.subrange(0, n0 as int) =~= old(nodes)@);
                    assert(cur@.subrange(0, n0 as int) =~= hist@);
                }
                let mut row: Vec<(M, usize)> = Vec::new();
                let mut j: usize = 0;
                while j < n
                    invariant
                        j <= n,
                        n == events@.len(),
                        n > 0,
                        events@ == rules.spec_second_moves(project::<M, S>(h)),
                        rules.spec_state(h) is SecondToMove,
                        rules.spec_horizon() > h.len(),
                        depth@ == h,
                        path.wf(),
                        path.moves@ == h,
                        nodes@.len() > n0 + 0,
                        j == 0 ==> nodes@.len() == n0 + 1,
                        index == n0,
                        cur@.len() == nodes@.len(),
                        nodes@.subrange(0, n0 as int) == old(nodes)@,
                        cur@.subrange(0, n0 as int) == hist@,
                        cur@[n0 as int] == h,
                        row@.len() == j,
                        forall|k: int|
                            0 <= k < j ==> {
                                &&& (#[trigger] row@[k]).0 == events@[k]
                                &&& n0 < row@[k].1 < nodes@.len()
                                &&& cur@[row@[k].1 as int] == h.push(row@[k].0)
                            },
                        j > 0 ==> row@[0].1 == n0 + 1,
                        forall|k1: int, k2: int|
                            0 <= k1 < k2 < j ==> (#[trigger] row@[k1]).1
                                < (#[trigger] row@[k2]).1,
                        forall|i: int|
                            n0 < i < nodes@.len() ==> node_ok::<M, F, S, R>(
                                *rules,
                                nodes@,
                                cur@,
                                i,
                            ),
                    decreases n - j,
                {
                    let m = events[j];
                    let u = nodes.len();
                    let ghost nodes_before = nodes@;
                    let ghost cur_before = cur@;
                    path.push_move(m);
                    let r = Self::build(rules, nodes, cur, path, Ghost(h.push(m)));
                    match r {
                        Err(err) => {
                            return Err(err);
                        }
                        Ok(g2) => {
                            cur = g2;
                        }
                    }
                    path.pop_move();
                    proof {
                        assert(path.moves@ =~= h);
                        assert(nodes@.subrange(0, n0 as int) =~= old(nodes)@);
                        assert(cur@.subrange(0, n0 as int) =~= hist@);
                        assert(cur@[n0 as int] == cur_before[n0 as int]);
                        assert forall|i: int|
                            n0 < i < nodes_before.len() implies node_ok::<M, F, S, R>(
                            *rules,
                            nodes@,
                            cur@,
                            i,
                        ) by {
                            lemma_node_ok_grow::<M, F, S, R>(
                                *rules,
                                nodes_before,
                                cur_before,
                                nodes@,
                                cur@,
                                i,
                            );
                        }
                        assert forall|k: int| 0 <= k < j implies cur@[row@[k].1 as int]
                            == cur_before[row@[k].1 as int] by {
                            assert(cur@.subrange(0, cur_before.len() as int)[row@[k].1 as int]
                                == cur@[row@[k].1 as int]);
                        }
                    }
                    row.push((m, u));
                    j += 1;
                }
                let ghost nodes_before = nodes@;
                nodes.set(index, GameTreeNode::SecondMoves(row));
                proof {
                    assert(nodes@.subrange(0, n0 as int) =~= old(nodes)@);
                    assert forall|i: int| n0 < i < nodes@.len() implies node_ok::<M, F, S, R>(
                        *rules,
                        nodes@,
                        cur@,
                        i,
                    ) by {
                        assert(nodes@[i] == nodes_before[i]);
                        assert(node_ok::<M, F, S, R>(*rules, nodes_before, cur@, i));
                    }
                    assert(node_ok::<M, F, S, R>(*rules, nodes@, cur@, index as int));
                }
                Ok(cur)
            }
        }
    }

    /// Expands a rule set into its full game tree.  Succeeds on every sound
    /// rule set; a returned tree is well-formed, so in particular every
    /// chance node's probabilities sum to one within tolerance.
    pub fn from_rules(rules: R) -> (res: Result<Self, BuildError>)
        ensures
            rules_sound::<M, F, S, R>(rules) ==> res is Ok,
            res matches Ok(t) ==> t.wf() && t.rules == rules,
    {
        let mut nodes: Vec<GameTreeNode<M>> = Vec::new();
        let mut path: Play<M, F, S> = Play::new();
        let hist: Ghost<Seq<Seq<M>>> = Ghost(Seq::empty());
        let ghost d = path.moves@;
        proof {
            assert(d =~= Seq::<M>::empty());
        }
        match Self::build(&rules, &mut nodes, hist, &mut path, Ghost(d)) {
            Err(e) => Err(e),
            Ok(h2) => {
                let t = GameTree {
                    rules,
                    nodes,
                    histories: h2,
                    _phantom_f: PhantomData,
                    _phantom_s: PhantomData,
                };
                Ok(t)
            }
        }
    }
}

/// A prefix of a summation whose running sums all fit also has fitting
/// running sums.
proof fn lemma_sum_fits_prefix(probs: Seq<Ratio>, i: int)
    requires
        0 <= i <= probs.len(),
        sum_fits(probs),
    ensures
        sum_fits(probs.take(i)),
    decreases probs.len() - i,
{
    if i == probs.len() {
        assert(probs.take(i) =~= probs);
    } else {
        lemma_sum_fits_prefix(probs, i + 1);
        assert(probs.take(i + 1).drop_last() =~= probs.take(i));
    }
}

/// Executable tolerance check: is the exact value of `r` within
/// `1 / CHANCE_TOLERANCE_DEN` of one?
fn ratio_near_one(r: Ratio) -> (b: bool)
    requires
        r.wf(),
    ensures
        b == near_one(r.v()),
{
    let diff: i128 = r.num as i128 - r.den as i128;
    let mag: i128 = if diff >= 0 {
        diff
    } else {
        -diff
    };
    let tol: i128 = 1_000_000;
    proof {
        assert(tol == crate::game_tree::rules::CHANCE_TOLERANCE_DEN as i128);
        assert(0 <= mag < 0x2_0000_0000_0000_0000i128);
        assert(i128::MIN <= mag * tol <= i128::MAX) by (nonlinear_arith)
            requires
                0 <= mag < 0x2_0000_0000_0000_0000i128,
                tol == 1_000_000i128,
        ;
    }
    mag * tol <= r.den as i128
}

/// The first matching edge of a decision row, scanning in order.
pub open spec fn edge_target<M: Move>(row: Seq<(M, usize)>, m: M) -> Option<usize>
    decreases row.len(),
{
    if row.len() == 0 {
        None
    } else if row[0].0 == m {
        Some(row[0].1)
    } else {
        edge_target(row.drop_first(), m)
    }
}

proof fn lemma_edge_skip<M: Move>(row: Seq<(M, usize)>, m: M, i: int)
    requires
        0 <= i <= row.len(),
        forall|k: int| 0 <= k < i ==> (#[trigger] row[k]).0 != m,
    ensures
        edge_target(row, m) == edge_target(row.skip(i), m),
    decreases i,
{
    if i == 0 {
        assert(row.skip(0) =~= row);
    } else {
        lemma_edge_skip(row.drop_first(), m, i - 1);
        assert(row.drop_first().skip(i - 1) =~= row.skip(i));
    }
}

/// A found edge means the move occurs in the row.
proof fn lemma_edge_target_member<M: Move>(row: Seq<(M, usize)>, m: M)
    requires
        edge_target(row, m) is Some,
    ensures
        exists|k: int| 0 <= k < row.len() && (#[trigger] row[k]).0 == m,
    decreases row.len(),
{
    if row[0].0 == m {
        assert(row[0].0 == m);
    } else {
        lemma_edge_target_member(row.drop_first(), m);
        let rest = row.drop_first();
        let k = choose|k: int| 0 <= k < rest.len() && (#[trigger] rest[k]).0 == m;
        assert(row[k + 1] == rest[k]);
    }
}

/// Sequence prefixing is transitive.
proof fn lemma_prefix_trans<A>(a: Seq<A>, b: Seq<A>, c: Seq<A>)
    requires
        a.is_prefix_of(b),
        b.is_prefix_of(c),
    ensures
        a.is_prefix_of(c),
{
    assert(a =~= c.subrange(0, a.len() as int));
}

/// The `(move, child)` pairs leaving a node, whatever its kind.
pub open spec fn edges<M: Move>(node: GameTreeNode<M>) -> Seq<(M, usize)> {
    match node {
        GameTreeNode::RandomEvent(row) => row@.map(|_i: int, t: (M, usize, Ratio)| (t.0, t.1)),
        GameTreeNode::FirstMoves(row) => row@,
        GameTreeNode::SecondMoves(row) => row@,
        GameTreeNode::GameOver(_) => Seq::empty(),
    }
}

impl<M: Move, F: Observation<M>, S: Observation<M>, R: GameRules<M, F, S>> GameTree<M, F, S, R> {
    /// The exact expected payoff of the subtree at `v` under a strategy
    /// pair: chance nodes take the probability-weighted sum over all
    /// children, decision nodes follow the strategy's move.  `None` where a
    /// strategy leaves the walk undefined.
    pub open spec fn value_from<FS: FirstStrategy<M, F>, SS: SecondStrategy<M, S>>(
        self,
        f: FS,
        s: SS,
        h: Seq<M>,
        v: int,
    ) -> Option<QVal>
        decreases self.nodes@.len() - v, 1int, 0int,
    {
        if !(0 <= v < self.nodes@.len()) {
            None
        } else {
            match self.nodes@[v] {
                GameTreeNode::GameOver(x) => Some(x.v()),
                GameTreeNode::RandomEvent(row) => self.chance_sum(f, s, h, v, row@),
                GameTreeNode::FirstMoves(row) => match f.spec_move(project::<M, F>(h)) {
                    None => None,
                    Some(m) => match edge_target(row@, m) {
                        None => None,
                        Some(c) => if v < c < self.nodes@.len() {
                            self.value_from(f, s, h.push(m), c as int)
                        } else {
                            None
                        },
                    },
                },
                GameTreeNode::SecondMoves(row) => match s.spec_move(project::<M, S>(h)) {
                    None => None,
                    Some(m) => match edge_target(row@, m) {
                        None => None,
                        Some(c) => if v < c < self.nodes@.len() {
                            self.value_from(f, s, h.push(m), c as int)
                        } else {
                            None
                        },
                    },
                },
            }
        }
    }

    /// The left-to-right probability-weighted sum over a chance row.
    pub open spec fn chance_sum<FS: FirstStrategy<M, F>, SS: SecondStrategy<M, S>>(
        self,
        f: FS,
        s: SS,
        h: Seq<M>,
        v: int,
        row: Seq<(M, usize, Ratio)>,
    ) -> Option<QVal>
        decreases self.nodes@.len() - v, 0int, row.len(),
    {
        if row.len() == 0 {
            Some((0int, 1int))
        } else {
            let rest = self.chance_sum(f, s, h, v, row.drop_last());
            let e = row.last();
            if !(v < e.1 < self.nodes@.len()) {
                None
            } else {
                let child = self.value_from(f, s, h.push(e.0), e.1 as int);
                if rest is Some && child is Some {
                    let prod = q_mul(child->Some_0, e.2.v());
                    if q_fits(prod) && q_fits(q_add(rest->Some_0, prod)) {
                        Some(q_add(rest->Some_0, prod))
                    } else {
                        None
                    }
                } else {
                    None
                }
            }
        }
    }

    /// A failed partial sum fails the whole chance row.
    proof fn lemma_chance_sum_none<FS: FirstStrategy<M, F>, SS: SecondStrategy<M, S>>(
        self,
        f: FS,
        s: SS,
        h: Seq<M>,
        v: int,
        row: Seq<(M, usize, Ratio)>,
        k: int,
    )
        requires
            0 <= k <= row.len(),
            self.chance_sum(f, s, h, v, row.take(k)) is None,
        ensures
            self.chance_sum(f, s, h, v, row) is None,
        decreases row.len() - k,
    {
        if k == row.len() {
            assert(row.take(k) =~= row);
        } else {
            assert(row.take(k + 1).drop_last() =~= row.take(k));
            assert(self.chance_sum(f, s, h, v, row.take(k + 1)) is None);
            self.lemma_chance_sum_none(f, s, h, v, row, k + 1);
        }
    }

    /// Tree walk under a pair of strategies, computing the expected payoff
    /// exactly.  `None` when a strategy leaves an information set undecided,
    /// names a move with no matching edge, or a sum leaves the representable
    /// range.
    fn dfs<FS: FirstStrategy<M, F>, SS: SecondStrategy<M, S>>(
        &self,
        f: &FS,
        s: &SS,
        path: &mut Play<M, F, S>,
        v: usize,
    ) -> (r: Option<Ratio>)
        requires
            self.wf(),
            old(path).wf(),
            v < self.nodes@.len(),
            old(path).moves@ == self.hist()[v as int],
        ensures
            final(path).wf(),
            final(path).moves@ == old(path).moves@,
            r is Some <==> self.value_from(*f, *s, old(path).moves@, v as int) is Some,
            r matches Some(x) ==> x.wf() && self.value_from(*f, *s, old(path).moves@, v as int)
                == Some(x.v()),
        decreases self.nodes@.len() - v,
    {
        let ghost h = path.moves@;
        proof {
            assert(node_ok::<M, F, S, R>(self.rules, self.nodes@, self.hist(), v as int));
        }
        match &self.nodes[v] {
            GameTreeNode::GameOver(x) => Some(*x),
            GameTreeNode::RandomEvent(row) => {
                let n = row.len();
                let mut acc = Ratio::zero();
                let mut j: usize = 0;
                while j < n
                    invariant
                        j <= n,
                        n == row@.len(),
                        self.wf(),
                        path.wf(),
                        path.moves@ == h,
                        h == old(path).moves@,
                        v < self.nodes@.len(),
                        h == self.hist()[v as int],
                        self.nodes@[v as int] matches GameTreeNode::RandomEvent(rr) && rr@
                            == row@,
                        chance_children_ok(self.nodes@.len() as int, self.hist(), v as int, h, row@),
                        forall|k: int|
                            0 <= k < n ==> (#[trigger] row@[k]).2.wf() && row@[k].2.num >= 0,
                        acc.wf(),
                        self.chance_sum(*f, *s, h, v as int, row@.take(j as int)) == Some(
                            acc.v(),
                        ),
                    decreases n - j,
                {
                    let e = row[j];
                    let ghost acc0 = acc;
                    proof {
                        assert(self.hist()[e.1 as int] == h.push(e.0));
                    }
                    path.push_move(e.0);
                    let c = self.dfs(f, s, path, e.1);
                    path.pop_move();
                    proof {
                        assert(path.moves@ =~= h);
                    }
                    proof {
                        assert(row@.take(j + 1).drop_last() =~= row@.take(j as int));
                        assert(row@.take(j + 1).last() == row@[j as int]);
                    }
                    let cv = match c {
                        None => {
                            proof {
                                self.lemma_chance_sum_none(*f, *s, h, v as int, row@, j + 1);
                            }
                            return None;
                        }
                        Some(cv) => cv,
                    };
                    let prod = match cv.checked_mul(e.2) {
                        None => {
                            proof {
                                assert(!q_fits(q_mul(cv.v(), e.2.v())));
                                self.lemma_chance_sum_none(*f, *s, h, v as int, row@, j + 1);
                            }
                            return None;
                        }
                        Some(p) => p,
                    };
                    let a2 = match acc.checked_add(prod) {
                        None => {
                            proof {
                                assert(!q_fits(q_add(acc.v(), prod.v())));
                                self.lemma_chance_sum_none(*f, *s, h, v as int, row@, j + 1);
                            }
                            return None;
                        }
                        Some(a) => a,
                    };
                    proof {
                        assert(self.value_from(*f, *s, h.push(e.0), e.1 as int) == Some(cv.v()));
                        assert(q_fits(prod.v()) && q_fits(a2.v()));
                        assert(self.chance_sum(*f, *s, h, v as int, row@.take(j + 1)) == Some(
                            a2.v(),
                        ));
                    }
                    acc = a2;
                    j += 1;
                }
                proof {
                    assert(row@.take(n as int) =~= row@);
                }
                Some(acc)
            }
            GameTreeNode::FirstMoves(row) => {
                proof {
                    lemma_play_projects(*path);
                }
                let turn = f.make_move(path.to_first());
                let m = match turn {
                    None => {
                        return None;
                    }
                    Some(m) => m,
                };
                let n = row.len();
                let mut j: usize = 0;
                while j < n
                    invariant
                        j <= n,
                        n == row@.len(),
                        self.wf(),
                        path.wf(),
                        path.moves@ == h,
                        h == old(path).moves@,
                        v < self.nodes@.len(),
                        h == self.hist()[v as int],
                        self.nodes@[v as int] matches GameTreeNode::FirstMoves(rr) && rr@
                            == row@,
                        children_ok(self.nodes@.len() as int, self.hist(), v as int, h, row@),
                        f.spec_move(project::<M, F>(h)) == Some(m),
                        forall|k: int| 0 <= k < j ==> (#[trigger] row@[k]).0 != m,
                    decreases n - j,
                {
                    if row[j].0.eq_move(&m) {
                        let u = row[j].1;
                        proof {
                            lemma_edge_skip(row@, m, j as int);
                            assert(row@.skip(j as int)[0] == row@[j as int]);
                            assert(edge_target(row@, m) == Some(u));
                            assert(self.hist()[u as int] == h.push(m));
                        }
                        path.push_move(m);
                        let ans = self.dfs(f, s, path, u);
                        path.pop_move();
                        proof {
                            assert(path.moves@ =~= h);
                        }
                        return ans;
                    }
                    j += 1;
                }
                proof {
                    lemma_edge_skip(row@, m, n as int);
                    assert(row@.skip(n as int) =~= Seq::<(M, usize)>::empty());
                }
                None
            }
            GameTreeNode::SecondMoves(row) => {
                proof {
                    lemma_play_projects(*path);
                }
                let turn = s.make_move(path.to_second());
                let m = match turn {
                    None => {
                        return None;
                    }
                    Some(m) => m,
                };
                let n = row.len();
                let mut j: usize = 0;
                while j < n
                    invariant
                        j <= n,
                        n == row@.len(),
                        self.wf(),
                        path.wf(),
                        path.moves@ == h,
                        h == old(path).moves@,
                        v < self.nodes@.len(),
                        h == self.hist()[v as int],
                        self.nodes@[v as int] matches GameTreeNode::SecondMoves(rr) && rr@
                            == row@,
                        children_ok(self.nodes@.len() as int, self.hist(), v as int, h, row@),
                        s.spec_move(project::<M, S>(h)) == Some(m),
                        forall|k: int| 0 <= k < j ==> (#[trigger] row@[k]).0 != m,
                    decreases n - j,
                {
                    if row[j].0.eq_move(&m) {
                        let u = row[j].1;
                        proof {
                            lemma_edge_skip(row@, m, j as int);
                            assert(row@.skip(j as int)[0] == row@[j as int]);
                            assert(edge_target(row@, m) == Some(u));
                            assert(self.hist()[u as int] == h.push(m));
                        }
                        path.push_move(m);
                        let ans = self.dfs(f, s, path, u);
                        path.pop_move();
                        proof {
                            assert(path.moves@ =~= h);
                        }
                        return ans;
                    }
                    j += 1;
                }
                proof {
                    lemma_edge_skip(row@, m, n as int);
                    assert(row@.skip(n as int) =~= Seq::<(M, usize)>::empty());
                }
                None
            }
        }
    }

    /// Expected payoff of the whole game under a pair of strategies, from
    /// the first player's perspective.  The result is pinned exactly by
    /// `value_from`, so repeated calls on identical inputs return identical
    /// payoffs.
    pub fn simulate<FS: FirstStrategy<M, F>, SS: SecondStrategy<M, S>>(
        &self,
        f: &FS,
        s: &SS,
    ) -> (r: Option<Ratio>)
        requires
            self.wf(),
        ensures
            r is Some <==> self.value_from(*f, *s, Seq::<M>::empty(), 0) is Some,
            r matches Some(x) ==> x.wf() && self.value_from(*f, *s, Seq::<M>::empty(), 0)
                == Some(x.v()),
    {
        let mut path: Play<M, F, S> = Play::new();
        proof {
            assert(path.moves@ =~= Seq::<M>::empty());
        }
        self.dfs(f, s, &mut path, 0)
    }
}

impl<M: Move, F: Observation<M>, S: Observation<M>, R: GameRules<M, F, S>> GameTree<M, F, S, R> {
    /// A strategy decides every first-player information set reachable from
    /// `v` when chance and the opponent move arbitrarily, and each decided
    /// move matches an edge of the tree.
    pub open spec fn first_complete(
        self,
        strat: NaiveStrategy<M, F>,
        h: Seq<M>,
        v: int,
    ) -> bool
        decreases self.nodes@.len() - v, 1int, 0int,
    {
        if !(0 <= v < self.nodes@.len()) {
            false
        } else {
            match self.nodes@[v] {
                GameTreeNode::GameOver(_) => true,
                GameTreeNode::FirstMoves(row) => match strat.lookup(project::<M, F>(h)) {
                    None => false,
                    Some(m) => match edge_target(row@, m) {
                        None => false,
                        Some(c) => v < c < self.nodes@.len() && self.first_complete(
                            strat,
                            h.push(m),
                            c as int,
                        ),
                    },
                },
                _ => self.first_children_complete(strat, h, v, edges(self.nodes@[v])),
            }
        }
    }

    /// `first_complete` holds below every child edge of `v`.
    pub open spec fn first_children_complete(
        self,
        strat: NaiveStrategy<M, F>,
        h: Seq<M>,
        v: int,
        es: Seq<(M, usize)>,
    ) -> bool
        decreases self.nodes@.len() - v, 0int, es.len(),
    {
        if es.len() == 0 {
            true
        } else {
            self.first_children_complete(strat, h, v, es.drop_last()) && {
                let e = es.last();
                v < e.1 < self.nodes@.len() && self.first_complete(strat, h.push(e.0), e.1 as int)
            }
        }
    }

    /// Completeness below every edge of a row gives completeness below each
    /// single edge.
    proof fn lemma_first_children_complete_at(
        self,
        strat: NaiveStrategy<M, F>,
        h: Seq<M>,
        v: int,
        es: Seq<(M, usize)>,
        j: int,
    )
        requires
            0 <= j < es.len(),
            self.first_children_complete(strat, h, v, es),
        ensures
            v < es[j].1 < self.nodes@.len(),
            self.first_complete(strat, h.push(es[j].0), es[j].1 as int),
        decreases es.len(),
    {
        if j == es.len() - 1 {
        } else {
            assert(es.drop_last()[j] == es[j]);
            self.lemma_first_children_complete_at(strat, h, v, es.drop_last(), j);
        }
    }

    /// A strategy decides every second-player information set reachable
    /// from `v`.
    pub open spec fn second_complete(
        self,
        strat: NaiveStrategy<M, S>,
        h: Seq<M>,
        v: int,
    ) -> bool
        decreases self.nodes@.len() - v, 1int, 0int,
    {
        if !(0 <= v < self.nodes@.len()) {
            false
        } else {
            match self.nodes@[v] {
                GameTreeNode::GameOver(_) => true,
                GameTreeNode::SecondMoves(row) => match strat.lookup(project::<M, S>(h)) {
                    None => false,
                    Some(m) => match edge_target(row@, m) {
                        None => false,
                        Some(c) => v < c < self.nodes@.len() && self.second_complete(
                            strat,
                            h.push(m),
                            c as int,
                        ),
                    },
                },
                _ => self.second_children_complete(strat, h, v, edges(self.nodes@[v])),
            }
        }
    }

    /// `second_complete` holds below every child edge of `v`.
    pub open spec fn second_children_complete(
        self,
        strat: NaiveStrategy<M, S>,
        h: Seq<M>,
        v: int,
        es: Seq<(M, usize)>,
    ) -> bool
        decreases self.nodes@.len() - v, 0int, es.len(),
    {
        if es.len() == 0 {
            true
        } else {
            self.second_children_complete(strat, h, v, es.drop_last()) && {
                let e = es.last();
                v < e.1 < self.nodes@.len() && self.second_complete(strat, h.push(e.0), e.1 as int)
            }
        }
    }

    /// See `lemma_first_children_complete_at`.
    proof fn lemma_second_children_complete_at(
        self,
        strat: NaiveStrategy<M, S>,
        h: Seq<M>,
        v: int,
        es: Seq<(M, usize)>,
        j: int,
    )
        requires
            0 <= j < es.len(),
            self.second_children_complete(strat, h, v, es),
        ensures
            v < es[j].1 < self.nodes@.len(),
            self.second_complete(strat, h.push(es[j].0), es[j].1 as int),
        decreases es.len(),
    {
        if j == es.len() - 1 {
        } else {
            assert(es.drop_last()[j] == es[j]);
            self.lemma_second_children_complete_at(strat, h, v, es.drop_last(), j);
        }
    }

    /// The walk under `strat` — the strategy's edge at its own decision
    /// nodes, every edge at chance and opponent nodes — visits a
    /// first-player decision node whose observation history is `o`.
    pub open spec fn first_reaches(
        self,
        strat: NaiveStrategy<M, F>,
        h: Seq<M>,
        v: int,
        o: Seq<F>,
    ) -> bool
        decreases self.nodes@.len() - v, 1int, 0int,
    {
        if !(0 <= v < self.nodes@.len()) {
            false
        } else {
            match self.nodes@[v] {
                GameTreeNode::GameOver(_) => false,
                GameTreeNode::FirstMoves(row) => project::<M, F>(h) == o || (match strat.lookup(
                    project::<M, F>(h),
                ) {
                    None => false,
                    Some(m) => match edge_target(row@, m) {
                        None => false,
                        Some(c) => v < c < self.nodes@.len() && self.first_reaches(
                            strat,
                            h.push(m),
                            c as int,
                            o,
                        ),
                    },
                }),
                _ => self.first_reaches_children(strat, h, v, edges(self.nodes@[v]), o),
            }
        }
    }

    /// `first_reaches` below some child edge of `v`.
    pub open spec fn first_reaches_children(
        self,
        strat: NaiveStrategy<M, F>,
        h: Seq<M>,
        v: int,
        es: Seq<(M, usize)>,
        o: Seq<F>,
    ) -> bool
        decreases self.nodes@.len() - v, 0int, es.len(),
    {
        if es.len() == 0 {
            false
        } else {
            self.first_reaches_children(strat, h, v, es.drop_last(), o) || {
                let e = es.last();
                v < e.1 < self.nodes@.len() && self.first_reaches(
                    strat,
                    h.push(e.0),
                    e.1 as int,
                    o,
                )
            }
        }
    }

    /// See `first_reaches`, with the players swapped.
    pub open spec fn second_reaches(
        self,
        strat: NaiveStrategy<M, S>,
        h: Seq<M>,
        v: int,
        o: Seq<S>,
    ) -> bool
        decreases self.nodes@.len() - v, 1int, 0int,
    {
        if !(0 <= v < self.nodes@.len()) {
            false
        } else {
            match self.nodes@[v] {
                GameTreeNode::GameOver(_) => false,
                GameTreeNode::SecondMoves(row) => project::<M, S>(h) == o || (match strat.lookup(
                    project::<M, S>(h),
                ) {
                    None => false,
                    Some(m) => match edge_target(row@, m) {
                        None => false,
                        Some(c) => v < c < self.nodes@.len() && self.second_reaches(
                            strat,
                            h.push(m),
                            c as int,
                            o,
                        ),
                    },
                }),
                _ => self.second_reaches_children(strat, h, v, edges(self.nodes@[v]), o),
            }
        }
    }

    /// `second_reaches` below some child edge of `v`.
    pub open spec fn second_reaches_children(
        self,
        strat: NaiveStrategy<M, S>,
        h: Seq<M>,
        v: int,
        es: Seq<(M, usize)>,
        o: Seq<S>,
    ) -> bool
        decreases self.nodes@.len() - v, 0int, es.len(),
    {
        if es.len() == 0 {
            false
        } else {
            self.second_reaches_children(strat, h, v, es.drop_last(), o) || {
                let e = es.last();
                v < e.1 < self.nodes@.len() && self.second_reaches(
                    strat,
                    h.push(e.0),
                    e.1 as int,
                    o,
                )
            }
        }
    }

    /// Reachability under a strategy survives extending the strategy: the
    /// walk only consults decided entries, which the extension shares.
    proof fn lemma_first_reaches_mono(
        self,
        sub: NaiveStrategy<M, F>,
        sup: NaiveStrategy<M, F>,
        h: Seq<M>,
        v: int,
        o: Seq<F>,
    )
        requires
            agrees_on(sub, sup),
            self.first_reaches(sub, h, v, o),
        ensures
            self.first_reaches(sup, h, v, o),
        decreases self.nodes@.len() - v, 1int, 0int,
    {
        match self.nodes@[v] {
            GameTreeNode::FirstMoves(row) => {
                if project::<M, F>(h) != o {
                    let m = sub.lookup(project::<M, F>(h))->Some_0;
                    assert(sup.lookup(project::<M, F>(h)) == Some(m));
                    let c = edge_target(row@, m)->Some_0;
                    self.lemma_first_reaches_mono(sub, sup, h.push(m), c as int, o);
                }
            }
            GameTreeNode::RandomEvent(_) => {
                self.lemma_first_reaches_children_mono(
                    sub,
                    sup,
                    h,
                    v,
                    edges(self.nodes@[v]),
                    o,
                );
            }
            GameTreeNode::SecondMoves(_) => {
                self.lemma_first_reaches_children_mono(
                    sub,
                    sup,
                    h,
                    v,
                    edges(self.nodes@[v]),
                    o,
                );
            }
            GameTreeNode::GameOver(_) => {}
        }
    }

    proof fn lemma_first_reaches_children_mono(
        self,
        sub: NaiveStrategy<M, F>,
        sup: NaiveStrategy<M, F>,
        h: Seq<M>,
        v: int,
        es: Seq<(M, usize)>,
        o: Seq<F>,
    )
        requires
            agrees_on(sub, sup),
            self.first_reaches_children(sub, h, v, es, o),
        ensures
            self.first_reaches_children(sup, h, v, es, o),
        decreases self.nodes@.len() - v, 0int, es.len(),
    {
        if self.first_reaches_children(sub, h, v, es.drop_last(), o) {
            self.lemma_first_reaches_children_mono(sub, sup, h, v, es.drop_last(), o);
        } else {
            let e = es.last();
            self.lemma_first_reaches_mono(sub, sup, h.push(e.0), e.1 as int, o);
        }
    }

    /// See `lemma_first_reaches_mono`.
    proof fn lemma_second_reaches_mono(
        self,
        sub: NaiveStrategy<M, S>,
        sup: NaiveStrategy<M, S>,
        h: Seq<M>,
        v: int,
        o: Seq<S>,
    )
        requires
            agrees_on(sub, sup),
            self.second_reaches(sub, h, v, o),
        ensures
            self.second_reaches(sup, h, v, o),
        decreases self.nodes@.len() - v, 1int, 0int,
    {
        match self.nodes@[v] {
            GameTreeNode::SecondMoves(row) => {
                if project::<M, S>(h) != o {
                    let m = sub.lookup(project::<M, S>(h))->Some_0;
                    assert(sup.lookup(project::<M, S>(h)) == Some(m));
                    let c = edge_target(row@, m)->Some_0;
                    self.lemma_second_reaches_mono(sub, sup, h.push(m), c as int, o);
                }
            }
            GameTreeNode::RandomEvent(_) => {
                self.lemma_second_reaches_children_mono(
                    sub,
                    sup,
                    h,
                    v,
                    edges(self.nodes@[v]),
                    o,
                );
            }
            GameTreeNode::FirstMoves(_) => {
                self.lemma_second_reaches_children_mono(
                    sub,
                    sup,
                    h,
                    v,
                    edges(self.nodes@[v]),
                    o,
                );
            }
            GameTreeNode::GameOver(_) => {}
        }
    }

    proof fn lemma_second_reaches_children_mono(
        self,
        sub: NaiveStrategy<M, S>,
        sup: NaiveStrategy<M, S>,
        h: Seq<M>,
        v: int,
        es: Seq<(M, usize)>,
        o: Seq<S>,
    )
        requires
            agrees_on(sub, sup),
            self.second_reaches_children(sub, h, v, es, o),
        ensures
            self.second_reaches_children(sup, h, v, es, o),
        decreases self.nodes@.len() - v, 0int, es.len(),
    {
        if self.second_reaches_children(sub, h, v, es.drop_last(), o) {
            self.lemma_second_reaches_children_mono(sub, sup, h, v, es.drop_last(), o);
        } else {
            let e = es.last();
            self.lemma_second_reaches_mono(sub, sup, h.push(e.0), e.1 as int, o);
        }
    }

    /// Reaching a set below one child reaches it below the row.
    proof fn lemma_first_reaches_children_any(
        self,
        strat: NaiveStrategy<M, F>,
        h: Seq<M>,
        v: int,
        es: Seq<(M, usize)>,
        j: int,
        o: Seq<F>,
    )
        requires
            0 <= j < es.len(),
            v < es[j].1 < self.nodes@.len(),
            self.first_reaches(strat, h.push(es[j].0), es[j].1 as int, o),
        ensures
            self.first_reaches_children(strat, h, v, es, o),
        decreases es.len(),
    {
        if j == es.len() - 1 {
        } else {
            assert(es.drop_last()[j] == es[j]);
            self.lemma_first_reaches_children_any(strat, h, v, es.drop_last(), j, o);
        }
    }

    /// See `lemma_first_reaches_children_any`.
    proof fn lemma_second_reaches_children_any(
        self,
        strat: NaiveStrategy<M, S>,
        h: Seq<M>,
        v: int,
        es: Seq<(M, usize)>,
        j: int,
        o: Seq<S>,
    )
        requires
            0 <= j < es.len(),
            v < es[j].1 < self.nodes@.len(),
            self.second_reaches(strat, h.push(es[j].0), es[j].1 as int, o),
        ensures
            self.second_reaches_children(strat, h, v, es, o),
        decreases es.len(),
    {
        if j == es.len() - 1 {
        } else {
            assert(es.drop_last()[j] == es[j]);
            self.lemma_second_reaches_children_any(strat, h, v, es.drop_last(), j, o);
        }
    }

    /// Every decided information set of the strategy is reached under the
    /// strategy itself: the table holds no entry the play can never use.
    pub open spec fn first_grounded(self, strat: NaiveStrategy<M, F>) -> bool {
        forall|j: int|
            0 <= j < strat.entry_views().len() ==> self.first_reaches(
                strat,
                Seq::<M>::empty(),
                0,
                (#[trigger] strat.entry_views()[j]).0,
            )
    }

    /// See `first_grounded`.
    pub open spec fn second_grounded(self, strat: NaiveStrategy<M, S>) -> bool {
        forall|j: int|
            0 <= j < strat.entry_views().len() ==> self.second_reaches(
                strat,
                Seq::<M>::empty(),
                0,
                (#[trigger] strat.entry_views()[j]).0,
            )
    }

    /// Every first-player information set occurring anywhere in the tree.
    pub open spec fn first_obs_set(self) -> Set<Seq<F>> {
        self.hist().map(|_i: int, hh: Seq<M>| project::<M, F>(hh)).to_set()
    }

    /// Every second-player information set occurring anywhere in the tree.
    pub open spec fn second_obs_set(self) -> Set<Seq<S>> {
        self.hist().map(|_i: int, hh: Seq<M>| project::<M, S>(hh)).to_set()
    }

    /// A partial strategy the enumerator may hold: distinct keys, each an
    /// information set of this tree.
    pub open spec fn first_supported(self, strat: NaiveStrategy<M, F>) -> bool {
        &&& forall|i: int, j: int|
            0 <= i < j < strat.entry_views().len() ==> (#[trigger] strat.entry_views()[i]).0 != (
            #[trigger] strat.entry_views()[j]).0
        &&& forall|i: int|
            0 <= i < strat.entry_views().len() ==> self.first_obs_set().contains(
                (#[trigger] strat.entry_views()[i]).0,
            )
    }

    /// See `first_supported`.
    pub open spec fn second_supported(self, strat: NaiveStrategy<M, S>) -> bool {
        &&& forall|i: int, j: int|
            0 <= i < j < strat.entry_views().len() ==> (#[trigger] strat.entry_views()[i]).0 != (
            #[trigger] strat.entry_views()[j]).0
        &&& forall|i: int|
            0 <= i < strat.entry_views().len() ==> self.second_obs_set().contains(
                (#[trigger] strat.entry_views()[i]).0,
            )
    }

    /// `e` is `strat` extended with one decision at a previously undecided
    /// information set of this tree.
    pub open spec fn first_extension_of(
        self,
        strat: NaiveStrategy<M, F>,
        e: NaiveStrategy<M, F>,
    ) -> bool {
        exists|o: Seq<F>, mv: M|
            #![trigger strat.lookup(o), strat.entry_views().push((o, mv))]
            {
                &&& strat.lookup(o) is None
                &&& self.first_obs_set().contains(o)
                &&& e.entry_views() == strat.entry_views().push((o, mv))
            }
    }

    /// Each member of `exts` is a one-step extension of `strat`.
    pub open spec fn first_extensions_ok(
        self,
        strat: NaiveStrategy<M, F>,
        exts: Seq<NaiveStrategy<M, F>>,
    ) -> bool {
        forall|i: int| 0 <= i < exts.len() ==> self.first_extension_of(strat, #[trigger] exts[i])
    }

    /// See `first_extension_of`.
    pub open spec fn second_extension_of(
        self,
        strat: NaiveStrategy<M, S>,
        e: NaiveStrategy<M, S>,
    ) -> bool {
        exists|o: Seq<S>, mv: M|
            #![trigger strat.lookup(o), strat.entry_views().push((o, mv))]
            {
                &&& strat.lookup(o) is None
                &&& self.second_obs_set().contains(o)
                &&& e.entry_views() == strat.entry_views().push((o, mv))
            }
    }

    /// Each member of `exts` is a one-step extension of `strat`.
    pub open spec fn second_extensions_ok(
        self,
        strat: NaiveStrategy<M, S>,
        exts: Seq<NaiveStrategy<M, S>>,
    ) -> bool {
        forall|i: int| 0 <= i < exts.len() ==> self.second_extension_of(strat, #[trigger] exts[i])
    }

    /// A supported strategy has no more entries than the tree has
    /// information sets.
    proof fn lemma_first_supported_bound(self, strat: NaiveStrategy<M, F>)
        requires
            self.first_supported(strat),
        ensures
            self.first_obs_set().finite(),
            strat.entry_views().len() <= self.first_obs_set().len(),
    {
        let keys = strat.entry_views().map(|_i: int, e: (Seq<F>, M)| e.0);
        assert(keys.no_duplicates()) by {
            assert forall|i: int, j: int|
                0 <= i < keys.len() && 0 <= j < keys.len() && i != j implies keys[i] != keys[j] by {
                if i < j {
                    assert(strat.entry_views()[i].0 != strat.entry_views()[j].0);
                } else {
                    assert(strat.entry_views()[j].0 != strat.entry_views()[i].0);
                }
            }
        }
        keys.unique_seq_to_set();
        seq_to_set_is_finite::<Seq<F>>(self.hist().map(|_i: int, hh: Seq<M>| project::<M, F>(hh)));
        assert(keys.to_set().subset_of(self.first_obs_set())) by {
            assert forall|o: Seq<F>| keys.to_set().contains(o) implies self.first_obs_set()
                .contains(o) by {
                let i = choose|i: int| 0 <= i < keys.len() && keys[i] == o;
                assert(strat.entry_views()[i].0 == o);
            }
        }
        lemma_len_subset(keys.to_set(), self.first_obs_set());
    }

    /// See `lemma_first_supported_bound`.
    proof fn lemma_second_supported_bound(self, strat: NaiveStrategy<M, S>)
        requires
            self.second_supported(strat),
        ensures
            self.second_obs_set().finite(),
            strat.entry_views().len() <= self.second_obs_set().len(),
    {
        let keys = strat.entry_views().map(|_i: int, e: (Seq<S>, M)| e.0);
        assert(keys.no_duplicates()) by {
            assert forall|i: int, j: int|
                0 <= i < keys.len() && 0 <= j < keys.len() && i != j implies keys[i] != keys[j] by {
                if i < j {
                    assert(strat.entry_views()[i].0 != strat.entry_views()[j].0);
                } else {
                    assert(strat.entry_views()[j].0 != strat.entry_views()[i].0);
                }
            }
        }
        keys.unique_seq_to_set();
        seq_to_set_is_finite::<Seq<S>>(self.hist().map(|_i: int, hh: Seq<M>| project::<M, S>(hh)));
        assert(keys.to_set().subset_of(self.second_obs_set())) by {
            assert forall|o: Seq<S>| keys.to_set().contains(o) implies self.second_obs_set()
                .contains(o) by {
                let i = choose|i: int| 0 <= i < keys.len() && keys[i] == o;
                assert(strat.entry_views()[i].0 == o);
            }
        }
        lemma_len_subset(keys.to_set(), self.second_obs_set());
    }

    /// No decision node offers the same move twice.  The enumerator's
    /// catalogue is duplicate-free exactly on such trees; a rule set that
    /// lists a legal move twice legitimately yields the same strategy once
    /// per listing.
    pub open spec fn decision_rows_distinct(self) -> bool {
        forall|v: int|
            0 <= v < self.nodes@.len() ==> match #[trigger] self.nodes@[v] {
                GameTreeNode::FirstMoves(row) => forall|j1: int, j2: int|
                    0 <= j1 < j2 < row@.len() ==> (#[trigger] row@[j1]).0 != (
                    #[trigger] row@[j2]).0,
                GameTreeNode::SecondMoves(row) => forall|j1: int, j2: int|
                    0 <= j1 < j2 < row@.len() ==> (#[trigger] row@[j1]).0 != (
                    #[trigger] row@[j2]).0,
                _ => true,
            }
    }

    /// `exts` is the full fan-out at one undecided first-player decision
    /// node reached under `strat` from `v`: exactly one extension per legal
    /// move of that node's row, each adding the single entry for that node's
    /// information set.
    pub open spec fn first_fan_out(
        self,
        strat: NaiveStrategy<M, F>,
        h: Seq<M>,
        v: int,
        exts: Seq<NaiveStrategy<M, F>>,
    ) -> bool {
        exists|w: int|
            #![trigger self.hist()[w]]
            {
                &&& 0 <= w < self.nodes@.len()
                &&& self.nodes@[w] is FirstMoves
                &&& strat.lookup(project::<M, F>(self.hist()[w])) is None
                &&& self.first_reaches(strat, h, v, project::<M, F>(self.hist()[w]))
                &&& exts.len() == self.nodes@[w]->FirstMoves_0@.len()
                &&& forall|k: int|
                    0 <= k < exts.len() ==> (#[trigger] exts[k]).entry_views()
                        == strat.entry_views().push(
                        (project::<M, F>(self.hist()[w]), self.nodes@[w]->FirstMoves_0@[k].0),
                    )
            }
    }

    /// See `first_fan_out`.
    pub open spec fn second_fan_out(
        self,
        strat: NaiveStrategy<M, S>,
        h: Seq<M>,
        v: int,
        exts: Seq<NaiveStrategy<M, S>>,
    ) -> bool {
        exists|w: int|
            #![trigger self.hist()[w]]
            {
                &&& 0 <= w < self.nodes@.len()
                &&& self.nodes@[w] is SecondMoves
                &&& strat.lookup(project::<M, S>(self.hist()[w])) is None
                &&& self.second_reaches(strat, h, v, project::<M, S>(self.hist()[w]))
                &&& exts.len() == self.nodes@[w]->SecondMoves_0@.len()
                &&& forall|k: int|
                    0 <= k < exts.len() ==> (#[trigger] exts[k]).entry_views()
                        == strat.entry_views().push(
                        (project::<M, S>(self.hist()[w]), self.nodes@[w]->SecondMoves_0@[k].0),
                    )
            }
    }

    /// Every complete strategy extending `strat` extends one of `exts`:
    /// refining `exts` loses no complete strategy below `v`.
    pub open spec fn first_catalogue_covers(
        self,
        strat: NaiveStrategy<M, F>,
        h: Seq<M>,
        v: int,
        exts: Seq<NaiveStrategy<M, F>>,
    ) -> bool {
        forall|sv: NaiveStrategy<M, F>|
            (#[trigger] self.first_complete(sv, h, v)) && agrees_on(strat, sv)
                ==> exists|k: int| 0 <= k < exts.len() && #[trigger] agrees_on(exts[k], sv)
    }

    /// One walk of the tree under a partial strategy.  `None` exactly when
    /// the strategy is complete along every branch reachable from `v`;
    /// `Some(exts)` hands back the strategy extended once per legal move at
    /// the first undecided information set found (or no extensions at all
    /// if the strategy names a move with no matching edge).  Every complete
    /// strategy refining the given one refines one of the extensions, so
    /// the fan-out loses nothing.
    #[verifier::rlimit(40)]
    fn check_first_strategy(
        &self,
        play: &mut Play<M, F, S>,
        strategy: &NaiveStrategy<M, F>,
        v: usize,
    ) -> (r: Option<Vec<NaiveStrategy<M, F>>>)
        requires
            self.wf(),
            old(play).wf(),
            v < self.nodes@.len(),
            old(play).moves@ == self.hist()[v as int],
        ensures
            final(play).wf(),
            final(play).moves@ == old(play).moves@,
            r is None <==> self.first_complete(*strategy, old(play).moves@, v as int),
            r matches Some(exts) ==> self.first_extensions_ok(*strategy, exts@),
            r matches Some(exts) ==> self.first_catalogue_covers(
                *strategy,
                old(play).moves@,
                v as int,
                exts@,
            ),
            r matches Some(exts) ==> forall|k: int|
                0 <= k < exts@.len() ==> (#[trigger] exts@[k]).entry_views().len()
                    == strategy.entry_views().len() + 1,
            r is Some && self.decision_rows_distinct() ==> forall|k1: int, k2: int|
                0 <= k1 < k2 < r->Some_0@.len() ==> (#[trigger] r->Some_0@[k1]).entry_views()
                    != (#[trigger] r->Some_0@[k2]).entry_views(),
            r is Some && r->Some_0@.len() > 0 ==> self.first_fan_out(
                *strategy,
                old(play).moves@,
                v as int,
                r->Some_0@,
            ),
        decreases self.nodes@.len() - v,
    {
        let ghost h = play.moves@;
        proof {
            assert(node_ok::<M, F, S, R>(self.rules, self.nodes@, self.hist(), v as int));
        }
        match &self.nodes[v] {
            GameTreeNode::GameOver(_) => None,
            GameTreeNode::FirstMoves(row) => {
                proof {
                    lemma_play_projects(*play);
                }
                let turn = strategy.get(play.to_first());
                match turn {
                    None => {
                        let n = row.len();
                        let mut exts: Vec<NaiveStrategy<M, F>> = Vec::new();
                        proof {
                            let mapped = self.hist().map(
                                |_i: int, hh: Seq<M>| project::<M, F>(hh),
                            );
                            assert(mapped[v as int] == project::<M, F>(h));
                            assert(mapped.contains(project::<M, F>(h)));
                            assert(self.first_obs_set().contains(project::<M, F>(h)));
                        }
                        let mut j: usize = 0;
                        while j < n
                            invariant
                                j <= n,
                                n == row@.len(),
                                play.wf(),
                                play.moves@ == h,
                                h == old(play).moves@,
                                strategy.lookup(project::<M, F>(h)) is None,
                                self.first_obs_set().contains(project::<M, F>(h)),
                                play.first@ == project::<M, F>(h),
                                exts@.len() == j,
                                forall|k: int|
                                    0 <= k < j ==> (#[trigger] exts@[k]).entry_views()
                                        == strategy.entry_views().push(
                                        (project::<M, F>(h), row@[k].0),
                                    ),
                            decreases n - j,
                        {
                            let mut q = strategy.duplicate();
                            let key = copy_obs_vec::<M, F>(play.to_first());
                            q.insert(key, row[j].0);
                            exts.push(q);
                            j += 1;
                        }
                        proof {
                            assert forall|i: int|
                                #![trigger exts@[i]]
                                0 <= i < exts@.len() implies self.first_extension_of(
                                *strategy,
                                exts@[i],
                            ) by {
                                let o = project::<M, F>(h);
                                let mv = row@[i].0;
                                assert(strategy.lookup(o) is None);
                                assert(self.first_obs_set().contains(o));
                                assert(exts@[i].entry_views() == strategy.entry_views().push(
                                    (o, mv),
                                ));
                            }
                            assert(self.first_extensions_ok(*strategy, exts@));
                            let o = project::<M, F>(h);
                            assert(!self.first_complete(*strategy, h, v as int));
                            assert forall|sv: NaiveStrategy<M, F>|
                                (#[trigger] self.first_complete(sv, h, v as int)) && agrees_on(
                                    *strategy,
                                    sv,
                                ) implies exists|k: int|
                                0 <= k < exts@.len() && #[trigger] agrees_on(exts@[k], sv) by {
                                assert(sv.lookup(o) is Some);
                                let m = sv.lookup(o)->Some_0;
                                assert(edge_target(row@, m) is Some);
                                lemma_edge_target_member(row@, m);
                                let k = choose|k: int|
                                    0 <= k < row@.len() && (#[trigger] row@[k]).0 == m;
                                assert(exts@[k].entry_views() == strategy.entry_views().push(
                                    (o, m),
                                ));
                                assert forall|q: Seq<F>|
                                    (#[trigger] exts@[k].lookup(q)) is Some implies sv.lookup(q)
                                    == exts@[k].lookup(q) by {
                                    lemma_lookup_push(strategy.entry_views(), (o, m), q);
                                    if q == o {
                                        assert(exts@[k].lookup(o) == Some(m));
                                    } else {
                                        assert(exts@[k].lookup(q) == strategy.lookup(q));
                                    }
                                }
                                assert(agrees_on(exts@[k], sv));
                            }
                            assert(self.first_catalogue_covers(*strategy, h, v as int, exts@));
                            if exts@.len() > 0 {
                                assert(self.hist()[v as int] == h);
                                assert(self.first_reaches(
                                    *strategy,
                                    h,
                                    v as int,
                                    project::<M, F>(h),
                                ));
                                assert(self.first_fan_out(*strategy, h, v as int, exts@));
                            }
                            if self.decision_rows_distinct() {
                                assert forall|k1: int, k2: int|
                                    0 <= k1 < k2 < exts@.len() implies (
                                #[trigger] exts@[k1]).entry_views() != (
                                #[trigger] exts@[k2]).entry_views() by {
                                    let sev = strategy.entry_views();
                                    assert(row@[k1].0 != row@[k2].0);
                                    assert(exts@[k1].entry_views()[sev.len() as int]
                                        == (project::<M, F>(h), row@[k1].0));
                                    assert(exts@[k2].entry_views()[sev.len() as int]
                                        == (project::<M, F>(h), row@[k2].0));
                                }
                            }
                        }
                        Some(exts)
                    }
                    Some(m) => {
                        let n = row.len();
                        let mut j: usize = 0;
                        while j < n
                            invariant
                                j <= n,
                                n == row@.len(),
                                self.wf(),
                                play.wf(),
                                play.moves@ == h,
                                h == old(play).moves@,
                                v < self.nodes@.len(),
                                h == self.hist()[v as int],
                                self.nodes@[v as int] matches GameTreeNode::FirstMoves(rr)
                                    && rr@ == row@,
                                children_ok(
                                    self.nodes@.len() as int,
                                    self.hist(),
                                    v as int,
                                    h,
                                    row@,
                                ),
                                strategy.lookup(project::<M, F>(h)) == Some(m),
                                forall|k: int| 0 <= k < j ==> (#[trigger] row@[k]).0 != m,
                            decreases n - j,
                        {
                            if row[j].0.eq_move(&m) {
                                let u = row[j].1;
                                proof {
                                    lemma_edge_skip(row@, m, j as int);
                                    assert(row@.skip(j as int)[0] == row@[j as int]);
                                    assert(edge_target(row@, m) == Some(u));
                                    assert(self.hist()[u as int] == h.push(m));
                                }
                                play.push_move(m);
                                let ans = self.check_first_strategy(play, strategy, u);
                                play.pop_move();
                                proof {
                                    assert(play.moves@ =~= h);
                                    if ans is Some {
                                        assert(!self.first_complete(
                                            *strategy,
                                            h.push(m),
                                            u as int,
                                        ));
                                        assert(!self.first_complete(*strategy, h, v as int));
                                        assert forall|sv: NaiveStrategy<M, F>|
                                            (#[trigger] self.first_complete(sv, h, v as int))
                                                && agrees_on(*strategy, sv) implies exists|k: int|
                                            0 <= k < ans->Some_0@.len() && #[trigger] agrees_on(
                                                ans->Some_0@[k],
                                                sv,
                                            ) by {
                                            assert(strategy.lookup(project::<M, F>(h)) is Some);
                                            assert(sv.lookup(project::<M, F>(h)) == Some(m));
                                            assert(self.first_complete(sv, h.push(m), u as int));
                                        }
                                        assert(self.first_catalogue_covers(
                                            *strategy,
                                            h,
                                            v as int,
                                            ans->Some_0@,
                                        ));
                                        if ans->Some_0@.len() > 0 {
                                            let w = choose|w: int|
                                                #![trigger self.hist()[w]]
                                                {
                                                    &&& 0 <= w < self.nodes@.len()
                                                    &&& self.nodes@[w] is FirstMoves
                                                    &&& strategy.lookup(
                                                        project::<M, F>(self.hist()[w]),
                                                    ) is None
                                                    &&& self.first_reaches(
                                                        *strategy,
                                                        h.push(m),
                                                        u as int,
                                                        project::<M, F>(self.hist()[w]),
                                                    )
                                                    &&& ans->Some_0@.len() == self.nodes@[
                                                        w
                                                    ]->FirstMoves_0@.len()
                                                    &&& forall|k: int|
                                                        0 <= k < ans->Some_0@.len() ==> (
                                                        #[trigger] ans->Some_0@[k]).entry_views()
                                                            == strategy.entry_views().push(
                                                            (
                                                                project::<M, F>(
                                                                    self.hist()[w],
                                                                ),
                                                                self.nodes@[w]->FirstMoves_0@[
                                                                    k
                                                                ].0,
                                                            ),
                                                        )
                                                };
                                            assert(self.first_reaches(
                                                *strategy,
                                                h,
                                                v as int,
                                                project::<M, F>(self.hist()[w]),
                                            ));
                                            assert(self.first_fan_out(
                                                *strategy,
                                                h,
                                                v as int,
                                                ans->Some_0@,
                                            ));
                                        }
                                    } else {
                                        assert(self.first_complete(*strategy, h, v as int));
                                    }
                                }
                                return ans;
                            }
                            j += 1;
                        }
                        // The strategy names a move with no matching edge: a
                        // contract violation by the strategy supplier; the
                        // walk is abandoned with no extensions.
                        proof {
                            lemma_edge_skip(row@, m, n as int);
                            assert(row@.skip(n as int) =~= Seq::<(M, usize)>::empty());
                            assert(!self.first_complete(*strategy, h, v as int));
                            assert forall|sv: NaiveStrategy<M, F>|
                                (#[trigger] self.first_complete(sv, h, v as int)) && agrees_on(
                                    *strategy,
                                    sv,
                                ) implies false by {
                                assert(strategy.lookup(project::<M, F>(h)) is Some);
                                assert(sv.lookup(project::<M, F>(h)) == Some(m));
                            }
                            assert(self.first_catalogue_covers(
                                *strategy,
                                h,
                                v as int,
                                Seq::<NaiveStrategy<M, F>>::empty(),
                            ));
                        }
                        Some(Vec::new())
                    }
                }
            }
            GameTreeNode::RandomEvent(row) => {
                let ghost es = edges(self.nodes@[v as int]);
                let n = row.len();
                let mut j: usize = 0;
                while j < n
                    invariant
                        j <= n,
                        n == row@.len(),
                        self.wf(),
                        play.wf(),
                        play.moves@ == h,
                        h == old(play).moves@,
                        v < self.nodes@.len(),
                        h == self.hist()[v as int],
                        self.nodes@[v as int] matches GameTreeNode::RandomEvent(rr) && rr@
                            == row@,
                        es == edges(self.nodes@[v as int]),
                        es.len() == n,
                        chance_children_ok(self.nodes@.len() as int, self.hist(), v as int, h, row@),
                        self.first_children_complete(*strategy, h, v as int, es.take(j as int)),
                    decreases n - j,
                {
                    let e = row[j];
                    proof {
                        assert(es[j as int] == (row@[j as int].0, row@[j as int].1));
                        assert(self.hist()[e.1 as int] == h.push(e.0));
                    }
                    play.push_move(e.0);
                    let ans = self.check_first_strategy(play, strategy, e.1);
                    play.pop_move();
                    proof {
                        assert(play.moves@ =~= h);
                    }
                    match ans {
                        Some(exts) => {
                            proof {
                                if self.first_complete(*strategy, h, v as int) {
                                    self.lemma_first_children_complete_at(
                                        *strategy,
                                        h,
                                        v as int,
                                        es,
                                        j as int,
                                    );
                                }
                                assert forall|sv: NaiveStrategy<M, F>|
                                    (#[trigger] self.first_complete(sv, h, v as int))
                                        && agrees_on(*strategy, sv) implies exists|k: int|
                                    0 <= k < exts@.len() && #[trigger] agrees_on(
                                        exts@[k],
                                        sv,
                                    ) by {
                                    self.lemma_first_children_complete_at(
                                        sv,
                                        h,
                                        v as int,
                                        es,
                                        j as int,
                                    );
                                    assert(self.first_complete(sv, h.push(e.0), e.1 as int));
                                }
                                assert(self.first_catalogue_covers(
                                    *strategy,
                                    h,
                                    v as int,
                                    exts@,
                                ));
                                if exts@.len() > 0 {
                                    let w = choose|w: int|
                                        #![trigger self.hist()[w]]
                                        {
                                            &&& 0 <= w < self.nodes@.len()
                                            &&& self.nodes@[w] is FirstMoves
                                            &&& strategy.lookup(
                                                project::<M, F>(self.hist()[w]),
                                            ) is None
                                            &&& self.first_reaches(
                                                *strategy,
                                                h.push(e.0),
                                                e.1 as int,
                                                project::<M, F>(self.hist()[w]),
                                            )
                                            &&& exts@.len() == self.nodes@[w]->FirstMoves_0@.len()
                                            &&& forall|k: int|
                                                0 <= k < exts@.len() ==> (#[trigger] exts@[
                                                    k
                                                ]).entry_views() == strategy.entry_views().push(
                                                    (
                                                        project::<M, F>(self.hist()[w]),
                                                        self.nodes@[w]->FirstMoves_0@[k].0,
                                                    ),
                                                )
                                        };
                                    self.lemma_first_reaches_children_any(
                                        *strategy,
                                        h,
                                        v as int,
                                        es,
                                        j as int,
                                        project::<M, F>(self.hist()[w]),
                                    );
                                    assert(self.first_reaches(
                                        *strategy,
                                        h,
                                        v as int,
                                        project::<M, F>(self.hist()[w]),
                                    ));
                                    assert(self.first_fan_out(*strategy, h, v as int, exts@));
                                }
                            }
                            return Some(exts);
                        }
                        None => {}
                    }
                    proof {
                        assert(es.take(j + 1).drop_last() =~= es.take(j as int));
                        assert(es.take(j + 1).last() == es[j as int]);
                    }
                    j += 1;
                }
                proof {
                    assert(es.take(n as int) =~= es);
                }
                None
            }
            GameTreeNode::SecondMoves(row) => {
                let ghost es = edges(self.nodes@[v as int]);
                let n = row.len();
                let mut j: usize = 0;
                while j < n
                    invariant
                        j <= n,
                        n == row@.len(),
                        self.wf(),
                        play.wf(),
                        play.moves@ == h,
                        h == old(play).moves@,
                        v < self.nodes@.len(),
                        h == self.hist()[v as int],
                        self.nodes@[v as int] matches GameTreeNode::SecondMoves(rr) && rr@
                            == row@,
                        es == edges(self.nodes@[v as int]),
                        es.len() == n,
                        children_ok(self.nodes@.len() as int, self.hist(), v as int, h, row@),
                        self.first_children_complete(*strategy, h, v as int, es.take(j as int)),
                    decreases n - j,
                {
                    let e = row[j];
                    proof {
                        assert(es[j as int] == row@[j as int]);
                        assert(self.hist()[e.1 as int] == h.push(e.0));
                    }
                    play.push_move(e.0);
                    let ans = self.check_first_strategy(play, strategy, e.1);
                    play.pop_move();
                    proof {
                        assert(play.moves@ =~= h);
                    }
                    match ans {
                        Some(exts) => {
                            proof {
                                if self.first_complete(*strategy, h, v as int) {
                                    self.lemma_first_children_complete_at(
                                        *strategy,
                                        h,
                                        v as int,
                                        es,
                                        j as int,
                                    );
                                }
                                assert forall|sv: NaiveStrategy<M, F>|
                                    (#[trigger] self.first_complete(sv, h, v as int))
                                        && agrees_on(*strategy, sv) implies exists|k: int|
                                    0 <= k < exts@.len() && #[trigger] agrees_on(
                                        exts@[k],
                                        sv,
                                    ) by {
                                    self.lemma_first_children_complete_at(
                                        sv,
                                        h,
                                        v as int,
                                        es,
                                        j as int,
                                    );
                                    assert(self.first_complete(sv, h.push(e.0), e.1 as int));
                                }
                                assert(self.first_catalogue_covers(
                                    *strategy,
                                    h,
                                    v as int,
                                    exts@,
                                ));
                                if exts@.len() > 0 {
                                    let w = choose|w: int|
                                        #![trigger self.hist()[w]]
                                        {
                                            &&& 0 <= w < self.nodes@.len()
                                            &&& self.nodes@[w] is FirstMoves
                                            &&& strategy.lookup(
                                                project::<M, F>(self.hist()[w]),
                                            ) is None
                                            &&& self.first_reaches(
                                                *strategy,
                                                h.push(e.0),
                                                e.1 as int,
                                                project::<M, F>(self.hist()[w]),
                                            )
                                            &&& exts@.len() == self.nodes@[w]->FirstMoves_0@.len()
                                            &&& forall|k: int|
                                                0 <= k < exts@.len() ==> (#[trigger] exts@[
                                                    k
                                                ]).entry_views() == strategy.entry_views().push(
                                                    (
                                                        project::<M, F>(self.hist()[w]),
                                                        self.nodes@[w]->FirstMoves_0@[k].0,
                                                    ),
                                                )
                                        };
                                    self.lemma_first_reaches_children_any(
                                        *strategy,
                                        h,
                                        v as int,
                                        es,
                                        j as int,
                                        project::<M, F>(self.hist()[w]),
                                    );
                                    assert(self.first_reaches(
                                        *strategy,
                                        h,
                                        v as int,
                                        project::<M, F>(self.hist()[w]),
                                    ));
                                    assert(self.first_fan_out(*strategy, h, v as int, exts@));
                                }
                            }
                            return Some(exts);
                        }
                        None => {}
                    }
                    proof {
                        assert(es.take(j + 1).drop_last() =~= es.take(j as int));
                        assert(es.take(j + 1).last() == es[j as int]);
                    }
                    j += 1;
                }
                proof {
                    assert(es.take(n as int) =~= es);
                }
                None
            }
        }
    }

    /// See `first_catalogue_covers`.
    pub open spec fn second_catalogue_covers(
        self,
        strat: NaiveStrategy<M, S>,
        h: Seq<M>,
        v: int,
        exts: Seq<NaiveStrategy<M, S>>,
    ) -> bool {
        forall|sv: NaiveStrategy<M, S>|
            (#[trigger] self.second_complete(sv, h, v)) && agrees_on(strat, sv)
                ==> exists|k: int| 0 <= k < exts.len() && #[trigger] agrees_on(exts[k], sv)
    }

    #[verifier::rlimit(40)]
    fn check_second_strategy(
        &self,
        play: &mut Play<M, F, S>,
        strategy: &NaiveStrategy<M, S>,
        v: usize,
    ) -> (r: Option<Vec<NaiveStrategy<M, S>>>)
        requires
            self.wf(),
            old(play).wf(),
            v < self.nodes@.len(),
            old(play).moves@ == self.hist()[v as int],
        ensures
            final(play).wf(),
            final(play).moves@ == old(play).moves@,
            r is None <==> self.second_complete(*strategy, old(play).moves@, v as int),
            r matches Some(exts) ==> self.second_extensions_ok(*strategy, exts@),
            r matches Some(exts) ==> self.second_catalogue_covers(
                *strategy,
                old(play).moves@,
                v as int,
                exts@,
            ),
            r matches Some(exts) ==> forall|k: int|
                0 <= k < exts@.len() ==> (#[trigger] exts@[k]).entry_views().len()
                    == strategy.entry_views().len() + 1,
            r is Some && self.decision_rows_distinct() ==> forall|k1: int, k2: int|
                0 <= k1 < k2 < r->Some_0@.len() ==> (#[trigger] r->Some_0@[k1]).entry_views()
                    != (#[trigger] r->Some_0@[k2]).entry_views(),
            r is Some && r->Some_0@.len() > 0 ==> self.second_fan_out(
                *strategy,
                old(play).moves@,
                v as int,
                r->Some_0@,
            ),
        decreases self.nodes@.len() - v,
    {
        let ghost h = play.moves@;
        proof {
            assert(node_ok::<M, F, S, R>(self.rules, self.nodes@, self.hist(), v as int));
        }
        match &self.nodes[v] {
            GameTreeNode::GameOver(_) => None,
            GameTreeNode::SecondMoves(row) => {
                proof {
                    lemma_play_projects(*play);
                }
                let turn = strategy.get(play.to_second());
                match turn {
                    None => {
                        let n = row.len();
                        let mut exts: Vec<NaiveStrategy<M, S>> = Vec::new();
                        proof {
                            let mapped = self.hist().map(
                                |_i: int, hh: Seq<M>| project::<M, S>(hh),
                            );
                            assert(mapped[v as int] == project::<M, S>(h));
                            assert(mapped.contains(project::<M, S>(h)));
                            assert(self.second_obs_set().contains(project::<M, S>(h)));
                        }
                        let mut j: usize = 0;
                        while j < n
                            invariant
                                j <= n,
                                n == row@.len(),
                                play.wf(),
                                play.moves@ == h,
                                h == old(play).moves@,
                                strategy.lookup(project::<M, S>(h)) is None,
                                self.second_obs_set().contains(project::<M, S>(h)),
                                play.second@ == project::<M, S>(h),
                                exts@.len() == j,
                                forall|k: int|
                                    0 <= k < j ==> (#[trigger] exts@[k]).entry_views()
                                        == strategy.entry_views().push(
                                        (project::<M, S>(h), row@[k].0),
                                    ),
                            decreases n - j,
                        {
                            let mut q = strategy.duplicate();
                            let key = copy_obs_vec::<M, S>(play.to_second());
                            q.insert(key, row[j].0);
                            exts.push(q);
                            j += 1;
                        }
                        proof {
                            assert forall|i: int|
                                #![trigger exts@[i]]
                                0 <= i < exts@.len() implies self.second_extension_of(
                                *strategy,
                                exts@[i],
                            ) by {
                                let o = project::<M, S>(h);
                                let mv = row@[i].0;
                                assert(strategy.lookup(o) is None);
                                assert(self.second_obs_set().contains(o));
                                assert(exts@[i].entry_views() == strategy.entry_views().push(
                                    (o, mv),
                                ));
                            }
                            assert(self.second_extensions_ok(*strategy, exts@));
                            let o = project::<M, S>(h);
                            assert(!self.second_complete(*strategy, h, v as int));
                            assert forall|sv: NaiveStrategy<M, S>|
                                (#[trigger] self.second_complete(sv, h, v as int)) && agrees_on(
                                    *strategy,
                                    sv,
                                ) implies exists|k: int|
                                0 <= k < exts@.len() && #[trigger] agrees_on(exts@[k], sv) by {
                                assert(sv.lookup(o) is Some);
                                let m = sv.lookup(o)->Some_0;
                                assert(edge_target(row@, m) is Some);
                                lemma_edge_target_member(row@, m);
                                let k = choose|k: int|
                                    0 <= k < row@.len() && (#[trigger] row@[k]).0 == m;
                                assert(exts@[k].entry_views() == strategy.entry_views().push(
                                    (o, m),
                                ));
                                assert forall|q: Seq<S>|
                                    (#[trigger] exts@[k].lookup(q)) is Some implies sv.lookup(q)
                                    == exts@[k].lookup(q) by {
                                    lemma_lookup_push(strategy.entry_views(), (o, m), q);
                                    if q == o {
                                        assert(exts@[k].lookup(o) == Some(m));
                                    } else {
                                        assert(exts@[k].lookup(q) == strategy.lookup(q));
                                    }
                                }
                                assert(agrees_on(exts@[k], sv));
                            }
                            assert(self.second_catalogue_covers(*strategy, h, v as int, exts@));
                            if exts@.len() > 0 {
                                assert(self.hist()[v as int] == h);
                                assert(self.second_reaches(
                                    *strategy,
                                    h,
                                    v as int,
                                    project::<M, S>(h),
                                ));
                                assert(self.second_fan_out(*strategy, h, v as int, exts@));
                            }
                            if self.decision_rows_distinct() {
                                assert forall|k1: int, k2: int|
                                    0 <= k1 < k2 < exts@.len() implies (
                                #[trigger] exts@[k1]).entry_views() != (
                                #[trigger] exts@[k2]).entry_views() by {
                                    let sev = strategy.entry_views();
                                    assert(row@[k1].0 != row@[k2].0);
                                    assert(exts@[k1].entry_views()[sev.len() as int]
                                        == (project::<M, S>(h), row@[k1].0));
                                    assert(exts@[k2].entry_views()[sev.len() as int]
                                        == (project::<M, S>(h), row@[k2].0));
                                }
                            }
                        }
                        Some(exts)
                    }
                    Some(m) => {
                        let n = row.len();
                        let mut j: usize = 0;
                        while j < n
                            invariant
                                j <= n,
                                n == row@.len(),
                                self.wf(),
                                play.wf(),
                                play.moves@ == h,
                                h == old(play).moves@,
                                v < self.nodes@.len(),
                                h == self.hist()[v as int],
                                self.nodes@[v as int] matches GameTreeNode::SecondMoves(rr)
                                    && rr@ == row@,
                                children_ok(
                                    self.nodes@.len() as int,
                                    self.hist(),
                                    v as int,
                                    h,
                                    row@,
                                ),
                                strategy.lookup(project::<M, S>(h)) == Some(m),
                                forall|k: int| 0 <= k < j ==> (#[trigger] row@[k]).0 != m,
                            decreases n - j,
                        {
                            if row[j].0.eq_move(&m) {
                                let u = row[j].1;
                                proof {
                                    lemma_edge_skip(row@, m, j as int);
                                    assert(row@.skip(j as int)[0] == row@[j as int]);
                                    assert(edge_target(row@, m) == Some(u));
                                    assert(self.hist()[u as int] == h.push(m));
                                }
                                play.push_move(m);
                                let ans = self.check_second_strategy(play, strategy, u);
                                play.pop_move();
                                proof {
                                    assert(play.moves@ =~= h);
                                    if ans is Some {
                                        assert(!self.second_complete(
                                            *strategy,
                                            h.push(m),
                                            u as int,
                                        ));
                                        assert(!self.second_complete(*strategy, h, v as int));
                                        assert forall|sv: NaiveStrategy<M, S>|
                                            (#[trigger] self.second_complete(sv, h, v as int))
                                                && agrees_on(*strategy, sv) implies exists|k: int|
                                            0 <= k < ans->Some_0@.len() && #[trigger] agrees_on(
                                                ans->Some_0@[k],
                                                sv,
                                            ) by {
                                            assert(strategy.lookup(project::<M, S>(h)) is Some);
                                            assert(sv.lookup(project::<M, S>(h)) == Some(m));
                                            assert(self.second_complete(sv, h.push(m), u as int));
                                        }
                                        assert(self.second_catalogue_covers(
                                            *strategy,
                                            h,
                                            v as int,
                                            ans->Some_0@,
                                        ));
                                        if ans->Some_0@.len() > 0 {
                                            let w = choose|w: int|
                                                #![trigger self.hist()[w]]
                                                {
                                                    &&& 0 <= w < self.nodes@.len()
                                                    &&& self.nodes@[w] is SecondMoves
                                                    &&& strategy.lookup(
                                                        project::<M, S>(self.hist()[w]),
                                                    ) is None
                                                    &&& self.second_reaches(
                                                        *strategy,
                                                        h.push(m),
                                                        u as int,
                                                        project::<M, S>(self.hist()[w]),
                                                    )
                                                    &&& ans->Some_0@.len() == self.nodes@[
                                                        w
                                                    ]->SecondMoves_0@.len()
                                                    &&& forall|k: int|
                                                        0 <= k < ans->Some_0@.len() ==> (
                                                        #[trigger] ans->Some_0@[k]).entry_views()
                                                            == strategy.entry_views().push(
                                                            (
                                                                project::<M, S>(
                                                                    self.hist()[w],
                                                                ),
                                                                self.nodes@[w]->SecondMoves_0@[
                                                                    k
                                                                ].0,
                                                            ),
                                                        )
                                                };
                                            assert(self.second_reaches(
                                                *strategy,
                                                h,
                                                v as int,
                                                project::<M, S>(self.hist()[w]),
                                            ));
                                            assert(self.second_fan_out(
                                                *strategy,
                                                h,
                                                v as int,
                                                ans->Some_0@,
                                            ));
                                        }
                                    } else {
                                        assert(self.second_complete(*strategy, h, v as int));
                                    }
                                }
                                return ans;
                            }
                            j += 1;
                        }
                        // The strategy names a move with no matching edge: a
                        // contract violation by the strategy supplier; the
                        // walk is abandoned with no extensions.
                        proof {
                            lemma_edge_skip(row@, m, n as int);
                            assert(row@.skip(n as int) =~= Seq::<(M, usize)>::empty());
                            assert(!self.second_complete(*strategy, h, v as int));
                            assert forall|sv: NaiveStrategy<M, S>|
                                (#[trigger] self.second_complete(sv, h, v as int)) && agrees_on(
                                    *strategy,
                                    sv,
                                ) implies false by {
                                assert(strategy.lookup(project::<M, S>(h)) is Some);
                                assert(sv.lookup(project::<M, S>(h)) == Some(m));
                            }
                            assert(self.second_catalogue_covers(
                                *strategy,
                                h,
                                v as int,
                                Seq::<NaiveStrategy<M, S>>::empty(),
                            ));
                        }
                        Some(Vec::new())
                    }
                }
            }
            GameTreeNode::RandomEvent(row) => {
                let ghost es = edges(self.nodes@[v as int]);
                let n = row.len();
                let mut j: usize = 0;
                while j < n
                    invariant
                        j <= n,
                        n == row@.len(),
                        self.wf(),
                        play.wf(),
                        play.moves@ == h,
                        h == old(play).moves@,
                        v < self.nodes@.len(),
                        h == self.hist()[v as int],
                        self.nodes@[v as int] matches GameTreeNode::RandomEvent(rr) && rr@
                            == row@,
                        es == edges(self.nodes@[v as int]),
                        es.len() == n,
                        chance_children_ok(self.nodes@.len() as int, self.hist(), v as int, h, row@),
                        self.second_children_complete(*strategy, h, v as int, es.take(j as int)),
                    decreases n - j,
                {
                    let e = row[j];
                    proof {
                        assert(es[j as int] == (row@[j as int].0, row@[j as int].1));
                        assert(self.hist()[e.1 as int] == h.push(e.0));
                    }
                    play.push_move(e.0);
                    let ans = self.check_second_strategy(play, strategy, e.1);
                    play.pop_move();
                    proof {
                        assert(play.moves@ =~= h);
                    }
                    match ans {
                        Some(exts) => {
                            proof {
                                if self.second_complete(*strategy, h, v as int) {
                                    self.lemma_second_children_complete_at(
                                        *strategy,
                                        h,
                                        v as int,
                                        es,
                                        j as int,
                                    );
                                }
                                assert forall|sv: NaiveStrategy<M, S>|
                                    (#[trigger] self.second_complete(sv, h, v as int))
                                        && agrees_on(*strategy, sv) implies exists|k: int|
                                    0 <= k < exts@.len() && #[trigger] agrees_on(
                                        exts@[k],
                                        sv,
                                    ) by {
                                    self.lemma_second_children_complete_at(
                                        sv,
                                        h,
                                        v as int,
                                        es,
                                        j as int,
                                    );
                                    assert(self.second_complete(sv, h.push(e.0), e.1 as int));
                                }
                                assert(self.second_catalogue_covers(
                                    *strategy,
                                    h,
                                    v as int,
                                    exts@,
                                ));
                                if exts@.len() > 0 {
                                    let w = choose|w: int|
                                        #![trigger self.hist()[w]]
                                        {
                                            &&& 0 <= w < self.nodes@.len()
                                            &&& self.nodes@[w] is SecondMoves
                                            &&& strategy.lookup(
                                                project::<M, S>(self.hist()[w]),
                                            ) is None
                                            &&& self.second_reaches(
                                                *strategy,
                                                h.push(e.0),
                                                e.1 as int,
                                                project::<M, S>(self.hist()[w]),
                                            )
                                            &&& exts@.len() == self.nodes@[w]->SecondMoves_0@.len()
                                            &&& forall|k: int|
                                                0 <= k < exts@.len() ==> (#[trigger] exts@[
                                                    k
                                                ]).entry_views() == strategy.entry_views().push(
                                                    (
                                                        project::<M, S>(self.hist()[w]),
                                                        self.nodes@[w]->SecondMoves_0@[k].0,
                                                    ),
                                                )
                                        };
                                    self.lemma_second_reaches_children_any(
                                        *strategy,
                                        h,
                                        v as int,
                                        es,
                                        j as int,
                                        project::<M, S>(self.hist()[w]),
                                    );
                                    assert(self.second_reaches(
                                        *strategy,
                                        h,
                                        v as int,
                                        project::<M, S>(self.hist()[w]),
                                    ));
                                    assert(self.second_fan_out(*strategy, h, v as int, exts@));
                                }
                            }
                            return Some(exts);
                        }
                        None => {}
                    }
                    proof {
                        assert(es.take(j + 1).drop_last() =~= es.take(j as int));
                        assert(es.take(j + 1).last() == es[j as int]);
                    }
                    j += 1;
                }
                proof {
                    assert(es.take(n as int) =~= es);
                }
                None
            }
            GameTreeNode::FirstMoves(row) => {
                let ghost es = edges(self.nodes@[v as int]);
                let n = row.len();
                let mut j: usize = 0;
                while j < n
                    invariant
                        j <= n,
                        n == row@.len(),
                        self.wf(),
                        play.wf(),
                        play.moves@ == h,
                        h == old(play).moves@,
                        v < self.nodes@.len(),
                        h == self.hist()[v as int],
                        self.nodes@[v as int] matches GameTreeNode::FirstMoves(rr) && rr@
                            == row@,
                        es == edges(self.nodes@[v as int]),
                        es.len() == n,
                        children_ok(self.nodes@.len() as int, self.hist(), v as int, h, row@),
                        self.second_children_complete(*strategy, h, v as int, es.take(j as int)),
                    decreases n - j,
                {
                    let e = row[j];
                    proof {
                        assert(es[j as int] == row@[j as int]);
                        assert(self.hist()[e.1 as int] == h.push(e.0));
                    }
                    play.push_move(e.0);
                    let ans = self.check_second_strategy(play, strategy, e.1);
                    play.pop_move();
                    proof {
                        assert(play.moves@ =~= h);
                    }
                    match ans {
                        Some(exts) => {
                            proof {
                                if self.second_complete(*strategy, h, v as int) {
                                    self.lemma_second_children_complete_at(
                                        *strategy,
                                        h,
                                        v as int,
                                        es,
                                        j as int,
                                    );
                                }
                                assert forall|sv: NaiveStrategy<M, S>|
                                    (#[trigger] self.second_complete(sv, h, v as int))
                                        && agrees_on(*strategy, sv) implies exists|k: int|
                                    0 <= k < exts@.len() && #[trigger] agrees_on(
                                        exts@[k],
                                        sv,
                                    ) by {
                                    self.lemma_second_children_complete_at(
                                        sv,
                                        h,
                                        v as int,
                                        es,
                                        j as int,
                                    );
                                    assert(self.second_complete(sv, h.push(e.0), e.1 as int));
                                }
                                assert(self.second_catalogue_covers(
                                    *strategy,
                                    h,
                                    v as int,
                                    exts@,
                                ));
                                if exts@.len() > 0 {
                                    let w = choose|w: int|
                                        #![trigger self.hist()[w]]
                                        {
                                            &&& 0 <= w < self.nodes@.len()
                                            &&& self.nodes@[w] is SecondMoves
                                            &&& strategy.lookup(
                                                project::<M, S>(self.hist()[w]),
                                            ) is None
                                            &&& self.second_reaches(
                                                *strategy,
                                                h.push(e.0),
                                                e.1 as int,
                                                project::<M, S>(self.hist()[w]),
                                            )
                                            &&& exts@.len() == self.nodes@[w]->SecondMoves_0@.len()
                                            &&& forall|k: int|
                                                0 <= k < exts@.len() ==> (#[trigger] exts@[
                                                    k
                                                ]).entry_views() == strategy.entry_views().push(
                                                    (
                                                        project::<M, S>(self.hist()[w]),
                                                        self.nodes@[w]->SecondMoves_0@[k].0,
                                                    ),
                                                )
                                        };
                                    self.lemma_second_reaches_children_any(
                                        *strategy,
                                        h,
                                        v as int,
                                        es,
                                        j as int,
                                        project::<M, S>(self.hist()[w]),
                                    );
                                    assert(self.second_reaches(
                                        *strategy,
                                        h,
                                        v as int,
                                        project::<M, S>(self.hist()[w]),
                                    ));
                                    assert(self.second_fan_out(*strategy, h, v as int, exts@));
                                }
                            }
                            return Some(exts);
                        }
                        None => {}
                    }
                    proof {
                        assert(es.take(j + 1).drop_last() =~= es.take(j as int));
                        assert(es.take(j + 1).last() == es[j as int]);
                    }
                    j += 1;
                }
                proof {
                    assert(es.take(n as int) =~= es);
                }
                None
            }
        }
    }


    /// Every complete first-player strategy extends a member of the
    /// catalogue: nothing is omitted.
    pub open spec fn first_catalogue_exhaustive(self, cat: Seq<NaiveStrategy<M, F>>) -> bool {
        forall|sv: NaiveStrategy<M, F>|
            (#[trigger] self.first_complete(sv, Seq::<M>::empty(), 0)) ==> exists|i: int|
                0 <= i < cat.len() && #[trigger] agrees_on(cat[i], sv)
    }

    /// See `first_catalogue_exhaustive`.
    pub open spec fn second_catalogue_exhaustive(self, cat: Seq<NaiveStrategy<M, S>>) -> bool {
        forall|sv: NaiveStrategy<M, S>|
            (#[trigger] self.second_complete(sv, Seq::<M>::empty(), 0)) ==> exists|i: int|
                0 <= i < cat.len() && #[trigger] agrees_on(cat[i], sv)
    }

    /// Depth-first refinement: emits every complete strategy derivable from
    /// `strategy` by deciding undecided information sets in every possible
    /// way.
    fn expand_first(&self, strategy: NaiveStrategy<M, F>, out: &mut Vec<NaiveStrategy<M, F>>)
        requires
            self.wf(),
            self.first_supported(strategy),
            self.first_grounded(strategy),
        ensures
            final(out)@.len() >= old(out)@.len(),
            final(out)@.subrange(0, old(out)@.len() as int) == old(out)@,
            forall|i: int|
                old(out)@.len() <= i < final(out)@.len() ==> self.first_complete(
                    #[trigger] final(out)@[i],
                    Seq::<M>::empty(),
                    0,
                ),
            self.first_catalogue_covers(strategy, Seq::<M>::empty(), 0, final(out)@),
            forall|i: int|
                old(out)@.len() <= i < final(out)@.len() ==> self.first_grounded(
                    #[trigger] final(out)@[i],
                ),
            forall|i: int|
                old(out)@.len() <= i < final(out)@.len() ==> self.first_supported(
                    #[trigger] final(out)@[i],
                ),
            forall|i: int|
                old(out)@.len() <= i < final(out)@.len() ==> strategy.entry_views().is_prefix_of(
                    (#[trigger] final(out)@[i]).entry_views(),
                ),
            self.decision_rows_distinct() ==> forall|i1: int, i2: int|
                old(out)@.len() <= i1 < i2 < final(out)@.len() ==> (
                #[trigger] final(out)@[i1]).entry_views() != (
                #[trigger] final(out)@[i2]).entry_views(),
            self.decision_rows_distinct() ==> forall|i1: int, i2: int|
                old(out)@.len() <= i1 < i2 < final(out)@.len() ==> differ_as_maps(
                    #[trigger] final(out)@[i1],
                    #[trigger] final(out)@[i2],
                ),
        decreases self.first_obs_set().len() - strategy.entry_views().len(),
    {
        proof {
            self.lemma_first_supported_bound(strategy);
        }
        let mut play: Play<M, F, S> = Play::new();
        proof {
            assert(play.moves@ =~= Seq::<M>::empty());
        }
        match self.check_first_strategy(&mut play, &strategy, 0) {
            None => {
                let ghost before = out@;
                out.push(strategy);
                proof {
                    assert(out@.subrange(0, before.len() as int) =~= before);
                    assert forall|sv: NaiveStrategy<M, F>|
                        (#[trigger] self.first_complete(sv, Seq::<M>::empty(), 0)) && agrees_on(
                            strategy,
                            sv,
                        ) implies exists|i: int|
                        0 <= i < out@.len() && #[trigger] agrees_on(out@[i], sv) by {
                        assert(out@[before.len() as int] == strategy);
                        assert(agrees_on(out@[before.len() as int], sv));
                    }
                    assert(self.first_catalogue_covers(strategy, Seq::<M>::empty(), 0, out@));
                    assert(self.first_grounded(out@[before.len() as int]));
                    assert(self.first_supported(out@[before.len() as int]));
                    assert(strategy.entry_views() =~= out@[before.len() as int].entry_views()
                        .subrange(0, strategy.entry_views().len() as int));
                }
            }
            Some(mut exts) => {
                let ghost exts0 = exts@;
                let ghost base = out@;
                proof {
                    assert(exts@ =~= exts0.take(exts@.len() as int));
                    assert(self.first_catalogue_covers(strategy, Seq::<M>::empty(), 0, exts0));
                    if exts0.len() > 0 {
                        assert(self.first_fan_out(strategy, Seq::<M>::empty(), 0, exts0));
                    }
                }
                while exts.len() > 0
                    invariant
                        self.wf(),
                        self.first_supported(strategy),
                        exts@.len() <= exts0.len(),
                        exts@ == exts0.take(exts@.len() as int),
                        self.first_extensions_ok(strategy, exts0),
                        out@.len() >= base.len(),
                        out@.subrange(0, base.len() as int) == base,
                        forall|i: int|
                            base.len() <= i < out@.len() ==> self.first_complete(
                                #[trigger] out@[i],
                                Seq::<M>::empty(),
                                0,
                            ),
                        forall|sv: NaiveStrategy<M, F>|
                            (#[trigger] self.first_complete(sv, Seq::<M>::empty(), 0))
                                && agrees_on(strategy, sv) ==> (exists|i: int|
                                0 <= i < out@.len() && #[trigger] agrees_on(out@[i], sv))
                                || (exists|k: int|
                                0 <= k < exts@.len() && #[trigger] agrees_on(exts0[k], sv)),
                        forall|k: int|
                            0 <= k < exts0.len() ==> (#[trigger] exts0[k]).entry_views().len()
                                == strategy.entry_views().len() + 1,
                        self.decision_rows_distinct() ==> forall|k1: int, k2: int|
                            0 <= k1 < k2 < exts0.len() ==> (#[trigger] exts0[k1]).entry_views()
                                != (#[trigger] exts0[k2]).entry_views(),
                        exts0.len() > 0 ==> self.first_fan_out(
                            strategy,
                            Seq::<M>::empty(),
                            0,
                            exts0,
                        ),
                        self.first_grounded(strategy),
                        forall|i: int|
                            base.len() <= i < out@.len() ==> self.first_grounded(#[trigger] out@[i]),
                        forall|i: int|
                            base.len() <= i < out@.len() ==> self.first_supported(#[trigger] out@[i]),
                        forall|i: int|
                            base.len() <= i < out@.len() ==> exists|k: int|
                                exts@.len() <= k < exts0.len() && (#[trigger] exts0[k])
                                    .entry_views().is_prefix_of(
                                    (#[trigger] out@[i]).entry_views(),
                                ),
                        self.decision_rows_distinct() ==> forall|i1: int, i2: int|
                            base.len() <= i1 < i2 < out@.len() ==> (
                            #[trigger] out@[i1]).entry_views() != (
                            #[trigger] out@[i2]).entry_views(),
                        self.decision_rows_distinct() ==> forall|i1: int, i2: int|
                            base.len() <= i1 < i2 < out@.len() ==> differ_as_maps(
                                #[trigger] out@[i1],
                                #[trigger] out@[i2],
                            ),
                        forall|i: int|
                            base.len() <= i < out@.len() ==> strategy.entry_views().is_prefix_of(
                                (#[trigger] out@[i]).entry_views(),
                            ),
                    decreases exts@.len(),
                {
                    let ghost pre = exts@;
                    let e = exts.pop().unwrap();
                    let ghost idx = exts@.len();
                    proof {
                        assert(exts@ =~= exts0.take(idx as int));
                        assert(e == pre.last());
                        assert(pre[idx as int] == exts0[idx as int]);
                        assert(self.first_extension_of(strategy, exts0[idx as int]));
                        let (o, mv) = choose|o: Seq<F>, mv: M|
                            #![trigger strategy.lookup(o), strategy.entry_views().push((o, mv))]
                            {
                                &&& strategy.lookup(o) is None
                                &&& self.first_obs_set().contains(o)
                                &&& e.entry_views() == strategy.entry_views().push((o, mv))
                            };
                        lemma_lookup_none_no_key(strategy.entry_views(), o);
                        let sev = strategy.entry_views();
                        assert forall|a: int, b: int|
                            0 <= a < b < e.entry_views().len() implies (
                        #[trigger] e.entry_views()[a]).0 != (#[trigger] e.entry_views()[b]).0 by {
                            if b < sev.len() {
                                assert(e.entry_views()[a] == sev[a]);
                                assert(e.entry_views()[b] == sev[b]);
                            } else {
                                assert(e.entry_views()[b] == (o, mv));
                                assert(e.entry_views()[a] == sev[a]);
                                assert(sev[a].0 != o);
                            }
                        }
                        assert forall|a: int|
                            0 <= a < e.entry_views().len() implies self.first_obs_set().contains(
                            (#[trigger] e.entry_views()[a]).0,
                        ) by {
                            if a < sev.len() {
                                assert(e.entry_views()[a] == sev[a]);
                            } else {
                                assert(e.entry_views()[a] == (o, mv));
                            }
                        }
                        assert(self.first_supported(e));
                        assert(e.entry_views().len() == sev.len() + 1);
                        self.lemma_first_supported_bound(e);
                        let ww = choose|ww: int|
                            #![trigger self.hist()[ww]]
                            {
                                &&& 0 <= ww < self.nodes@.len()
                                &&& self.nodes@[ww] is FirstMoves
                                &&& strategy.lookup(
                                    project::<M, F>(self.hist()[ww]),
                                ) is None
                                &&& self.first_reaches(
                                    strategy,
                                    Seq::<M>::empty(),
                                    0,
                                    project::<M, F>(self.hist()[ww]),
                                )
                                &&& exts0.len() == self.nodes@[ww]->FirstMoves_0@.len()
                                &&& forall|k: int|
                                    0 <= k < exts0.len() ==> (#[trigger] exts0[
                                        k
                                    ]).entry_views() == strategy.entry_views().push(
                                        (
                                            project::<M, F>(self.hist()[ww]),
                                            self.nodes@[ww]->FirstMoves_0@[k].0,
                                        ),
                                    )
                            };
                        let ow = project::<M, F>(self.hist()[ww]);
                        assert(e.entry_views() == sev.push(
                            (ow, self.nodes@[ww]->FirstMoves_0@[idx as int].0),
                        ));
                        assert forall|q: Seq<F>|
                            (#[trigger] strategy.lookup(q)) is Some implies e.lookup(q)
                            == strategy.lookup(q) by {
                            lemma_lookup_push(
                                sev,
                                (ow, self.nodes@[ww]->FirstMoves_0@[idx as int].0),
                                q,
                            );
                        }
                        assert(agrees_on(strategy, e));
                        assert forall|j2: int|
                            0 <= j2 < e.entry_views().len() implies self.first_reaches(
                            e,
                            Seq::<M>::empty(),
                            0,
                            e.entry_views()[j2].0,
                        ) by {
                            if j2 < sev.len() {
                                assert(e.entry_views()[j2] == sev[j2]);
                                assert(self.first_reaches(
                                    strategy,
                                    Seq::<M>::empty(),
                                    0,
                                    sev[j2].0,
                                ));
                                self.lemma_first_reaches_mono(
                                    strategy,
                                    e,
                                    Seq::<M>::empty(),
                                    0,
                                    sev[j2].0,
                                );
                            } else {
                                assert(e.entry_views()[j2].0 == ow);
                                self.lemma_first_reaches_mono(strategy, e, Seq::<M>::empty(), 0, ow);
                            }
                        }
                        assert(self.first_grounded(e));
                    }
                    let ghost mid = out@;
                    self.expand_first(e, out);
                    proof {
                        assert(out@.subrange(0, base.len() as int) =~= base);
                        assert forall|i: int|
                            base.len() <= i < out@.len() implies self.first_complete(
                            #[trigger] out@[i],
                            Seq::<M>::empty(),
                            0,
                        ) by {
                            if i < mid.len() {
                                assert(out@.subrange(0, mid.len() as int)[i] == out@[i]);
                                assert(mid[i] == out@[i]);
                            }
                        }
                        assert forall|sv: NaiveStrategy<M, F>|
                            (#[trigger] self.first_complete(sv, Seq::<M>::empty(), 0))
                                && agrees_on(strategy, sv) implies (exists|i: int|
                            0 <= i < out@.len() && #[trigger] agrees_on(out@[i], sv)) || (exists|
                        k: int|
                            0 <= k < exts@.len() && #[trigger] agrees_on(exts0[k], sv)) by {
                            if exists|i: int|
                                0 <= i < mid.len() && #[trigger] agrees_on(mid[i], sv) {
                                let i = choose|i: int|
                                    0 <= i < mid.len() && #[trigger] agrees_on(mid[i], sv);
                                assert(out@.subrange(0, mid.len() as int)[i] == out@[i]);
                                assert(agrees_on(out@[i], sv));
                            } else {
                                let k = choose|k: int|
                                    0 <= k < pre.len() && #[trigger] agrees_on(exts0[k], sv);
                                if k == idx {
                                    assert(agrees_on(e, sv));
                                    assert(self.first_catalogue_covers(e, Seq::<M>::empty(), 0, out@));
                                } else {
                                    assert(agrees_on(exts0[k], sv));
                                }
                            }
                        }
                        let ghost sev = strategy.entry_views();
                        assert(sev =~= e.entry_views().subrange(0, sev.len() as int));
                        assert(sev.is_prefix_of(e.entry_views()));
                        assert forall|i: int| base.len() <= i < out@.len() implies exists|k: int|
                            exts@.len() <= k < exts0.len() && (#[trigger] exts0[k]).entry_views()
                                .is_prefix_of((#[trigger] out@[i]).entry_views()) by {
                            if i < mid.len() {
                                assert(out@.subrange(0, mid.len() as int)[i] == out@[i]);
                                assert(out@[i] == mid[i]);
                                let k = choose|k: int|
                                    idx + 1 <= k < exts0.len() && (#[trigger] exts0[k])
                                        .entry_views().is_prefix_of(mid[i].entry_views());
                                assert(exts0[k].entry_views().is_prefix_of(
                                    out@[i].entry_views(),
                                ));
                            } else {
                                assert(exts0[idx as int].entry_views().is_prefix_of(
                                    out@[i].entry_views(),
                                ));
                            }
                        }
                        assert forall|i: int|
                            base.len() <= i < out@.len() implies self.first_grounded(
                            #[trigger] out@[i],
                        ) by {
                            if i < mid.len() {
                                assert(out@.subrange(0, mid.len() as int)[i] == out@[i]);
                                assert(out@[i] == mid[i]);
                            }
                        }
                        assert forall|i: int|
                            base.len() <= i < out@.len() implies self.first_supported(
                            #[trigger] out@[i],
                        ) by {
                            if i < mid.len() {
                                assert(out@.subrange(0, mid.len() as int)[i] == out@[i]);
                                assert(out@[i] == mid[i]);
                            }
                        }
                        assert forall|i: int|
                            base.len() <= i < out@.len() implies sev.is_prefix_of(
                            (#[trigger] out@[i]).entry_views(),
                        ) by {
                            if i < mid.len() {
                                assert(out@[i] == mid[i]);
                            } else {
                                lemma_prefix_trans(
                                    sev,
                                    e.entry_views(),
                                    out@[i].entry_views(),
                                );
                            }
                        }
                        if self.decision_rows_distinct() {
                            assert forall|i1: int, i2: int|
                                base.len() <= i1 < i2 < out@.len() implies (
                            #[trigger] out@[i1]).entry_views() != (
                            #[trigger] out@[i2]).entry_views() by {
                                if i2 < mid.len() {
                                    assert(out@[i1] == mid[i1] && out@[i2] == mid[i2]);
                                } else if i1 >= mid.len() {
                                } else {
                                    assert(out@[i1] == mid[i1]);
                                    let k = choose|k: int|
                                        idx + 1 <= k < exts0.len() && (#[trigger] exts0[k])
                                            .entry_views().is_prefix_of(mid[i1].entry_views());
                                    let p1 = exts0[k].entry_views();
                                    let p2 = exts0[idx as int].entry_views();
                                    assert(p1 != p2);
                                    let ghost width = p1.len();
                                    assert(p2.len() == width);
                                    assert(exists|pos: int|
                                        0 <= pos < width && p1[pos] != p2[pos]) by {
                                        if forall|pos: int|
                                            0 <= pos < width ==> p1[pos] == p2[pos] {
                                            assert(p1 =~= p2);
                                        }
                                    }
                                    let pos = choose|pos: int|
                                        0 <= pos < width && p1[pos] != p2[pos];
                                    assert(exts0[idx as int].entry_views().is_prefix_of(
                                        out@[i2].entry_views(),
                                    ));
                                    assert(out@[i1].entry_views()[pos] == p1[pos]);
                                    assert(out@[i2].entry_views()[pos] == p2[pos]);
                                }
                            }
                            assert forall|i1: int, i2: int|
                                base.len() <= i1 < i2 < out@.len() implies differ_as_maps(
                                #[trigger] out@[i1],
                                #[trigger] out@[i2],
                            ) by {
                                if i2 < mid.len() {
                                    assert(out@[i1] == mid[i1] && out@[i2] == mid[i2]);
                                } else if i1 >= mid.len() {
                                } else {
                                    assert(out@[i1] == mid[i1]);
                                    let k = choose|k: int|
                                        idx + 1 <= k < exts0.len() && (#[trigger] exts0[k])
                                            .entry_views().is_prefix_of(mid[i1].entry_views());
                                    let ww = choose|ww: int|
                                        #![trigger self.hist()[ww]]
                                        {
                                            &&& 0 <= ww < self.nodes@.len()
                                            &&& self.nodes@[ww] is FirstMoves
                                            &&& strategy.lookup(
                                                project::<M, F>(self.hist()[ww]),
                                            ) is None
                                            &&& self.first_reaches(
                                                strategy,
                                                Seq::<M>::empty(),
                                                0,
                                                project::<M, F>(self.hist()[ww]),
                                            )
                                            &&& exts0.len() == self.nodes@[
                                                ww
                                            ]->FirstMoves_0@.len()
                                            &&& forall|k2: int|
                                                0 <= k2 < exts0.len() ==> (#[trigger] exts0[
                                                    k2
                                                ]).entry_views() == strategy.entry_views().push(
                                                    (
                                                        project::<M, F>(self.hist()[ww]),
                                                        self.nodes@[ww]->FirstMoves_0@[k2].0,
                                                    ),
                                                )
                                        };
                                    let ow = project::<M, F>(self.hist()[ww]);
                                    let mk = self.nodes@[ww]->FirstMoves_0@[k].0;
                                    let mi = self.nodes@[ww]->FirstMoves_0@[idx as int].0;
                                    assert(mk != mi);
                                    assert(exts0[k].entry_views() == sev.push((ow, mk)));
                                    assert(exts0[idx as int].entry_views() == sev.push(
                                        (ow, mi),
                                    ));
                                    lemma_lookup_push(sev, (ow, mk), ow);
                                    lemma_lookup_push(sev, (ow, mi), ow);
                                    assert(lookup_entries(exts0[k].entry_views(), ow)
                                        == Some(mk));
                                    assert(lookup_entries(
                                        exts0[idx as int].entry_views(),
                                        ow,
                                    ) == Some(mi));
                                    lemma_lookup_extends(
                                        exts0[k].entry_views(),
                                        out@[i1].entry_views(),
                                        ow,
                                    );
                                    lemma_lookup_extends(
                                        exts0[idx as int].entry_views(),
                                        out@[i2].entry_views(),
                                        ow,
                                    );
                                    assert(out@[i1].lookup(ow) == Some(mk));
                                    assert(out@[i2].lookup(ow) == Some(mi));
                                    assert(out@[i1].lookup(ow) != out@[i2].lookup(ow));
                                }
                            }
                        }
                    }
                }
            }
        }
    }

    /// See `expand_first`.
    fn expand_second(&self, strategy: NaiveStrategy<M, S>, out: &mut Vec<NaiveStrategy<M, S>>)
        requires
            self.wf(),
            self.second_supported(strategy),
            self.second_grounded(strategy),
        ensures
            final(out)@.len() >= old(out)@.len(),
            final(out)@.subrange(0, old(out)@.len() as int) == old(out)@,
            forall|i: int|
                old(out)@.len() <= i < final(out)@.len() ==> self.second_complete(
                    #[trigger] final(out)@[i],
                    Seq::<M>::empty(),
                    0,
                ),
            self.second_catalogue_covers(strategy, Seq::<M>::empty(), 0, final(out)@),
            forall|i: int|
                old(out)@.len() <= i < final(out)@.len() ==> self.second_grounded(
                    #[trigger] final(out)@[i],
                ),
            forall|i: int|
                old(out)@.len() <= i < final(out)@.len() ==> self.second_supported(
                    #[trigger] final(out)@[i],
                ),
            forall|i: int|
                old(out)@.len() <= i < final(out)@.len() ==> strategy.entry_views().is_prefix_of(
                    (#[trigger] final(out)@[i]).entry_views(),
                ),
            self.decision_rows_distinct() ==> forall|i1: int, i2: int|
                old(out)@.len() <= i1 < i2 < final(out)@.len() ==> (
                #[trigger] final(out)@[i1]).entry_views() != (
                #[trigger] final(out)@[i2]).entry_views(),
            self.decision_rows_distinct() ==> forall|i1: int, i2: int|
                old(out)@.len() <= i1 < i2 < final(out)@.len() ==> differ_as_maps(
                    #[trigger] final(out)@[i1],
                    #[trigger] final(out)@[i2],
                ),
        decreases self.second_obs_set().len() - strategy.entry_views().len(),
    {
        proof {
            self.lemma_second_supported_bound(strategy);
        }
        let mut play: Play<M, F, S> = Play::new();
        proof {
            assert(play.moves@ =~= Seq::<M>::empty());
        }
        match self.check_second_strategy(&mut play, &strategy, 0) {
            None => {
                let ghost before = out@;
                out.push(strategy);
                proof {
                    assert(out@.subrange(0, before.len() as int) =~= before);
                    assert forall|sv: NaiveStrategy<M, S>|
                        (#[trigger] self.second_complete(sv, Seq::<M>::empty(), 0)) && agrees_on(
                            strategy,
                            sv,
                        ) implies exists|i: int|
                        0 <= i < out@.len() && #[trigger] agrees_on(out@[i], sv) by {
                        assert(out@[before.len() as int] == strategy);
                        assert(agrees_on(out@[before.len() as int], sv));
                    }
                    assert(self.second_catalogue_covers(strategy, Seq::<M>::empty(), 0, out@));
                    assert(self.second_grounded(out@[before.len() as int]));
                    assert(self.second_supported(out@[before.len() as int]));
                    assert(strategy.entry_views() =~= out@[before.len() as int].entry_views()
                        .subrange(0, strategy.entry_views().len() as int));
                }
            }
            Some(mut exts) => {
                let ghost exts0 = exts@;
                let ghost base = out@;
                proof {
                    assert(exts@ =~= exts0.take(exts@.len() as int));
                    assert(self.second_catalogue_covers(strategy, Seq::<M>::empty(), 0, exts0));
                    if exts0.len() > 0 {
                        assert(self.second_fan_out(strategy, Seq::<M>::empty(), 0, exts0));
                    }
                }
                while exts.len() > 0
                    invariant
                        self.wf(),
                        self.second_supported(strategy),
                        exts@.len() <= exts0.len(),
                        exts@ == exts0.take(exts@.len() as int),
                        self.second_extensions_ok(strategy, exts0),
                        out@.len() >= base.len(),
                        out@.subrange(0, base.len() as int) == base,
                        forall|i: int|
                            base.len() <= i < out@.len() ==> self.second_complete(
                                #[trigger] out@[i],
                                Seq::<M>::empty(),
                                0,
                            ),
                        forall|sv: NaiveStrategy<M, S>|
                            (#[trigger] self.second_complete(sv, Seq::<M>::empty(), 0))
                                && agrees_on(strategy, sv) ==> (exists|i: int|
                                0 <= i < out@.len() && #[trigger] agrees_on(out@[i], sv))
                                || (exists|k: int|
                                0 <= k < exts@.len() && #[trigger] agrees_on(exts0[k], sv)),
                        forall|k: int|
                            0 <= k < exts0.len() ==> (#[trigger] exts0[k]).entry_views().len()
                                == strategy.entry_views().len() + 1,
                        self.decision_rows_distinct() ==> forall|k1: int, k2: int|
                            0 <= k1 < k2 < exts0.len() ==> (#[trigger] exts0[k1]).entry_views()
                                != (#[trigger] exts0[k2]).entry_views(),
                        exts0.len() > 0 ==> self.second_fan_out(
                            strategy,
                            Seq::<M>::empty(),
                            0,
                            exts0,
                        ),
                        self.second_grounded(strategy),
                        forall|i: int|
                            base.len() <= i < out@.len() ==> self.second_grounded(#[trigger] out@[i]),
                        forall|i: int|
                            base.len() <= i < out@.len() ==> self.second_supported(#[trigger] out@[i]),
                        forall|i: int|
                            base.len() <= i < out@.len() ==> exists|k: int|
                                exts@.len() <= k < exts0.len() && (#[trigger] exts0[k])
                                    .entry_views().is_prefix_of(
                                    (#[trigger] out@[i]).entry_views(),
                                ),
                        self.decision_rows_distinct() ==> forall|i1: int, i2: int|
                            base.len() <= i1 < i2 < out@.len() ==> (
                            #[trigger] out@[i1]).entry_views() != (
                            #[trigger] out@[i2]).entry_views(),
                        self.decision_rows_distinct() ==> forall|i1: int, i2: int|
                            base.len() <= i1 < i2 < out@.len() ==> differ_as_maps(
                                #[trigger] out@[i1],
                                #[trigger] out@[i2],
                            ),
                        forall|i: int|
                            base.len() <= i < out@.len() ==> strategy.entry_views().is_prefix_of(
                                (#[trigger] out@[i]).entry_views(),
                            ),
                    decreases exts@.len(),
                {
                    let ghost pre = exts@;
                    let e = exts.pop().unwrap();
                    let ghost idx = exts@.len();
                    proof {
                        assert(exts@ =~= exts0.take(idx as int));
                        assert(e == pre.last());
                        assert(pre[idx as int] == exts0[idx as int]);
                        assert(self.second_extension_of(strategy, exts0[idx as int]));
                        let (o, mv) = choose|o: Seq<S>, mv: M|
                            #![trigger strategy.lookup(o), strategy.entry_views().push((o, mv))]
                            {
                                &&& strategy.lookup(o) is None
                                &&& self.second_obs_set().contains(o)
                                &&& e.entry_views() == strategy.entry_views().push((o, mv))
                            };
                        lemma_lookup_none_no_key(strategy.entry_views(), o);
                        let sev = strategy.entry_views();
                        assert forall|a: int, b: int|
                            0 <= a < b < e.entry_views().len() implies (
                        #[trigger] e.entry_views()[a]).0 != (#[trigger] e.entry_views()[b]).0 by {
                            if b < sev.len() {
                                assert(e.entry_views()[a] == sev[a]);
                                assert(e.entry_views()[b] == sev[b]);
                            } else {
                                assert(e.entry_views()[b] == (o, mv));
                                assert(e.entry_views()[a] == sev[a]);
                                assert(sev[a].0 != o);
                            }
                        }
                        assert forall|a: int|
                            0 <= a < e.entry_views().len() implies self.second_obs_set().contains(
                            (#[trigger] e.entry_views()[a]).0,
                        ) by {
                            if a < sev.len() {
                                assert(e.entry_views()[a] == sev[a]);
                            } else {
                                assert(e.entry_views()[a] == (o, mv));
                            }
                        }
                        assert(self.second_supported(e));
                        assert(e.entry_views().len() == sev.len() + 1);
                        self.lemma_second_supported_bound(e);
                        let ww = choose|ww: int|
                            #![trigger self.hist()[ww]]
                            {
                                &&& 0 <= ww < self.nodes@.len()
                                &&& self.nodes@[ww] is SecondMoves
                                &&& strategy.lookup(
                                    project::<M, S>(self.hist()[ww]),
                                ) is None
                                &&& self.second_reaches(
                                    strategy,
                                    Seq::<M>::empty(),
                                    0,
                                    project::<M, S>(self.hist()[ww]),
                                )
                                &&& exts0.len() == self.nodes@[ww]->SecondMoves_0@.len()
                                &&& forall|k: int|
                                    0 <= k < exts0.len() ==> (#[trigger] exts0[
                                        k
                                    ]).entry_views() == strategy.entry_views().push(
                                        (
                                            project::<M, S>(self.hist()[ww]),
                                            self.nodes@[ww]->SecondMoves_0@[k].0,
                                        ),
                                    )
                            };
                        let ow = project::<M, S>(self.hist()[ww]);
                        assert(e.entry_views() == sev.push(
                            (ow, self.nodes@[ww]->SecondMoves_0@[idx as int].0),
                        ));
                        assert forall|q: Seq<S>|
                            (#[trigger] strategy.lookup(q)) is Some implies e.lookup(q)
                            == strategy.lookup(q) by {
                            lemma_lookup_push(
                                sev,
                                (ow, self.nodes@[ww]->SecondMoves_0@[idx as int].0),
                                q,
                            );
                        }
                        assert(agrees_on(strategy, e));
                        assert forall|j2: int|
                            0 <= j2 < e.entry_views().len() implies self.second_reaches(
                            e,
                            Seq::<M>::empty(),
                            0,
                            e.entry_views()[j2].0,
                        ) by {
                            if j2 < sev.len() {
                                assert(e.entry_views()[j2] == sev[j2]);
                                assert(self.second_reaches(
                                    strategy,
                                    Seq::<M>::empty(),
                                    0,
                                    sev[j2].0,
                                ));
                                self.lemma_second_reaches_mono(
                                    strategy,
                                    e,
                                    Seq::<M>::empty(),
                                    0,
                                    sev[j2].0,
                                );
                            } else {
                                assert(e.entry_views()[j2].0 == ow);
                                self.lemma_second_reaches_mono(strategy, e, Seq::<M>::empty(), 0, ow);
                            }
                        }
                        assert(self.second_grounded(e));
                    }
                    let ghost mid = out@;
                    self.expand_second(e, out);
                    proof {
                        assert(out@.subrange(0, base.len() as int) =~= base);
                        assert forall|i: int|
                            base.len() <= i < out@.len() implies self.second_complete(
                            #[trigger] out@[i],
                            Seq::<M>::empty(),
                            0,
                        ) by {
                            if i < mid.len() {
                                assert(out@.subrange(0, mid.len() as int)[i] == out@[i]);
                                assert(mid[i] == out@[i]);
                            }
                        }
                        assert forall|sv: NaiveStrategy<M, S>|
                            (#[trigger] self.second_complete(sv, Seq::<M>::empty(), 0))
                                && agrees_on(strategy, sv) implies (exists|i: int|
                            0 <= i < out@.len() && #[trigger] agrees_on(out@[i], sv)) || (exists|
                        k: int|
                            0 <= k < exts@.len() && #[trigger] agrees_on(exts0[k], sv)) by {
                            if exists|i: int|
                                0 <= i < mid.len() && #[trigger] agrees_on(mid[i], sv) {
                                let i = choose|i: int|
                                    0 <= i < mid.len() && #[trigger] agrees_on(mid[i], sv);
                                assert(out@.subrange(0, mid.len() as int)[i] == out@[i]);
                                assert(agrees_on(out@[i], sv));
                            } else {
                                let k = choose|k: int|
                                    0 <= k < pre.len() && #[trigger] agrees_on(exts0[k], sv);
                                if k == idx {
                                    assert(agrees_on(e, sv));
                                    assert(self.second_catalogue_covers(e, Seq::<M>::empty(), 0, out@));
                                } else {
                                    assert(agrees_on(exts0[k], sv));
                                }
                            }
                        }
                        let ghost sev = strategy.entry_views();
                        assert(sev =~= e.entry_views().subrange(0, sev.len() as int));
                        assert(sev.is_prefix_of(e.entry_views()));
                        assert forall|i: int| base.len() <= i < out@.len() implies exists|k: int|
                            exts@.len() <= k < exts0.len() && (#[trigger] exts0[k]).entry_views()
                                .is_prefix_of((#[trigger] out@[i]).entry_views()) by {
                            if i < mid.len() {
                                assert(out@.subrange(0, mid.len() as int)[i] == out@[i]);
                                assert(out@[i] == mid[i]);
                                let k = choose|k: int|
                                    idx + 1 <= k < exts0.len() && (#[trigger] exts0[k])
                                        .entry_views().is_prefix_of(mid[i].entry_views());
                                assert(exts0[k].entry_views().is_prefix_of(
                                    out@[i].entry_views(),
                                ));
                            } else {
                                assert(exts0[idx as int].entry_views().is_prefix_of(
                                    out@[i].entry_views(),
                                ));
                            }
                        }
                        assert forall|i: int|
                            base.len() <= i < out@.len() implies self.second_grounded(
                            #[trigger] out@[i],
                        ) by {
                            if i < mid.len() {
                                assert(out@.subrange(0, mid.len() as int)[i] == out@[i]);
                                assert(out@[i] == mid[i]);
                            }
                        }
                        assert forall|i: int|
                            base.len() <= i < out@.len() implies self.second_supported(
                            #[trigger] out@[i],
                        ) by {
                            if i < mid.len() {
                                assert(out@.subrange(0, mid.len() as int)[i] == out@[i]);
                                assert(out@[i] == mid[i]);
                            }
                        }
                        assert forall|i: int|
                            base.len() <= i < out@.len() implies sev.is_prefix_of(
                            (#[trigger] out@[i]).entry_views(),
                        ) by {
                            if i < mid.len() {
                                assert(out@[i] == mid[i]);
                            } else {
                                lemma_prefix_trans(
                                    sev,
                                    e.entry_views(),
                                    out@[i].entry_views(),
                                );
                            }
                        }
                        if self.decision_rows_distinct() {
                            assert forall|i1: int, i2: int|
                                base.len() <= i1 < i2 < out@.len() implies (
                            #[trigger] out@[i1]).entry_views() != (
                            #[trigger] out@[i2]).entry_views() by {
                                if i2 < mid.len() {
                                    assert(out@[i1] == mid[i1] && out@[i2] == mid[i2]);
                                } else if i1 >= mid.len() {
                                } else {
                                    assert(out@[i1] == mid[i1]);
                                    let k = choose|k: int|
                                        idx + 1 <= k < exts0.len() && (#[trigger] exts0[k])
                                            .entry_views().is_prefix_of(mid[i1].entry_views());
                                    let p1 = exts0[k].entry_views();
                                    let p2 = exts0[idx as int].entry_views();
                                    assert(p1 != p2);
                                    let ghost width = p1.len();
                                    assert(p2.len() == width);
                                    assert(exists|pos: int|
                                        0 <= pos < width && p1[pos] != p2[pos]) by {
                                        if forall|pos: int|
                                            0 <= pos < width ==> p1[pos] == p2[pos] {
                                            assert(p1 =~= p2);
                                        }
                                    }
                                    let pos = choose|pos: int|
                                        0 <= pos < width && p1[pos] != p2[pos];
                                    assert(exts0[idx as int].entry_views().is_prefix_of(
                                        out@[i2].entry_views(),
                                    ));
                                    assert(out@[i1].entry_views()[pos] == p1[pos]);
                                    assert(out@[i2].entry_views()[pos] == p2[pos]);
                                }
                            }
                            assert forall|i1: int, i2: int|
                                base.len() <= i1 < i2 < out@.len() implies differ_as_maps(
                                #[trigger] out@[i1],
                                #[trigger] out@[i2],
                            ) by {
                                if i2 < mid.len() {
                                    assert(out@[i1] == mid[i1] && out@[i2] == mid[i2]);
                                } else if i1 >= mid.len() {
                                } else {
                                    assert(out@[i1] == mid[i1]);
                                    let k = choose|k: int|
                                        idx + 1 <= k < exts0.len() && (#[trigger] exts0[k])
                                            .entry_views().is_prefix_of(mid[i1].entry_views());
                                    let ww = choose|ww: int|
                                        #![trigger self.hist()[ww]]
                                        {
                                            &&& 0 <= ww < self.nodes@.len()
                                            &&& self.nodes@[ww] is SecondMoves
                                            &&& strategy.lookup(
                                                project::<M, S>(self.hist()[ww]),
                                            ) is None
                                            &&& self.second_reaches(
                                                strategy,
                                                Seq::<M>::empty(),
                                                0,
                                                project::<M, S>(self.hist()[ww]),
                                            )
                                            &&& exts0.len() == self.nodes@[
                                                ww
                                            ]->SecondMoves_0@.len()
                                            &&& forall|k2: int|
                                                0 <= k2 < exts0.len() ==> (#[trigger] exts0[
                                                    k2
                                                ]).entry_views() == strategy.entry_views().push(
                                                    (
                                                        project::<M, S>(self.hist()[ww]),
                                                        self.nodes@[ww]->SecondMoves_0@[k2].0,
                                                    ),
                                                )
                                        };
                                    let ow = project::<M, S>(self.hist()[ww]);
                                    let mk = self.nodes@[ww]->SecondMoves_0@[k].0;
                                    let mi = self.nodes@[ww]->SecondMoves_0@[idx as int].0;
                                    assert(mk != mi);
                                    assert(exts0[k].entry_views() == sev.push((ow, mk)));
                                    assert(exts0[idx as int].entry_views() == sev.push(
                                        (ow, mi),
                                    ));
                                    lemma_lookup_push(sev, (ow, mk), ow);
                                    lemma_lookup_push(sev, (ow, mi), ow);
                                    assert(lookup_entries(exts0[k].entry_views(), ow)
                                        == Some(mk));
                                    assert(lookup_entries(
                                        exts0[idx as int].entry_views(),
                                        ow,
                                    ) == Some(mi));
                                    lemma_lookup_extends(
                                        exts0[k].entry_views(),
                                        out@[i1].entry_views(),
                                        ow,
                                    );
                                    lemma_lookup_extends(
                                        exts0[idx as int].entry_views(),
                                        out@[i2].entry_views(),
                                        ow,
                                    );
                                    assert(out@[i1].lookup(ow) == Some(mk));
                                    assert(out@[i2].lookup(ow) == Some(mi));
                                    assert(out@[i1].lookup(ow) != out@[i2].lookup(ow));
                                }
                            }
                        }
                    }
                }
            }
        }
    }

    /// A tree with no second-player decision nodes.
    pub open spec fn no_second_decisions(self) -> bool {
        forall|v: int| 0 <= v < self.nodes@.len() ==> !((#[trigger] self.nodes@[v]) is SecondMoves)
    }

    proof fn lemma_no_second_reaches(
        self,
        strat: NaiveStrategy<M, S>,
        h: Seq<M>,
        v: int,
        o: Seq<S>,
    )
        requires
            self.no_second_decisions(),
        ensures
            !self.second_reaches(strat, h, v, o),
        decreases self.nodes@.len() - v, 1int, 0int,
    {
        if 0 <= v < self.nodes@.len() {
            match self.nodes@[v] {
                GameTreeNode::RandomEvent(_) => {
                    self.lemma_no_second_reaches_children(
                        strat,
                        h,
                        v,
                        edges(self.nodes@[v]),
                        o,
                    );
                }
                GameTreeNode::FirstMoves(_) => {
                    self.lemma_no_second_reaches_children(
                        strat,
                        h,
                        v,
                        edges(self.nodes@[v]),
                        o,
                    );
                }
                _ => {}
            }
        }
    }

    proof fn lemma_no_second_reaches_children(
        self,
        strat: NaiveStrategy<M, S>,
        h: Seq<M>,
        v: int,
        es: Seq<(M, usize)>,
        o: Seq<S>,
    )
        requires
            self.no_second_decisions(),
        ensures
            !self.second_reaches_children(strat, h, v, es, o),
        decreases self.nodes@.len() - v, 0int, es.len(),
    {
        if es.len() > 0 {
            self.lemma_no_second_reaches_children(strat, h, v, es.drop_last(), o);
            let e = es.last();
            if v < e.1 < self.nodes@.len() {
                self.lemma_no_second_reaches(strat, h.push(e.0), e.1 as int, o);
            }
        }
    }

    proof fn lemma_no_second_decisions_complete(
        self,
        strat: NaiveStrategy<M, S>,
        h: Seq<M>,
        v: int,
    )
        requires
            self.wf(),
            self.no_second_decisions(),
            0 <= v < self.nodes@.len(),
        ensures
            self.second_complete(strat, h, v),
        decreases self.nodes@.len() - v, 1int, 0int,
    {
        assert(node_ok::<M, F, S, R>(self.rules, self.nodes@, self.hist(), v));
        match self.nodes@[v] {
            GameTreeNode::RandomEvent(row) => {
                self.lemma_no_second_decisions_complete_children(
                    strat,
                    h,
                    v,
                    edges(self.nodes@[v]),
                );
            }
            GameTreeNode::FirstMoves(row) => {
                self.lemma_no_second_decisions_complete_children(
                    strat,
                    h,
                    v,
                    edges(self.nodes@[v]),
                );
            }
            _ => {}
        }
    }

    proof fn lemma_no_second_decisions_complete_children(
        self,
        strat: NaiveStrategy<M, S>,
        h: Seq<M>,
        v: int,
        es: Seq<(M, usize)>,
    )
        requires
            self.wf(),
            self.no_second_decisions(),
            0 <= v < self.nodes@.len(),
            forall|j: int| 0 <= j < es.len() ==> v < (#[trigger] es[j]).1 < self.nodes@.len(),
        ensures
            self.second_children_complete(strat, h, v, es),
        decreases self.nodes@.len() - v, 0int, es.len(),
    {
        if es.len() > 0 {
            assert forall|j: int|
                0 <= j < es.drop_last().len() implies v < (#[trigger] es.drop_last()[j]).1
                < self.nodes@.len() by {
                assert(es.drop_last()[j] == es[j]);
            }
            self.lemma_no_second_decisions_complete_children(strat, h, v, es.drop_last());
            let e = es.last();
            self.lemma_no_second_decisions_complete(strat, h.push(e.0), e.1 as int);
        }
    }

    /// On a tree where the second player never moves, a catalogue that is
    /// complete, grounded, pairwise distinct as maps and exhaustive holds
    /// exactly one strategy: the one deciding nothing.  `empty_strategy` is
    /// any strategy value with no entries.
    pub proof fn lemma_second_catalogue_unique_without_decisions(
        self,
        cat: Seq<NaiveStrategy<M, S>>,
        empty_strategy: NaiveStrategy<M, S>,
    )
        requires
            self.wf(),
            self.no_second_decisions(),
            empty_strategy.entry_views().len() == 0,
            forall|i: int|
                0 <= i < cat.len() ==> self.second_complete(
                    #[trigger] cat[i],
                    Seq::<M>::empty(),
                    0,
                ),
            forall|i: int| 0 <= i < cat.len() ==> self.second_grounded(#[trigger] cat[i]),
            self.second_catalogue_exhaustive(cat),
            forall|i1: int, i2: int|
                0 <= i1 < i2 < cat.len() ==> differ_as_maps(
                    #[trigger] cat[i1],
                    #[trigger] cat[i2],
                ),
        ensures
            cat.len() == 1,
            cat[0].entry_views().len() == 0,
    {
        assert forall|i: int| 0 <= i < cat.len() implies (#[trigger] cat[i]).entry_views().len()
            == 0 by {
            if cat[i].entry_views().len() > 0 {
                let key = cat[i].entry_views()[0].0;
                assert(self.second_reaches(cat[i], Seq::<M>::empty(), 0, key));
                self.lemma_no_second_reaches(cat[i], Seq::<M>::empty(), 0, key);
            }
        }
        self.lemma_no_second_decisions_complete(empty_strategy, Seq::<M>::empty(), 0);
        assert(self.second_complete(empty_strategy, Seq::<M>::empty(), 0));
        assert(cat.len() >= 1);
        if cat.len() > 1 {
            assert(differ_as_maps(cat[0], cat[1]));
            let q = choose|q: Seq<S>|
                #![trigger cat[0].lookup(q), cat[1].lookup(q)]
                cat[0].lookup(q) != cat[1].lookup(q);
            assert(cat[0].lookup(q) is None);
            assert(cat[1].lookup(q) is None);
        }
    }

    /// Exhaustively enumerates every complete pure strategy of the first
    /// player: each returned strategy decides every information set
    /// reachable when chance and the opponent move arbitrarily and nothing
    /// else (its table is grounded: every entry is used by its own play),
    /// every complete strategy extends a member of the catalogue, and on
    /// trees whose decision rows list no move twice the members are
    /// pairwise distinct as maps.
    pub fn list_all_first_strategies(&self) -> (r: Vec<NaiveStrategy<M, F>>)
        requires
            self.wf(),
        ensures
            forall|i: int|
                0 <= i < r@.len() ==> self.first_complete(
                    #[trigger] r@[i],
                    Seq::<M>::empty(),
                    0,
                ),
            self.first_catalogue_exhaustive(r@),
            forall|i: int| 0 <= i < r@.len() ==> self.first_grounded(#[trigger] r@[i]),
            forall|i: int| 0 <= i < r@.len() ==> self.first_supported(#[trigger] r@[i]),
            self.decision_rows_distinct() ==> forall|i1: int, i2: int|
                0 <= i1 < i2 < r@.len() ==> (#[trigger] r@[i1]).entry_views() != (
                #[trigger] r@[i2]).entry_views(),
            self.decision_rows_distinct() ==> forall|i1: int, i2: int|
                0 <= i1 < i2 < r@.len() ==> differ_as_maps(
                    #[trigger] r@[i1],
                    #[trigger] r@[i2],
                ),
    {
        let mut out: Vec<NaiveStrategy<M, F>> = Vec::new();
        let seed: NaiveStrategy<M, F> = NaiveStrategy::new();
        proof {
            assert(seed.entry_views() =~= Seq::<(Seq<F>, M)>::empty());
            assert(self.first_grounded(seed));
        }
        self.expand_first(seed, &mut out);
        proof {
            assert forall|sv: NaiveStrategy<M, F>|
                #[trigger] self.first_complete(sv, Seq::<M>::empty(), 0) implies exists|i: int|
                0 <= i < out@.len() && #[trigger] agrees_on(out@[i], sv) by {
                assert(agrees_on(seed, sv));
            }
            assert(self.first_catalogue_exhaustive(out@));
        }
        out
    }

    /// Exhaustively enumerates every complete pure strategy of the second
    /// player; see `list_all_first_strategies`.
    pub fn list_all_second_strategies(&self) -> (r: Vec<NaiveStrategy<M, S>>)
        requires
            self.wf(),
        ensures
            forall|i: int|
                0 <= i < r@.len() ==> self.second_complete(
                    #[trigger] r@[i],
                    Seq::<M>::empty(),
                    0,
                ),
            self.second_catalogue_exhaustive(r@),
            forall|i: int| 0 <= i < r@.len() ==> self.second_grounded(#[trigger] r@[i]),
            forall|i: int| 0 <= i < r@.len() ==> self.second_supported(#[trigger] r@[i]),
            self.decision_rows_distinct() ==> forall|i1: int, i2: int|
                0 <= i1 < i2 < r@.len() ==> (#[trigger] r@[i1]).entry_views() != (
                #[trigger] r@[i2]).entry_views(),
            self.decision_rows_distinct() ==> forall|i1: int, i2: int|
                0 <= i1 < i2 < r@.len() ==> differ_as_maps(
                    #[trigger] r@[i1],
                    #[trigger] r@[i2],
                ),
    {
        let mut out: Vec<NaiveStrategy<M, S>> = Vec::new();
        let seed: NaiveStrategy<M, S> = NaiveStrategy::new();
        proof {
            assert(seed.entry_views() =~= Seq::<(Seq<S>, M)>::empty());
            assert(self.second_grounded(seed));
        }
        self.expand_second(seed, &mut out);
        proof {
            assert forall|sv: NaiveStrategy<M, S>|
                #[trigger] self.second_complete(sv, Seq::<M>::empty(), 0) implies exists|i: int|
                0 <= i < out@.len() && #[trigger] agrees_on(out@[i], sv) by {
                assert(agrees_on(seed, sv));
            }
            assert(self.second_catalogue_exhaustive(out@));
        }
        out
    }

    /// The payoff matrix of two strategy catalogues: cell `[i][j]` is the
    /// exact expected payoff of the `i`-th first-player strategy against the
    /// `j`-th second-player strategy.  `None` when any simulation fails.
    pub fn strategy_matrix<FS: FirstStrategy<M, F>, SS: SecondStrategy<M, S>>(
        &self,
        f: &Vec<FS>,
        s: &Vec<SS>,
    ) -> (r: Option<Vec<Vec<Ratio>>>)
        requires
            self.wf(),
        ensures
            r matches Some(mat) ==> {
                &&& mat@.len() == f@.len()
                &&& forall|i: int| 0 <= i < mat@.len() ==> (#[trigger] mat@[i])@.len() == s@.len()
                &&& forall|i: int, j: int|
                    0 <= i < f@.len() && 0 <= j < s@.len() ==> (#[trigger] mat@[i]@[j]).wf()
                        && self.value_from(f@[i], s@[j], Seq::<M>::empty(), 0) == Some(
                        mat@[i]@[j].v(),
                    )
            },
            r is None ==> exists|i: int, j: int|
                #![trigger self.value_from(f@[i], s@[j], Seq::<M>::empty(), 0)]
                0 <= i < f@.len() && 0 <= j < s@.len() && self.value_from(
                    f@[i],
                    s@[j],
                    Seq::<M>::empty(),
                    0,
                ) is None,
    {
        let mut mat: Vec<Vec<Ratio>> = Vec::new();
        let mut i: usize = 0;
        while i < f.len()
            invariant
                self.wf(),
                i <= f@.len(),
                mat@.len() == i,
                forall|k: int| 0 <= k < i ==> (#[trigger] mat@[k])@.len() == s@.len(),
                forall|k: int, j: int|
                    0 <= k < i && 0 <= j < s@.len() ==> (#[trigger] mat@[k]@[j]).wf()
                        && self.value_from(f@[k], s@[j], Seq::<M>::empty(), 0) == Some(
                        mat@[k]@[j].v(),
                    ),
            decreases f@.len() - i,
        {
            let mut rowv: Vec<Ratio> = Vec::new();
            let mut j: usize = 0;
            while j < s.len()
                invariant
                    self.wf(),
                    i < f@.len(),
                    j <= s@.len(),
                    rowv@.len() == j,
                    forall|k: int|
                        0 <= k < j ==> (#[trigger] rowv@[k]).wf() && self.value_from(
                            f@[i as int],
                            s@[k],
                            Seq::<M>::empty(),
                            0,
                        ) == Some(rowv@[k].v()),
                decreases s@.len() - j,
            {
                match self.simulate(&f[i], &s[j]) {
                    None => {
                        proof {
                            assert(self.value_from(f@[i as int], s@[j as int], Seq::<M>::empty(), 0)
                                is None);
                        }
                        return None;
                    }
                    Some(x) => {
                        rowv.push(x);
                    }
                }
                j += 1;
            }
            mat.push(rowv);
            i += 1;
        }
        Some(mat)
    }

    /// Two enumerated catalogues and a payoff matrix agree: every strategy
    /// is complete, the catalogues are exhaustive (and duplicate-free on
    /// trees whose decision rows list no move twice), and every cell is the
    /// exact expected payoff of its pair.
    pub open spec fn matrix_matches(
        self,
        fs: Seq<NaiveStrategy<M, F>>,
        ss: Seq<NaiveStrategy<M, S>>,
        mat: Seq<Vec<Ratio>>,
    ) -> bool {
        &&& mat.len() == fs.len()
        &&& forall|i: int| 0 <= i < mat.len() ==> (#[trigger] mat[i])@.len() == ss.len()
        &&& forall|i: int, j: int|
            0 <= i < fs.len() && 0 <= j < ss.len() ==> (#[trigger] mat[i]@[j]).wf()
                && self.value_from(fs[i], ss[j], Seq::<M>::empty(), 0) == Some(mat[i]@[j].v())
        &&& forall|i: int|
            0 <= i < fs.len() ==> self.first_complete(#[trigger] fs[i], Seq::<M>::empty(), 0)
        &&& forall|j: int|
            0 <= j < ss.len() ==> self.second_complete(#[trigger] ss[j], Seq::<M>::empty(), 0)
        &&& self.first_catalogue_exhaustive(fs)
        &&& self.second_catalogue_exhaustive(ss)
        &&& self.decision_rows_distinct() ==> forall|i1: int, i2: int|
            0 <= i1 < i2 < fs.len() ==> differ_as_maps(#[trigger] fs[i1], #[trigger] fs[i2])
        &&& self.decision_rows_distinct() ==> forall|j1: int, j2: int|
            0 <= j1 < j2 < ss.len() ==> differ_as_maps(#[trigger] ss[j1], #[trigger] ss[j2])
        &&& forall|i: int| 0 <= i < fs.len() ==> self.first_grounded(#[trigger] fs[i])
        &&& forall|j: int| 0 <= j < ss.len() ==> self.second_grounded(#[trigger] ss[j])
    }

    /// The full normal-form payoff matrix: rows are the enumerated
    /// first-player strategies, columns the second player's, cells the
    /// exact expected payoffs.
    pub fn to_matrix(&self) -> (r: Option<Vec<Vec<Ratio>>>)
        requires
            self.wf(),
        ensures
            r matches Some(mat) ==> exists|
                fs: Seq<NaiveStrategy<M, F>>,
                ss: Seq<NaiveStrategy<M, S>>,
            | self.matrix_matches(fs, ss, mat@),
            r is None ==> exists|fz: NaiveStrategy<M, F>, sz: NaiveStrategy<M, S>|
                #![trigger self.value_from(fz, sz, Seq::<M>::empty(), 0)]
                {
                    &&& self.first_complete(fz, Seq::<M>::empty(), 0)
                    &&& self.second_complete(sz, Seq::<M>::empty(), 0)
                    &&& self.value_from(fz, sz, Seq::<M>::empty(), 0) is None
                },
    {
        let fsl = self.list_all_first_strategies();
        let ssl = self.list_all_second_strategies();
        let r = self.strategy_matrix(&fsl, &ssl);
        proof {
            match &r {
                Some(mat) => {
                    assert(self.matrix_matches(fsl@, ssl@, mat@));
                }
                None => {
                    let (i, j) = choose|i: int, j: int|
                        #![trigger self.value_from(fsl@[i], ssl@[j], Seq::<M>::empty(), 0)]
                        0 <= i < fsl@.len() && 0 <= j < ssl@.len() && self.value_from(
                            fsl@[i],
                            ssl@[j],
                            Seq::<M>::empty(),
                            0,
                        ) is None;
                    assert(self.first_complete(fsl@[i], Seq::<M>::empty(), 0));
                    assert(self.second_complete(ssl@[j], Seq::<M>::empty(), 0));
                }
            }
        }
        r
    }

}

/// The probabilities stored in a chance row.
pub open spec fn row_probs<M: Move>(row: Seq<(M, usize, Ratio)>) -> Seq<Ratio> {
    row.map(|_i: int, t: (M, usize, Ratio)| t.2)
}

/// Every chance node of a well-formed tree stores probabilities whose exact
/// sum is one within the named tolerance.
pub proof fn lemma_chance_probabilities_sum<
    M: Move,
    F: Observation<M>,
    S: Observation<M>,
    R: GameRules<M, F, S>,
>(t: GameTree<M, F, S, R>, i: int)
    requires
        t.wf(),
        0 <= i < t.nodes@.len(),
        t.nodes@[i] is RandomEvent,
    ensures
        near_one(sum_ratios(row_probs(t.nodes@[i]->RandomEvent_0@))),
{
    assert(node_ok::<M, F, S, R>(t.rules, t.nodes@, t.hist(), i));
    let row = t.nodes@[i]->RandomEvent_0@;
    let ev = t.rules.spec_random_event(t.hist()[i]);
    assert(row_probs(row) =~= probs_of(ev));
}

} // verus!
