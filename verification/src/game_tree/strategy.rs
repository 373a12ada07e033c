//! Pure strategies: mappings from information sets to moves.
//!
//! An information set is identified by a player's observation history, so a
//! strategy is queried with the observation-history prefix seen so far.  The
//! engine is agnostic to the representation: any type implementing
//! [`FirstStrategy`] or [`SecondStrategy`] as a pure function of the history
//! will do.  [`NaiveStrategy`] is the manifest-table representation the
//! enumerator produces.

use crate::game_tree::rules::{Move, Observation};
use vstd::prelude::*;

verus! {

/// A strategy for the first player: a pure function from that player's
/// observation history to a chosen move, possibly partial.
pub trait FirstStrategy<M: Move, F: Observation<M>> {
    /// The move this strategy assigns to an information set, if any.
    spec fn spec_move(&self, play: Seq<F>) -> Option<M>;

    fn make_move(&self, play: &Vec<F>) -> (r: Option<M>)
        ensures
            r == self.spec_move(play@),
    ;
}

/// A strategy for the second player.
pub trait SecondStrategy<M: Move, S: Observation<M>> {
    /// The move this strategy assigns to an information set, if any.
    spec fn spec_move(&self, play: Seq<S>) -> Option<M>;

    fn make_move(&self, play: &Vec<S>) -> (r: Option<M>)
        ensures
            r == self.spec_move(play@),
    ;
}

/// Equality of two observation histories.
pub fn obs_vec_eq<M: Move, O: Observation<M>>(a: &Vec<O>, b: &Vec<O>) -> (r: bool)
    ensures
        r == (a@ == b@),
{
    if a.len() != b.len() {
        return false;
    }
    let mut i: usize = 0;
    while i < a.len()
        invariant
            i <= a@.len(),
            a@.len() == b@.len(),
            forall|k: int| 0 <= k < i ==> a@[k] == b@[k],
        decreases a@.len() - i,
    {
        if !a[i].eq_obs(&b[i]) {
            assert(a@[i as int] != b@[i as int]);
            return false;
        }
        i += 1;
    }
    proof {
        assert(a@ =~= b@);
    }
    true
}

/// First-match lookup in an association list of information sets.
pub open spec fn lookup_entries<M: Move, F: Observation<M>>(
    s: Seq<(Seq<F>, M)>,
    key: Seq<F>,
) -> Option<M>
    decreases s.len(),
{
    if s.len() <= 0 {
        None
    } else if s[0].0 == key {
        Some(s[0].1)
    } else {
        lookup_entries(s.drop_first(), key)
    }
}

pub proof fn lemma_lookup_push<M: Move, F: Observation<M>>(
    s: Seq<(Seq<F>, M)>,
    e: (Seq<F>, M),
    key: Seq<F>,
)
    ensures
        lookup_entries(s.push(e), key) == if lookup_entries(s, key) is Some {
            lookup_entries(s, key)
        } else if e.0 == key {
            Some(e.1)
        } else {
            None::<M>
        },
    decreases s.len(),
{
    if s.len() == 0 {
        assert(s.push(e).len() == 1);
        assert(s.push(e)[0] == e);
        assert(s.push(e).drop_first() =~= Seq::<(Seq<F>, M)>::empty());
        assert(lookup_entries(s.push(e).drop_first(), key) == None::<M>);
        if e.0 == key {
            assert(lookup_entries(s.push(e), key) == Some(e.1));
        } else {
            assert(lookup_entries(s.push(e), key) == None::<M>);
        }
    } else {
        assert(s.push(e)[0] == s[0]);
        if s[0].0 == key {
        } else {
            assert(s.push(e).drop_first() =~= s.drop_first().push(e));
            lemma_lookup_push(s.drop_first(), e, key);
        }
    }
}

proof fn lemma_lookup_skip<M: Move, F: Observation<M>>(
    s: Seq<(Seq<F>, M)>,
    key: Seq<F>,
    i: int,
)
    requires
        0 <= i <= s.len(),
        forall|j: int| 0 <= j < i ==> (#[trigger] s[j]).0 != key,
    ensures
        lookup_entries(s, key) == lookup_entries(s.skip(i), key),
    decreases i,
{
    if i == 0 {
        assert(s.skip(0) =~= s);
    } else {
        assert(s[0].0 != key);
        lemma_lookup_skip(s.drop_first(), key, i - 1);
        assert(s.drop_first().skip(i - 1) =~= s.skip(i));
    }
}

/// Every decision of `sub` is also a decision of `sup`: `sup` extends
/// `sub`.
pub open spec fn agrees_on<M: Move, F: Observation<M>>(
    sub: NaiveStrategy<M, F>,
    sup: NaiveStrategy<M, F>,
) -> bool {
    forall|k: Seq<F>| (#[trigger] sub.lookup(k)) is Some ==> sup.lookup(k) == sub.lookup(k)
}

/// The two tables disagree on some information set.
pub open spec fn differ_as_maps<M: Move, F: Observation<M>>(
    a: NaiveStrategy<M, F>,
    b: NaiveStrategy<M, F>,
) -> bool {
    exists|q: Seq<F>| #![trigger a.lookup(q), b.lookup(q)] a.lookup(q) != b.lookup(q)
}

/// A first-match lookup that succeeds in a prefix of a table succeeds
/// unchanged in the whole table.
pub proof fn lemma_lookup_extends<M: Move, F: Observation<M>>(
    a: Seq<(Seq<F>, M)>,
    b: Seq<(Seq<F>, M)>,
    key: Seq<F>,
)
    requires
        a.is_prefix_of(b),
        lookup_entries(a, key) is Some,
    ensures
        lookup_entries(b, key) == lookup_entries(a, key),
    decreases a.len(),
{
    assert(a[0] == b.subrange(0, a.len() as int)[0]);
    if a[0].0 == key {
    } else {
        assert(a.drop_first().is_prefix_of(b.drop_first())) by {
            assert(a.drop_first() =~= b.drop_first().subrange(
                0,
                a.drop_first().len() as int,
            ));
        }
        lemma_lookup_extends(a.drop_first(), b.drop_first(), key);
    }
}

/// An information set absent from the table differs from every stored key.
pub proof fn lemma_lookup_none_no_key<M: Move, F: Observation<M>>(
    s: Seq<(Seq<F>, M)>,
    key: Seq<F>,
)
    requires
        lookup_entries(s, key) is None,
    ensures
        forall|i: int| 0 <= i < s.len() ==> (#[trigger] s[i]).0 != key,
    decreases s.len(),
{
    if s.len() > 0 {
        lemma_lookup_none_no_key(s.drop_first(), key);
        assert forall|i: int| 0 <= i < s.len() implies (#[trigger] s[i]).0 != key by {
            if i > 0 {
                assert(s[i] == s.drop_first()[i - 1]);
            }
        }
    }
}

/// An owned copy of an observation history.
pub fn copy_obs_vec<M: Move, O: Observation<M>>(a: &Vec<O>) -> (r: Vec<O>)
    ensures
        r@ == a@,
{
    let mut r: Vec<O> = Vec::new();
    let mut i: usize = 0;
    while i < a.len()
        invariant
            i <= a@.len(),
            r@ == a@.take(i as int),
        decreases a@.len() - i,
    {
        r.push(a[i]);
        proof {
            assert(r@ =~= a@.take(i + 1));
        }
        i += 1;
    }
    proof {
        assert(a@.take(i as int) =~= a@);
    }
    r
}

/// The manifest-table strategy: an explicit map from observation histories
/// to moves, extended entry by entry during enumeration.
#[derive(Debug)]
pub struct NaiveStrategy<M: Move, F: Observation<M>> {
    pub entries: Vec<(Vec<F>, M)>,
}

impl<M: Move, F: Observation<M>> NaiveStrategy<M, F> {
    /// The entries with observation histories abstracted to sequences.
    pub open spec fn entry_views(self) -> Seq<(Seq<F>, M)> {
        self.entries@.map(|_i: int, e: (Vec<F>, M)| (e.0@, e.1))
    }

    /// The move assigned to an information set, if any.
    pub open spec fn lookup(self, key: Seq<F>) -> Option<M> {
        lookup_entries(self.entry_views(), key)
    }

    /// The empty (fully undecided) strategy.
    pub fn new() -> (r: Self)
        ensures
            r.entries@.len() == 0,
            forall|k: Seq<F>| r.lookup(k) is None,
    {
        let r = NaiveStrategy { entries: Vec::new() };
        proof {
            assert(r.entry_views() =~= Seq::<(Seq<F>, M)>::empty());
        }
        r
    }

    /// Looks the given information set up in the table.
    pub fn get(&self, key: &Vec<F>) -> (r: Option<M>)
        ensures
            r == self.lookup(key@),
    {
        let mut i: usize = 0;
        while i < self.entries.len()
            invariant
                i <= self.entries@.len(),
                forall|j: int| 0 <= j < i ==> (#[trigger] self.entry_views()[j]).0 != key@,
            decreases self.entries@.len() - i,
        {
            if obs_vec_eq::<M, F>(&self.entries[i].0, key) {
                proof {
                    lemma_lookup_skip(self.entry_views(), key@, i as int);
                    assert(self.entry_views().skip(i as int)[0] == self.entry_views()[i as int]);
                }
                return Some(self.entries[i].1);
            }
            i += 1;
        }
        proof {
            lemma_lookup_skip(self.entry_views(), key@, i as int);
            assert(self.entry_views().skip(i as int) =~= Seq::<(Seq<F>, M)>::empty());
        }
        None
    }

    /// Extends the strategy with a decision at a previously undecided
    /// information set.
    pub fn insert(&mut self, key: Vec<F>, choice: M)
        requires
            old(self).lookup(key@) is None,
        ensures
            final(self).entries@.len() == old(self).entries@.len() + 1,
            final(self).entry_views() == old(self).entry_views().push((key@, choice)),
            final(self).lookup(key@) == Some(choice),
            forall|k: Seq<F>| k != key@ ==> final(self).lookup(k) == old(self).lookup(k),
    {
        let ghost old_views = self.entry_views();
        let ghost kv = key@;
        self.entries.push((key, choice));
        proof {
            assert(self.entry_views() =~= old_views.push((kv, choice)));
            lemma_lookup_push(old_views, (kv, choice), kv);
            assert forall|k: Seq<F>| k != kv implies self.lookup(k) == lookup_entries(
                old_views,
                k,
            ) by {
                lemma_lookup_push(old_views, (kv, choice), k);
            }
        }
    }

    /// An exact copy of the table.
    pub fn duplicate(&self) -> (r: Self)
        ensures
            r.entry_views() == self.entry_views(),
    {
        let mut entries: Vec<(Vec<F>, M)> = Vec::new();
        let mut i: usize = 0;
        while i < self.entries.len()
            invariant
                i <= self.entries@.len(),
                entries@.len() == i,
                forall|j: int| 0 <= j < i ==> (#[trigger] entries@[j]).0@ == self.entries@[j].0@
                    && entries@[j].1 == self.entries@[j].1,
            decreases self.entries@.len() - i,
        {
            let mut key: Vec<F> = Vec::new();
            let mut j: usize = 0;
            while j < self.entries[i].0.len()
                invariant
                    i < self.entries@.len(),
                    j <= self.entries@[i as int].0@.len(),
                    key@ == self.entries@[i as int].0@.take(j as int),
                decreases self.entries@[i as int].0@.len() - j,
            {
                key.push(self.entries[i].0[j]);
                proof {
                    assert(key@ =~= self.entries@[i as int].0@.take(j + 1));
                }
                j += 1;
            }
            proof {
                assert(key@ =~= self.entries@[i as int].0@);
            }
            entries.push((key, self.entries[i].1));
            i += 1;
        }
        let r = NaiveStrategy { entries };
        proof {
            assert(r.entry_views() =~= self.entry_views());
        }
        r
    }
}

impl<M: Move, F: Observation<M>> FirstStrategy<M, F> for NaiveStrategy<M, F> {
    open spec fn spec_move(&self, play: Seq<F>) -> Option<M> {
        self.lookup(play)
    }

    fn make_move(&self, play: &Vec<F>) -> (r: Option<M>) {
        self.get(play)
    }
}

impl<M: Move, S: Observation<M>> SecondStrategy<M, S> for NaiveStrategy<M, S> {
    open spec fn spec_move(&self, play: Seq<S>) -> Option<M> {
        self.lookup(play)
    }

    fn make_move(&self, play: &Vec<S>) -> (r: Option<M>) {
        self.get(play)
    }
}

} // verus!
