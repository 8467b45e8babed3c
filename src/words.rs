use crate::docids::bitmap_contents;
use crate::graph::{
    lemma_delete_words_from, lemma_sorted_unique, sorted_positions, strictly_sorted, GraphView,
    QueryGraph, starts_at,
};
use roaring::RoaringBitmap;
use vstd::prelude::*;

verus! {

/// How the terms of a query may be relaxed when too few documents match.
#[derive(Clone, Copy, Debug, PartialEq, Eq, Structural)]
pub enum TermsMatchingStrategy {
    /// Drop terms from the end of the query, down to the first one.
    Last,
    /// Every term is mandatory.
    All,
}

/// A side channel that receives the graph before each bucket is resolved.
pub trait SearchLogger {
    fn log_words_state(&mut self, query_graph: &QueryGraph);
}

/// A logger that records nothing.
pub struct DefaultSearchLogger;

impl SearchLogger for DefaultSearchLogger {
    fn log_words_state(&mut self, _query_graph: &QueryGraph) {
    }
}

/// One bucket: the query that was resolved and the documents that match it.
pub struct RankingRuleOutput {
    pub query: QueryGraph,
    pub candidates: RoaringBitmap,
}

/// The ranking rule that relaxes a query by dropping its terms, one position
/// at a time, starting from the last.
pub struct Words {
    exhausted: bool,
    query_graph: Option<QueryGraph>,
    iterating: bool,
    positions_to_remove: Vec<i8>,
    terms_matching_strategy: TermsMatchingStrategy,
}

/// The mathematical state of a `Words` rule.
pub struct WordsView {
    pub exhausted: bool,
    pub iterating: bool,
    pub graph: Option<GraphView>,
    pub queue: Seq<i8>,
    pub strategy: TermsMatchingStrategy,
}

impl View for Words {
    type V = WordsView;

    closed spec fn view(&self) -> WordsView {
        WordsView {
            exhausted: self.exhausted,
            iterating: self.iterating,
            graph: match self.query_graph {
                Some(g) => Some(g@),
                None => None,
            },
            queue: self.positions_to_remove@,
            strategy: self.terms_matching_strategy,
        }
    }
}

impl WordsView {
    /// An iterating rule holds a well-formed graph; a rule that does not
    /// iterate is exhausted.
    pub open spec fn wf(self) -> bool {
        &&& self.iterating ==> self.graph is Some && self.graph->Some_0.wf()
        &&& !self.iterating ==> self.exhausted
    }
}

/// The state of a rule that is not iterating.
pub open spec fn idle(strategy: TermsMatchingStrategy) -> WordsView {
    WordsView { exhausted: true, iterating: false, graph: None, queue: Seq::empty(), strategy }
}

/// Whether `q` is the removal queue of a query whose term positions are `ps`:
/// every position but the smallest, in ascending order.
pub open spec fn is_removal_queue(q: Seq<i8>, ps: Set<i8>) -> bool {
    if ps.is_empty() {
        q.len() == 0
    } else {
        exists|first: i8|
            strictly_sorted(#[trigger] seq![first].add(q)) && seq![first].add(q).to_set() == ps
    }
}

/// The positions that `strategy` allows to remove from the graph `g`, in the
/// order in which they are consumed from the end.
pub open spec fn removal_queue_of(strategy: TermsMatchingStrategy, q: Seq<i8>, g: GraphView) -> bool {
    match strategy {
        TermsMatchingStrategy::All => q.len() == 0,
        TermsMatchingStrategy::Last => is_removal_queue(q, g.positions()),
    }
}

/// Loosens `g` for the next bucket: pops positions off the end of `q` until
/// the removal of one of them deletes a node. The flag tells that the queue
/// ran out first, in which case the graph is unchanged.
pub open spec fn relax(g: GraphView, q: Seq<i8>) -> (GraphView, Seq<i8>, bool)
    decreases q.len(),
{
    if q.len() == 0 {
        (g, q, true)
    } else if g.has_words_at(q.last()) {
        (g.without_words_at(q.last()), q.drop_last(), false)
    } else {
        relax(g, q.drop_last())
    }
}

/// The state after a bucket was produced from the state `s`.
pub open spec fn advanced(s: WordsView) -> WordsView {
    let (g, q, exhausted) = relax(s.graph->Some_0, s.queue);
    WordsView { exhausted, graph: Some(g), queue: q, ..s }
}

/// How many more buckets the state `s` can produce, at most.
pub open spec fn remaining_buckets(s: WordsView) -> nat {
    if s.exhausted {
        0
    } else {
        s.queue.len() + 1
    }
}

/// The state of a rule right after `start_iteration` on the graph `g`.
pub open spec fn started(s: WordsView, g: GraphView) -> bool {
    &&& s.iterating
    &&& !s.exhausted
    &&& s.graph == Some(g)
    &&& removal_queue_of(s.strategy, s.queue, g)
}

/// Relaxation never lengthens the queue, and shortens it whenever it does
/// not exhaust the rule.
proof fn lemma_relax_shortens(g: GraphView, q: Seq<i8>)
    ensures
        relax(g, q).1.len() <= q.len(),
        !relax(g, q).2 ==> relax(g, q).1.len() < q.len(),
    decreases q.len(),
{
    if q.len() > 0 && !g.has_words_at(q.last()) {
        lemma_relax_shortens(g, q.drop_last());
    }
}

/// With every term mandatory, a started rule yields exactly one bucket, for
/// the graph it was given, and is exhausted after it.
pub proof fn lemma_all_yields_one_bucket(s: WordsView, g: GraphView)
    requires
        s.strategy == TermsMatchingStrategy::All,
        started(s, g),
    ensures
        remaining_buckets(s) == 1,
        advanced(s).exhausted,
        advanced(s).graph == Some(g),
        remaining_buckets(advanced(s)) == 0,
{
}

/// Each bucket lowers the number of buckets that the rule can still yield.
pub proof fn lemma_each_bucket_uses_one(s: WordsView)
    requires
        !s.exhausted,
        s.graph is Some,
    ensures
        remaining_buckets(advanced(s)) < remaining_buckets(s),
{
    lemma_relax_shortens(s.graph->Some_0, s.queue);
}

/// A rule started with the strategy that drops terms can yield at most one
/// bucket per distinct position of its query's terms: the smallest position
/// is never removed.
pub proof fn lemma_last_bucket_bound(s: WordsView, g: GraphView)
    requires
        s.strategy == TermsMatchingStrategy::Last,
        started(s, g),
    ensures
        g.positions().is_empty() ==> remaining_buckets(s) == 1,
        !g.positions().is_empty() ==> remaining_buckets(s) == g.positions().len(),
{
    if !g.positions().is_empty() {
        let first = choose|first: i8|
            strictly_sorted(#[trigger] seq![first].add(s.queue)) && seq![first].add(s.queue).to_set()
                == g.positions();
        let all = seq![first].add(s.queue);
        assert(all.no_duplicates()) by {
            assert forall|i: int, j: int| 0 <= i < all.len() && 0 <= j < all.len() && i != j implies all[i]
                != all[j] by {
                if i < j {
                    assert(all[i] < all[j]);
                } else {
                    assert(all[j] < all[i]);
                }
            }
        }
        all.unique_seq_to_set();
    }
}

/// Ending an iteration twice leaves the rule as ending it once did.
pub proof fn lemma_end_iteration_idempotent(strategy: TermsMatchingStrategy)
    ensures
        idle(idle(strategy).strategy) == idle(strategy),
{
}

/// A started rule is fully determined by its strategy and its graph: no
/// progress of an earlier iteration survives, and two runs on the same input
/// produce the same sequence of states.
pub proof fn lemma_start_determined(s1: WordsView, s2: WordsView, g: GraphView)
    requires
        s1.strategy == s2.strategy,
        started(s1, g),
        started(s2, g),
    ensures
        s1 == s2,
        advanced(s1) == advanced(s2),
{
    if s1.strategy == TermsMatchingStrategy::Last && !g.positions().is_empty() {
        let f1 = choose|first: i8|
            strictly_sorted(#[trigger] seq![first].add(s1.queue)) && seq![first].add(s1.queue).to_set()
                == g.positions();
        let f2 = choose|first: i8|
            strictly_sorted(#[trigger] seq![first].add(s2.queue)) && seq![first].add(s2.queue).to_set()
                == g.positions();
        lemma_sorted_unique(seq![f1].add(s1.queue), seq![f2].add(s2.queue));
        assert(s1.queue =~= seq![f1].add(s1.queue).drop_first());
        assert(s2.queue =~= seq![f2].add(s2.queue).drop_first());
    }
    assert(s1.queue =~= s2.queue);
}

/// A bucket that does not exhaust the rule deletes at least one live term:
/// positions whose removal deletes nothing are skipped, so no two buckets
/// come from the same graph.
pub proof fn lemma_relax_deletes_a_term(g: GraphView, q: Seq<i8>)
    ensures
        relax(g, q).2 ==> relax(g, q).0 == g,
        !relax(g, q).2 ==> exists|i: int|
            0 <= i < g.nodes.len() && #[trigger] g.nodes[i] is Term && relax(g, q).0.nodes[i] is Deleted,
    decreases q.len(),
{
    if q.len() > 0 {
        if g.has_words_at(q.last()) {
            let k = choose|k: int| 0 <= k < g.nodes.len() && starts_at(#[trigger] g.nodes[k], q.last());
            lemma_delete_words_from(g, q.last(), 0, k);
            assert(g.nodes[k] is Term);
        } else {
            lemma_relax_deletes_a_term(g, q.drop_last());
        }
    }
}

impl Words {
    /// A rule that is not iterating yet, for the given strategy.
    pub fn new(terms_matching_strategy: TermsMatchingStrategy) -> (r: Self)
        ensures
            r@ == idle(terms_matching_strategy),
    {
        let r = Words {
            exhausted: true,
            query_graph: None,
            iterating: false,
            positions_to_remove: Vec::new(),
            terms_matching_strategy,
        };
        assert(r@.queue =~= Seq::<i8>::empty());
        r
    }

    /// Starts relaxing `parent_query_graph`: the rule takes a copy of it and
    /// computes, from the strategy, the positions that it may remove.
    pub fn start_iteration<L: SearchLogger>(
        &mut self,
        _logger: &mut L,
        _parent_candidates: &RoaringBitmap,
        parent_query_graph: &QueryGraph,
    )
        requires
            parent_query_graph.wf(),
        ensures
            final(self)@.wf(),
            final(self)@.iterating,
            !final(self)@.exhausted,
            final(self)@.strategy == old(self)@.strategy,
            final(self)@.graph == Some(parent_query_graph@),
            removal_queue_of(final(self)@.strategy, final(self)@.queue, parent_query_graph@),
    {
        self.exhausted = false;
        self.query_graph = Some(parent_query_graph.copy());
        let positions_to_remove = match self.terms_matching_strategy {
            TermsMatchingStrategy::Last => {
                let mut r = sorted_positions(parent_query_graph);
                if r.len() > 0 {
                    let ghost all = r@;
                    // the first term is never removed
                    let first = r.remove(0);
                    assert(all =~= seq![first].add(r@));
                    assert(all.to_set().contains(first));
                    assert(strictly_sorted(seq![first].add(r@)));
                    assert(is_removal_queue(r@, parent_query_graph@.positions()));
                } else {
                    assert(parent_query_graph@.positions() =~= r@.to_set());
                    assert(r@.to_set() =~= Set::<i8>::empty());
                }
                r
            },
            TermsMatchingStrategy::All => Vec::new(),
        };
        self.positions_to_remove = positions_to_remove;
        self.iterating = true;
    }

    /// Resolves the current query with `resolve` and returns it with its
    /// documents, then loosens the query for the next call. Returns `None`
    /// once nothing is left to remove.
    pub fn next_bucket<L: SearchLogger, E, F>(
        &mut self,
        logger: &mut L,
        universe: &RoaringBitmap,
        resolve: F,
    ) -> (r: Result<Option<RankingRuleOutput>, E>) where
        F: FnOnce(&QueryGraph, &RoaringBitmap) -> Result<RoaringBitmap, E>,

        requires
            old(self)@.wf(),
            old(self)@.iterating,
            bitmap_contents(*universe).len() > 1,
            forall|g: QueryGraph| resolve.requires((&g, universe)),
            forall|g: QueryGraph, b: RoaringBitmap|
                resolve.ensures((&g, universe), Ok::<RoaringBitmap, E>(b)) ==> bitmap_contents(
                    b,
                ).subset_of(bitmap_contents(*universe)),
        ensures
            final(self)@.wf(),
            old(self)@.exhausted ==> (r matches Ok(None)) && final(self)@ == old(self)@,
            !old(self)@.exhausted ==> match r {
                Ok(Some(out)) => {
                    &&& out.query@ == old(self)@.graph->Some_0
                    &&& resolve.ensures((&out.query, universe), Ok::<RoaringBitmap, E>(out.candidates))
                    &&& bitmap_contents(out.candidates).subset_of(bitmap_contents(*universe))
                    &&& final(self)@ == advanced(old(self)@)
                },
                Ok(None) => false,
                Err(e) => {
                    &&& exists|g: QueryGraph|
                        #[trigger] g@ == old(self)@.graph->Some_0 && resolve.ensures((&g, universe), Err::<RoaringBitmap, E>(e))
                    &&& final(self)@ == old(self)@
                },
            },
    {
        if self.exhausted {
            return Ok(None);
        }
        let child_query_graph = match &self.query_graph {
            Some(g) => {
                logger.log_words_state(g);
                g.copy()
            },
            None => {
                return Ok(None);
            },
        };
        let resolved = resolve(&child_query_graph, universe);
        let this_bucket = match resolved {
            Ok(b) => b,
            Err(e) => {
                assert(resolve.ensures((&child_query_graph, universe), Err::<RoaringBitmap, E>(e)));
                return Err(e);
            },
        };
        let mut query_graph = match self.query_graph.take() {
            Some(g) => g,
            None => {
                return Ok(None);
            },
        };
        let ghost g0 = query_graph@;
        let ghost q0 = self.positions_to_remove@;
        loop
            invariant_except_break
                !self.exhausted,
                query_graph@ == g0,
                relax(g0, self.positions_to_remove@) == relax(g0, q0),
            invariant
                query_graph.wf(),
                self.iterating == old(self).iterating,
                self.terms_matching_strategy == old(self).terms_matching_strategy,
                self.query_graph is None,
            ensures
                (query_graph@, self.positions_to_remove@, self.exhausted) == relax(g0, q0),
            decreases self.positions_to_remove@.len(),
        {
            match self.positions_to_remove.pop() {
                None => {
                    self.exhausted = true;
                    break;
                },
                Some(position_to_remove) => {
                    let did_delete_any_node = query_graph.remove_words_at_position(position_to_remove);
                    if did_delete_any_node {
                        break;
                    }
                },
            }
        }
        self.query_graph = Some(query_graph);
        Ok(Some(RankingRuleOutput { query: child_query_graph, candidates: this_bucket }))
    }

    /// Ends the iteration: the rule drops its graph and queue and is idle again.
    pub fn end_iteration<L: SearchLogger>(&mut self, _logger: &mut L)
        ensures
            final(self)@ == idle(old(self)@.strategy),
    {
        self.iterating = false;
        self.exhausted = true;
        self.positions_to_remove = Vec::new();
        self.query_graph = None;
        assert(self@.queue =~= Seq::<i8>::empty());
    }

    /// The name of this ranking rule.
    pub fn id(&self) -> (r: String)
        ensures
            r@ == "words"@,
    {
        String::from_str("words")
    }
}

} // verus!
