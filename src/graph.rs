use vstd::prelude::*;

verus! {

/// A query term placed in the query: the word alternatives that match it and
/// the inclusive range of query positions that it covers.
pub struct LocatedQueryTerm {
    pub words: Vec<String>,
    pub start: i8,
    pub end: i8,
}

/// A node of the query graph. Removed nodes stay in place as `Deleted`, so
/// that node indices never move.
pub enum QueryNode {
    Term(LocatedQueryTerm),
    Deleted,
    Start,
    End,
}

/// The graph of term alternatives of a query, stored as an arena of nodes and
/// an adjacency matrix: `edges[a][b]` holds when an edge leads from `a` to `b`.
pub struct QueryGraph {
    pub root_node: usize,
    pub end_node: usize,
    pub nodes: Vec<QueryNode>,
    pub edges: Vec<Vec<bool>>,
}

/// The mathematical value of a node.
pub enum NodeView {
    Term { words: Seq<Seq<char>>, start: i8, end: i8 },
    Deleted,
    Start,
    End,
}

/// The mathematical value of a query graph.
pub struct GraphView {
    pub root: int,
    pub end: int,
    pub nodes: Seq<NodeView>,
    pub edges: Seq<Seq<bool>>,
}

impl View for LocatedQueryTerm {
    type V = NodeView;

    open spec fn view(&self) -> NodeView {
        NodeView::Term { words: self.words@.map_values(|w: String| w@), start: self.start, end: self.end }
    }
}

impl View for QueryNode {
    type V = NodeView;

    open spec fn view(&self) -> NodeView {
        match self {
            QueryNode::Term(t) => t@,
            QueryNode::Deleted => NodeView::Deleted,
            QueryNode::Start => NodeView::Start,
            QueryNode::End => NodeView::End,
        }
    }
}

impl View for QueryGraph {
    type V = GraphView;

    open spec fn view(&self) -> GraphView {
        GraphView {
            root: self.root_node as int,
            end: self.end_node as int,
            nodes: self.nodes@.map_values(|n: QueryNode| n@),
            edges: self.edges@.map_values(|r: Vec<bool>| r@),
        }
    }
}

/// Whether `n` is a live term whose positions begin at `p`.
pub open spec fn starts_at(n: NodeView, p: i8) -> bool {
    match n {
        NodeView::Term { start, .. } => start == p,
        _ => false,
    }
}

/// Whether `n` is a live term that covers position `p`.
pub open spec fn covers(n: NodeView, p: i8) -> bool {
    match n {
        NodeView::Term { start, end, .. } => start <= p <= end,
        _ => false,
    }
}

/// The adjacency matrix after removing node `n` while keeping paths through
/// it: every predecessor of `n` is linked to every successor of `n`, and no
/// edge touches `n` any more.
pub open spec fn without_node(m: Seq<Seq<bool>>, n: int) -> Seq<Seq<bool>> {
    Seq::new(
        m.len(),
        |a: int|
            Seq::new(m[a].len(), |b: int| a != n && b != n && (m[a][b] || (m[a][n] && m[n][b]))),
    )
}

impl GraphView {
    pub open spec fn wf(self) -> bool {
        &&& self.edges.len() == self.nodes.len()
        &&& forall|a: int| 0 <= a < self.edges.len() ==> #[trigger] self.edges[a].len() == self.nodes.len()
        &&& 0 <= self.root < self.nodes.len()
        &&& self.nodes[self.root] is Start
        &&& 0 <= self.end < self.nodes.len()
        &&& self.nodes[self.end] is End
        &&& forall|i: int| 0 <= i < self.nodes.len() ==> match #[trigger] self.nodes[i] {
            NodeView::Term { start, end, .. } => start <= end,
            _ => true,
        }
    }

    /// The positions covered by the live terms of the graph.
    pub open spec fn positions(self) -> Set<i8> {
        Set::new(|p: i8| exists|i: int| 0 <= i < self.nodes.len() && covers(#[trigger] self.nodes[i], p))
    }

    /// Whether some live term begins at position `p`.
    pub open spec fn has_words_at(self, p: i8) -> bool {
        exists|i: int| 0 <= i < self.nodes.len() && starts_at(#[trigger] self.nodes[i], p)
    }

    /// The graph with node `n` marked deleted and its edges bridged.
    pub open spec fn delete_node(self, n: int) -> GraphView {
        GraphView {
            nodes: self.nodes.update(n, NodeView::Deleted),
            edges: without_node(self.edges, n),
            ..self
        }
    }

    /// Deletes, in index order from `i` on, every live term that begins at `p`.
    pub open spec fn delete_words_from(self, p: i8, i: int) -> GraphView
        decreases self.nodes.len() - i,
    {
        if i < 0 || i >= self.nodes.len() {
            self
        } else if starts_at(self.nodes[i], p) {
            self.delete_node(i).delete_words_from(p, i + 1)
        } else {
            self.delete_words_from(p, i + 1)
        }
    }

    /// The graph without the terms that begin at position `p`.
    pub open spec fn without_words_at(self, p: i8) -> GraphView {
        self.delete_words_from(p, 0)
    }
}

/// Whether the values of `s` rise strictly.
pub open spec fn strictly_sorted(s: Seq<i8>) -> bool {
    forall|i: int, j: int| 0 <= i < j < s.len() ==> s[i] < s[j]
}

/// The positions covered by the live terms among the first `i` nodes.
pub open spec fn positions_before(g: GraphView, i: int) -> Set<i8> {
    Set::new(|p: i8| exists|j: int| 0 <= j < i && covers(#[trigger] g.nodes[j], p))
}

/// Inserts `p` into a strictly sorted vector, unless it is already there.
fn insert_sorted(v: &mut Vec<i8>, p: i8)
    requires
        strictly_sorted(old(v)@),
    ensures
        strictly_sorted(final(v)@),
        final(v)@.to_set() == old(v)@.to_set().insert(p),
{
    let mut k: usize = 0;
    while k < v.len() && v[k] < p
        invariant
            k <= v.len(),
            forall|j: int| 0 <= j < k ==> v@[j] < p,
        decreases v.len() - k,
    {
        k += 1;
    }
    if k < v.len() && v[k] == p {
        assert(v@.to_set().insert(p) =~= v@.to_set());
        return;
    }
    let ghost before = v@;
    v.insert(k, p);
    assert(v@ == before.insert(k as int, p));
    assert forall|i: int, j: int| 0 <= i < j < v@.len() implies v@[i] < v@[j] by {
        if j < k {
        } else if j == k {
        } else if i < k {
            assert(before[k as int] >= p);
        } else if i == k {
            assert(before[k as int] > p);
            assert(j - 1 >= k);
        } else {
        }
    }
    assert forall|x: i8| #[trigger] v@.to_set().contains(x) <==> before.to_set().insert(p).contains(x) by {
        if v@.contains(x) {
            let i = choose|i: int| 0 <= i < v@.len() && v@[i] == x;
            if i < k {
                assert(before[i] == x);
            } else if i > k {
                assert(before[i - 1] == x);
            }
        }
        if before.contains(x) {
            let i = choose|i: int| 0 <= i < before.len() && before[i] == x;
            if i < k {
                assert(v@[i] == x);
            } else {
                assert(v@[i + 1] == x);
            }
        }
        if x == p {
            assert(v@[k as int] == p);
        }
    }
    assert(v@.to_set() =~= before.to_set().insert(p));
}

/// The distinct positions covered by the live terms of `g`, in ascending order.
pub fn sorted_positions(g: &QueryGraph) -> (r: Vec<i8>)
    requires
        g.wf(),
    ensures
        strictly_sorted(r@),
        r@.to_set() == g@.positions(),
{
    let mut r: Vec<i8> = Vec::new();
    let len: usize = g.nodes.len();
    let mut i: usize = 0;
    assert(r@.to_set() =~= positions_before(g@, 0));
    while i < len
        invariant
            g.wf(),
            len == g.nodes.len(),
            i <= len,
            strictly_sorted(r@),
            r@.to_set() == positions_before(g@, i as int),
        decreases len - i,
    {
        if let QueryNode::Term(t) = &g.nodes[i] {
            assert(g@.nodes[i as int] == t@);
            let end: i16 = t.end as i16;
            let mut q: i16 = t.start as i16;
            while q <= end
                invariant
                    g.wf(),
                    i < len,
                    len == g.nodes.len(),
                    g@.nodes[i as int] == t@,
                    end == t.end as i16,
                    t.start <= q <= end + 1,
                    strictly_sorted(r@),
                    r@.to_set() == positions_before(g@, i as int).union(
                        Set::new(|x: i8| t.start <= x < q),
                    ),
                decreases end + 1 - q,
            {
                insert_sorted(&mut r, q as i8);
                q += 1;
                assert(r@.to_set() =~= positions_before(g@, i as int).union(
                    Set::new(|x: i8| t.start <= x < q),
                ));
            }
            assert forall|x: i8| #[trigger] positions_before(g@, i + 1).contains(x) <==> positions_before(g@, i as int).union(
                Set::new(|x: i8| t.start <= x < q),
            ).contains(x) by {
                if positions_before(g@, i + 1).contains(x) {
                    let j = choose|j: int| 0 <= j < i + 1 && covers(#[trigger] g@.nodes[j], x);
                    if j < i {
                        assert(positions_before(g@, i as int).contains(x));
                    }
                }
                if positions_before(g@, i as int).contains(x) {
                    let j = choose|j: int| 0 <= j < i && covers(#[trigger] g@.nodes[j], x);
                    assert(covers(g@.nodes[j], x));
                }
                if t.start <= x < q {
                    assert(covers(g@.nodes[i as int], x));
                }
            }
            assert(r@.to_set() =~= positions_before(g@, i + 1));
        } else {
            assert forall|x: i8| #[trigger] positions_before(g@, i + 1).contains(x) <==> positions_before(g@, i as int).contains(x) by {
                if positions_before(g@, i + 1).contains(x) {
                    let j = choose|j: int| 0 <= j < i + 1 && covers(#[trigger] g@.nodes[j], x);
                    if j < i {
                        assert(positions_before(g@, i as int).contains(x));
                    }
                }
                if positions_before(g@, i as int).contains(x) {
                    let j = choose|j: int| 0 <= j < i && covers(#[trigger] g@.nodes[j], x);
                    assert(covers(g@.nodes[j], x));
                }
            }
            assert(r@.to_set() =~= positions_before(g@, i + 1));
        }
        i += 1;
    }
    assert(r@.to_set() =~= g@.positions());
    r
}

/// Deleting the terms that begin at `p` leaves a graph without such terms
/// unchanged.
pub proof fn lemma_delete_nothing(g: GraphView, p: i8, i: int)
    requires
        forall|k: int| i <= k < g.nodes.len() ==> !starts_at(#[trigger] g.nodes[k], p),
    ensures
        g.delete_words_from(p, i) == g,
    decreases g.nodes.len() - i,
{
    if i < 0 || i >= g.nodes.len() {
    } else {
        lemma_delete_nothing(g, p, i + 1);
    }
}

/// Every term that begins at `p`, from index `i` on, is deleted, and the
/// graph keeps its number of nodes.
pub proof fn lemma_delete_words_from(g: GraphView, p: i8, i: int, k: int)
    requires
        0 <= i <= k < g.nodes.len(),
        starts_at(g.nodes[k], p),
    ensures
        g.delete_words_from(p, i).nodes.len() == g.nodes.len(),
        g.delete_words_from(p, i).nodes[k] is Deleted,
    decreases g.nodes.len() - i,
{
    if i == k {
        lemma_delete_words_len(g.delete_node(i), p, i + 1);
        lemma_delete_words_keeps_deleted(g.delete_node(i), p, i + 1, k);
    } else if starts_at(g.nodes[i], p) {
        lemma_delete_words_from(g.delete_node(i), p, i + 1, k);
    } else {
        lemma_delete_words_from(g, p, i + 1, k);
    }
}

proof fn lemma_delete_words_len(g: GraphView, p: i8, i: int)
    ensures
        g.delete_words_from(p, i).nodes.len() == g.nodes.len(),
    decreases g.nodes.len() - i,
{
    if i < 0 || i >= g.nodes.len() {
    } else if starts_at(g.nodes[i], p) {
        lemma_delete_words_len(g.delete_node(i), p, i + 1);
    } else {
        lemma_delete_words_len(g, p, i + 1);
    }
}

proof fn lemma_delete_words_keeps_deleted(g: GraphView, p: i8, i: int, k: int)
    requires
        0 <= k < g.nodes.len(),
        g.nodes[k] is Deleted,
    ensures
        g.delete_words_from(p, i).nodes[k] is Deleted,
    decreases g.nodes.len() - i,
{
    if i < 0 || i >= g.nodes.len() {
    } else if starts_at(g.nodes[i], p) {
        lemma_delete_words_keeps_deleted(g.delete_node(i), p, i + 1, k);
    } else {
        lemma_delete_words_keeps_deleted(g, p, i + 1, k);
    }
}

/// Two strictly sorted sequences that hold the same values are equal.
pub proof fn lemma_sorted_unique(s1: Seq<i8>, s2: Seq<i8>)
    requires
        strictly_sorted(s1),
        strictly_sorted(s2),
        s1.to_set() == s2.to_set(),
    ensures
        s1 == s2,
    decreases s1.len(),
{
    if s1.len() == 0 {
        if s2.len() > 0 {
            assert(s2.to_set().contains(s2[0]));
        }
        assert(s1 =~= s2);
    } else if s2.len() == 0 {
        assert(s1.to_set().contains(s1[0]));
    } else {
        assert(s1.to_set().contains(s1[0]));
        assert(s2.to_set().contains(s2[0]));
        let k1 = choose|k: int| 0 <= k < s2.len() && s2[k] == s1[0];
        let k2 = choose|k: int| 0 <= k < s1.len() && s1[k] == s2[0];
        assert(s2[0] <= s2[k1]);
        assert(s1[0] <= s1[k2]);
        let r1 = s1.drop_first();
        let r2 = s2.drop_first();
        assert forall|x: i8| #[trigger] r1.to_set().contains(x) <==> r2.to_set().contains(x) by {
            if r1.contains(x) {
                let i = choose|i: int| 0 <= i < r1.len() && r1[i] == x;
                assert(s1[i + 1] == x);
                assert(s2.to_set().contains(x));
                let j = choose|j: int| 0 <= j < s2.len() && s2[j] == x;
                if j == 0 {
                    assert(s1[0] < s1[i + 1]);
                } else {
                    assert(r2[j - 1] == x);
                }
            }
            if r2.contains(x) {
                let i = choose|i: int| 0 <= i < r2.len() && r2[i] == x;
                assert(s2[i + 1] == x);
                assert(s1.to_set().contains(x));
                let j = choose|j: int| 0 <= j < s1.len() && s1[j] == x;
                if j == 0 {
                    assert(s2[0] < s2[i + 1]);
                } else {
                    assert(r1[j - 1] == x);
                }
            }
        }
        assert(r1.to_set() =~= r2.to_set());
        lemma_sorted_unique(r1, r2);
        assert(s1[0] == s2[0]);
        assert forall|i: int| 0 < i < s1.len() implies s1[i] == s2[i] by {
            assert(s1[i] == r1[i - 1]);
            assert(s2[i] == r2[i - 1]);
        }
        assert(s1 =~= s2);
    }
}

fn copy_bools(v: &Vec<bool>) -> (r: Vec<bool>)
    ensures
        r@ == v@,
{
    let mut r: Vec<bool> = Vec::new();
    let mut i: usize = 0;
    while i < v.len()
        invariant
            i <= v.len(),
            r@ == v@.subrange(0, i as int),
        decreases v.len() - i,
    {
        r.push(v[i]);
        i += 1;
    }
    assert(r@ =~= v@);
    r
}

fn copy_words(v: &Vec<String>) -> (r: Vec<String>)
    ensures
        r@.map_values(|w: String| w@) == v@.map_values(|w: String| w@),
{
    let mut r: Vec<String> = Vec::new();
    let mut i: usize = 0;
    while i < v.len()
        invariant
            i <= v.len(),
            r@.len() == i,
            forall|k: int| 0 <= k < i ==> (#[trigger] r@[k])@ == v@[k]@,
        decreases v.len() - i,
    {
        r.push(v[i].clone());
        i += 1;
    }
    assert(r@.map_values(|w: String| w@) =~= v@.map_values(|w: String| w@));
    r
}

impl QueryNode {
    /// A copy of the node, equal to it in value.
    pub fn copy(&self) -> (r: QueryNode)
        ensures
            r@ == self@,
    {
        match self {
            QueryNode::Term(t) => QueryNode::Term(
                LocatedQueryTerm { words: copy_words(&t.words), start: t.start, end: t.end },
            ),
            QueryNode::Deleted => QueryNode::Deleted,
            QueryNode::Start => QueryNode::Start,
            QueryNode::End => QueryNode::End,
        }
    }
}

impl QueryGraph {
    pub open spec fn wf(&self) -> bool {
        self@.wf()
    }

    /// Whether the graph is well formed: a square adjacency matrix, a start
    /// and an end node where the graph says, and terms with ordered ranges.
    pub fn is_well_formed(&self) -> (r: bool)
        ensures
            r == self.wf(),
    {
        let len: usize = self.nodes.len();
        if self.edges.len() != len || self.root_node >= len || self.end_node >= len {
            return false;
        }
        if !matches!(self.nodes[self.root_node], QueryNode::Start) {
            return false;
        }
        if !matches!(self.nodes[self.end_node], QueryNode::End) {
            return false;
        }
        let mut i: usize = 0;
        while i < len
            invariant
                len == self.nodes.len(),
                self.edges.len() == len,
                i <= len,
                forall|a: int| 0 <= a < i ==> #[trigger] self@.edges[a].len() == len,
                forall|a: int| 0 <= a < i ==> match #[trigger] self@.nodes[a] {
                    NodeView::Term { start, end, .. } => start <= end,
                    _ => true,
                },
            decreases len - i,
        {
            if self.edges[i].len() != len {
                assert(self@.edges[i as int].len() != len);
                return false;
            }
            if let QueryNode::Term(t) = &self.nodes[i] {
                if t.start > t.end {
                    assert(self@.nodes[i as int] == t@);
                    return false;
                }
            }
            i += 1;
        }
        true
    }

    /// Builds a graph from its parts, or returns `None` where they do not
    /// form a well-formed graph.
    pub fn new(root_node: usize, end_node: usize, nodes: Vec<QueryNode>, edges: Vec<Vec<bool>>) -> (r: Option<
        QueryGraph,
    >)
        ensures
            r is Some <==> (QueryGraph { root_node, end_node, nodes, edges }).wf(),
            r is Some ==> r->Some_0 == (QueryGraph { root_node, end_node, nodes, edges }),
    {
        let g = QueryGraph { root_node, end_node, nodes, edges };
        if g.is_well_formed() {
            Some(g)
        } else {
            None
        }
    }

    /// Marks node `n` deleted and links each of its predecessors to each of
    /// its successors, so that paths through it survive.
    fn remove_node_keep_edges(&mut self, n: usize)
        requires
            old(self).wf(),
            n < old(self).nodes.len(),
            old(self).nodes@[n as int] is Term,
        ensures
            final(self)@ == old(self)@.delete_node(n as int),
            final(self).wf(),
    {
        let len: usize = self.nodes.len();
        let ghost m = self@.edges;
        let mut new_edges: Vec<Vec<bool>> = Vec::new();
        let mut a: usize = 0;
        while a < len
            invariant
                self.wf(),
                len == self.nodes.len(),
                n < len,
                m == self@.edges,
                a <= len,
                new_edges@.len() == a,
                forall|k: int| 0 <= k < a ==> (#[trigger] new_edges@[k])@ == without_node(m, n as int)[k],
            decreases len - a,
        {
            let mut row: Vec<bool> = Vec::new();
            let mut b: usize = 0;
            while b < len
                invariant
                    self.wf(),
                    len == self.nodes.len(),
                    n < len,
                    a < len,
                    m == self@.edges,
                    b <= len,
                    row@ == without_node(m, n as int)[a as int].subrange(0, b as int),
                decreases len - b,
            {
                assert(m[a as int] == self.edges@[a as int]@);
                assert(m[n as int] == self.edges@[n as int]@);
                let v = a != n && b != n && (self.edges[a][b] || (self.edges[a][n] && self.edges[n][b]));
                row.push(v);
                b += 1;
                assert(row@ =~= without_node(m, n as int)[a as int].subrange(0, b as int));
            }
            assert(row@ =~= without_node(m, n as int)[a as int]);
            new_edges.push(row);
            a += 1;
        }
        self.edges = new_edges;
        self.nodes.set(n, QueryNode::Deleted);
        assert(self@.edges =~= without_node(m, n as int));
        assert(self@.nodes =~= old(self)@.nodes.update(n as int, NodeView::Deleted));
    }

    /// Removes every live term that begins at `position`, keeping the paths
    /// that went through it. Returns whether any node was removed.
    pub fn remove_words_at_position(&mut self, position: i8) -> (r: bool)
        requires
            old(self).wf(),
        ensures
            final(self)@ == old(self)@.without_words_at(position),
            r == old(self)@.has_words_at(position),
            !r ==> final(self)@ == old(self)@,
            final(self).wf(),
    {
        let len: usize = self.nodes.len();
        let mut removed = false;
        let mut i: usize = 0;
        while i < len
            invariant
                self.wf(),
                len == self.nodes.len(),
                i <= len,
                self@.delete_words_from(position, i as int) == old(self)@.without_words_at(position),
                forall|k: int| i <= k < len ==> #[trigger] self@.nodes[k] == old(self)@.nodes[k],
                removed == exists|k: int| 0 <= k < i && starts_at(#[trigger] old(self)@.nodes[k], position),
            decreases len - i,
        {
            let hit = match &self.nodes[i] {
                QueryNode::Term(t) => t.start == position,
                _ => false,
            };
            assert(hit == starts_at(old(self)@.nodes[i as int], position));
            if hit {
                self.remove_node_keep_edges(i);
                removed = true;
            }
            i += 1;
        }
        if !removed {
            proof {
                lemma_delete_nothing(old(self)@, position, 0);
            }
        }
        removed
    }

    /// A copy of the graph, equal to it in value.
    pub fn copy(&self) -> (r: QueryGraph)
        ensures
            r@ == self@,
    {
        let mut nodes: Vec<QueryNode> = Vec::new();
        let mut i: usize = 0;
        while i < self.nodes.len()
            invariant
                i <= self.nodes.len(),
                nodes@.len() == i,
                forall|k: int| 0 <= k < i ==> (#[trigger] nodes@[k])@ == self.nodes@[k]@,
            decreases self.nodes.len() - i,
        {
            nodes.push(self.nodes[i].copy());
            i += 1;
        }
        let mut edges: Vec<Vec<bool>> = Vec::new();
        let mut j: usize = 0;
        while j < self.edges.len()
            invariant
                j <= self.edges.len(),
                edges@.len() == j,
                forall|k: int| 0 <= k < j ==> (#[trigger] edges@[k])@ == self.edges@[k]@,
            decreases self.edges.len() - j,
        {
            edges.push(copy_bools(&self.edges[j]));
            j += 1;
        }
        let r = QueryGraph { root_node: self.root_node, end_node: self.end_node, nodes, edges };
        assert(r@.nodes =~= self@.nodes);
        assert(r@.edges =~= self@.edges);
        r
    }
}

} // verus!
