use vstd::prelude::*;

verus! {

use crate::ast::Expression;
use crate::calc::Operator;
use crate::engine::TraceMatrix;
use crate::score::{get_val, Score, SCALE};
use crate::BaseT;

/// A frontier entry: a node's score and its position in the tree.
#[derive(Debug, Clone, Copy, PartialEq, Eq, Structural)]
pub struct QueueScore(pub u64, pub usize);

/// What a worker hands back for one task: the score of the node's
/// expression and, for future constant synthesis, a model.
#[derive(Debug)]
pub struct WorkerResult {
    pub score: Score,
    pub node: usize,
    pub model: Vec<(String, BaseT)>,
}

impl Default for WorkerResult {
    fn default() -> (r: Self)
        ensures
            r.score == Score::Unknown,
            r.node == 0,
            r.model@.len() == 0,
    {
        WorkerResult { score: Score::Unknown, node: 0, model: Vec::new() }
    }
}

/// One evaluation task: which node to score and its expression.
#[derive(Debug)]
pub struct WorkerTask {
    pub expression: Expression,
    pub node: usize,
}

/// One node of the search tree: its expression, its running score, its own
/// position, its parent's position, its children's positions, and a model
/// slot for future constant synthesis.
#[derive(Debug)]
pub struct Node {
    pub expression: Expression,
    pub score: u64,
    pub index: usize,
    pub prev: usize,
    pub next: Vec<usize>,
    pub sat_model: Vec<(String, BaseT)>,
}

/// Every node records its own position, the root is its own parent, every
/// other node's parent lies strictly before it, children lie strictly
/// after their parent and point back to it, and every non-root node is
/// among its parent's children.
pub open spec fn wf_tree(tree: Seq<Node>) -> bool {
    &&& tree.len() >= 1
    &&& forall|i: int| 0 <= i < tree.len() ==> (#[trigger] tree[i].index) == i
    &&& tree[0].prev == 0
    &&& forall|i: int| 1 <= i < tree.len() ==> (#[trigger] tree[i].prev) < i
    &&& forall|i: int, c: int|
        0 <= i < tree.len() && 0 <= c < tree[i].next@.len() ==> i < (#[trigger] tree[i].next@[c])
            < tree.len() && tree[tree[i].next@[c] as int].prev == i
    &&& forall|i: int|
        1 <= i < tree.len() ==> exists|c: int|
            0 <= c < tree[(#[trigger] tree[i].prev) as int].next@.len() && tree[tree[i].prev as int].next@[c]
                == i
}

/// Only nodes whose expression still has a hole ever gain children.
pub open spec fn expanded_not_finite(tree: Seq<Node>) -> bool {
    forall|i: int|
        0 <= i < tree.len() && (#[trigger] tree[i]).next@.len() > 0 ==> !tree[i].expression.finite()
}

/// Every non-root node's expression is a one-step derivation of its
/// parent's expression through the term set, so every expression in the
/// tree is reachable from the root by grammar steps.
pub open spec fn derived_edges(tree: Seq<Node>, terms: Seq<Expression>) -> bool {
    forall|i: int|
        1 <= i < tree.len() ==> tree[(#[trigger] tree[i]).prev as int].expression.spec_derive(
            terms,
        ).contains(tree[i].expression)
}

/// Two nodes agree on everything but possibly the score.
pub open spec fn same_shape(a: Node, b: Node) -> bool {
    &&& a.expression == b.expression
    &&& a.index == b.index
    &&& a.prev == b.prev
    &&& a.next == b.next
    &&& a.sat_model == b.sat_model
}

/// The first tree is a prefix of the second up to scores and new
/// children: existing nodes keep their expression, position, parent and
/// model, and child lists only gain entries at the end.
pub open spec fn appended_only(t1: Seq<Node>, t2: Seq<Node>) -> bool {
    &&& t1.len() <= t2.len()
    &&& forall|i: int|
        0 <= i < t1.len() ==> {
            &&& (#[trigger] t2[i]).expression == t1[i].expression
            &&& t2[i].index == t1[i].index
            &&& t2[i].prev == t1[i].prev
            &&& t2[i].sat_model == t1[i].sat_model
            &&& t2[i].next@.len() >= t1[i].next@.len()
            &&& forall|c: int|
                0 <= c < t1[i].next@.len() ==> (#[trigger] t2[i].next@[c]) == t1[i].next@[c]
        }
}

/// A freshly attached childless node for expression `e` at position
/// `index` under `parent`.
pub open spec fn fresh_child(n: Node, e: Expression, index: int, parent: usize) -> bool {
    &&& n.expression == e
    &&& n.index == index
    &&& n.prev == parent
    &&& n.next@.len() == 0
    &&& n.sat_model@.len() == 0
}

/// Every score is a fixed-point value of at most `SCALE`.
pub open spec fn scores_bounded(tree: Seq<Node>) -> bool {
    forall|i: int| 0 <= i < tree.len() ==> (#[trigger] tree[i]).score <= SCALE
}

/// A finite node's score is exactly the recomputed combined score of its
/// evaluation against the outputs, or 0 where it cannot be evaluated.
pub open spec fn node_score_consistent(n: Node, inputs: TraceMatrix, outputs: Seq<BaseT>) -> bool {
    n.expression.finite() ==> match n.expression.spec_eval(inputs) {
        Some(cols) => n.score as int == get_val(cols, outputs),
        None => n.score == 0,
    }
}

pub open spec fn scores_consistent(tree: Seq<Node>, inputs: TraceMatrix, outputs: Seq<BaseT>) -> bool {
    forall|i: int|
        0 <= i < tree.len() ==> node_score_consistent(#[trigger] tree[i], inputs, outputs)
}

/// The columns are well formed and each is as long as the output column.
pub open spec fn trace_wf(inputs: TraceMatrix, outputs: Seq<BaseT>) -> bool {
    &&& inputs.wf()
    &&& forall|i: int|
        0 <= i < inputs.cols@.len() ==> (#[trigger] inputs.cols@[i].1@).len() == outputs.len()
}

/// The frontier of the first `n` nodes: one entry per childless node, in
/// index order.
pub open spec fn frontier(tree: Seq<Node>, n: int) -> Seq<QueueScore>
    decreases n,
{
    if n <= 0 {
        Seq::empty()
    } else {
        frontier(tree, n - 1) + if tree[n - 1].next@.len() == 0 {
            seq![QueueScore(tree[n - 1].score, (n - 1) as usize)]
        } else {
            Seq::empty()
        }
    }
}

/// Every frontier entry names a childless node with its score, and every
/// childless node has an entry.
pub proof fn lemma_frontier_props(tree: Seq<Node>, n: int)
    requires
        0 <= n <= tree.len(),
        n <= usize::MAX,
    ensures
        forall|k: int|
            0 <= k < frontier(tree, n).len() ==> {
                let e = #[trigger] frontier(tree, n)[k];
                &&& (e.1 as int) < n
                &&& tree[e.1 as int].next@.len() == 0
                &&& e.0 == tree[e.1 as int].score
            },
        forall|j: int|
            0 <= j < n && (#[trigger] tree[j].next@).len() == 0 ==> frontier(tree, n).contains(
                QueueScore(tree[j].score, j as usize),
            ),
        forall|k1: int, k2: int|
            0 <= k1 < k2 < frontier(tree, n).len() ==> (#[trigger] frontier(tree, n)[k1]).1 < (
            #[trigger] frontier(tree, n)[k2]).1,
    decreases n,
{
    if n > 0 {
        lemma_frontier_props(tree, n - 1);
        let prev = frontier(tree, n - 1);
        let cur = frontier(tree, n);
        assert forall|k: int|
            0 <= k < cur.len() implies {
            let e = #[trigger] cur[k];
            &&& (e.1 as int) < n
            &&& tree[e.1 as int].next@.len() == 0
            &&& e.0 == tree[e.1 as int].score
        } by {
            if k < prev.len() {
                assert(cur[k] == prev[k]);
            } else {
                assert(tree[n - 1].next@.len() == 0);
                assert(cur[k] == QueueScore(tree[n - 1].score, (n - 1) as usize));
                assert((((n - 1) as usize) as int) == n - 1);
            }
        }
        assert forall|k1: int, k2: int|
            0 <= k1 < k2 < cur.len() implies (#[trigger] cur[k1]).1 < (#[trigger] cur[k2]).1 by {
            if k2 < prev.len() {
                assert(cur[k1] == prev[k1]);
                assert(cur[k2] == prev[k2]);
            } else {
                assert(cur[k1] == prev[k1]);
                assert(cur[k2] == QueueScore(tree[n - 1].score, (n - 1) as usize));
            }
        }
        assert forall|j: int|
            0 <= j < n && (#[trigger] tree[j].next@).len() == 0 implies cur.contains(
            QueueScore(tree[j].score, j as usize),
        ) by {
            if j < n - 1 {
                let e = QueueScore(tree[j].score, j as usize);
                assert(prev.contains(e));
                let k = choose|k: int| 0 <= k < prev.len() && prev[k] == e;
                assert(cur[k] == e);
            } else {
                assert(cur[cur.len() - 1] == QueueScore(tree[j].score, j as usize));
            }
        }
    }
}

/// Whether entry `a` beats entry `b`: a higher score, or the same score at
/// a smaller node index.
pub open spec fn q_better(a: QueueScore, b: QueueScore) -> bool {
    a.0 > b.0 || (a.0 == b.0 && a.1 < b.1)
}

/// The position of the best entry among the first `n`: highest score,
/// ties broken by the smaller node index.
pub open spec fn best_upto(q: Seq<QueueScore>, n: int) -> int
    decreases n,
{
    if n <= 1 {
        0
    } else {
        let p = best_upto(q, n - 1);
        if q_better(q[n - 1], q[p]) {
            n - 1
        } else {
            p
        }
    }
}

/// The best position is in range and no entry beats it.
pub proof fn lemma_best_upto_props(q: Seq<QueueScore>, n: int)
    requires
        1 <= n <= q.len(),
    ensures
        0 <= best_upto(q, n) < n,
        forall|k: int| 0 <= k < n ==> !q_better(#[trigger] q[k], q[best_upto(q, n)]),
    decreases n,
{
    if n > 1 {
        lemma_best_upto_props(q, n - 1);
    }
}

/// Remove and return the best frontier entry: the highest score, ties
/// broken by the smaller node index.
pub fn pop_best(queue: &mut Vec<QueueScore>) -> (r: Option<QueueScore>)
    ensures
        old(queue)@.len() == 0 ==> r is None && final(queue)@ == old(queue)@,
        old(queue)@.len() > 0 ==> {
            let p = best_upto(old(queue)@, old(queue)@.len() as int);
            &&& r == Some(old(queue)@[p])
            &&& final(queue)@ == old(queue)@.remove(p)
            &&& forall|k: int|
                0 <= k < old(queue)@.len() ==> !q_better(#[trigger] old(queue)@[k], old(queue)@[p])
        },
{
    let n = queue.len();
    if n == 0 {
        return None;
    }
    let mut best: usize = 0;
    let mut i: usize = 1;
    while i < n
        invariant
            *queue == *old(queue),
            n == queue@.len(),
            1 <= i <= n,
            best < i,
            best == best_upto(queue@, i as int),
        decreases n - i,
    {
        let qi = queue[i];
        let qb = queue[best];
        if qi.0 > qb.0 || (qi.0 == qb.0 && qi.1 < qb.1) {
            best = i;
        }
        i += 1;
    }
    proof {
        lemma_best_upto_props(queue@, n as int);
    }
    let e = queue[best];
    queue.remove(best);
    Some(e)
}

/// The synthesis state: the search budget, the append-only tree, the
/// frontier queue, the grammar's term set, the operator set, and the
/// scoring mode.
pub struct Synthesis {
    pub n_runs: usize,
    pub n_threads: usize,
    pub n_batchsize: usize,
    pub tree: Vec<Node>,
    pub queue: Vec<QueueScore>,
    pub terms: Vec<Expression>,
    pub operators: Vec<Operator>,
    pub scoring: Score,
}

/// What one synthesis run reports: the winning expression if one scored
/// perfectly, the best finite candidate seen, its score, and how many
/// nodes the run added.
pub struct SynthResult {
    pub winner: Option<Expression>,
    pub best: Expression,
    pub best_score: u64,
    pub expanded_nodes: usize,
}

impl Synthesis {
    /// The structural invariant of a synthesis state.
    pub open spec fn inv(self) -> bool {
        &&& wf_tree(self.tree@)
        &&& expanded_not_finite(self.tree@)
        &&& scores_bounded(self.tree@)
        &&& self.n_runs >= 1
        &&& self.n_threads >= 1
        &&& self.n_batchsize >= 1
    }

    /// No frontier node has a perfect score yet.
    pub open spec fn no_perfect_leaf(self) -> bool {
        forall|i: int|
            0 <= i < self.tree@.len() && (#[trigger] self.tree@[i]).next@.len() == 0
                ==> self.tree@[i].score != SCALE
    }

    /// Node `w` is the one perfect candidate on the frontier: a childless,
    /// finite node of perfect score, while no other childless node scores
    /// perfectly.
    pub open spec fn sole_perfect_leaf(self, w: int) -> bool {
        &&& 0 <= w < self.tree@.len()
        &&& self.tree@[w].next@.len() == 0
        &&& self.tree@[w].expression.finite()
        &&& self.tree@[w].score == SCALE
        &&& forall|i: int|
            0 <= i < self.tree@.len() && i != w && (#[trigger] self.tree@[i]).next@.len() == 0
                ==> self.tree@[i].score != SCALE
    }

    /// A fresh synthesis state over the given registers and operators:
    /// one root node holding the bare hole, a frontier of just the root,
    /// and the term set of the grammar.
    pub fn new(
        registers: &Vec<String>,
        operators: &Vec<Operator>,
        n_runs: usize,
        n_threads: usize,
        n_batchsize: usize,
    ) -> (r: Synthesis)
        requires
            n_runs >= 1,
            n_threads >= 1,
            n_batchsize >= 1,
        ensures
            r.inv(),
            r.no_perfect_leaf(),
            r.tree@.len() == 1,
            r.tree@[0].expression == Expression::NonTerminal,
            r.tree@[0].score == 0,
            r.tree@[0].index == 0,
            r.tree@[0].prev == 0,
            r.tree@[0].next@.len() == 0,
            r.tree@[0].sat_model@.len() == 0,
            r.queue@ == seq![QueueScore(0, 0)],
            r.queue@ == frontier(r.tree@, 1),
            r.terms@ == crate::ast::spec_combinations(registers@, operators@),
            r.operators@ == operators@,
            r.scoring == Score::Combined(0),
            r.n_runs == n_runs,
            r.n_threads == n_threads,
            r.n_batchsize == n_batchsize,
    {
        let root = Node {
            expression: Expression::NonTerminal,
            score: 0,
            index: 0,
            prev: 0,
            next: Vec::new(),
            sat_model: Vec::new(),
        };
        let mut tree: Vec<Node> = Vec::new();
        tree.push(root);
        let mut queue: Vec<QueueScore> = Vec::new();
        queue.push(QueueScore(0, 0));
        let r = Synthesis {
            n_runs,
            n_threads,
            n_batchsize,
            tree,
            queue,
            terms: Expression::combinations(registers, operators),
            operators: vstd::slice::slice_to_vec(operators.as_slice()),
            scoring: Score::Combined(0),
        };
        proof {
            assert(frontier(r.tree@, 0) == Seq::<QueueScore>::empty());
            assert(r.queue@ =~= frontier(r.tree@, 1));
        }
        r
    }

    /// The default search over the full operator set: 8192 runs, 8 nodes
    /// per wave, result batches of 32.
    pub fn default(registers: &Vec<String>) -> (r: Synthesis)
        ensures
            r.inv(),
            r.no_perfect_leaf(),
            r.tree@.len() == 1,
            r.tree@[0].expression == Expression::NonTerminal,
            r.tree@[0].score == 0,
            r.tree@[0].index == 0,
            r.tree@[0].prev == 0,
            r.tree@[0].next@.len() == 0,
            r.tree@[0].sat_model@.len() == 0,
            r.queue@ == seq![QueueScore(0, 0)],
            r.queue@ == frontier(r.tree@, 1),
            r.terms@ == crate::ast::spec_combinations(
                registers@,
                seq![Operator::Add, Operator::Sub, Operator::Mul, Operator::Div],
            ),
            r.operators@ == seq![Operator::Add, Operator::Sub, Operator::Mul, Operator::Div],
            r.scoring == Score::Combined(0),
            r.n_runs == 8192,
            r.n_threads == 8,
            r.n_batchsize == 32,
    {
        let mut operators: Vec<Operator> = Vec::new();
        operators.push(Operator::Add);
        operators.push(Operator::Sub);
        operators.push(Operator::Mul);
        operators.push(Operator::Div);
        proof {
            assert(operators@ =~= seq![
                Operator::Add,
                Operator::Sub,
                Operator::Mul,
                Operator::Div,
            ]);
        }
        Synthesis::new(registers, &operators, 8192, 8, 32)
    }

    /// Clear the frontier queue and refill it with every childless node,
    /// in index order.
    pub fn rebuild_queue(&mut self)
        ensures
            final(self).queue@ == frontier(final(self).tree@, final(self).tree@.len() as int),
            final(self).tree == old(self).tree,
            final(self).terms == old(self).terms,
            final(self).operators == old(self).operators,
            final(self).n_runs == old(self).n_runs,
            final(self).n_threads == old(self).n_threads,
            final(self).n_batchsize == old(self).n_batchsize,
            final(self).scoring == old(self).scoring,
    {
        self.queue.clear();
        let n = self.tree.len();
        let mut i: usize = 0;
        while i < n
            invariant
                self.tree == old(self).tree,
                self.terms == old(self).terms,
                self.operators == old(self).operators,
                self.n_runs == old(self).n_runs,
                self.n_threads == old(self).n_threads,
                self.n_batchsize == old(self).n_batchsize,
                self.scoring == old(self).scoring,
                i <= n,
                n == self.tree@.len(),
                self.queue@ == frontier(self.tree@, i as int),
            decreases n - i,
        {
            if self.tree[i].next.len() == 0 {
                self.queue.push(QueueScore(self.tree[i].score, i));
            }
            proof {
                assert(self.queue@ =~= frontier(self.tree@, i + 1));
            }
            i += 1;
        }
    }
}

impl WorkerTask {
    /// Score one expression against the trace matrix: the combined score
    /// of its evaluation, or `UnSat` where it cannot be evaluated.
    pub fn work(inputs: &TraceMatrix, outputs: &Vec<BaseT>, exp: &Expression) -> (result:
        WorkerResult)
        requires
            inputs.wf(),
        ensures
            result.node == 0,
            result.model@.len() == 0,
            match exp.spec_eval(*inputs) {
                Some(cols) => result.score == Score::Combined(get_val(cols, outputs@) as u64),
                None => result.score == Score::UnSat,
            },
    {
        let mut result = WorkerResult::default();
        if let Some(results) = exp.eval(inputs) {
            result.score = Score::get(&results, outputs);
        } else {
            result.score = Score::UnSat;
        }
        result
    }
}


/// Well-formedness and the expansion invariant depend only on the fields a
/// score update leaves alone, so they carry over to the updated tree.
proof fn lemma_shape_preserves(t1: Seq<Node>, t2: Seq<Node>)
    requires
        wf_tree(t1),
        expanded_not_finite(t1),
        t2.len() == t1.len(),
        forall|i: int| 0 <= i < t1.len() ==> same_shape(#[trigger] t2[i], t1[i]),
    ensures
        wf_tree(t2),
        expanded_not_finite(t2),
{
    assert forall|i: int, c: int|
        0 <= i < t2.len() && 0 <= c < t2[i].next@.len() implies i < (#[trigger] t2[i].next@[c])
        < t2.len() && t2[t2[i].next@[c] as int].prev == i by {
        assert(t2[i].next == t1[i].next);
        assert(t1[t1[i].next@[c] as int].prev == i);
    }
    assert forall|i: int| 1 <= i < t2.len() implies exists|c: int|
        0 <= c < t2[(#[trigger] t2[i].prev) as int].next@.len() && t2[t2[i].prev as int].next@[c]
            == i by {
        let c = choose|c: int|
            0 <= c < t1[t1[i].prev as int].next@.len() && t1[t1[i].prev as int].next@[c] == i;
        assert(t2[t2[i].prev as int].next@[c] == i);
    }
}

/// The running-mean update stays within the fixed-point range, and stays
/// strictly below a perfect score unless the propagated score is perfect.
proof fn lemma_running_mean_bound(score: int, child: int, c: int)
    requires
        0 <= score <= SCALE,
        0 <= child <= SCALE,
        1 <= c,
    ensures
        0 <= (score * (c - 1) + child) / c <= SCALE,
        child < SCALE ==> (score * (c - 1) + child) / c < SCALE,
{
    let x = score * (c - 1) + child;
    assert(0 <= score * (c - 1) <= SCALE * (c - 1)) by (nonlinear_arith)
        requires
            0 <= score <= SCALE,
            1 <= c,
    ;
    assert(SCALE * (c - 1) + SCALE == SCALE * c) by (nonlinear_arith);
    vstd::arithmetic::div_mod::lemma_div_is_ordered(0, x, c);
    vstd::arithmetic::div_mod::lemma_multiply_divide_le(x, c, SCALE as int);
    assert(x <= c * (SCALE as int)) by (nonlinear_arith)
        requires
            x <= SCALE * c,
    ;
    if child < SCALE {
        assert(x < c * (SCALE as int)) by (nonlinear_arith)
            requires
                score * (c - 1) <= SCALE * (c - 1),
                child < SCALE,
                x == score * (c - 1) + child,
                SCALE * (c - 1) + SCALE == SCALE * c,
        ;
        vstd::arithmetic::div_mod::lemma_multiply_divide_lt(x, c, SCALE as int);
    }
}

/// One node with its score replaced.
pub open spec fn with_score(n: Node, score: u64) -> Node {
    Node { score, ..n }
}

/// The tree after the running-mean walk from `current` to the root: each
/// node on the parent chain has its score updated with the propagated
/// score of the node below, and the root ends the walk.
pub open spec fn propagate(tree: Seq<Node>, current: int, child_score: int) -> Seq<Node>
    decreases current,
{
    if current < 0 || current >= tree.len() {
        tree
    } else {
        let c = tree[current].next@.len() as int;
        let ns = if c >= 1 {
            (tree[current].score * (c - 1) + child_score) / c
        } else {
            tree[current].score as int
        };
        let t2 = tree.update(current, with_score(tree[current], ns as u64));
        if current == 0 || tree[current].prev as int >= current {
            t2
        } else {
            propagate(t2, tree[current].prev as int, ns)
        }
    }
}

impl Synthesis {
    /// Append a node under `parent` with score 0 and register it with its
    /// parent. Only a node whose expression still has a hole may gain a
    /// child.
    pub fn add_node(&mut self, expression: &Expression, parent: usize) -> (node: usize)
        requires
            old(self).inv(),
            parent < old(self).tree@.len(),
            !old(self).tree@[parent as int].expression.finite(),
        ensures
            final(self).inv(),
            node == old(self).tree@.len(),
            final(self).tree@.len() == old(self).tree@.len() + 1,
            final(self).tree@[node as int].expression == *expression,
            final(self).tree@[node as int].score == 0,
            final(self).tree@[node as int].index == node,
            final(self).tree@[node as int].prev == parent,
            final(self).tree@[node as int].next@.len() == 0,
            final(self).tree@[node as int].sat_model@.len() == 0,
            final(self).tree@[parent as int].next@ == old(self).tree@[parent as int].next@.push(
                node,
            ),
            final(self).tree@[parent as int].expression == old(self).tree@[parent as int].expression,
            final(self).tree@[parent as int].score == old(self).tree@[parent as int].score,
            final(self).tree@[parent as int].prev == old(self).tree@[parent as int].prev,
            final(self).tree@[parent as int].index == old(self).tree@[parent as int].index,
            final(self).tree@[parent as int].sat_model == old(self).tree@[parent as int].sat_model,
            forall|i: int|
                0 <= i < old(self).tree@.len() && i != parent ==> final(self).tree@[i] == old(self).tree@[i],
            final(self).queue == old(self).queue,
            final(self).terms == old(self).terms,
            final(self).operators == old(self).operators,
            final(self).n_runs == old(self).n_runs,
            final(self).n_threads == old(self).n_threads,
            final(self).n_batchsize == old(self).n_batchsize,
            final(self).scoring == old(self).scoring,
    {
        let node = self.tree.len();
        self.tree.push(
            Node {
                expression: expression.clone(),
                score: 0,
                index: node,
                prev: parent,
                next: Vec::new(),
                sat_model: Vec::new(),
            },
        );
        self.tree[parent].next.push(node);
        proof {
            let t0 = old(self).tree@;
            let t = self.tree@;
            assert forall|i: int, c: int|
                0 <= i < t.len() && 0 <= c < t[i].next@.len() implies i < (#[trigger] t[i].next@[c])
                < t.len() && t[t[i].next@[c] as int].prev == i by {
                if i == parent {
                    if c < t0[parent as int].next@.len() {
                        assert(t[i].next@[c] == t0[parent as int].next@[c]);
                    } else {
                        assert(t[i].next@[c] == node);
                    }
                } else if i < t0.len() {
                    assert(t[i] == t0[i]);
                    assert(t0[i].next@[c] != node as usize);
                }
            }
            assert forall|i: int| 1 <= i < t.len() implies exists|c: int|
                0 <= c < t[(#[trigger] t[i].prev) as int].next@.len() && t[t[i].prev as int].next@[c]
                    == i by {
                if i == node {
                    let c = t0[parent as int].next@.len() as int;
                    assert(t[t[i].prev as int].next@[c] == i);
                } else {
                    let c0 = choose|c0: int|
                        0 <= c0 < t0[t0[i].prev as int].next@.len()
                            && t0[t0[i].prev as int].next@[c0] == i;
                    assert(t[t[i].prev as int].next@[c0] == i);
                }
            }
        }
        node
    }

    /// Walk the parent chain from `start` to the root, folding the score
    /// below into each ancestor by a running mean over its child count.
    /// Childless nodes keep their scores, so the frontier is untouched.
    #[verifier::rlimit(100)]
    pub fn update_parents(&mut self, start: usize)
        requires
            old(self).inv(),
            start < old(self).tree@.len(),
        ensures
            final(self).inv(),
            final(self).tree@ == propagate(
                old(self).tree@,
                old(self).tree@[start as int].prev as int,
                old(self).tree@[start as int].score as int,
            ),
            final(self).tree@.len() == old(self).tree@.len(),
            forall|i: int|
                0 <= i < old(self).tree@.len() ==> same_shape(
                    #[trigger] final(self).tree@[i],
                    old(self).tree@[i],
                ),
            forall|i: int|
                0 <= i < old(self).tree@.len() && old(self).tree@[i].next@.len() == 0 ==> (
                #[trigger] final(self).tree@[i]) == old(self).tree@[i],
            old(self).no_perfect_leaf() ==> final(self).no_perfect_leaf(),
            final(self).queue == old(self).queue,
            final(self).terms == old(self).terms,
            final(self).operators == old(self).operators,
            final(self).n_runs == old(self).n_runs,
            final(self).n_threads == old(self).n_threads,
            final(self).n_batchsize == old(self).n_batchsize,
            final(self).scoring == old(self).scoring,
    {
        let ghost t0 = self.tree@;
        let ghost p0 = self.tree@[start as int].prev as int;
        let ghost s0 = self.tree@[start as int].score as int;
        let ghost np0 = self.no_perfect_leaf();
        let mut current: usize = self.tree[start].prev;
        let mut current_score: u64 = self.tree[start].score;
        loop
            invariant
                t0 == old(self).tree@,
                p0 == old(self).tree@[start as int].prev as int,
                s0 == old(self).tree@[start as int].score as int,
                np0 == old(self).no_perfect_leaf(),
                start < t0.len(),
                wf_tree(t0),
                expanded_not_finite(t0),
                scores_bounded(t0),
                wf_tree(self.tree@),
                expanded_not_finite(self.tree@),
                scores_bounded(self.tree@),
                self.n_runs >= 1,
                self.n_threads >= 1,
                self.n_batchsize >= 1,
                current_score <= SCALE,
                (current as int) < self.tree@.len(),
                self.tree@.len() == t0.len(),
                forall|i: int|
                    0 <= i < t0.len() ==> same_shape(#[trigger] self.tree@[i], t0[i]),
                forall|i: int|
                    0 <= i < t0.len() && t0[i].next@.len() == 0 ==> (#[trigger] self.tree@[i])
                        == t0[i],
                propagate(t0, p0, s0) == propagate(
                    self.tree@,
                    current as int,
                    current_score as int,
                ),
                np0 ==> (forall|i: int|
                    0 <= i < self.tree@.len() && (#[trigger] self.tree@[i]).next@.len() == 0
                        ==> self.tree@[i].score != SCALE),
                self.queue == old(self).queue,
                self.terms == old(self).terms,
                self.operators == old(self).operators,
                self.n_runs == old(self).n_runs,
                self.n_threads == old(self).n_threads,
                self.n_batchsize == old(self).n_batchsize,
                self.scoring == old(self).scoring,
            decreases current,
        {
            let ghost pre = self.tree@;
            let c = self.tree[current].next.len();
            let old_score = self.tree[current].score;
            proof {
                assert(old_score <= SCALE);
            }
            let ns: u64 = if c >= 1 {
                proof {
                    lemma_running_mean_bound(old_score as int, current_score as int, c as int);
                    assert((old_score as int) * ((c - 1) as int) + (current_score as int) <= (
                    SCALE as int) * ((c - 1) as int) + SCALE) by (nonlinear_arith)
                        requires
                            old_score <= SCALE,
                            current_score <= SCALE,
                            c >= 1,
                    ;
                    assert((SCALE as int) * ((c - 1) as int) <= (SCALE as int)
                        * 0xffffffffffffffff) by (nonlinear_arith)
                        requires
                            0 <= ((c - 1) as int) <= 0xffffffffffffffff,
                    ;
                }
                (((old_score as u128) * ((c - 1) as u128) + (current_score as u128)) / (
                c as u128)) as u64
            } else {
                old_score
            };
            proof {
                if c >= 1 {
                    assert(ns as int == ((old_score as int) * ((c as int) - 1) + (
                    current_score as int)) / (c as int));
                }
            }
            self.tree[current].score = ns;
            proof {
                assert(self.tree@ =~= pre.update(
                    current as int,
                    with_score(pre[current as int], ns),
                ));
                assert forall|i: int|
                    0 <= i < t0.len() implies same_shape(#[trigger] self.tree@[i], t0[i]) by {
                    if i != current {
                        assert(self.tree@[i] == pre[i]);
                    } else {
                        assert(self.tree@[i] == with_score(pre[i], ns));
                    }
                }
                lemma_shape_preserves(t0, self.tree@);
                assert forall|i: int|
                    0 <= i < self.tree@.len() implies (#[trigger] self.tree@[i]).score
                    <= SCALE by {
                    if i != current {
                        assert(self.tree@[i] == pre[i]);
                    }
                }
                assert forall|i: int|
                    0 <= i < t0.len() && t0[i].next@.len() == 0 implies (
                #[trigger] self.tree@[i]) == t0[i] by {
                    if i != current {
                        assert(self.tree@[i] == pre[i]);
                    } else {
                        assert(c == 0);
                        assert(self.tree@[i] == with_score(pre[i], old_score));
                        assert(self.tree@[i] == pre[i]);
                    }
                }
                if np0 {
                    assert forall|i: int|
                        0 <= i < self.tree@.len() && (#[trigger] self.tree@[i]).next@.len() == 0
                            implies self.tree@[i].score != SCALE by {
                        if i != current {
                            assert(self.tree@[i] == pre[i]);
                        } else {
                            assert(c == 0);
                            assert(self.tree@[i] == pre[i]);
                        }
                    }
                }
            }
            if current == 0 {
                return ;
            }
            current_score = ns;
            current = self.tree[current].prev;
        }
    }
}



/// Whether `i` lies on the parent chain that starts at `j` and walks
/// `prev` links up to the root.
pub open spec fn on_parent_chain(tree: Seq<Node>, i: int, j: int) -> bool
    decreases j,
{
    if !(0 <= j < tree.len()) {
        false
    } else if i == j {
        true
    } else if j == 0 || tree[j].prev as int >= j {
        false
    } else {
        on_parent_chain(tree, i, tree[j].prev as int)
    }
}

/// The parent chain reads only the `prev` links, so trees that agree on
/// them have the same chains.
proof fn lemma_chain_same_prevs(t1: Seq<Node>, t2: Seq<Node>, i: int, j: int)
    requires
        t1.len() == t2.len(),
        forall|x: int| 0 <= x < t1.len() ==> (#[trigger] t2[x]).prev == t1[x].prev,
    ensures
        on_parent_chain(t1, i, j) == on_parent_chain(t2, i, j),
    decreases j,
{
    if 0 <= j < t1.len() && i != j && j != 0 && (t1[j].prev as int) < j {
        lemma_chain_same_prevs(t1, t2, i, t1[j].prev as int);
    }
}

/// Law of the running-mean walk: propagation from `current` rewrites only
/// the nodes on the parent chain of `current`; every other node keeps its
/// value. Together with the exact `propagate` equality that
/// `update_parents` ensures, this pins which scores a propagation step may
/// touch.
pub proof fn lemma_propagate_off_chain(tree: Seq<Node>, current: int, child_score: int, i: int)
    requires
        0 <= i < tree.len(),
        !on_parent_chain(tree, i, current),
    ensures
        propagate(tree, current, child_score)[i] == tree[i],
    decreases current,
{
    if 0 <= current < tree.len() {
        assert(on_parent_chain(tree, current, current));
        assert(i != current);
        let c = tree[current].next@.len() as int;
        let ns = if c >= 1 {
            (tree[current].score * (c - 1) + child_score) / c
        } else {
            tree[current].score as int
        };
        let t2 = tree.update(current, with_score(tree[current], ns as u64));
        assert(t2[i] == tree[i]);
        if !(current == 0 || tree[current].prev as int >= current) {
            let prev = tree[current].prev as int;
            assert(!on_parent_chain(tree, i, prev));
            lemma_chain_same_prevs(tree, t2, i, prev);
            lemma_propagate_off_chain(t2, prev, ns, i);
        }
    }
}

/// Attaching and scoring one child cannot mint a second perfect frontier
/// node: if no frontier node was perfect before, then afterwards either
/// none is, or exactly the new child is.
proof fn lemma_child_perfection(
    t1: Seq<Node>,
    t2: Seq<Node>,
    e: Expression,
    parent: int,
    inputs: TraceMatrix,
    outputs: Seq<BaseT>,
    perfect: bool,
)
    requires
        forall|i: int|
            0 <= i < t1.len() && (#[trigger] t1[i]).next@.len() == 0 ==> t1[i].score != SCALE,
        0 <= parent < t1.len(),
        t2.len() == t1.len() + 1,
        t2[t1.len() as int].expression == e,
        t2[t1.len() as int].next@.len() == 0,
        !e.finite() ==> t2[t1.len() as int].score == 0,
        node_score_consistent(t2[t1.len() as int], inputs, outputs),
        perfect <==> (e.spec_eval(inputs) matches Some(cols) && get_val(cols, outputs) == SCALE),
        t2[parent].next@.len() > 0,
        forall|i: int|
            0 <= i < t1.len() && i != parent && t1[i].next@.len() == 0 ==> (#[trigger] t2[i])
                == t1[i],
        forall|i: int| 0 <= i < t1.len() && i != parent ==> same_shape(#[trigger] t2[i], t1[i]),
    ensures
        !perfect ==> (forall|i: int|
            0 <= i < t2.len() && (#[trigger] t2[i]).next@.len() == 0 ==> t2[i].score != SCALE),
        perfect ==> (forall|i: int|
            0 <= i < t2.len() && i != t1.len() && (#[trigger] t2[i]).next@.len() == 0 ==> t2[
                i
            ].score != SCALE),
{
    let w = t1.len() as int;
    if !perfect {
        assert(t2[w].score != SCALE) by {
            if e.finite() {
                match e.spec_eval(inputs) {
                    Some(cols) => {
                        assert(t2[w].score as int == get_val(cols, outputs));
                        assert(get_val(cols, outputs) != SCALE);
                    },
                    None => {
                        assert(t2[w].score == 0);
                    },
                }
            } else {
                assert(t2[w].score == 0);
            }
        }
    }
    assert forall|i: int|
        0 <= i < t1.len() && (#[trigger] t2[i]).next@.len() == 0 implies t2[i].score != SCALE by {
        if i != parent {
            assert(same_shape(t2[i], t1[i]));
            assert(t1[i].next@.len() == 0);
            assert(t2[i] == t1[i]);
        }
    }
}

/// Consistency survives the running-mean walk: it touches only nodes with
/// children, and those are never finite.
proof fn lemma_consistency_after_propagate(
    mid: Seq<Node>,
    fin: Seq<Node>,
    inputs: TraceMatrix,
    outputs: Seq<BaseT>,
)
    requires
        scores_consistent(mid, inputs, outputs),
        expanded_not_finite(fin),
        fin.len() == mid.len(),
        forall|i: int| 0 <= i < mid.len() && mid[i].next@.len() == 0 ==> (#[trigger] fin[i]) == mid[i],
        forall|i: int| 0 <= i < mid.len() ==> same_shape(#[trigger] fin[i], mid[i]),
    ensures
        scores_consistent(fin, inputs, outputs),
{
    assert forall|i: int|
        0 <= i < fin.len() implies node_score_consistent(#[trigger] fin[i], inputs, outputs) by {
        if fin[i].next@.len() == 0 {
            assert(mid[i].next@.len() == 0);
            assert(fin[i] == mid[i]);
        } else {
            assert(!fin[i].expression.finite());
        }
    }
}

/// A perfectly scored evaluation reproduces the outputs exactly.
proof fn lemma_perfect_eval(e: Expression, inputs: TraceMatrix, outputs: Seq<BaseT>)
    requires
        trace_wf(inputs, outputs),
        e.spec_eval(inputs) is Some,
        get_val(e.spec_eval(inputs).unwrap(), outputs) == SCALE,
    ensures
        e.finite(),
        e.spec_eval(inputs) == Some(outputs),
{
    let cols = e.spec_eval(inputs).unwrap();
    crate::ast::lemma_eval_finite(e, inputs);
    crate::ast::lemma_eval_len(e, inputs);
    crate::ast::lemma_eval_some_cols(e, inputs);
    assert(cols.len() == outputs.len());
    crate::score::lemma_get_perfect(cols, outputs);
    assert(cols =~= outputs);
}

impl Synthesis {
    /// Attach one derivation as a childless node under `parent` and write
    /// its score: the recomputed combined score of its evaluation, or 0
    /// where it cannot be evaluated.
    #[verifier::rlimit(100)]
    fn attach_scored(
        &mut self,
        inputs: &TraceMatrix,
        outputs: &Vec<BaseT>,
        e: &Expression,
        parent: usize,
    ) -> (last: usize)
        requires
            old(self).inv(),
            inputs.wf(),
            scores_consistent(old(self).tree@, *inputs, outputs@),
            parent < old(self).tree@.len(),
            !old(self).tree@[parent as int].expression.finite(),
        ensures
            final(self).inv(),
            scores_consistent(final(self).tree@, *inputs, outputs@),
            last == old(self).tree@.len(),
            final(self).tree@.len() == old(self).tree@.len() + 1,
            fresh_child(final(self).tree@[last as int], *e, last as int, parent),
            match e.spec_eval(*inputs) {
                Some(cols) => final(self).tree@[last as int].score as int == get_val(
                    cols,
                    outputs@,
                ),
                None => final(self).tree@[last as int].score == 0,
            },
            forall|i: int|
                0 <= i < old(self).tree@.len() && i != parent ==> same_shape(
                    #[trigger] final(self).tree@[i],
                    old(self).tree@[i],
                ) && final(self).tree@[i].score == old(self).tree@[i].score,
            final(self).tree@[parent as int].expression == old(self).tree@[parent as int].expression,
            final(self).tree@[parent as int].index == old(self).tree@[parent as int].index,
            final(self).tree@[parent as int].prev == old(self).tree@[parent as int].prev,
            final(self).tree@[parent as int].sat_model == old(self).tree@[parent as int].sat_model,
            final(self).tree@[parent as int].score == old(self).tree@[parent as int].score,
            final(self).tree@[parent as int].next@ == old(self).tree@[parent as int].next@.push(old(self).tree@.len() as usize),
            final(self).queue == old(self).queue,
            final(self).terms == old(self).terms,
            final(self).operators == old(self).operators,
            final(self).n_runs == old(self).n_runs,
            final(self).n_threads == old(self).n_threads,
            final(self).n_batchsize == old(self).n_batchsize,
            final(self).scoring == old(self).scoring,
    {
        let ghost pre = self.tree@;
        let last_node = self.add_node(e, parent);
        let ghost ta = self.tree@;
        proof {
            // every node but the fresh one keeps its consistency: the
            // parent changed only its child list
            assert forall|i: int|
                0 <= i < ta.len() && i != last_node implies node_score_consistent(
                #[trigger] ta[i],
                *inputs,
                outputs@,
            ) by {
                if i != parent {
                    assert(ta[i] == pre[i]);
                } else {
                    assert(ta[i].expression == pre[i].expression);
                    assert(ta[i].score == pre[i].score);
                }
            }
        }
        let scored = e.eval(inputs);
        match scored {
            Some(results) => {
                let got = Score::get(&results, outputs);
                match got {
                    Score::Combined(x) => {
                        proof {
                            crate::score::lemma_get_val_bounds(results@, outputs@);
                        }
                        self.tree[last_node].score = x;
                        proof {
                            let mid = self.tree@;
                            assert forall|i: int|
                                0 <= i < ta.len() implies same_shape(
                                #[trigger] mid[i],
                                ta[i],
                            ) by {
                                if i != last_node {
                                    assert(mid[i] == ta[i]);
                                }
                            }
                            lemma_shape_preserves(ta, mid);
                            assert forall|i: int|
                                0 <= i < mid.len() implies (#[trigger] mid[i]).score <= SCALE by {
                                if i != last_node {
                                    assert(mid[i] == ta[i]);
                                }
                            }
                            assert forall|i: int|
                                0 <= i < mid.len() implies node_score_consistent(
                                #[trigger] mid[i],
                                *inputs,
                                outputs@,
                            ) by {
                                if i != last_node {
                                    assert(mid[i].expression == ta[i].expression);
                                    assert(mid[i].score == ta[i].score);
                                } else {
                                    assert(mid[i].expression == *e);
                                    assert(mid[i].score == x);
                                }
                            }
                        }
                    },
                    _ => {
                        proof {
                            assert(false);
                        }
                    },
                }
            },
            None => {
                proof {
                    assert forall|i: int|
                        0 <= i < ta.len() implies node_score_consistent(
                        #[trigger] ta[i],
                        *inputs,
                        outputs@,
                    ) by {
                        if i == last_node {
                            assert(ta[i].expression == *e);
                            assert(ta[i].score == 0);
                        }
                    }
                }
            },
        }
        last_node
    }

    /// Attach one derivation as a child of `parent`, score it when it can
    /// be evaluated, and fold the score into the ancestors.
    #[verifier::rlimit(100)]
    fn expand_one(&mut self, inputs: &TraceMatrix, outputs: &Vec<BaseT>, e: &Expression, parent: usize)
        requires
            old(self).inv(),
            trace_wf(*inputs, outputs@),
            scores_consistent(old(self).tree@, *inputs, outputs@),
            parent < old(self).tree@.len(),
            !old(self).tree@[parent as int].expression.finite(),
        ensures
            final(self).inv(),
            scores_consistent(final(self).tree@, *inputs, outputs@),
            final(self).tree@.len() == old(self).tree@.len() + 1,
            fresh_child(
                final(self).tree@[old(self).tree@.len() as int],
                *e,
                old(self).tree@.len() as int,
                parent,
            ),
            !e.finite() ==> final(self).tree@[old(self).tree@.len() as int].score == 0,
            match e.spec_eval(*inputs) {
                Some(cols) => final(self).tree@[old(self).tree@.len() as int].score as int
                    == get_val(cols, outputs@),
                None => final(self).tree@[old(self).tree@.len() as int].score == 0,
            },
            forall|i: int|
                0 <= i < old(self).tree@.len() && i != parent ==> same_shape(
                    #[trigger] final(self).tree@[i],
                    old(self).tree@[i],
                ),
            forall|i: int|
                0 <= i < old(self).tree@.len() && i != parent && old(self).tree@[i].next@.len()
                    == 0 ==> (#[trigger] final(self).tree@[i]) == old(self).tree@[i],
            final(self).tree@[parent as int].expression == old(self).tree@[parent as int].expression,
            final(self).tree@[parent as int].index == old(self).tree@[parent as int].index,
            final(self).tree@[parent as int].prev == old(self).tree@[parent as int].prev,
            final(self).tree@[parent as int].sat_model == old(self).tree@[parent as int].sat_model,
            final(self).tree@[parent as int].next@ == old(self).tree@[parent as int].next@.push(old(self).tree@.len() as usize),
            final(self).queue == old(self).queue,
            final(self).terms == old(self).terms,
            final(self).operators == old(self).operators,
            final(self).n_runs == old(self).n_runs,
            final(self).n_threads == old(self).n_threads,
            final(self).n_batchsize == old(self).n_batchsize,
            final(self).scoring == old(self).scoring,
    {
        let last_node = self.attach_scored(inputs, outputs, e, parent);
        let ghost mid = self.tree@;
        self.update_parents(last_node);
        proof {
            lemma_consistency_after_propagate(mid, self.tree@, *inputs, outputs@);
            assert(self.tree@[last_node as int] == mid[last_node as int]);
            if !e.finite() {
                crate::ast::lemma_eval_finite(*e, *inputs);
            }
            assert(fresh_child(
                self.tree@[old(self).tree@.len() as int],
                *e,
                old(self).tree@.len() as int,
                parent,
            ));
            assert forall|i: int|
                0 <= i < old(self).tree@.len() && i != parent && old(self).tree@[i].next@.len()
                    == 0 implies (#[trigger] self.tree@[i]) == old(self).tree@[i] by {
                assert(mid[i] == old(self).tree@[i]);
                assert(mid[i].next@.len() == 0);
            }
            assert forall|i: int|
                0 <= i < old(self).tree@.len() && i != parent implies same_shape(
                #[trigger] self.tree@[i],
                old(self).tree@[i],
            ) by {
                assert(same_shape(mid[i], old(self).tree@[i]));
                assert(same_shape(self.tree@[i], mid[i]));
            }
            assert(same_shape(self.tree@[parent as int], mid[parent as int]));
        }
    }

    /// Add one child per derivate under `parent`, evaluate and score each
    /// finite child, fold every new score into the ancestors, and stop at
    /// the first perfect child. A returned winner reproduces the true
    /// outputs exactly.
    #[verifier::rlimit(100)]
    pub fn create_nodes(
        &mut self,
        inputs: &TraceMatrix,
        outputs: &Vec<BaseT>,
        derivates: Vec<Expression>,
        parent: usize,
    ) -> (winner: Option<usize>)
        requires
            old(self).inv(),
            trace_wf(*inputs, outputs@),
            scores_consistent(old(self).tree@, *inputs, outputs@),
            parent < old(self).tree@.len(),
            derivates@ == old(self).tree@[parent as int].expression.spec_derive(
                old(self).terms@,
            ),
            derivates@.len() > 0 ==> !old(self).tree@[parent as int].expression.finite(),
        ensures
            final(self).inv(),
            scores_consistent(final(self).tree@, *inputs, outputs@),
            old(self).tree@.len() <= final(self).tree@.len() <= old(self).tree@.len()
                + derivates@.len(),
            winner is None ==> final(self).tree@.len() == old(self).tree@.len()
                + derivates@.len(),
            forall|k: int|
                0 <= k < final(self).tree@.len() - old(self).tree@.len() ==> {
                    &&& (#[trigger] final(self).tree@[old(self).tree@.len() + k]).expression
                        == derivates@[k]
                    &&& final(self).tree@[old(self).tree@.len() + k].index == old(self).tree@.len() + k
                    &&& final(self).tree@[old(self).tree@.len() + k].prev == parent
                    &&& final(self).tree@[old(self).tree@.len() + k].next@.len() == 0
                    &&& final(self).tree@[old(self).tree@.len() + k].sat_model@.len() == 0
                    &&& (!derivates@[k].finite() ==> final(self).tree@[old(self).tree@.len()
                        + k].score == 0)
                },
            forall|i: int|
                0 <= i < old(self).tree@.len() && i != parent ==> same_shape(
                    #[trigger] final(self).tree@[i],
                    old(self).tree@[i],
                ),
            final(self).tree@[parent as int].expression == old(self).tree@[parent as int].expression,
            final(self).tree@[parent as int].index == old(self).tree@[parent as int].index,
            final(self).tree@[parent as int].prev == old(self).tree@[parent as int].prev,
            final(self).tree@[parent as int].sat_model == old(self).tree@[parent as int].sat_model,
            final(self).tree@[parent as int].next@.len() == old(self).tree@[parent as int].next@.len() + (final(self).tree@.len() - old(self).tree@.len()),
            forall|c: int|
                0 <= c < old(self).tree@[parent as int].next@.len() ==> (
                #[trigger] final(self).tree@[parent as int].next@[c]) == old(self).tree@[parent as int].next@[c],
            forall|k: int|
                0 <= k < final(self).tree@.len() - old(self).tree@.len() ==> (
                #[trigger] final(self).tree@[parent as int].next@[old(self).tree@[parent as int].next@.len() + k]) == old(self).tree@.len() + k,
            derived_edges(old(self).tree@, old(self).terms@) ==> derived_edges(
                final(self).tree@,
                final(self).terms@,
            ),
            forall|i: int|
                0 <= i < old(self).tree@.len() && i != parent && old(self).tree@[i].next@.len()
                    == 0 ==> (#[trigger] final(self).tree@[i]) == old(self).tree@[i],
            winner matches Some(w) ==> {
                &&& (w as int) < final(self).tree@.len()
                &&& final(self).tree@[w as int].next@.len() == 0
                &&& final(self).tree@[w as int].expression.finite()
                &&& final(self).tree@[w as int].score == SCALE
                &&& final(self).tree@[w as int].expression.spec_eval(*inputs) == Some(outputs@)
            },
            old(self).no_perfect_leaf() ==> match winner {
                None => final(self).no_perfect_leaf(),
                Some(w) => final(self).sole_perfect_leaf(w as int),
            },
            final(self).queue == old(self).queue,
            final(self).terms == old(self).terms,
            final(self).operators == old(self).operators,
            final(self).n_runs == old(self).n_runs,
            final(self).n_threads == old(self).n_threads,
            final(self).n_batchsize == old(self).n_batchsize,
            final(self).scoring == old(self).scoring,
    {
        let ghost np0 = self.no_perfect_leaf();
        let n = derivates.len();
        let mut k: usize = 0;
        while k < n
            invariant
                np0 == old(self).no_perfect_leaf(),
                trace_wf(*inputs, outputs@),
                parent < old(self).tree@.len(),
                n == derivates@.len(),
                n > 0 ==> !old(self).tree@[parent as int].expression.finite(),
                k <= n,
                self.inv(),
                scores_consistent(self.tree@, *inputs, outputs@),
                self.tree@.len() == old(self).tree@.len() + k,
                self.tree@[parent as int].expression == old(self).tree@[
                    parent as int
                ].expression,
                forall|i: int|
                    0 <= i < old(self).tree@.len() && i != parent && old(self).tree@[
                        i
                    ].next@.len() == 0 ==> (#[trigger] self.tree@[i]) == old(self).tree@[i],
                derivates@ == old(self).tree@[parent as int].expression.spec_derive(
                    old(self).terms@,
                ),
                forall|k2: int|
                    0 <= k2 < k ==> {
                        &&& (#[trigger] self.tree@[old(self).tree@.len() + k2]).expression
                            == derivates@[k2]
                        &&& self.tree@[old(self).tree@.len() + k2].index == old(self).tree@.len() + k2
                        &&& self.tree@[old(self).tree@.len() + k2].prev == parent
                        &&& self.tree@[old(self).tree@.len() + k2].next@.len() == 0
                        &&& self.tree@[old(self).tree@.len() + k2].sat_model@.len() == 0
                        &&& (!derivates@[k2].finite() ==> self.tree@[old(self).tree@.len()
                            + k2].score == 0)
                    },
                forall|i: int|
                    0 <= i < old(self).tree@.len() && i != parent ==> same_shape(
                        #[trigger] self.tree@[i],
                        old(self).tree@[i],
                    ),
                self.tree@[parent as int].index == old(self).tree@[parent as int].index,
                self.tree@[parent as int].prev == old(self).tree@[parent as int].prev,
                self.tree@[parent as int].sat_model == old(self).tree@[parent as int].sat_model,
                self.tree@[parent as int].next@.len() == old(self).tree@[parent as int].next@.len() + k,
                forall|c: int|
                    0 <= c < old(self).tree@[parent as int].next@.len() ==> (
                    #[trigger] self.tree@[parent as int].next@[c]) == old(self).tree@[parent as int].next@[c],
                forall|k2: int|
                    0 <= k2 < k ==> (#[trigger] self.tree@[parent as int].next@[old(self).tree@[parent as int].next@.len() + k2]) == old(self).tree@.len() + k2,
                derived_edges(old(self).tree@, old(self).terms@) ==> derived_edges(
                    self.tree@,
                    self.terms@,
                ),
                np0 ==> self.no_perfect_leaf(),
                self.queue == old(self).queue,
                self.terms == old(self).terms,
                self.operators == old(self).operators,
                self.n_runs == old(self).n_runs,
                self.n_threads == old(self).n_threads,
                self.n_batchsize == old(self).n_batchsize,
                self.scoring == old(self).scoring,
            decreases n - k,
        {
            let ghost tc = self.tree@;
            self.expand_one(inputs, outputs, &derivates[k], parent);
            let w = self.tree.len() - 1;
            let perfect = self.tree[w].score == SCALE;
            proof {
                match derivates@[k as int].spec_eval(*inputs) {
                    Some(cols) => {
                        crate::score::lemma_get_val_bounds(cols, outputs@);
                        if perfect {
                            lemma_perfect_eval(derivates@[k as int], *inputs, outputs@);
                        }
                    },
                    None => {},
                }
                assert(perfect <==> (derivates@[k as int].spec_eval(*inputs) matches Some(cols)
                    && get_val(cols, outputs@) == SCALE));
            }
            proof {
                assert forall|k2: int|
                    0 <= k2 < k + 1 implies {
                    &&& (#[trigger] self.tree@[old(self).tree@.len() + k2]).expression
                        == derivates@[k2]
                    &&& self.tree@[old(self).tree@.len() + k2].index == old(self).tree@.len()
                        + k2
                    &&& self.tree@[old(self).tree@.len() + k2].prev == parent
                    &&& self.tree@[old(self).tree@.len() + k2].next@.len() == 0
                    &&& self.tree@[old(self).tree@.len() + k2].sat_model@.len() == 0
                    &&& (!derivates@[k2].finite() ==> self.tree@[old(self).tree@.len()
                        + k2].score == 0)
                } by {
                    if k2 < k {
                        assert(self.tree@[old(self).tree@.len() + k2] == tc[old(self).tree@.len() + k2]);
                    }
                }
                assert(self.tree@[parent as int].next@ == tc[parent as int].next@.push(
                    (old(self).tree@.len() + k) as usize,
                ));
                if derived_edges(old(self).tree@, old(self).terms@) {
                    assert forall|i: int|
                        1 <= i < self.tree@.len() implies self.tree@[(
                    #[trigger] self.tree@[i]).prev as int].expression.spec_derive(
                        self.terms@,
                    ).contains(self.tree@[i].expression) by {
                        if i < tc.len() {
                            assert(self.tree@[i].prev == tc[i].prev);
                            assert(self.tree@[i].expression == tc[i].expression);
                            assert(self.tree@[tc[i].prev as int].expression == tc[tc[
                                i
                            ].prev as int].expression);
                        } else {
                            assert(self.tree@[i].prev == parent);
                            assert(self.tree@[i].expression == derivates@[k as int]);
                            assert(self.tree@[parent as int].expression == old(self).tree@[parent as int].expression);
                            assert(derivates@[k as int] == old(self).tree@[
                                parent as int
                            ].expression.spec_derive(old(self).terms@)[k as int]);
                        }
                    }
                }
            }
            proof {
                if np0 {
                    lemma_child_perfection(
                        tc,
                        self.tree@,
                        derivates@[k as int],
                        parent as int,
                        *inputs,
                        outputs@,
                        perfect,
                    );
                }
            }
            if perfect {
                return Some(w);
            }
            k += 1;
        }
        None
    }
}


/// A drained score, clamped into the fixed-point range.
pub open spec fn clamp_score(x: u64) -> u64 {
    if x > SCALE {
        SCALE
    } else {
        x
    }
}

/// The tree after applying the first `n` drained results: each result sets
/// its node's score (clamped into the fixed-point range) and folds it into
/// the ancestors by the running mean; results naming no node are dropped.
pub open spec fn apply_results(tree: Seq<Node>, results: Seq<(u64, usize)>, n: int) -> Seq<Node>
    decreases n,
{
    if n <= 0 {
        tree
    } else {
        let t1 = apply_results(tree, results, n - 1);
        let node = results[n - 1].1 as int;
        let sc = clamp_score(results[n - 1].0);
        if 0 <= node < t1.len() {
            let t2 = t1.update(node, with_score(t1[node], sc));
            propagate(t2, t2[node].prev as int, sc as int)
        } else {
            t1
        }
    }
}

impl Synthesis {
    /// Apply a batch of drained worker results: write each score (clamped
    /// into the fixed-point range) to its node, fold it into the
    /// ancestors, drop results naming no node, and report the node of the
    /// first perfect result, if any.
    #[verifier::rlimit(100)]
    pub fn update(&mut self, results: &Vec<(u64, usize)>) -> (winner: Option<usize>)
        requires
            old(self).inv(),
        ensures
            final(self).inv(),
            final(self).tree@ == apply_results(
                old(self).tree@,
                results@,
                results@.len() as int,
            ),
            final(self).tree@.len() == old(self).tree@.len(),
            forall|i: int|
                0 <= i < old(self).tree@.len() ==> same_shape(
                    #[trigger] final(self).tree@[i],
                    old(self).tree@[i],
                ),
            match winner {
                Some(nd) => exists|t: int|
                    0 <= t < results@.len() && clamp_score((#[trigger] results@[t]).0) == SCALE
                        && (results@[t].1 as int) < old(self).tree@.len() && results@[t].1 == nd
                        && (forall|u: int|
                        0 <= u < t ==> !(clamp_score((#[trigger] results@[u]).0) == SCALE && (
                        results@[u].1 as int) < old(self).tree@.len())),
                None => forall|t: int|
                    0 <= t < results@.len() ==> !(clamp_score((#[trigger] results@[t]).0) == SCALE
                        && (results@[t].1 as int) < old(self).tree@.len()),
            },
            final(self).queue == old(self).queue,
            final(self).terms == old(self).terms,
            final(self).operators == old(self).operators,
            final(self).n_runs == old(self).n_runs,
            final(self).n_threads == old(self).n_threads,
            final(self).n_batchsize == old(self).n_batchsize,
            final(self).scoring == old(self).scoring,
    {
        let mut winner: Option<usize> = None;
        let m = results.len();
        let mut t: usize = 0;
        while t < m
            invariant
                m == results@.len(),
                t <= m,
                self.inv(),
                self.tree@.len() == old(self).tree@.len(),
                self.tree@ == apply_results(old(self).tree@, results@, t as int),
                forall|i: int|
                    0 <= i < old(self).tree@.len() ==> same_shape(
                        #[trigger] self.tree@[i],
                        old(self).tree@[i],
                    ),
                match winner {
                    Some(nd) => exists|u: int|
                        0 <= u < t && clamp_score((#[trigger] results@[u]).0) == SCALE && (
                        results@[u].1 as int) < old(self).tree@.len() && results@[u].1 == nd && (
                        forall|v: int|
                            0 <= v < u ==> !(clamp_score((#[trigger] results@[v]).0) == SCALE && (
                            results@[v].1 as int) < old(self).tree@.len())),
                    None => forall|u: int|
                        0 <= u < t ==> !(clamp_score((#[trigger] results@[u]).0) == SCALE && (
                        results@[u].1 as int) < old(self).tree@.len()),
                },
                self.queue == old(self).queue,
                self.terms == old(self).terms,
                self.operators == old(self).operators,
                self.n_runs == old(self).n_runs,
                self.n_threads == old(self).n_threads,
                self.n_batchsize == old(self).n_batchsize,
                self.scoring == old(self).scoring,
            decreases m - t,
        {
            let ghost pre = self.tree@;
            let raw = results[t].0;
            let node = results[t].1;
            let x = if raw > SCALE {
                SCALE
            } else {
                raw
            };
            if node < self.tree.len() {
                self.tree[node].score = x;
                proof {
                    let mid = self.tree@;
                    assert(mid =~= pre.update(node as int, with_score(pre[node as int], x)));
                    assert forall|i: int|
                        0 <= i < pre.len() implies same_shape(#[trigger] mid[i], pre[i]) by {
                        if i != node {
                            assert(mid[i] == pre[i]);
                        }
                    }
                    lemma_shape_preserves(pre, mid);
                    assert forall|i: int|
                        0 <= i < mid.len() implies (#[trigger] mid[i]).score <= SCALE by {
                        if i != node {
                            assert(mid[i] == pre[i]);
                        }
                    }
                }
                let ghost mid = self.tree@;
                self.update_parents(node);
                proof {
                    assert(self.tree@ == propagate(mid, mid[node as int].prev as int, x as int));
                    assert(self.tree@ == apply_results(old(self).tree@, results@, t + 1));
                }
                if x == SCALE && winner.is_none() {
                    winner = Some(node);
                }
            } else {
                proof {
                    assert(self.tree@ == apply_results(old(self).tree@, results@, t + 1));
                }
            }
            t += 1;
        }
        winner
    }
}

/// The best finite candidate among the first `n` nodes: the highest score,
/// ties broken by the smaller index; -1 when no node is finite.
pub open spec fn best_finite(tree: Seq<Node>, n: int) -> int
    decreases n,
{
    if n <= 0 {
        -1
    } else {
        let p = best_finite(tree, n - 1);
        if !tree[n - 1].expression.finite() {
            p
        } else if p == -1 {
            n - 1
        } else if tree[n - 1].score > tree[p].score {
            n - 1
        } else {
            p
        }
    }
}

impl Synthesis {
    /// The best scored finite candidate, or the root's expression when no
    /// finite node exists yet.
    fn best_candidate(&self) -> (r: (Expression, u64))
        requires
            self.tree@.len() >= 1,
        ensures
            ({
                let b = best_finite(self.tree@, self.tree@.len() as int);
                &&& (b == -1 ==> r.0 == self.tree@[0].expression && r.1 == 0)
                &&& (b >= 0 ==> b < self.tree@.len() && r.0 == self.tree@[b].expression && r.1
                    == self.tree@[b].score)
            }),
    {
        let n = self.tree.len();
        let mut best: Option<usize> = None;
        let mut i: usize = 0;
        while i < n
            invariant
                i <= n,
                n == self.tree@.len(),
                match best {
                    None => best_finite(self.tree@, i as int) == -1,
                    Some(p) => (p as int) < self.tree@.len() && best_finite(self.tree@, i as int)
                        == p as int,
                },
            decreases n - i,
        {
            if self.tree[i].expression.is_finite() {
                match best {
                    None => {
                        best = Some(i);
                    },
                    Some(p) => {
                        if self.tree[i].score > self.tree[p].score {
                            best = Some(i);
                        }
                    },
                }
            }
            i += 1;
        }
        match best {
            None => (self.tree[0].expression.clone(), 0),
            Some(p) => (self.tree[p].expression.clone(), self.tree[p].score),
        }
    }

    /// The priority-driven search: each outer run pops up to `n_threads`
    /// frontier nodes, expands each unfinished one through the grammar,
    /// scores the finite children against the traces, folds scores into
    /// the ancestors, and rebuilds the frontier; it halts at the first
    /// perfect candidate. A winner always reproduces the collected outputs
    /// exactly, and a session that already holds its winner on the
    /// frontier returns that same winner again.
    #[verifier::rlimit(100)]
    pub fn synthesize(&mut self, inputs: &TraceMatrix, outputs: &Vec<BaseT>) -> (r: SynthResult)
        requires
            old(self).inv(),
            trace_wf(*inputs, outputs@),
            scores_consistent(old(self).tree@, *inputs, outputs@),
            old(self).queue@ == frontier(old(self).tree@, old(self).tree@.len() as int),
            old(self).no_perfect_leaf() || (exists|w: int| old(self).sole_perfect_leaf(w)),
            derived_edges(old(self).tree@, old(self).terms@),
        ensures
            final(self).inv(),
            scores_consistent(final(self).tree@, *inputs, outputs@),
            appended_only(old(self).tree@, final(self).tree@),
            derived_edges(final(self).tree@, final(self).terms@),
            final(self).queue@ == frontier(final(self).tree@, final(self).tree@.len() as int),
            final(self).no_perfect_leaf() || (exists|w: int| final(self).sole_perfect_leaf(w)),
            old(self).tree@.len() <= final(self).tree@.len(),
            r.expanded_nodes == final(self).tree@.len() - old(self).tree@.len(),
            r.winner matches Some(e) ==> e.finite() && e.spec_eval(*inputs) == Some(outputs@),
            r.winner matches Some(e) ==> exists|w: int|
                final(self).sole_perfect_leaf(w) && e == final(self).tree@[w].expression,
            r.winner is None ==> (final(self).no_perfect_leaf() || old(self).operators@.len()
                == 0),
            old(self).operators@.len() == 0 ==> r.winner is None && final(self).tree@ == old(self).tree@ && r.expanded_nodes == 0,
            forall|w: int|
                old(self).sole_perfect_leaf(w) && old(self).operators@.len() > 0 ==> r.winner
                    == Some(old(self).tree@[w].expression) && final(self).tree@ == old(self).tree@ && r.expanded_nodes == 0,
            (old(self).tree@.len() == 1 && !old(self).tree@[0].expression.finite() && old(self).operators@.len() > 0) ==> (r.winner is Some || final(self).tree@.len() >= 1 + old(self).terms@.len()),
            ({
                let b = best_finite(final(self).tree@, final(self).tree@.len() as int);
                &&& (b == -1 ==> r.best == final(self).tree@[0].expression && r.best_score == 0)
                &&& (b >= 0 ==> r.best == final(self).tree@[b].expression && r.best_score
                    == final(self).tree@[b].score)
            }),
            final(self).terms == old(self).terms,
            final(self).operators == old(self).operators,
            final(self).n_runs == old(self).n_runs,
            final(self).n_threads == old(self).n_threads,
            final(self).n_batchsize == old(self).n_batchsize,
            final(self).scoring == old(self).scoring,
    {
        let initial_len = self.tree.len();
        if self.operators.len() == 0 {
            let best = self.best_candidate();
            return SynthResult { winner: None, best: best.0, best_score: best.1, expanded_nodes: 0 };
        }
        let mut winner_idx: Option<usize> = None;
        let mut run: usize = 0;
        while run < self.n_runs && winner_idx.is_none()
            invariant
                trace_wf(*inputs, outputs@),
                old(self).operators@.len() > 0,
                old(self).no_perfect_leaf() || (exists|w: int| old(self).sole_perfect_leaf(w)),
                self.inv(),
                scores_consistent(self.tree@, *inputs, outputs@),
                appended_only(old(self).tree@, self.tree@),
                derived_edges(self.tree@, self.terms@),
                self.queue@ == frontier(self.tree@, self.tree@.len() as int),
                old(self).tree@.len() <= self.tree@.len(),
                initial_len == old(self).tree@.len(),
                run <= self.n_runs,
                match winner_idx {
                    Some(nd) => {
                        &&& (nd as int) < self.tree@.len()
                        &&& self.sole_perfect_leaf(nd as int)
                        &&& self.tree@[nd as int].expression.spec_eval(*inputs) == Some(outputs@)
                    },
                    None => self.no_perfect_leaf() || (exists|w: int|
                        old(self).sole_perfect_leaf(w)),
                },
                (winner_idx is None && (exists|w: int| old(self).sole_perfect_leaf(w))) ==> (run
                    == 0 && self.tree@ == old(self).tree@),
                forall|w: int|
                    old(self).sole_perfect_leaf(w) ==> (match winner_idx {
                        Some(nd) => nd as int == w && self.tree@ == old(self).tree@,
                        None => true,
                    }),
                (old(self).tree@.len() == 1 && !old(self).tree@[0].expression.finite()) ==> (
                winner_idx is Some || self.tree@.len() >= 1 + self.terms@.len() || (run == 0
                    && self.tree@ == old(self).tree@)),
                self.terms == old(self).terms,
                self.operators == old(self).operators,
                self.n_runs == old(self).n_runs,
                self.n_threads == old(self).n_threads,
                self.n_batchsize == old(self).n_batchsize,
                self.scoring == old(self).scoring,
            decreases self.n_runs - run,
        {
            let tree_len = self.tree.len();
            proof {
                lemma_frontier_props(self.tree@, tree_len as int);
                assert((old(self).tree@.len() == 1 && !old(self).tree@[0].expression.finite())
                    ==> (winner_idx is Some || self.tree@.len() >= 1 + self.terms@.len() || (run
                    == 0 && self.tree@ == old(self).tree@ && self.queue@ == frontier(
                    self.tree@,
                    self.tree@.len() as int,
                ))));
            }
            let mut done = false;
            let mut wv: usize = 0;
            while wv < self.n_threads && winner_idx.is_none() && !done
                invariant
                    trace_wf(*inputs, outputs@),
                    old(self).operators@.len() > 0,
                    self.inv(),
                    scores_consistent(self.tree@, *inputs, outputs@),
                    appended_only(old(self).tree@, self.tree@),
                    derived_edges(self.tree@, self.terms@),
                    old(self).tree@.len() <= self.tree@.len(),
                    wv <= self.n_threads,
                    forall|k: int|
                        0 <= k < self.queue@.len() ==> {
                            let e = #[trigger] self.queue@[k];
                            &&& (e.1 as int) < self.tree@.len()
                            &&& self.tree@[e.1 as int].next@.len() == 0
                            &&& e.0 == self.tree@[e.1 as int].score
                        },
                    forall|k1: int, k2: int|
                        0 <= k1 < k2 < self.queue@.len() ==> (#[trigger] self.queue@[k1]).1 != (
                        #[trigger] self.queue@[k2]).1,
                    match winner_idx {
                        Some(nd) => {
                            &&& (nd as int) < self.tree@.len()
                            &&& self.sole_perfect_leaf(nd as int)
                            &&& self.tree@[nd as int].expression.spec_eval(*inputs) == Some(
                                outputs@,
                            )
                        },
                        None => self.no_perfect_leaf() || (exists|w: int|
                            old(self).sole_perfect_leaf(w)),
                    },
                    (winner_idx is None && (exists|w: int| old(self).sole_perfect_leaf(w))) ==> (
                    run == 0 && wv == 0 && !done && self.tree@ == old(self).tree@ && self.queue@
                        == frontier(self.tree@, self.tree@.len() as int)),
                    (old(self).tree@.len() == 1 && !old(self).tree@[0].expression.finite()) ==> (
                    winner_idx is Some || self.tree@.len() >= 1 + self.terms@.len() || (run == 0
                        && wv == 0 && !done && self.tree@ == old(self).tree@ && self.queue@
                        == frontier(self.tree@, self.tree@.len() as int))),
                    forall|w: int|
                        old(self).sole_perfect_leaf(w) ==> (match winner_idx {
                            Some(nd) => nd as int == w && self.tree@ == old(self).tree@,
                            None => true,
                        }),
                    self.terms == old(self).terms,
                    self.operators == old(self).operators,
                    self.n_runs == old(self).n_runs,
                    self.n_threads == old(self).n_threads,
                    self.n_batchsize == old(self).n_batchsize,
                    self.scoring == old(self).scoring,
                decreases self.n_threads - wv,
            {
                let ghost pre_queue = self.queue@;
                let ghost pre_tree = self.tree@;
                let pre_len = self.tree.len();
                let popped = pop_best(&mut self.queue);
                proof {
                    if popped is Some {
                        assert(pre_queue.len() > 0);
                        lemma_best_upto_props(pre_queue, pre_queue.len() as int);
                        let p = best_upto(pre_queue, pre_queue.len() as int);
                        assert(popped == Some(pre_queue[p]));
                        assert((pre_queue[p].1 as int) < pre_tree.len());
                        assert(pre_tree[pre_queue[p].1 as int].next@.len() == 0);
                        assert(pre_queue[p].0 == pre_tree[pre_queue[p].1 as int].score);
                        pre_queue.remove_ensures(p);
                        assert forall|k1: int, k2: int|
                            0 <= k1 < k2 < self.queue@.len() implies (
                        #[trigger] self.queue@[k1]).1 != (#[trigger] self.queue@[k2]).1 by {
                            if k1 < p {
                                assert(self.queue@[k1] == pre_queue[k1]);
                            } else {
                                assert(self.queue@[k1] == pre_queue[k1 + 1]);
                            }
                            if k2 < p {
                                assert(self.queue@[k2] == pre_queue[k2]);
                            } else {
                                assert(self.queue@[k2] == pre_queue[k2 + 1]);
                            }
                        }
                        assert forall|k: int|
                            0 <= k < self.queue@.len() implies {
                            let e = #[trigger] self.queue@[k];
                            &&& (e.1 as int) < self.tree@.len()
                            &&& self.tree@[e.1 as int].next@.len() == 0
                            &&& e.0 == self.tree@[e.1 as int].score
                        } by {
                            if k < p {
                                assert(self.queue@[k] == pre_queue[k]);
                            } else {
                                assert(self.queue@[k] == pre_queue[k + 1]);
                            }
                        }
                        assert forall|k: int|
                            0 <= k < self.queue@.len() implies (#[trigger] self.queue@[k]).1
                            != popped.unwrap().1 by {
                            if k < p {
                                assert(self.queue@[k] == pre_queue[k]);
                            } else {
                                assert(self.queue@[k] == pre_queue[k + 1]);
                            }
                        }
                    }
                    if exists|w: int| old(self).sole_perfect_leaf(w) {
                        let w = choose|w: int| old(self).sole_perfect_leaf(w);
                        lemma_frontier_props(pre_tree, pre_len as int);
                        lemma_best_upto_props(pre_queue, pre_queue.len() as int);
                        assert(pre_tree[w].next@.len() == 0);
                        assert(pre_queue.contains(QueueScore(pre_tree[w].score, w as usize)));
                        assert(pre_queue.len() > 0);
                        let kw = choose|kw: int|
                            0 <= kw < pre_queue.len() && pre_queue[kw] == QueueScore(
                                pre_tree[w].score,
                                w as usize,
                            );
                        let p = best_upto(pre_queue, pre_queue.len() as int);
                        assert(!q_better(pre_queue[kw], pre_queue[p]));
                        assert(pre_queue[p].0 >= SCALE);
                        assert(pre_queue[p].0 == pre_tree[pre_queue[p].1 as int].score);
                        assert(pre_queue[p].0 == SCALE);
                        assert(pre_tree[pre_queue[p].1 as int].next@.len() == 0);
                        assert(pre_queue[p].1 as int == w);
                        assert(popped == Some(pre_queue[p]));
                    }
                }
                match popped {
                    None => {
                        proof {
                            if self.tree@.len() == 1 {
                                assert(pre_queue.len() == 0);
                            }
                            if old(self).tree@.len() == 1 && !old(self).tree@[0].expression.finite() && winner_idx is None
                                && self.tree@.len() < 1 + self.terms@.len() {
                                assert(self.tree@ == old(self).tree@);
                                assert(self.tree@.len() == 1);
                                if self.tree@[0].next@.len() > 0 {
                                    assert(0 < (self.tree@[0].next@[0] as int) < 1);
                                }
                                assert(self.tree@[0].next@.len() == 0);
                                assert(frontier(self.tree@, 1).len() == 1);
                                assert(false);
                            }
                        }
                        done = true;
                    },
                    Some(b) => {
                        let node = b.1;
                        if self.tree[node].expression.is_finite() {
                            if self.tree[node].score == SCALE {
                                proof {
                                    assert(exists|w: int| old(self).sole_perfect_leaf(w));
                                    let w = choose|w: int| old(self).sole_perfect_leaf(w);
                                    assert(node as int == w);
                                    assert(self.sole_perfect_leaf(node as int));
                                    let e = self.tree@[node as int].expression;
                                    assert(e.finite());
                                    match e.spec_eval(*inputs) {
                                        Some(cols) => {
                                            crate::ast::lemma_eval_finite(e, *inputs);
                                            crate::ast::lemma_eval_len(e, *inputs);
                                            crate::ast::lemma_eval_some_cols(e, *inputs);
                                            crate::score::lemma_get_perfect(cols, outputs@);
                                            assert(cols =~= outputs@);
                                        },
                                        None => {
                                            assert(self.tree@[node as int].score == 0);
                                            assert(false);
                                        },
                                    }
                                }
                                winner_idx = Some(node);
                            } else {
                                proof {
                                    if exists|w: int| old(self).sole_perfect_leaf(w) {
                                        assert(false);
                                    }
                                }
                            }
                        } else {
                            proof {
                                if exists|w: int| old(self).sole_perfect_leaf(w) {
                                    let w = choose|w: int| old(self).sole_perfect_leaf(w);
                                    assert(pre_tree[w].expression.finite());
                                    assert(false);
                                }
                            }
                            let derivates = self.tree[node].expression.derive(&self.terms);
                            proof {
                                crate::ast::lemma_derive_len(
                                    self.tree@[node as int].expression,
                                    self.terms@,
                                );
                                crate::ast::lemma_finite_holes(self.tree@[node as int].expression);
                                assert(self.tree@[node as int].expression.hole_count() >= 1);
                                assert(self.tree@[node as int].expression.hole_count()
                                    * self.terms@.len() >= self.terms@.len()) by (nonlinear_arith)
                                    requires
                                        self.tree@[node as int].expression.hole_count() >= 1,
                                ;
                            }
                            let ghost tc = self.tree@;
                            let ghost qc = self.queue@;
                            let win = self.create_nodes(inputs, outputs, derivates, node);
                            proof {
                                assert forall|k: int|
                                    0 <= k < self.queue@.len() implies {
                                    let e = #[trigger] self.queue@[k];
                                    &&& (e.1 as int) < self.tree@.len()
                                    &&& self.tree@[e.1 as int].next@.len() == 0
                                    &&& e.0 == self.tree@[e.1 as int].score
                                } by {
                                    let e = self.queue@[k];
                                    assert(e == qc[k]);
                                    assert(e.1 != node);
                                    assert(self.tree@[e.1 as int] == tc[e.1 as int]);
                                }
                            }
                            if win.is_some() {
                                winner_idx = win;
                            }
                        }
                    },
                }
                wv += 1;
            }
            proof {
                if winner_idx is None && (exists|w: int| old(self).sole_perfect_leaf(w)) {
                    assert(false);
                }
            }
            self.rebuild_queue();
            run += 1;
        }
        let winner = match winner_idx {
            Some(nd) => Some(self.tree[nd].expression.clone()),
            None => None,
        };
        let best = self.best_candidate();
        let expanded: usize = self.tree.len() - initial_len;
        SynthResult { winner, best: best.0, best_score: best.1, expanded_nodes: expanded }
    }
}


/// Law of the tree shape: the root is its own parent, every other node's
/// parent lies strictly before it, and every node is registered among its
/// parent's children. Every state the synthesis hands out satisfies it.
pub proof fn lemma_parent_registers_children(tree: Seq<Node>)
    requires
        wf_tree(tree),
    ensures
        tree[0].prev == 0,
        forall|i: int| 1 <= i < tree.len() ==> (#[trigger] tree[i].prev) < i,
        forall|i: int|
            1 <= i < tree.len() ==> tree[(#[trigger] tree[i].prev) as int].next@.contains(
                i as usize,
            ),
{
    assert forall|i: int|
        1 <= i < tree.len() implies tree[(#[trigger] tree[i].prev) as int].next@.contains(
        i as usize,
    ) by {
        let c = choose|c: int|
            0 <= c < tree[tree[i].prev as int].next@.len() && tree[tree[i].prev as int].next@[c]
                == i;
        assert(tree[tree[i].prev as int].next@[c] == i as usize);
    }
}

/// Law of expansion: a node that has children still holds a hole, so no
/// finite expression is ever expanded. Every state the synthesis hands out
/// satisfies it.
pub proof fn lemma_children_imply_hole(tree: Seq<Node>, i: int)
    requires
        expanded_not_finite(tree),
        0 <= i < tree.len(),
        tree[i].next@.len() > 0,
    ensures
        !tree[i].expression.finite(),
        tree[i].expression.hole_count() > 0,
{
    crate::ast::lemma_finite_holes(tree[i].expression);
}

/// Law of scoring: in every state the synthesis hands out, a finite node's
/// stored score is exactly the recomputed combined score of its evaluation
/// against the outputs, and 0 where it cannot be evaluated.
pub proof fn lemma_finite_score_recomputed(
    tree: Seq<Node>,
    inputs: TraceMatrix,
    outputs: Seq<BaseT>,
    i: int,
)
    requires
        scores_consistent(tree, inputs, outputs),
        0 <= i < tree.len(),
        tree[i].expression.finite(),
        tree[i].expression.spec_eval(inputs) is Some,
    ensures
        tree[i].score as int == get_val(tree[i].expression.spec_eval(inputs).unwrap(), outputs),
{
    assert(node_score_consistent(tree[i], inputs, outputs));
}

} // verus!
