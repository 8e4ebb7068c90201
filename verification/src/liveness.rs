//! The control-flow graph and the liveness engine.
//!
//! [`ControlFlowGraph::from`] flattens a [`Program`] into an indexed sequence
//! of [`Node`]s whose edges reproduce the structured control flow, as given by
//! the specification functions [`flat_stmts`] and [`program_models`].
//! [`ControlFlowGraph::perform_liveness_analysis`] then computes the least
//! solution of the backward dataflow equations
//! `live-in[i] = use[i] ∪ (live-out[i] − def[i])` and
//! `live-out[i] = ⋃_{j ∈ succ(i)} live-in[j]`.

use vstd::prelude::*;

use vstd::string::StringExecFns;

use crate::ast::{expr_id_set, expr_ids, Expr, Program, Statement};
use crate::pretty_print::{nat_repr, pp_expr, pretty_print_expr};
use crate::sets::{
    contains_idx, contains_name, copy_idx, copy_names, diff_names, filter_lt, insert_idx,
    insert_name, name_set, no_dup_idx, no_dup_names, remove_idx, union_into,
};

verus! {

/// What one flattened node stands for.
#[derive(Debug, PartialEq, Eq, Clone)]
pub enum NodeKind {
    /// `target = expr;`
    Assignment(Box<Expr>, Box<Expr>),
    /// A branch on `expr` (from `if`, `while` or `do`-`while`).
    Condition(Box<Expr>),
    /// `return expr;`
    Return(Box<Expr>),
}

/// One node of the control-flow graph.
#[derive(Debug, PartialEq, Eq, Clone)]
pub struct Node {
    pub idx: usize,
    pub node_kind: NodeKind,
    pub use_set: Vec<String>,
    pub def_set: Vec<String>,
    pub pred: Vec<usize>,
    pub succ: Vec<usize>,
}

/// The views of the names in `s`, in order.
pub open spec fn names_of(s: Seq<String>) -> Seq<Seq<char>> {
    Seq::new(s.len(), |i: int| s[i]@)
}

/// The set of successor indices of a node, as integers.
pub open spec fn succ_set(n: Node) -> Set<int> {
    Set::new(|j: int| exists|k: int| 0 <= k < n.succ@.len() && n.succ@[k] as int == j)
}

/// The specification-level content of one node: its kind, def set, use set
/// and successor set.  Predecessor sets are not part of the model; they are
/// determined by edge symmetry.
pub struct NodeModel {
    pub kind: NodeKind,
    pub defs: Set<Seq<char>>,
    pub uses: Set<Seq<char>>,
    pub succs: Set<int>,
}

/// The def set of an assignment with left-hand side `lhs`.
pub open spec fn assign_defs(lhs: Expr) -> Set<Seq<char>> {
    match lhs {
        Expr::Id(s) => set![s@],
        _ => Set::empty(),
    }
}

/// How many nodes one statement contributes: one per assignment, `return`
/// and branch condition, however deeply nested.
pub open spec fn stmt_node_count(s: Statement) -> nat
    decreases s,
{
    match s {
        Statement::Assignment(_, _) => 1,
        Statement::Return(_) => 1,
        Statement::If(_, body) => 1 + stmts_node_count(body@),
        Statement::While(_, body) => 1 + stmts_node_count(body@),
        Statement::DoWhile(body, _) => stmts_node_count(body@) + 1,
    }
}

/// How many nodes a statement list contributes.
pub open spec fn stmts_node_count(ss: Seq<Statement>) -> nat
    decreases ss,
{
    if ss.len() == 0 {
        0
    } else {
        stmt_node_count(ss[0]) + stmts_node_count(ss.drop_first())
    }
}

/// The nodes a single statement flattens to when its first node sits at
/// index `off`.  `ft` is the fall-through target of the last node produced,
/// used when that node does not end with explicit successors of its own:
/// inside a `while` body it is the condition's index (the loop back edge),
/// elsewhere the next sequential index.
pub open spec fn flat_stmt(s: Statement, off: int, ft: int) -> Seq<NodeModel>
    decreases s,
{
    match s {
        Statement::Assignment(lhs, e) => seq![
            NodeModel {
                kind: NodeKind::Assignment(lhs, e),
                defs: assign_defs(*lhs),
                uses: expr_id_set(*e),
                succs: set![ft],
            },
        ],
        Statement::Return(e) => seq![
            NodeModel {
                kind: NodeKind::Return(e),
                defs: Set::empty(),
                uses: expr_id_set(*e),
                succs: Set::empty(),
            },
        ],
        Statement::If(cond, body) => seq![
            NodeModel {
                kind: NodeKind::Condition(cond),
                defs: Set::empty(),
                uses: expr_id_set(*cond),
                succs: set![off + 1, off + 1 + stmts_node_count(body@)],
            },
        ] + flat_stmts(body@, off + 1, ft),
        Statement::While(cond, body) => seq![
            NodeModel {
                kind: NodeKind::Condition(cond),
                defs: Set::empty(),
                uses: expr_id_set(*cond),
                succs: set![off + 1, off + 1 + stmts_node_count(body@)],
            },
        ] + flat_stmts(body@, off + 1, off),
        Statement::DoWhile(body, cond) => flat_stmts(body@, off, off + stmts_node_count(body@))
            + seq![
            NodeModel {
                kind: NodeKind::Condition(cond),
                defs: Set::empty(),
                uses: expr_id_set(*cond),
                succs: set![off, off + stmts_node_count(body@) + 1],
            },
        ],
    }
}

/// The nodes a statement list flattens to, starting at index `off`, with
/// `ft` the fall-through target of the node that ends the list.
pub open spec fn flat_stmts(ss: Seq<Statement>, off: int, ft: int) -> Seq<NodeModel>
    decreases ss,
{
    if ss.len() == 0 {
        seq![]
    } else {
        let c = stmt_node_count(ss[0]) as int;
        let ft0 = if ss.len() == 1 {
            ft
        } else {
            off + c
        };
        flat_stmt(ss[0], off, ft0) + flat_stmts(ss.drop_first(), off + c, ft)
    }
}

/// The finished node models of a whole program: the flattened statement
/// list, with the last node's successors cleared (the program exit) and any
/// successor beyond the node sequence removed.
pub open spec fn program_models(p: Program) -> Seq<NodeModel> {
    let raw = flat_stmts(p.stmts@, 0, stmts_node_count(p.stmts@) as int);
    let n = raw.len() as int;
    Seq::new(
        raw.len(),
        |i: int|
            NodeModel {
                kind: raw[i].kind,
                defs: raw[i].defs,
                uses: raw[i].uses,
                succs: if i == n - 1 {
                    Set::empty()
                } else {
                    Set::new(|j: int| raw[i].succs.contains(j) && 0 <= j < n)
                },
            },
    )
}

/// Whether the executable node `n` carries the content of the model `m`.
pub open spec fn node_matches(n: Node, m: NodeModel) -> bool {
    &&& n.node_kind == m.kind
    &&& name_set(n.def_set@) == m.defs
    &&& name_set(n.use_set@) == m.uses
    &&& succ_set(n) == m.succs
}

/// Whether each node carries the content of the model at its position.
pub open spec fn matches_models(nodes: Seq<Node>, ms: Seq<NodeModel>) -> bool {
    &&& nodes.len() == ms.len()
    &&& forall|i: int| 0 <= i < nodes.len() ==> node_matches(#[trigger] nodes[i], ms[i])
}

/// Structural well-formedness that holds while the graph is being built:
/// indices are dense, the four per-node vectors are duplicate-free,
/// predecessors reference existing nodes, and predecessors mirror the
/// successor edges among the nodes built so far.  Successors may still point
/// ahead of the sequence.
pub open spec fn building_wf(nodes: Seq<Node>) -> bool {
    &&& forall|i: int| 0 <= i < nodes.len() ==> (#[trigger] nodes[i]).idx as int == i
    &&& forall|i: int|
        0 <= i < nodes.len() ==> no_dup_idx((#[trigger] nodes[i]).succ@) && no_dup_idx(
            nodes[i].pred@,
        ) && no_dup_names(nodes[i].use_set@) && no_dup_names(nodes[i].def_set@)
    &&& forall|i: int, p: usize|
        0 <= i < nodes.len() && (#[trigger] nodes[i].pred@.contains(p)) ==> (p as int)
            < nodes.len()
    &&& forall|i: int, j: int|
        0 <= i < nodes.len() && 0 <= j < nodes.len() ==> ((#[trigger] nodes[i].succ@.contains(
            j as usize,
        )) <==> nodes[j].pred@.contains(i as usize))
}

/// Well-formedness of a finished node sequence: as while building, and every
/// successor references an existing node.
pub open spec fn nodes_wf(nodes: Seq<Node>) -> bool {
    &&& building_wf(nodes)
    &&& forall|i: int, s: usize|
        0 <= i < nodes.len() && (#[trigger] nodes[i].succ@.contains(s)) ==> (s as int)
            < nodes.len()
}

impl Node {
    /// A fresh node with the given index and kind and empty sets.
    pub fn new(idx: usize, node_kind: NodeKind) -> (n: Self)
        ensures
            n.idx == idx,
            n.node_kind == node_kind,
            n.use_set@.len() == 0,
            n.def_set@.len() == 0,
            n.pred@.len() == 0,
            n.succ@.len() == 0,
    {
        Node {
            idx,
            node_kind,
            use_set: Vec::new(),
            def_set: Vec::new(),
            pred: Vec::new(),
            succ: Vec::new(),
        }
    }

    /// The node's position in the graph.
    pub fn get_node_idx(&self) -> (r: usize)
        ensures
            r == self.idx,
    {
        self.idx
    }

    /// What the node stands for.
    pub fn get_node_kind(&self) -> (r: &NodeKind)
        ensures
            r == &self.node_kind,
    {
        &self.node_kind
    }

    /// Adds every given name to the use set.
    pub fn use_extend(&mut self, vars: Vec<String>)
        requires
            no_dup_names(old(self).use_set@),
        ensures
            no_dup_names(final(self).use_set@),
            name_set(final(self).use_set@) == name_set(old(self).use_set@).union(name_set(vars@)),
            final(self).idx == old(self).idx,
            final(self).node_kind == old(self).node_kind,
            final(self).def_set == old(self).def_set,
            final(self).pred == old(self).pred,
            final(self).succ == old(self).succ,
    {
        union_into(&mut self.use_set, &vars);
    }

    /// Adds one name to the use set.
    pub fn insert_use(&mut self, var: String)
        requires
            no_dup_names(old(self).use_set@),
        ensures
            no_dup_names(final(self).use_set@),
            name_set(final(self).use_set@) == name_set(old(self).use_set@).insert(var@),
            final(self).idx == old(self).idx,
            final(self).node_kind == old(self).node_kind,
            final(self).def_set == old(self).def_set,
            final(self).pred == old(self).pred,
            final(self).succ == old(self).succ,
    {
        insert_name(&mut self.use_set, var);
    }

    /// Adds one name to the def set.
    pub fn insert_def(&mut self, var: String)
        requires
            no_dup_names(old(self).def_set@),
        ensures
            no_dup_names(final(self).def_set@),
            name_set(final(self).def_set@) == name_set(old(self).def_set@).insert(var@),
            final(self).idx == old(self).idx,
            final(self).node_kind == old(self).node_kind,
            final(self).use_set == old(self).use_set,
            final(self).pred == old(self).pred,
            final(self).succ == old(self).succ,
    {
        insert_name(&mut self.def_set, var);
    }

    /// The names this node writes.
    pub fn get_defs(&self) -> (r: &Vec<String>)
        ensures
            r == &self.def_set,
    {
        &self.def_set
    }

    /// The names this node reads.
    pub fn get_uses(&self) -> (r: &Vec<String>)
        ensures
            r == &self.use_set,
    {
        &self.use_set
    }

    /// Whether `d` is written by this node.
    pub fn contains_def(&self, d: String) -> (r: bool)
        ensures
            r == name_set(self.def_set@).contains(d@),
    {
        contains_name(&self.def_set, &d)
    }

    /// Whether `d` is read by this node.
    pub fn contains_use(&self, d: String) -> (r: bool)
        ensures
            r == name_set(self.use_set@).contains(d@),
    {
        contains_name(&self.use_set, &d)
    }

    /// Adds a predecessor index (no change when already present).
    pub fn add_pred(&mut self, n: usize)
        requires
            no_dup_idx(old(self).pred@),
        ensures
            no_dup_idx(final(self).pred@),
            forall|y: usize| final(self).pred@.contains(y) <==> old(self).pred@.contains(y) || y
                == n,
            final(self).idx == old(self).idx,
            final(self).node_kind == old(self).node_kind,
            final(self).use_set == old(self).use_set,
            final(self).def_set == old(self).def_set,
            final(self).succ == old(self).succ,
    {
        insert_idx(&mut self.pred, n);
    }

    /// Adds a successor index (no change when already present).
    pub fn add_succ(&mut self, n: usize)
        requires
            no_dup_idx(old(self).succ@),
        ensures
            no_dup_idx(final(self).succ@),
            forall|y: usize| final(self).succ@.contains(y) <==> old(self).succ@.contains(y) || y
                == n,
            final(self).idx == old(self).idx,
            final(self).node_kind == old(self).node_kind,
            final(self).use_set == old(self).use_set,
            final(self).def_set == old(self).def_set,
            final(self).pred == old(self).pred,
    {
        insert_idx(&mut self.succ, n);
    }

    /// Replaces the predecessor set with the given indices.
    pub fn set_pred(&mut self, nv: Vec<usize>)
        ensures
            final(self).pred == nv,
            final(self).idx == old(self).idx,
            final(self).node_kind == old(self).node_kind,
            final(self).use_set == old(self).use_set,
            final(self).def_set == old(self).def_set,
            final(self).succ == old(self).succ,
    {
        self.pred = nv;
    }

    /// Replaces the successor set with the given indices.
    pub fn set_succ(&mut self, nv: Vec<usize>)
        ensures
            final(self).succ == nv,
            final(self).idx == old(self).idx,
            final(self).node_kind == old(self).node_kind,
            final(self).use_set == old(self).use_set,
            final(self).def_set == old(self).def_set,
            final(self).pred == old(self).pred,
    {
        self.succ = nv;
    }

    /// Empties the predecessor set.
    pub fn clear_pred(&mut self)
        ensures
            final(self).pred@.len() == 0,
            final(self).idx == old(self).idx,
            final(self).node_kind == old(self).node_kind,
            final(self).use_set == old(self).use_set,
            final(self).def_set == old(self).def_set,
            final(self).succ == old(self).succ,
    {
        self.pred.clear();
    }

    /// Empties the successor set.
    pub fn clear_succ(&mut self)
        ensures
            final(self).succ@.len() == 0,
            final(self).idx == old(self).idx,
            final(self).node_kind == old(self).node_kind,
            final(self).use_set == old(self).use_set,
            final(self).def_set == old(self).def_set,
            final(self).pred == old(self).pred,
    {
        self.succ.clear();
    }

    /// The indices of the nodes this node may come from.
    pub fn get_preds(&self) -> (r: &Vec<usize>)
        ensures
            r == &self.pred,
    {
        &self.pred
    }

    /// The indices of the nodes this node may go to.
    pub fn get_succs(&self) -> (r: &Vec<usize>)
        ensures
            r == &self.succ,
    {
        &self.succ
    }

    /// Removes one predecessor index (no change when absent).
    pub(crate) fn remove_pred(&mut self, n: usize)
        requires
            no_dup_idx(old(self).pred@),
        ensures
            no_dup_idx(final(self).pred@),
            forall|y: usize| final(self).pred@.contains(y) <==> old(self).pred@.contains(y) && y
                != n,
            final(self).idx == old(self).idx,
            final(self).node_kind == old(self).node_kind,
            final(self).use_set == old(self).use_set,
            final(self).def_set == old(self).def_set,
            final(self).succ == old(self).succ,
    {
        remove_idx(&mut self.pred, n);
    }
}

/// The identifiers of `e`, in pre-order, repetitions kept.
pub fn get_ids_from_expr(e: Box<Expr>) -> (r: Vec<String>)
    ensures
        names_of(r@) == expr_ids(*e),
{
    let mut it = e.iter();
    let mut r: Vec<String> = Vec::new();
    loop
        invariant
            names_of(r@) + it.ids() =~= expr_ids(*e),
        decreases it.ids().len(),
    {
        let ghost done = r@;
        let ghost pending = it.ids();
        match it.next() {
            Some(s) => {
                r.push(s);
                proof {
                    assert(names_of(r@) =~= names_of(done).push(pending[0]));
                    assert(names_of(r@) + it.ids() =~= names_of(done) + pending);
                }
            },
            None => {
                proof {
                    assert(names_of(r@) =~= expr_ids(*e));
                }
                return r;
            },
        }
    }
}

/// The distinct identifiers of `e`, as a duplicate-free vector.
fn use_names(e: &Expr) -> (r: Vec<String>)
    ensures
        no_dup_names(r@),
        name_set(r@) == expr_id_set(*e),
{
    let ids = get_ids_from_expr(Box::new(e.clone()));
    let mut r: Vec<String> = Vec::new();
    let mut i: usize = 0;
    while i < ids.len()
        invariant
            i <= ids@.len(),
            no_dup_names(r@),
            name_set(r@) == name_set(ids@.take(i as int)),
        decreases ids@.len() - i,
    {
        insert_name(&mut r, ids[i].clone());
        proof {
            assert(ids@.take(i as int).push(ids@[i as int]) =~= ids@.take(i as int + 1));
            crate::sets::lemma_name_set_push(ids@.take(i as int), ids@[i as int]);
        }
        i += 1;
    }
    proof {
        assert(ids@.take(ids@.len() as int) =~= ids@);
        assert forall|x: Seq<char>| name_set(ids@).contains(x) implies expr_id_set(
            *e,
        ).contains(x) by {
            let k = choose|k: int| 0 <= k < ids@.len() && ids@[k]@ == x;
            assert(names_of(ids@)[k] == x);
            assert(expr_ids(*e)[k] == x);
        };
        assert forall|x: Seq<char>| expr_id_set(*e).contains(x) implies name_set(
            ids@,
        ).contains(x) by {
            let k = choose|k: int| 0 <= k < expr_ids(*e).len() && expr_ids(*e)[k] == x;
            assert(names_of(ids@)[k] == x);
            assert(ids@[k]@ == x);
        };
        assert(name_set(ids@) =~= expr_id_set(*e));
    }
    r
}

/// Equality of everything a node carries except its predecessor set (which
/// keeps growing while later nodes are appended).
pub open spec fn core_eq(a: Node, b: Node) -> bool {
    &&& a.idx == b.idx
    &&& a.node_kind == b.node_kind
    &&& a.use_set == b.use_set
    &&& a.def_set == b.def_set
    &&& a.succ == b.succ
}

/// The node sequence being built, with the index the next node receives.
struct FlattenerState {
    nodes: Vec<Node>,
    current_offset: usize,
}

/// The builder invariant: the offset is the number of nodes built, and the
/// sequence is well-formed for a graph under construction.
spec fn state_wf(st: FlattenerState) -> bool {
    &&& st.current_offset == st.nodes@.len()
    &&& building_wf(st.nodes@)
}

impl FlattenerState {
    fn new() -> (st: Self)
        ensures
            state_wf(st),
            st.nodes@.len() == 0,
    {
        FlattenerState { nodes: Vec::new(), current_offset: 0 }
    }

    fn get_offset(&self) -> (r: usize)
        ensures
            r == self.current_offset,
    {
        self.current_offset
    }

    fn inc_offset(&mut self)
        requires
            old(self).current_offset < usize::MAX,
        ensures
            final(self).current_offset == old(self).current_offset + 1,
            final(self).nodes == old(self).nodes,
    {
        self.current_offset = self.current_offset + 1;
    }

    /// Appends `node` at the next index.  A node without successors that is
    /// not a `Return` receives `ft` as its single fall-through successor.
    /// Predecessor sets are kept in sync in both directions: every existing
    /// successor target of the new node learns of its new predecessor, and
    /// the new node collects the already-built nodes that point at it.
    #[verifier::loop_isolation(false)]
    fn add_node(&mut self, node: Node, ft: usize)
        requires
            state_wf(*old(self)),
            node.idx == old(self).current_offset,
            old(self).current_offset < usize::MAX,
            no_dup_idx(node.succ@),
            no_dup_names(node.use_set@),
            no_dup_names(node.def_set@),
            node.pred@.len() == 0,
        ensures
            state_wf(*final(self)),
            final(self).nodes@.len() == old(self).nodes@.len() + 1,
            forall|i: int|
                0 <= i < old(self).nodes@.len() ==> core_eq(
                    #[trigger] final(self).nodes@[i],
                    old(self).nodes@[i],
                ),
            final(self).nodes@.last().idx == node.idx,
            final(self).nodes@.last().node_kind == node.node_kind,
            final(self).nodes@.last().use_set == node.use_set,
            final(self).nodes@.last().def_set == node.def_set,
            succ_set(final(self).nodes@.last()) == (if node.succ@.len() == 0
                && !(node.node_kind is Return) {
                set![ft as int]
            } else {
                succ_set(node)
            }),
    {
        let cur = self.current_offset;
        let mut node = node;
        let is_ret = match &node.node_kind {
            NodeKind::Return(_) => true,
            _ => false,
        };
        if node.succ.len() == 0 && !is_ret {
            node.add_succ(ft);
            proof {
                assert forall|j: int| succ_set(node).contains(j) implies set![ft as int].contains(
                    j,
                ) by {
                    let k = choose|k: int| 0 <= k < node.succ@.len() && node.succ@[k] as int == j;
                    assert(node.succ@.contains(node.succ@[k]));
                    assert(node.succ@[k] == ft);
                };
                assert(node.succ@.contains(ft));
                assert(succ_set(node) =~= set![ft as int]);
            }
        }
        let ghost succ_final = succ_set(node);
        let ghost node_snap = node;
        // Forward direction: `cur` becomes a predecessor of every successor
        // target that is already built.
        let mut k: usize = 0;
        while k < node.succ.len()
            invariant
                self.current_offset == cur,
                self.nodes@.len() == cur,
                k <= node.succ@.len(),
                node == node_snap,
                forall|i: int|
                    0 <= i < cur ==> core_eq(#[trigger] self.nodes@[i], old(self).nodes@[i]),
                forall|i: int, y: usize|
                    0 <= i < cur ==> ((#[trigger] self.nodes@[i].pred@.contains(y)) <==> old(
                        self,
                    ).nodes@[i].pred@.contains(y) || (y == cur && exists|m: int|
                        0 <= m < k && node.succ@[m] as int == i)),
                forall|i: int| 0 <= i < cur ==> no_dup_idx(#[trigger] self.nodes@[i].pred@),
            decreases node.succ@.len() - k,
        {
            let s = node.succ[k];
            if s < cur {
                self.nodes[s].add_pred(cur);
            }
            proof {
                assert forall|i: int, y: usize| 0 <= i < cur implies ((#[trigger] self.nodes@[i].pred@.contains(
                    y,
                )) <==> old(self).nodes@[i].pred@.contains(y) || (y == cur && exists|m: int|
                    0 <= m < k + 1 && node.succ@[m] as int == i)) by {
                    if i == s as int && (s as int) < cur {
                        assert(node.succ@[k as int] as int == i);
                    }
                }
            }
            k += 1;
        }
        // The node may be its own successor (an empty `do`-`while` body).
        if contains_idx(&node.succ, cur) {
            node.add_pred(cur);
        }
        let ghost node_mid = node;
        // Backward direction: collect the already-built nodes that branch to
        // `cur` (forward branches registered before their target existed).
        let mut j: usize = 0;
        while j < cur
            invariant
                self.current_offset == cur,
                self.nodes@.len() == cur,
                j <= cur,
                no_dup_idx(node.pred@),
                core_eq(node, node_snap),
                forall|i: int|
                    0 <= i < cur ==> core_eq(#[trigger] self.nodes@[i], old(self).nodes@[i]),
                forall|i: int, y: usize|
                    0 <= i < cur ==> ((#[trigger] self.nodes@[i].pred@.contains(y)) <==> old(
                        self,
                    ).nodes@[i].pred@.contains(y) || (y == cur && exists|m: int|
                        0 <= m < node.succ@.len() && node.succ@[m] as int == i)),
                forall|i: int| 0 <= i < cur ==> no_dup_idx(#[trigger] self.nodes@[i].pred@),
                forall|y: usize|
                    node.pred@.contains(y) <==> ((y as int) < j && self.nodes@[y as int].succ@.contains(
                        cur,
                    )) || (y == cur && node.succ@.contains(cur)),
            decreases cur - j,
        {
            let hit = contains_idx(&self.nodes[j].succ, cur);
            if hit {
                node.add_pred(j);
            }
            j += 1;
        }
        self.nodes.push(node);
        self.current_offset = cur + 1;
        proof {
            let post = self.nodes@;
            let pre = old(self).nodes@;
            assert(post.len() == cur + 1);
            assert(post.last() == node);
            assert forall|i: int, jj: int| 0 <= i < post.len() && 0 <= jj < post.len() implies ((
            #[trigger] post[i].succ@.contains(jj as usize)) <==> post[jj].pred@.contains(
                i as usize,
            )) by {
                if i < cur && jj < cur {
                    assert(core_eq(post[i], pre[i]));
                    assert(post[jj].pred@.contains(i as usize) <==> pre[jj].pred@.contains(
                        i as usize,
                    ) || (i as usize == cur && exists|m: int|
                        0 <= m < node.succ@.len() && node.succ@[m] as int == jj));
                    assert(pre[i].succ@.contains(jj as usize) <==> pre[jj].pred@.contains(
                        i as usize,
                    ));
                } else if i < cur && jj == cur {
                    assert(core_eq(post[i], pre[i]));
                } else if i == cur && jj < cur {
                    assert(post[jj].pred@.contains(i as usize) <==> pre[jj].pred@.contains(
                        cur as usize,
                    ) || (exists|m: int|
                        0 <= m < node.succ@.len() && node.succ@[m] as int == jj));
                    assert(!pre[jj].pred@.contains(cur as usize));
                    assert(node.succ@.contains(jj as usize) <==> (exists|m: int|
                        0 <= m < node.succ@.len() && node.succ@[m] as int == jj)) by {
                        if node.succ@.contains(jj as usize) {
                            let m = choose|m: int|
                                0 <= m < node.succ@.len() && node.succ@[m] == jj as usize;
                            assert(node.succ@[m] as int == jj);
                        }
                        if exists|m: int| 0 <= m < node.succ@.len() && node.succ@[m] as int == jj {
                            let m = choose|m: int|
                                0 <= m < node.succ@.len() && node.succ@[m] as int == jj;
                            assert(node.succ@[m] == jj as usize);
                        }
                    };
                } else {
                }
            };
            assert(building_wf(post));
            assert(succ_set(post.last()) =~= succ_final);
        }
    }
}

/// Peels the first statement off the node count of a remaining list.
proof fn lemma_count_step(ss: Seq<Statement>, i: int)
    requires
        0 <= i < ss.len(),
    ensures
        stmts_node_count(ss.skip(i)) == stmt_node_count(ss[i]) + stmts_node_count(ss.skip(i + 1)),
{
    assert(ss.skip(i)[0] == ss[i]);
    assert(ss.skip(i).drop_first() =~= ss.skip(i + 1));
}

/// Peels the first statement off the flattening of a remaining list.
proof fn lemma_flat_step(ss: Seq<Statement>, i: int, off: int, ft: int)
    requires
        0 <= i < ss.len(),
    ensures
        flat_stmts(ss.skip(i), off, ft) == flat_stmt(
            ss[i],
            off,
            if i == ss.len() - 1 {
                ft
            } else {
                off + stmt_node_count(ss[i])
            },
        ) + flat_stmts(ss.skip(i + 1), off + stmt_node_count(ss[i]), ft),
{
    assert(ss.skip(i)[0] == ss[i]);
    assert(ss.skip(i).drop_first() =~= ss.skip(i + 1));
    assert(ss.skip(i).len() == 1 <==> i == ss.len() - 1);
}

/// One statement flattens to as many node models as it counts.
proof fn lemma_flat_stmt_len(s: Statement, off: int, ft: int)
    ensures
        flat_stmt(s, off, ft).len() == stmt_node_count(s),
    decreases s,
{
    match s {
        Statement::Assignment(_, _) => {},
        Statement::Return(_) => {},
        Statement::If(_, body) => {
            lemma_flat_stmts_len(body@, off + 1, ft);
        },
        Statement::While(_, body) => {
            lemma_flat_stmts_len(body@, off + 1, off);
        },
        Statement::DoWhile(body, _) => {
            lemma_flat_stmts_len(body@, off, off + stmts_node_count(body@));
        },
    }
}

/// A statement list flattens to as many node models as it counts.
proof fn lemma_flat_stmts_len(ss: Seq<Statement>, off: int, ft: int)
    ensures
        flat_stmts(ss, off, ft).len() == stmts_node_count(ss),
    decreases ss,
{
    if ss.len() != 0 {
        let c = stmt_node_count(ss[0]) as int;
        let ft0 = if ss.len() == 1 {
            ft
        } else {
            off + c
        };
        lemma_flat_stmt_len(ss[0], off, ft0);
        lemma_flat_stmts_len(ss.drop_first(), off + c, ft);
    }
}

/// The number of nodes one statement flattens to.
fn count_stmt(s: &Statement) -> (c: usize)
    requires
        stmt_node_count(*s) <= usize::MAX,
    ensures
        c == stmt_node_count(*s),
    decreases *s,
{
    match s {
        Statement::Assignment(_, _) => 1,
        Statement::Return(_) => 1,
        Statement::If(_, body) => 1 + count_stmts(body),
        Statement::While(_, body) => 1 + count_stmts(body),
        Statement::DoWhile(body, _) => count_stmts(body) + 1,
    }
}

/// The number of nodes a statement list flattens to.
#[verifier::loop_isolation(false)]
fn count_stmts(ss: &Vec<Statement>) -> (c: usize)
    requires
        stmts_node_count(ss@) <= usize::MAX,
    ensures
        c == stmts_node_count(ss@),
    decreases ss@,
{
    let mut total: usize = 0;
    let mut i: usize = 0;
    proof {
        assert(ss@.skip(0) =~= ss@);
    }
    while i < ss.len()
        invariant
            i <= ss@.len(),
            total + stmts_node_count(ss@.skip(i as int)) == stmts_node_count(ss@),
        decreases ss@.len() - i,
    {
        proof {
            lemma_count_step(ss@, i as int);
        }
        let c = count_stmt(&ss[i]);
        total += c;
        i += 1;
    }
    proof {
        assert(ss@.skip(ss@.len() as int) =~= Seq::<Statement>::empty());
    }
    total
}

/// Builds the node of one assignment statement: the target is defined, the
/// identifiers of the right-hand side are used.
fn handle_assignment(idx: usize, stmt: &Statement) -> (n: Node)
    requires
        stmt matches Statement::Assignment(_, _),
    ensures
        n.idx == idx,
        n.node_kind == NodeKind::Assignment(stmt->Assignment_0, stmt->Assignment_1),
        name_set(n.def_set@) == assign_defs(*stmt->Assignment_0),
        name_set(n.use_set@) == expr_id_set(*stmt->Assignment_1),
        n.pred@.len() == 0,
        n.succ@.len() == 0,
        no_dup_names(n.use_set@),
        no_dup_names(n.def_set@),
{
    match stmt {
        Statement::Assignment(lvl, e) => {
            let mut node = Node::new(
                idx,
                NodeKind::Assignment(Box::new((**lvl).clone()), Box::new((**e).clone())),
            );
            match &**lvl {
                Expr::Id(id) => {
                    node.insert_def(id.clone());
                    proof {
                        assert(name_set(node.def_set@) =~= assign_defs(**lvl));
                    }
                },
                _ => {
                    proof {
                        assert(name_set(node.def_set@) =~= assign_defs(**lvl));
                    }
                },
            }
            let u = use_names(&**e);
            node.use_extend(u);
            proof {
                assert(name_set(node.use_set@) =~= expr_id_set(**e));
            }
            node
        },
        _ => unreached(),
    }
}

/// Builds the node of one `return` statement: the identifiers of the
/// returned expression are used, nothing is defined.
fn handle_return(idx: usize, stmt: &Statement) -> (n: Node)
    requires
        stmt matches Statement::Return(_),
    ensures
        n.idx == idx,
        n.node_kind == NodeKind::Return(stmt->Return_0),
        name_set(n.def_set@) == Set::<Seq<char>>::empty(),
        name_set(n.use_set@) == expr_id_set(*stmt->Return_0),
        n.pred@.len() == 0,
        n.succ@.len() == 0,
        no_dup_names(n.use_set@),
        no_dup_names(n.def_set@),
{
    match stmt {
        Statement::Return(e) => {
            let mut node = Node::new(idx, NodeKind::Return(Box::new((**e).clone())));
            let u = use_names(&**e);
            node.use_extend(u);
            proof {
                assert(name_set(node.def_set@) =~= Set::<Seq<char>>::empty());
                assert(name_set(node.use_set@) =~= expr_id_set(**e));
            }
            node
        },
        _ => unreached(),
    }
}

/// Builds the node of one branch condition: the identifiers of the
/// condition are used, nothing is defined; the two successors are added by
/// the caller.
fn handle_condition(idx: usize, cond: &Box<Expr>) -> (n: Node)
    ensures
        n.idx == idx,
        n.node_kind == NodeKind::Condition(*cond),
        name_set(n.def_set@) == Set::<Seq<char>>::empty(),
        name_set(n.use_set@) == expr_id_set(**cond),
        n.pred@.len() == 0,
        n.succ@.len() == 0,
        no_dup_names(n.use_set@),
        no_dup_names(n.def_set@),
{
    let mut node = Node::new(idx, NodeKind::Condition(Box::new((**cond).clone())));
    let u = use_names(&**cond);
    node.use_extend(u);
    proof {
        assert(name_set(node.def_set@) =~= Set::<Seq<char>>::empty());
        assert(name_set(node.use_set@) =~= expr_id_set(**cond));
    }
    node
}

/// Flattens one statement onto the state: its nodes are appended at the
/// current offset and match `flat_stmt` of the statement; the content of the
/// nodes already built is untouched (their predecessor sets may grow).
fn flatten_one(st: &mut FlattenerState, stmt: &Statement, ft: usize)
    requires
        state_wf(*old(st)),
        old(st).current_offset + stmt_node_count(*stmt) <= usize::MAX,
    ensures
        state_wf(*final(st)),
        final(st).nodes@.len() == old(st).nodes@.len() + stmt_node_count(*stmt),
        forall|i: int|
            0 <= i < old(st).nodes@.len() ==> core_eq(
                #[trigger] final(st).nodes@[i],
                old(st).nodes@[i],
            ),
        matches_models(
            final(st).nodes@.skip(old(st).nodes@.len() as int),
            flat_stmt(*stmt, old(st).nodes@.len() as int, ft as int),
        ),
    decreases *stmt,
{
    let ghost off0 = old(st).nodes@.len() as int;
    proof {
        lemma_flat_stmt_len(*stmt, off0, ft as int);
    }
    match stmt {
        Statement::Assignment(_, _) => {
            let node = handle_assignment(st.get_offset(), stmt);
            st.add_node(node, ft);
            proof {
                let appended = final(st).nodes@.skip(off0);
                assert(appended.len() == 1);
                assert(appended[0] == final(st).nodes@.last());
                assert(succ_set(final(st).nodes@.last()) == set![ft as int]);
                assert(node_matches(appended[0], flat_stmt(*stmt, off0, ft as int)[0]));
            }
        },
        Statement::Return(_) => {
            let node = handle_return(st.get_offset(), stmt);
            st.add_node(node, ft);
            proof {
                let appended = final(st).nodes@.skip(off0);
                assert(appended.len() == 1);
                assert(appended[0] == final(st).nodes@.last());
                assert(succ_set(final(st).nodes@.last()) =~= Set::<int>::empty());
                assert(node_matches(appended[0], flat_stmt(*stmt, off0, ft as int)[0]));
            }
        },
        Statement::If(cond, body) => {
            let c_body = count_stmts(body);
            let here = st.get_offset();
            let bs = here + 1;
            let after = bs + c_body;
            let mut cnode = handle_condition(here, cond);
            cnode.add_succ(bs);
            cnode.add_succ(after);
            proof {
                lemma_two_succs(cnode, bs, after);
            }
            st.add_node(cnode, ft);
            let ghost mid = st.nodes@;
            flatten_statements(st, body, ft);
            proof {
                lemma_flat_stmts_len(body@, off0 + 1, ft as int);
                let appended = st.nodes@.skip(off0);
                let ms = flat_stmt(*stmt, off0, ft as int);
                assert(core_eq(st.nodes@[off0], mid[off0]));
                assert(mid[off0] == mid.last());
                assert(cnode.succ@.contains(bs));
                assert(cnode.succ@.len() > 0);
                assert(succ_set(mid.last()) == set![bs as int, after as int]);
                assert(succ_set(st.nodes@[off0]) =~= succ_set(mid[off0]));
                assert(st.nodes@[off0].node_kind == NodeKind::Condition(*cond));
                assert(name_set(st.nodes@[off0].def_set@) == Set::<Seq<char>>::empty());
                assert(name_set(st.nodes@[off0].use_set@) == expr_id_set(**cond));
                assert(ms[0].kind == NodeKind::Condition(*cond));
                assert(ms[0].succs == set![off0 + 1, off0 + 1 + stmts_node_count(body@)]);
                assert(set![bs as int, after as int] == set![
                    off0 + 1,
                    off0 + 1 + stmts_node_count(body@),
                ]);
                assert(node_matches(st.nodes@[off0], ms[0]));
                assert(st.nodes@.skip(off0 + 1) =~= appended.skip(1));
                assert forall|t: int| 0 <= t < appended.len() implies node_matches(
                    #[trigger] appended[t],
                    ms[t],
                ) by {
                    if t > 0 {
                        assert(appended[t] == st.nodes@.skip(off0 + 1)[t - 1]);
                        assert(ms[t] == flat_stmts(body@, off0 + 1, ft as int)[t - 1]);
                    } else {
                        assert(appended[0] == st.nodes@[off0]);
                    }
                };
            }
        },
        Statement::While(cond, body) => {
            let c_body = count_stmts(body);
            let here = st.get_offset();
            let bs = here + 1;
            let after = bs + c_body;
            let mut cnode = handle_condition(here, cond);
            cnode.add_succ(bs);
            cnode.add_succ(after);
            proof {
                lemma_two_succs(cnode, bs, after);
            }
            st.add_node(cnode, ft);
            let ghost mid = st.nodes@;
            flatten_statements(st, body, here);
            proof {
                lemma_flat_stmts_len(body@, off0 + 1, off0);
                let appended = st.nodes@.skip(off0);
                let ms = flat_stmt(*stmt, off0, ft as int);
                assert(core_eq(st.nodes@[off0], mid[off0]));
                assert(mid[off0] == mid.last());
                assert(cnode.succ@.contains(bs));
                assert(cnode.succ@.len() > 0);
                assert(succ_set(mid.last()) == set![bs as int, after as int]);
                assert(succ_set(st.nodes@[off0]) =~= succ_set(mid[off0]));
                assert(st.nodes@[off0].node_kind == NodeKind::Condition(*cond));
                assert(name_set(st.nodes@[off0].def_set@) == Set::<Seq<char>>::empty());
                assert(name_set(st.nodes@[off0].use_set@) == expr_id_set(**cond));
                assert(ms[0].kind == NodeKind::Condition(*cond));
                assert(ms[0].succs == set![off0 + 1, off0 + 1 + stmts_node_count(body@)]);
                assert(set![bs as int, after as int] == set![
                    off0 + 1,
                    off0 + 1 + stmts_node_count(body@),
                ]);
                assert(node_matches(st.nodes@[off0], ms[0]));
                assert(st.nodes@.skip(off0 + 1) =~= appended.skip(1));
                assert forall|t: int| 0 <= t < appended.len() implies node_matches(
                    #[trigger] appended[t],
                    ms[t],
                ) by {
                    if t > 0 {
                        assert(appended[t] == st.nodes@.skip(off0 + 1)[t - 1]);
                        assert(ms[t] == flat_stmts(body@, off0 + 1, off0)[t - 1]);
                    } else {
                        assert(appended[0] == st.nodes@[off0]);
                    }
                };
            }
        },
        Statement::DoWhile(body, cond) => {
            let c_body = count_stmts(body);
            let here = st.get_offset();
            let cond_idx = here + c_body;
            flatten_statements(st, body, cond_idx);
            let mut cnode = handle_condition(cond_idx, cond);
            let exit = cond_idx + 1;
            cnode.add_succ(here);
            cnode.add_succ(exit);
            proof {
                lemma_two_succs(cnode, here, exit);
            }
            let ghost mid = st.nodes@;
            st.add_node(cnode, ft);
            proof {
                lemma_flat_stmts_len(body@, off0, off0 + stmts_node_count(body@));
                let appended = st.nodes@.skip(off0);
                let ms = flat_stmt(*stmt, off0, ft as int);
                let body_ms = flat_stmts(body@, off0, off0 + stmts_node_count(body@));
                assert(cnode.succ@.contains(here));
                assert(cnode.succ@.len() > 0);
                assert(succ_set(st.nodes@.last()) == set![here as int, exit as int]);
                assert(set![here as int, exit as int] == set![
                    off0,
                    off0 + stmts_node_count(body@) + 1,
                ]);
                assert(st.nodes@.last().node_kind == NodeKind::Condition(*cond));
                assert(name_set(st.nodes@.last().def_set@) == Set::<Seq<char>>::empty());
                assert(name_set(st.nodes@.last().use_set@) == expr_id_set(**cond));
                assert(ms[ms.len() - 1] == (body_ms + seq![ms[ms.len() - 1]])[ms.len() - 1]);
                assert(ms == body_ms + seq![ms[ms.len() - 1]]) by {
                    assert(ms.len() == body_ms.len() + 1);
                };
                assert(ms[ms.len() - 1].kind == NodeKind::Condition(*cond));
                assert(ms[ms.len() - 1].succs == set![off0, off0 + stmts_node_count(body@) + 1]);
                assert(node_matches(st.nodes@.last(), ms[ms.len() - 1]));
                assert forall|t: int| 0 <= t < appended.len() implies node_matches(
                    #[trigger] appended[t],
                    ms[t],
                ) by {
                    if t < appended.len() - 1 {
                        assert(core_eq(st.nodes@[off0 + t], mid[off0 + t]));
                        assert(mid.skip(off0)[t] == mid[off0 + t]);
                        assert(node_matches(mid[off0 + t], body_ms[t]));
                        assert(ms[t] == body_ms[t]);
                    } else {
                        assert(appended[t] == st.nodes@.last());
                    }
                };
            }
        },
    }
}

/// Two successors added to a fresh node give exactly the two-element set.
proof fn lemma_two_succs(n: Node, a: usize, b: usize)
    requires
        forall|y: usize| n.succ@.contains(y) <==> y == a || y == b,
    ensures
        succ_set(n) == set![a as int, b as int],
{
    assert forall|j: int| succ_set(n).contains(j) implies set![a as int, b as int].contains(j) by {
        let k = choose|k: int| 0 <= k < n.succ@.len() && n.succ@[k] as int == j;
        assert(n.succ@.contains(n.succ@[k]));
    };
    assert forall|j: int| set![a as int, b as int].contains(j) implies succ_set(n).contains(j) by {
        if j == a as int {
            assert(n.succ@.contains(a));
            let k = choose|k: int| 0 <= k < n.succ@.len() && n.succ@[k] == a;
            assert(n.succ@[k] as int == j);
        } else {
            assert(n.succ@.contains(b));
            let k = choose|k: int| 0 <= k < n.succ@.len() && n.succ@[k] == b;
            assert(n.succ@[k] as int == j);
        }
    };
    assert(succ_set(n) =~= set![a as int, b as int]);
}

/// Flattens a statement list onto the state; the appended nodes match
/// `flat_stmts` of the list at the current offset.
#[verifier::loop_isolation(false)]
fn flatten_statements(st: &mut FlattenerState, stmts: &Vec<Statement>, end_ft: usize)
    requires
        state_wf(*old(st)),
        old(st).current_offset + stmts_node_count(stmts@) <= usize::MAX,
    ensures
        state_wf(*final(st)),
        final(st).nodes@.len() == old(st).nodes@.len() + stmts_node_count(stmts@),
        forall|i: int|
            0 <= i < old(st).nodes@.len() ==> core_eq(
                #[trigger] final(st).nodes@[i],
                old(st).nodes@[i],
            ),
        matches_models(
            final(st).nodes@.skip(old(st).nodes@.len() as int),
            flat_stmts(stmts@, old(st).nodes@.len() as int, end_ft as int),
        ),
    decreases stmts@,
{
    let ghost off0 = old(st).nodes@.len() as int;
    let ghost m_all = flat_stmts(stmts@, off0, end_ft as int);
    proof {
        lemma_flat_stmts_len(stmts@, off0, end_ft as int);
        assert(stmts@.skip(0) =~= stmts@);
    }
    let mut i: usize = 0;
    while i < stmts.len()
        invariant
            state_wf(*st),
            i <= stmts@.len(),
            stmts_node_count(stmts@.skip(i as int)) <= stmts_node_count(stmts@),
            st.nodes@.len() as int == off0 + stmts_node_count(stmts@) - stmts_node_count(
                stmts@.skip(i as int),
            ),
            forall|p: int|
                0 <= p < off0 ==> core_eq(#[trigger] st.nodes@[p], old(st).nodes@[p]),
            forall|t: int|
                0 <= t < st.nodes@.len() - off0 ==> node_matches(
                    #[trigger] st.nodes@.skip(off0)[t],
                    m_all[t],
                ),
            flat_stmts(stmts@.skip(i as int), st.nodes@.len() as int, end_ft as int) == m_all.skip(
                st.nodes@.len() - off0,
            ),
        decreases stmts@.len() - i,
    {
        let ghost done = st.nodes@.len() - off0;
        let ghost pre = st.nodes@;
        proof {
            lemma_count_step(stmts@, i as int);
            lemma_flat_step(stmts@, i as int, st.nodes@.len() as int, end_ft as int);
            lemma_flat_stmt_len(
                stmts@[i as int],
                st.nodes@.len() as int,
                if i as int == stmts@.len() - 1 {
                    end_ft as int
                } else {
                    st.nodes@.len() + stmt_node_count(stmts@[i as int]) as int
                },
            );
        }
        let c_i = count_stmt(&stmts[i]);
        let ft_i = if i + 1 == stmts.len() {
            end_ft
        } else {
            st.get_offset() + c_i
        };
        flatten_one(st, &stmts[i], ft_i);
        proof {
            let m_head = flat_stmt(stmts@[i as int], pre.len() as int, ft_i as int);
            let m_rest = flat_stmts(
                stmts@.skip(i as int + 1),
                pre.len() + stmt_node_count(stmts@[i as int]) as int,
                end_ft as int,
            );
            assert(m_all.skip(done) == m_head + m_rest);
            assert forall|t: int| 0 <= t < st.nodes@.len() - off0 implies node_matches(
                #[trigger] st.nodes@.skip(off0)[t],
                m_all[t],
            ) by {
                if t < done {
                    assert(core_eq(st.nodes@[off0 + t], pre[off0 + t]));
                    assert(pre.skip(off0)[t] == pre[off0 + t]);
                    assert(node_matches(pre[off0 + t], m_all[t]));
                    assert(st.nodes@.skip(off0)[t] == st.nodes@[off0 + t]);
                } else {
                    assert(st.nodes@.skip(off0)[t] == st.nodes@[off0 + t]);
                    assert(st.nodes@.skip(pre.len() as int)[t - done] == st.nodes@[off0 + t]);
                    assert(node_matches(st.nodes@[off0 + t], m_head[t - done]));
                    assert(0 <= done && done <= m_all.len());
                    assert(t < m_all.len());
                    assert(m_all.skip(done)[t - done] == m_all[done + (t - done)]);
                    assert(m_all[t] == m_all.skip(done)[t - done]);
                    assert(m_all.skip(done)[t - done] == (m_head + m_rest)[t - done]);
                }
            };
            assert(m_all.skip(done).skip(m_head.len() as int) =~= m_all.skip(
                done + m_head.len(),
            ));
            assert((m_head + m_rest).skip(m_head.len() as int) =~= m_rest);
            assert(m_all.skip(st.nodes@.len() - off0) =~= m_rest);
        }
        i += 1;
    }
    proof {
        assert(stmts@.skip(stmts@.len() as int) =~= Seq::<Statement>::empty());
        assert(matches_models(st.nodes@.skip(off0), m_all)) by {
            assert(st.nodes@.len() - off0 == m_all.len());
            assert forall|t: int| 0 <= t < st.nodes@.skip(off0).len() implies node_matches(
                #[trigger] st.nodes@.skip(off0)[t],
                m_all[t],
            ) by {
                assert(node_matches(st.nodes@.skip(off0)[t], m_all[t]));
            };
        };
    }
}

/// Filtering a successor vector below `n` filters the successor set.
proof fn lemma_succ_set_filtered(a: Node, b: Node, n: usize)
    requires
        forall|y: usize| b.succ@.contains(y) <==> a.succ@.contains(y) && y < n,
    ensures
        succ_set(b) == Set::new(|j: int| succ_set(a).contains(j) && 0 <= j < n),
{
    assert forall|j: int| succ_set(b).contains(j) implies succ_set(a).contains(j) && 0 <= j
        < n by {
        let k = choose|k: int| 0 <= k < b.succ@.len() && b.succ@[k] as int == j;
        assert(b.succ@.contains(b.succ@[k]));
        assert(a.succ@.contains(b.succ@[k]));
        let m = choose|m: int| 0 <= m < a.succ@.len() && a.succ@[m] == b.succ@[k];
        assert(a.succ@[m] as int == j);
    };
    assert forall|j: int| succ_set(a).contains(j) && 0 <= j < n implies succ_set(b).contains(
        j,
    ) by {
        let k = choose|k: int| 0 <= k < a.succ@.len() && a.succ@[k] as int == j;
        assert(a.succ@.contains(a.succ@[k]));
        assert(b.succ@.contains(a.succ@[k]));
        let m = choose|m: int| 0 <= m < b.succ@.len() && b.succ@[m] == a.succ@[k];
        assert(b.succ@[m] as int == j);
    };
    assert(succ_set(b) =~= Set::new(|j: int| succ_set(a).contains(j) && 0 <= j < n));
}

/// Flattens a whole program: the statement list is flattened from index 0,
/// then the last node's successors are cleared (the program exit) and any
/// successor pointing past the sequence is removed, keeping predecessors in
/// sync.  The result is a well-formed node sequence matching
/// [`program_models`].
#[verifier::loop_isolation(false)]
fn flatten_program(p: &Program) -> (nodes: Vec<Node>)
    requires
        stmts_node_count(p.stmts@) <= usize::MAX,
    ensures
        nodes_wf(nodes@),
        nodes@.len() == stmts_node_count(p.stmts@),
        matches_models(nodes@, program_models(*p)),
{
    let total = count_stmts(&p.stmts);
    let mut st = FlattenerState::new();
    flatten_statements(&mut st, &p.stmts, total);
    let ghost raw = flat_stmts(p.stmts@, 0, total as int);
    let mut nodes = st.nodes;
    proof {
        lemma_flat_stmts_len(p.stmts@, 0, total as int);
        assert(nodes@.skip(0) =~= nodes@);
        assert(matches_models(nodes@, raw));
    }
    let n = nodes.len();
    if n == 0 {
        proof {
            assert(program_models(*p).len() == 0);
        }
        return nodes;
    }
    let ghost flat = nodes@;
    let last = n - 1;
    // The last node is the program exit: detach it from the nodes it
    // branched to, then clear its successors.
    let last_succs = copy_idx(&nodes[last].succ);
    let mut k: usize = 0;
    while k < last_succs.len()
        invariant
            nodes@.len() == n,
            k <= last_succs@.len(),
            forall|i: int| 0 <= i < n ==> core_eq(#[trigger] nodes@[i], flat[i]),
            forall|i: int, y: usize|
                0 <= i < n ==> ((#[trigger] nodes@[i].pred@.contains(y)) <==> flat[i].pred@.contains(
                    y,
                ) && !(y == last && exists|m: int|
                    0 <= m < k && last_succs@[m] as int == i)),
            forall|i: int| 0 <= i < n ==> no_dup_idx(#[trigger] nodes@[i].pred@),
        decreases last_succs@.len() - k,
    {
        let s = last_succs[k];
        if s < n {
            nodes[s].remove_pred(last);
        }
        proof {
            assert forall|i: int, y: usize| 0 <= i < n implies ((#[trigger] nodes@[i].pred@.contains(
                y,
            )) <==> flat[i].pred@.contains(y) && !(y == last && exists|m: int|
                0 <= m < k + 1 && last_succs@[m] as int == i)) by {
                if i == s as int && (s as int) < n {
                    assert(last_succs@[k as int] as int == i);
                }
            }
        }
        k += 1;
    }
    nodes[last].clear_succ();
    let ghost cleared = nodes@;
    // Drop any successor that points past the end of the sequence.
    let mut i: usize = 0;
    while i < n
        invariant
            nodes@.len() == n,
            i <= n,
            forall|q: int|
                0 <= q < n ==> (#[trigger] nodes@[q]).idx == cleared[q].idx
                    && nodes@[q].node_kind == cleared[q].node_kind && nodes@[q].use_set
                    == cleared[q].use_set && nodes@[q].def_set == cleared[q].def_set && nodes@[q].pred
                    == cleared[q].pred,
            forall|q: int| i <= q < n ==> (#[trigger] nodes@[q]).succ == cleared[q].succ,
            forall|q: int| 0 <= q < n ==> no_dup_idx((#[trigger] nodes@[q]).succ@),
            forall|q: int, y: usize|
                0 <= q < i ==> ((#[trigger] nodes@[q].succ@.contains(y)) <==> cleared[q].succ@.contains(
                    y,
                ) && y < n),
        decreases n - i,
    {
        let f = filter_lt(&nodes[i].succ, n);
        nodes[i].set_succ(f);
        i += 1;
    }
    proof {
        let pm = program_models(*p);
        let fin = nodes@;
        assert(pm.len() == raw.len());
        // Well-formedness of the finished sequence.
        assert forall|q: int, j: int| 0 <= q < n && 0 <= j < n implies ((
        #[trigger] fin[q].succ@.contains(j as usize)) <==> fin[j].pred@.contains(q as usize)) by {
            if q == last as int {
                assert(!fin[q].succ@.contains(j as usize));
                if fin[j].pred@.contains(q as usize) {
                    assert(flat[j].pred@.contains(last));
                    assert(flat[last as int].succ@.contains(j as usize));
                    assert(last_succs@.contains(j as usize));
                    let m = choose|m: int|
                        0 <= m < last_succs@.len() && last_succs@[m] == j as usize;
                    assert(last_succs@[m] as int == j);
                }
            } else {
                assert(fin[q].succ@.contains(j as usize) <==> cleared[q].succ@.contains(j as usize)
                    && j < n);
                assert(cleared[q].succ@.contains(j as usize) <==> flat[q].succ@.contains(
                    j as usize,
                ));
                assert(flat[q].succ@.contains(j as usize) <==> flat[j].pred@.contains(q as usize));
                assert(fin[j].pred@.contains(q as usize) <==> flat[j].pred@.contains(q as usize)
                    && !(q as usize == last && last_succs@.contains(j as usize)));
            }
        };
        assert(building_wf(fin));
        assert forall|q: int, s: usize| 0 <= q < n && (#[trigger] fin[q].succ@.contains(s)) implies
            (s as int) < n by {
            if q == last as int {
                assert(fin[q].succ@.len() == 0);
            }
        };
        // The finished nodes match the program model.
        assert forall|q: int| 0 <= q < n implies node_matches(#[trigger] fin[q], pm[q]) by {
            assert(node_matches(flat[q], raw[q]));
            assert(raw.len() == n as int);
            assert(pm[q].kind == raw[q].kind);
            assert(pm[q].defs == raw[q].defs);
            assert(pm[q].uses == raw[q].uses);
            if q == n - 1 {
                assert(q == raw.len() as int - 1);
                assert(pm[q].succs == Set::<int>::empty());
                assert(pm[q].succs =~= Set::<int>::empty());
                assert forall|j: int| !succ_set(fin[q]).contains(j) by {
                    if succ_set(fin[q]).contains(j) {
                        let kk = choose|kk: int|
                            0 <= kk < fin[q].succ@.len() && fin[q].succ@[kk] as int == j;
                        assert(fin[q].succ@.contains(fin[q].succ@[kk]));
                        assert(cleared[q].succ@.contains(fin[q].succ@[kk]));
                        assert(cleared[q].succ@.len() == 0);
                    }
                };
                assert(succ_set(fin[q]) =~= Set::<int>::empty());
            } else {
                assert forall|y: usize| (#[trigger] fin[q].succ@.contains(y)) <==> flat[q].succ@.contains(
                    y,
                ) && y < n by {
                    assert(cleared[q].succ@.contains(y) <==> flat[q].succ@.contains(y));
                };
                lemma_succ_set_filtered(flat[q], fin[q], n);
                assert(succ_set(fin[q]) == Set::new(
                    |j: int| succ_set(flat[q]).contains(j) && 0 <= j < n,
                ));
                assert(pm[q].succs == Set::new(|j: int| raw[q].succs.contains(j) && 0 <= j < n));
                assert(succ_set(fin[q]) =~= pm[q].succs);
            }
        };
        assert(matches_models(fin, pm));
    }
    nodes
}

/// The contents of a sequence of name vectors, one set per node.
pub open spec fn sets_of(vs: Seq<Vec<String>>) -> Seq<Set<Seq<char>>> {
    Seq::new(vs.len(), |i: int| name_set(vs[i]@))
}

/// The use set of node `i`.
pub open spec fn uses_of(nodes: Seq<Node>, i: int) -> Set<Seq<char>> {
    name_set(nodes[i].use_set@)
}

/// The def set of node `i`.
pub open spec fn defs_of(nodes: Seq<Node>, i: int) -> Set<Seq<char>> {
    name_set(nodes[i].def_set@)
}

/// The dataflow equation for live-out: the union of the live-in sets of the
/// successors of node `i`, given the per-node live-in sets `ins`.
pub open spec fn out_of(nodes: Seq<Node>, ins: Seq<Set<Seq<char>>>, i: int) -> Set<Seq<char>> {
    Set::new(
        |v: Seq<char>|
            exists|k: int|
                0 <= k < nodes[i].succ@.len() && 0 <= nodes[i].succ@[k] < ins.len() && ins[nodes[i].succ@[k] as int].contains(
                    v,
                ),
    )
}

/// The dataflow equation for live-in:
/// `use[i] ∪ (live-out[i] − def[i])`, with live-out expanded over `ins`.
pub open spec fn in_of(nodes: Seq<Node>, ins: Seq<Set<Seq<char>>>, i: int) -> Set<Seq<char>> {
    uses_of(nodes, i).union(out_of(nodes, ins, i).difference(defs_of(nodes, i)))
}

/// Whether `ins` solves the live-in equations of the graph.
pub open spec fn in_sets_eq(nodes: Seq<Node>, ins: Seq<Set<Seq<char>>>) -> bool {
    &&& ins.len() == nodes.len()
    &&& forall|i: int| 0 <= i < nodes.len() ==> #[trigger] ins[i] == in_of(nodes, ins, i)
}

/// Pointwise inclusion of two sequences of sets.
pub open spec fn below(a: Seq<Set<Seq<char>>>, b: Seq<Set<Seq<char>>>) -> bool {
    &&& a.len() == b.len()
    &&& forall|i: int| 0 <= i < a.len() ==> (#[trigger] a[i]).subset_of(b[i])
}

/// Whether `ins` is the least solution of the live-in equations: it solves
/// them and is pointwise contained in every solution.
pub open spec fn is_least_in_sets(nodes: Seq<Node>, ins: Seq<Set<Seq<char>>>) -> bool {
    &&& in_sets_eq(nodes, ins)
    &&& forall|ins2: Seq<Set<Seq<char>>>|
        #[trigger] in_sets_eq(nodes, ins2) ==> below(ins, ins2)
}

/// A control-flow graph: the flattened nodes, and, once
/// [`Self::perform_liveness_analysis`] has run, the per-node live-in and
/// live-out sets.
#[derive(Debug, PartialEq, Eq)]
pub struct ControlFlowGraph {
    pub nodes: Vec<Node>,
    pub live_in: Vec<Vec<String>>,
    pub live_out: Vec<Vec<String>>,
    pub live_ranges_found: bool,
}

impl ControlFlowGraph {
    /// The liveness results are complete: one duplicate-free set per node,
    /// the live-in sets are the least solution of the dataflow equations,
    /// and each live-out set is the union of its successors' live-in sets.
    pub open spec fn analysis_ok(self) -> bool {
        &&& self.live_in@.len() == self.nodes@.len()
        &&& self.live_out@.len() == self.nodes@.len()
        &&& forall|i: int|
            0 <= i < self.nodes@.len() ==> no_dup_names(#[trigger] self.live_in@[i]@)
                && no_dup_names(self.live_out@[i]@)
        &&& is_least_in_sets(self.nodes@, sets_of(self.live_in@))
        &&& forall|i: int|
            0 <= i < self.nodes@.len() ==> name_set(#[trigger] self.live_out@[i]@) == out_of(
                self.nodes@,
                sets_of(self.live_in@),
                i,
            )
    }

    /// Well-formedness: the node sequence is structurally sound (dense
    /// indices, valid edges, edge symmetry), and whenever the graph is
    /// marked analyzed its liveness results are complete.
    pub open spec fn wf(self) -> bool {
        &&& nodes_wf(self.nodes@)
        &&& self.live_ranges_found ==> self.analysis_ok()
    }

    /// An empty graph.
    pub fn new() -> (g: Self)
        ensures
            g.wf(),
            g.nodes@.len() == 0,
            g.live_in@.len() == 0,
            g.live_out@.len() == 0,
            !g.live_ranges_found,
    {
        ControlFlowGraph {
            nodes: Vec::new(),
            live_in: Vec::new(),
            live_out: Vec::new(),
            live_ranges_found: false,
        }
    }

    /// Flattens a program into a control-flow graph.  The nodes match
    /// [`program_models`]: one node per assignment, `return` and branch
    /// condition, in flattening order, with the edges of the structured
    /// control flow and symmetric predecessor sets.  Liveness is not yet
    /// computed.
    pub fn from(p: &Program) -> (g: Self)
        requires
            stmts_node_count(p.stmts@) <= usize::MAX,
        ensures
            g.wf(),
            !g.live_ranges_found,
            g.live_in@.len() == 0,
            g.live_out@.len() == 0,
            g.nodes@.len() == stmts_node_count(p.stmts@),
            matches_models(g.nodes@, program_models(*p)),
    {
        let mut cfg = ControlFlowGraph::new();
        cfg.nodes = flatten_program(p);
        cfg
    }

    /// All nodes, ordered by index.
    pub fn get_nodes(&self) -> (r: &Vec<Node>)
        ensures
            r == &self.nodes,
    {
        &self.nodes
    }

    /// The node at index `n`, which must exist.
    pub fn get_node(&self, n: usize) -> (r: &Node)
        requires
            n < self.nodes@.len(),
        ensures
            r == &self.nodes@[n as int],
    {
        &self.nodes[n]
    }
}

impl Default for ControlFlowGraph {
    /// The same empty graph as [`ControlFlowGraph::new`].
    fn default() -> (g: Self)
        ensures
            g.wf(),
            g.nodes@.len() == 0,
            !g.live_ranges_found,
    {
        Self::new()
    }
}

/// Edge symmetry: a node `j` is a successor of `i` exactly when `i` is a
/// predecessor of `j`, throughout a well-formed graph.
pub proof fn lemma_edge_symmetry(g: ControlFlowGraph)
    requires
        g.wf(),
    ensures
        forall|i: int, j: int|
            0 <= i < g.nodes@.len() && 0 <= j < g.nodes@.len() ==> ((
            #[trigger] g.nodes@[i].succ@.contains(j as usize)) <==> g.nodes@[j].pred@.contains(
                i as usize,
            )),
{
}

/// Monotonicity of the live-out equation in the live-in sets.
proof fn lemma_out_monotone(nodes: Seq<Node>, a: Seq<Set<Seq<char>>>, b: Seq<Set<Seq<char>>>, i: int)
    requires
        below(a, b),
    ensures
        out_of(nodes, a, i).subset_of(out_of(nodes, b, i)),
{
    assert forall|v: Seq<char>| out_of(nodes, a, i).contains(v) implies out_of(
        nodes,
        b,
        i,
    ).contains(v) by {
        let k = choose|k: int|
            0 <= k < nodes[i].succ@.len() && 0 <= nodes[i].succ@[k] < a.len() && a[nodes[i].succ@[k] as int].contains(
                v,
            );
        assert(a[nodes[i].succ@[k] as int].subset_of(b[nodes[i].succ@[k] as int]));
    };
}

/// Monotonicity of the live-in equation in the live-in sets.
proof fn lemma_in_monotone(nodes: Seq<Node>, a: Seq<Set<Seq<char>>>, b: Seq<Set<Seq<char>>>, i: int)
    requires
        below(a, b),
    ensures
        in_of(nodes, a, i).subset_of(in_of(nodes, b, i)),
{
    lemma_out_monotone(nodes, a, b, i);
}

/// Every variable name that occurs in a use or def set of the graph.
pub open spec fn universe(nodes: Seq<Node>) -> Set<Seq<char>> {
    Set::new(
        |v: Seq<char>|
            exists|i: int|
                0 <= i < nodes.len() && (uses_of(nodes, i).contains(v) || defs_of(
                    nodes,
                    i,
                ).contains(v)),
    )
}

/// The names used or defined by the first `k` nodes.
spec fn uni_upto(nodes: Seq<Node>, k: int) -> Set<Seq<char>> {
    Set::new(
        |v: Seq<char>|
            exists|i: int|
                0 <= i < k && (uses_of(nodes, i).contains(v) || defs_of(nodes, i).contains(v)),
    )
}

/// The universe of a graph is finite.
proof fn lemma_uni_upto_finite(nodes: Seq<Node>, k: int)
    requires
        0 <= k <= nodes.len(),
    ensures
        uni_upto(nodes, k).finite(),
    decreases k,
{
    if k == 0 {
        assert(uni_upto(nodes, 0) =~= Set::<Seq<char>>::empty());
    } else {
        lemma_uni_upto_finite(nodes, k - 1);
        crate::sets::lemma_name_set_card(nodes[k - 1].use_set@);
        crate::sets::lemma_name_set_card(nodes[k - 1].def_set@);
        assert(uni_upto(nodes, k) =~= uni_upto(nodes, k - 1).union(
            uses_of(nodes, k - 1).union(defs_of(nodes, k - 1)),
        )) by {
            assert forall|v: Seq<char>| uni_upto(nodes, k).contains(v) implies uni_upto(
                nodes,
                k - 1,
            ).union(uses_of(nodes, k - 1).union(defs_of(nodes, k - 1))).contains(v) by {
                let i = choose|i: int|
                    0 <= i < k && (uses_of(nodes, i).contains(v) || defs_of(nodes, i).contains(v));
                if i < k - 1 {
                    assert(uni_upto(nodes, k - 1).contains(v));
                }
            };
        };
    }
}

/// The universe of a graph is finite.
proof fn lemma_universe_finite(nodes: Seq<Node>)
    ensures
        universe(nodes).finite(),
{
    lemma_uni_upto_finite(nodes, nodes.len() as int);
    assert(universe(nodes) =~= uni_upto(nodes, nodes.len() as int));
}

/// The total cardinality of a sequence of sets.
spec fn card_sum(ss: Seq<Set<Seq<char>>>) -> nat
    decreases ss.len(),
{
    if ss.len() == 0 {
        0
    } else {
        card_sum(ss.drop_last()) + ss.last().len()
    }
}

/// Updating one entry changes the total cardinality by the difference.
proof fn lemma_card_sum_update(ss: Seq<Set<Seq<char>>>, i: int, t: Set<Seq<char>>)
    requires
        0 <= i < ss.len(),
    ensures
        card_sum(ss.update(i, t)) + ss[i].len() == card_sum(ss) + t.len(),
    decreases ss.len(),
{
    let upd = ss.update(i, t);
    if i == ss.len() - 1 {
        assert(upd.drop_last() =~= ss.drop_last());
        assert(upd.last() == t);
    } else {
        assert(upd.drop_last() =~= ss.drop_last().update(i, t));
        assert(upd.last() == ss.last());
        lemma_card_sum_update(ss.drop_last(), i, t);
    }
}

/// A strict subset of a finite set has strictly smaller cardinality.
proof fn lemma_proper_subset_len(x: Set<Seq<char>>, y: Set<Seq<char>>)
    requires
        x.subset_of(y),
        x != y,
        y.finite(),
    ensures
        x.len() < y.len(),
{
    assert(exists|e: Seq<char>| y.contains(e) && !x.contains(e)) by {
        if forall|e: Seq<char>| y.contains(e) ==> #[trigger] x.contains(e) {
            assert(x =~= y);
        }
    };
    let e = choose|e: Seq<char>| y.contains(e) && !x.contains(e);
    assert(x.subset_of(y.remove(e)));
    vstd::set_lib::lemma_len_subset(x, y.remove(e));
    assert(y.remove(e).len() == y.len() - 1);
}

/// Pointwise inclusion with a finite bound keeps the total cardinality
/// ordered, strictly so when some entry differs.
proof fn lemma_card_sum_grows(a: Seq<Set<Seq<char>>>, b: Seq<Set<Seq<char>>>, u: Set<Seq<char>>)
    requires
        below(a, b),
        u.finite(),
        forall|i: int| 0 <= i < b.len() ==> (#[trigger] b[i]).subset_of(u),
    ensures
        card_sum(a) <= card_sum(b),
        (exists|i: int| 0 <= i < a.len() && a[i] != b[i]) ==> card_sum(a) < card_sum(b),
    decreases a.len(),
{
    if a.len() == 0 {
    } else {
        let ad = a.drop_last();
        let bd = b.drop_last();
        assert(below(ad, bd)) by {
            assert forall|i: int| 0 <= i < ad.len() implies (#[trigger] ad[i]).subset_of(
                bd[i],
            ) by {
                assert(a[i].subset_of(b[i]));
            };
        };
        assert(forall|i: int| 0 <= i < bd.len() ==> (#[trigger] bd[i]).subset_of(u)) by {
            assert forall|i: int| 0 <= i < bd.len() implies (#[trigger] bd[i]).subset_of(u) by {
                assert(b[i].subset_of(u));
            };
        };
        lemma_card_sum_grows(ad, bd, u);
        assert(a.last().subset_of(b.last()));
        assert(b.last().subset_of(u));
        vstd::set_lib::lemma_len_subset(a.last(), b.last());
        if exists|i: int| 0 <= i < a.len() && a[i] != b[i] {
            let i = choose|i: int| 0 <= i < a.len() && a[i] != b[i];
            if i == a.len() - 1 {
                lemma_proper_subset_len(a.last(), b.last());
            } else {
                assert(ad[i] != bd[i]);
            }
        }
    }
}

/// Each entry bounded by `u` bounds the total cardinality by `len * |u|`.
proof fn lemma_card_sum_bound(ss: Seq<Set<Seq<char>>>, u: Set<Seq<char>>)
    requires
        u.finite(),
        forall|i: int| 0 <= i < ss.len() ==> (#[trigger] ss[i]).subset_of(u),
    ensures
        card_sum(ss) <= ss.len() * u.len(),
    decreases ss.len(),
{
    if ss.len() == 0 {
    } else {
        let sd = ss.drop_last();
        assert(forall|i: int| 0 <= i < sd.len() ==> (#[trigger] sd[i]).subset_of(u)) by {
            assert forall|i: int| 0 <= i < sd.len() implies (#[trigger] sd[i]).subset_of(u) by {
                assert(ss[i].subset_of(u));
            };
        };
        lemma_card_sum_bound(sd, u);
        assert(ss.last().subset_of(u));
        vstd::set_lib::lemma_len_subset(ss.last(), u);
        assert((ss.len() - 1) * u.len() + u.len() == ss.len() * u.len()) by (nonlinear_arith);
    }
}

/// The union of the live-in sets of the first `m` successors of node `i`.
spec fn out_upto(nodes: Seq<Node>, ins: Seq<Set<Seq<char>>>, i: int, m: int) -> Set<Seq<char>> {
    Set::new(
        |v: Seq<char>|
            exists|k: int|
                0 <= k < m && k < nodes[i].succ@.len() && 0 <= nodes[i].succ@[k] < ins.len()
                    && ins[nodes[i].succ@[k] as int].contains(v),
    )
}

impl ControlFlowGraph {
    /// `out[n] = ⋃ in[s]` over the successors `s` of the node, read from the
    /// current live-in sets.
    #[verifier::loop_isolation(false)]
    fn calc_out(&self, node: &Node) -> (r: Vec<String>)
        requires
            nodes_wf(self.nodes@),
            self.live_in@.len() == self.nodes@.len(),
            (node.idx as int) < self.nodes@.len(),
            *node == self.nodes@[node.idx as int],
        ensures
            no_dup_names(r@),
            name_set(r@) == out_of(self.nodes@, sets_of(self.live_in@), node.idx as int),
    {
        let ghost nodes = self.nodes@;
        let ghost ins = sets_of(self.live_in@);
        let ghost i = node.idx as int;
        let mut outs: Vec<String> = Vec::new();
        let mut k: usize = 0;
        proof {
            assert(out_upto(nodes, ins, i, 0) =~= Set::<Seq<char>>::empty());
            assert(name_set(outs@) =~= Set::<Seq<char>>::empty());
        }
        while k < node.succ.len()
            invariant
                k <= node.succ@.len(),
                no_dup_names(outs@),
                name_set(outs@) == out_upto(nodes, ins, i, k as int),
            decreases node.succ@.len() - k,
        {
            let s = node.succ[k];
            proof {
                assert(nodes[i].succ@.contains(s));
            }
            union_into(&mut outs, &self.live_in[s]);
            proof {
                assert(ins[s as int] == name_set(self.live_in@[s as int]@));
                assert forall|v: Seq<char>| out_upto(nodes, ins, i, k + 1).contains(v) implies
                    name_set(outs@).contains(v) by {
                    let m = choose|m: int|
                        0 <= m < k + 1 && m < nodes[i].succ@.len() && 0 <= nodes[i].succ@[m]
                            < ins.len() && ins[nodes[i].succ@[m] as int].contains(v);
                    if m < k {
                        assert(out_upto(nodes, ins, i, k as int).contains(v));
                    } else {
                        assert(nodes[i].succ@[m] == s);
                    }
                };
                assert forall|v: Seq<char>| name_set(outs@).contains(v) implies out_upto(
                    nodes,
                    ins,
                    i,
                    k + 1,
                ).contains(v) by {
                    if out_upto(nodes, ins, i, k as int).contains(v) {
                        let m = choose|m: int|
                            0 <= m < k && m < nodes[i].succ@.len() && 0 <= nodes[i].succ@[m]
                                < ins.len() && ins[nodes[i].succ@[m] as int].contains(v);
                    } else {
                        assert(ins[s as int].contains(v));
                        assert(nodes[i].succ@[k as int] == s);
                    }
                };
                assert(name_set(outs@) =~= out_upto(nodes, ins, i, k + 1));
            }
            k += 1;
        }
        proof {
            assert(name_set(outs@) =~= out_of(nodes, ins, i));
        }
        outs
    }

    /// `in[n] = use[n] ∪ (out[n] − def[n])`, with `out[n]` read from the
    /// current live-in sets.
    fn calc_in(&self, node: &Node) -> (r: Vec<String>)
        requires
            nodes_wf(self.nodes@),
            self.live_in@.len() == self.nodes@.len(),
            (node.idx as int) < self.nodes@.len(),
            *node == self.nodes@[node.idx as int],
        ensures
            no_dup_names(r@),
            name_set(r@) == in_of(self.nodes@, sets_of(self.live_in@), node.idx as int),
    {
        let ghost nodes = self.nodes@;
        let ghost ins = sets_of(self.live_in@);
        let ghost i = node.idx as int;
        let outs = self.calc_out(node);
        let d = diff_names(&outs, &node.def_set);
        let mut r = copy_names(&node.use_set);
        proof {
            assert(no_dup_names(r@));
        }
        union_into(&mut r, &d);
        proof {
            assert(name_set(r@) =~= in_of(nodes, ins, i));
        }
        r
    }
}

/// One chaotic-iteration step — replacing `in[idx]` by its equation and
/// then `out[idx]` by its equation — preserves every invariant of the
/// fixed-point search: the sets stay below every solution of the equations
/// (so the search can only reach the least one), they stay below their own
/// next iterates (pre-fixed point, so the sets only grow), they stay inside
/// the finite universe of the graph's variable names, and the total
/// cardinality grows, strictly so when the step changed a set.
proof fn lemma_refresh_step(
    nodes: Seq<Node>,
    ins0: Seq<Set<Seq<char>>>,
    ins1: Seq<Set<Seq<char>>>,
    outs0: Seq<Set<Seq<char>>>,
    outs1: Seq<Set<Seq<char>>>,
    idx: int,
    u: Set<Seq<char>>,
)
    requires
        ins0.len() == nodes.len(),
        outs0.len() == nodes.len(),
        0 <= idx < nodes.len(),
        ins1 == ins0.update(idx, in_of(nodes, ins0, idx)),
        outs1 == outs0.update(idx, out_of(nodes, ins1, idx)),
        u == universe(nodes),
        forall|s: Seq<Set<Seq<char>>>| #[trigger] in_sets_eq(nodes, s) ==> below(ins0, s),
        forall|j: int| 0 <= j < nodes.len() ==> (#[trigger] ins0[j]).subset_of(
            in_of(nodes, ins0, j),
        ),
        forall|j: int| 0 <= j < nodes.len() ==> (#[trigger] ins0[j]).subset_of(u),
        forall|j: int| 0 <= j < nodes.len() ==> (#[trigger] outs0[j]).subset_of(
            out_of(nodes, ins0, j),
        ),
    ensures
        forall|s: Seq<Set<Seq<char>>>| #[trigger] in_sets_eq(nodes, s) ==> below(ins1, s),
        forall|j: int| 0 <= j < nodes.len() ==> (#[trigger] ins1[j]).subset_of(
            in_of(nodes, ins1, j),
        ),
        forall|j: int| 0 <= j < nodes.len() ==> (#[trigger] ins1[j]).subset_of(u),
        forall|j: int| 0 <= j < nodes.len() ==> (#[trigger] outs1[j]).subset_of(
            out_of(nodes, ins1, j),
        ),
        below(ins0, ins1),
        forall|j: int| 0 <= j < nodes.len() ==> (#[trigger] outs0[j]).subset_of(outs1[j]),
        forall|j: int| 0 <= j < nodes.len() ==> (#[trigger] outs1[j]).subset_of(u),
        card_sum(ins0) <= card_sum(ins1),
        card_sum(outs0) <= card_sum(outs1),
        (in_of(nodes, ins0, idx) != ins0[idx] || out_of(nodes, ins1, idx) != outs0[idx])
            ==> card_sum(ins1) + card_sum(outs1) > card_sum(ins0) + card_sum(outs0),
{
    let n = nodes.len() as int;
    let x = in_of(nodes, ins0, idx);
    lemma_universe_finite(nodes);
    // The updated live-in entry contains its old value (growth).
    assert(below(ins0, ins1)) by {
        assert forall|j: int| 0 <= j < n implies (#[trigger] ins0[j]).subset_of(ins1[j]) by {
            if j == idx {
                assert(ins0[idx].subset_of(in_of(nodes, ins0, idx)));
            }
        };
    };
    // Below every solution.
    assert forall|s: Seq<Set<Seq<char>>>| #[trigger] in_sets_eq(nodes, s) implies below(
        ins1,
        s,
    ) by {
        assert(below(ins0, s));
        lemma_in_monotone(nodes, ins0, s, idx);
        assert(s[idx] == in_of(nodes, s, idx));
        assert forall|j: int| 0 <= j < n implies (#[trigger] ins1[j]).subset_of(s[j]) by {
            if j != idx {
                assert(ins0[j].subset_of(s[j]));
            }
        };
    };
    // Pre-fixed point.
    assert forall|j: int| 0 <= j < n implies (#[trigger] ins1[j]).subset_of(
        in_of(nodes, ins1, j),
    ) by {
        lemma_in_monotone(nodes, ins0, ins1, j);
        if j != idx {
            assert(ins1[j] == ins0[j]);
            assert(ins0[j].subset_of(in_of(nodes, ins0, j)));
        }
    };
    // Inside the universe.
    assert forall|j: int| 0 <= j < n implies (#[trigger] ins1[j]).subset_of(u) by {
        if j == idx {
            assert forall|v: Seq<char>| x.contains(v) implies u.contains(v) by {
                if uses_of(nodes, idx).contains(v) {
                } else {
                    assert(out_of(nodes, ins0, idx).contains(v));
                    let k = choose|k: int|
                        0 <= k < nodes[idx].succ@.len() && 0 <= nodes[idx].succ@[k] < ins0.len()
                            && ins0[nodes[idx].succ@[k] as int].contains(v);
                    assert(ins0[nodes[idx].succ@[k] as int].subset_of(u));
                }
            };
        }
    };
    // Live-out entries stay below their equation and grow.
    assert forall|j: int| 0 <= j < n implies (#[trigger] outs1[j]).subset_of(
        out_of(nodes, ins1, j),
    ) by {
        lemma_out_monotone(nodes, ins0, ins1, j);
        if j != idx {
            assert(outs1[j] == outs0[j]);
            assert(outs0[j].subset_of(out_of(nodes, ins0, j)));
        }
    };
    assert forall|j: int| 0 <= j < n implies (#[trigger] outs0[j]).subset_of(outs1[j]) by {
        lemma_out_monotone(nodes, ins0, ins1, idx);
        if j == idx {
            assert(outs0[idx].subset_of(out_of(nodes, ins0, idx)));
        }
    };
    // Cardinalities: everything is inside the finite universe.
    assert forall|j: int| 0 <= j < n implies (#[trigger] outs1[j]).subset_of(u) by {
        assert(outs1[j].subset_of(out_of(nodes, ins1, j)));
        assert forall|v: Seq<char>| out_of(nodes, ins1, j).contains(v) implies u.contains(v) by {
            let k = choose|k: int|
                0 <= k < nodes[j].succ@.len() && 0 <= nodes[j].succ@[k] < ins1.len()
                    && ins1[nodes[j].succ@[k] as int].contains(v);
            assert(ins1[nodes[j].succ@[k] as int].subset_of(u));
        };
    };
    assert forall|j: int| 0 <= j < n implies (#[trigger] outs0[j]).subset_of(u) by {
        assert(outs0[j].subset_of(outs1[j]));
    };
    lemma_card_sum_grows(ins0, ins1, u);
    lemma_card_sum_grows(outs0, outs1, u);
    if in_of(nodes, ins0, idx) != ins0[idx] || out_of(nodes, ins1, idx) != outs0[idx] {
        if in_of(nodes, ins0, idx) != ins0[idx] {
            assert(ins0[idx] != ins1[idx]);
            lemma_card_sum_grows(ins0, ins1, u);
            assert(exists|j: int| 0 <= j < ins0.len() && ins0[j] != ins1[j]) by {
                assert(ins0[idx] != ins1[idx]);
            };
            assert(card_sum(ins0) < card_sum(ins1));
        } else {
            assert(outs0[idx] != outs1[idx]);
            assert(exists|j: int| 0 <= j < outs0.len() && outs0[j] != outs1[j]) by {
                assert(outs0[idx] != outs1[idx]);
            };
            assert(card_sum(outs0) < card_sum(outs1));
        }
    }
}

impl ControlFlowGraph {
    /// Recomputes `live-in[idx]` from the current live-in sets and then
    /// `live-out[idx]` from the updated ones, reporting whether either set
    /// changed.  When nothing changed, the state is exactly as before and
    /// node `idx` satisfies both dataflow equations.
    fn refresh_node(&mut self, idx: usize) -> (changed: bool)
        requires
            nodes_wf(old(self).nodes@),
            idx < old(self).nodes@.len(),
            old(self).live_in@.len() == old(self).nodes@.len(),
            old(self).live_out@.len() == old(self).nodes@.len(),
            forall|i: int|
                0 <= i < old(self).nodes@.len() ==> no_dup_names(#[trigger] old(self).live_in@[i]@)
                    && no_dup_names(old(self).live_out@[i]@),
        ensures
            final(self).nodes == old(self).nodes,
            final(self).live_ranges_found == old(self).live_ranges_found,
            final(self).live_in@.len() == old(self).live_in@.len(),
            final(self).live_out@.len() == old(self).live_out@.len(),
            forall|i: int|
                0 <= i < old(self).nodes@.len() ==> no_dup_names(
                    #[trigger] final(self).live_in@[i]@,
                ) && no_dup_names(final(self).live_out@[i]@),
            sets_of(final(self).live_in@) == sets_of(old(self).live_in@).update(
                idx as int,
                in_of(old(self).nodes@, sets_of(old(self).live_in@), idx as int),
            ),
            sets_of(final(self).live_out@) == sets_of(old(self).live_out@).update(
                idx as int,
                out_of(old(self).nodes@, sets_of(final(self).live_in@), idx as int),
            ),
            !changed ==> final(self).live_in == old(self).live_in && final(self).live_out == old(
                self,
            ).live_out,
            !changed ==> sets_of(old(self).live_in@)[idx as int] == in_of(
                old(self).nodes@,
                sets_of(old(self).live_in@),
                idx as int,
            ) && sets_of(old(self).live_out@)[idx as int] == out_of(
                old(self).nodes@,
                sets_of(old(self).live_in@),
                idx as int,
            ),
            changed ==> in_of(old(self).nodes@, sets_of(old(self).live_in@), idx as int)
                != sets_of(old(self).live_in@)[idx as int] || out_of(
                old(self).nodes@,
                sets_of(final(self).live_in@),
                idx as int,
            ) != sets_of(old(self).live_out@)[idx as int],
    {
        let ghost nodes = old(self).nodes@;
        let ghost ins0 = sets_of(old(self).live_in@);
        let ghost outs0 = sets_of(old(self).live_out@);
        proof {
            assert(self.nodes@[idx as int].idx as int == idx as int);
        }
        let new_in = self.calc_in(&self.nodes[idx]);
        let changed_in = !crate::sets::same_names(&new_in, &self.live_in[idx]);
        if changed_in {
            self.live_in[idx] = new_in;
        }
        proof {
            assert(sets_of(self.live_in@) =~~= ins0.update(
                idx as int,
                in_of(nodes, ins0, idx as int),
            )) by {
                assert forall|j: int| 0 <= j < ins0.len() implies sets_of(self.live_in@)[j]
                    =~= ins0.update(idx as int, in_of(nodes, ins0, idx as int))[j] by {
                    if j == idx as int {
                        if changed_in {
                            assert(self.live_in@[j] == new_in);
                        } else {
                            assert(name_set(self.live_in@[j]@) == name_set(new_in@));
                        }
                    } else {
                        assert(self.live_in@[j] == old(self).live_in@[j]);
                    }
                };
            };
        }
        let ghost ins1 = sets_of(self.live_in@);
        proof {
            assert(self.nodes@[idx as int].idx as int == idx as int);
        }
        let new_out = self.calc_out(&self.nodes[idx]);
        let changed_out = !crate::sets::same_names(&new_out, &self.live_out[idx]);
        if changed_out {
            self.live_out[idx] = new_out;
        }
        proof {
            assert(sets_of(self.live_out@) =~~= outs0.update(
                idx as int,
                out_of(nodes, ins1, idx as int),
            )) by {
                assert forall|j: int| 0 <= j < outs0.len() implies sets_of(self.live_out@)[j]
                    =~= outs0.update(idx as int, out_of(nodes, ins1, idx as int))[j] by {
                    if j == idx as int {
                        if changed_out {
                            assert(self.live_out@[j] == new_out);
                        } else {
                            assert(name_set(self.live_out@[j]@) == name_set(new_out@));
                        }
                    } else {
                        assert(self.live_out@[j] == old(self).live_out@[j]);
                    }
                };
            };
            if !changed_in && !changed_out {
                assert(self.live_in == old(self).live_in);
                assert(self.live_out == old(self).live_out);
                assert(ins0[idx as int] == name_set(old(self).live_in@[idx as int]@));
                assert(outs0[idx as int] == name_set(old(self).live_out@[idx as int]@));
                assert(ins1 =~~= ins0);
            }
            if changed_in {
                assert(name_set(old(self).live_in@[idx as int]@) != name_set(new_in@));
            }
            if changed_out {
                assert(name_set(old(self).live_out@[idx as int]@) != name_set(new_out@));
            }
        }
        changed_in || changed_out
    }

    /// Replaces the liveness arrays by one empty set per node.
    #[verifier::loop_isolation(false)]
    fn reset_live_sets(&mut self)
        ensures
            final(self).nodes == old(self).nodes,
            final(self).live_ranges_found == old(self).live_ranges_found,
            final(self).live_in@.len() == final(self).nodes@.len(),
            final(self).live_out@.len() == final(self).nodes@.len(),
            forall|i: int|
                0 <= i < final(self).nodes@.len() ==> (#[trigger] final(self).live_in@[i])@.len()
                    == 0,
            forall|i: int|
                0 <= i < final(self).nodes@.len() ==> (#[trigger] final(self).live_out@[i])@.len()
                    == 0,
    {
        let n = self.nodes.len();
        self.live_in = Vec::new();
        self.live_out = Vec::new();
        let mut t: usize = 0;
        while t < n
            invariant
                t <= n,
                self.nodes == old(self).nodes,
                self.live_ranges_found == old(self).live_ranges_found,
                self.live_in@.len() == t,
                self.live_out@.len() == t,
                forall|i: int| 0 <= i < t ==> (#[trigger] self.live_in@[i])@.len() == 0,
                forall|i: int| 0 <= i < t ==> (#[trigger] self.live_out@[i])@.len() == 0,
            decreases n - t,
        {
            self.live_in.push(Vec::new());
            self.live_out.push(Vec::new());
            t += 1;
        }
    }

    /// Computes the live-in and live-out sets by iterating the backward
    /// dataflow equations in increasing node order until a full pass changes
    /// nothing, and marks the graph analyzed.  The computation always starts
    /// from empty sets, so re-running it is safe; the result is the least
    /// solution of the equations, which does not depend on the visiting
    /// order.
    #[verifier::loop_isolation(false)]
    pub fn perform_liveness_analysis(&mut self)
        requires
            old(self).wf(),
        ensures
            final(self).wf(),
            final(self).nodes == old(self).nodes,
            final(self).live_ranges_found,
            final(self).analysis_ok(),
    {
        let ghost nodes = old(self).nodes@;
        let ghost u = universe(nodes);
        let n = self.nodes.len();
        self.reset_live_sets();
        proof {
            lemma_universe_finite(nodes);
            assert forall|i: int| 0 <= i < n implies #[trigger] sets_of(self.live_in@)[i]
                == Set::<Seq<char>>::empty() by {
                assert(name_set(self.live_in@[i]@) =~= Set::<Seq<char>>::empty());
            };
            assert forall|i: int| 0 <= i < n implies #[trigger] sets_of(self.live_out@)[i]
                == Set::<Seq<char>>::empty() by {
                assert(name_set(self.live_out@[i]@) =~= Set::<Seq<char>>::empty());
            };
            lemma_empty_live_sets_invs(nodes, sets_of(self.live_in@), sets_of(self.live_out@));
        }
        let mut go = true;
        while go
            invariant
                self.nodes == old(self).nodes,
                self.nodes@ == nodes,
                nodes_wf(nodes),
                n == nodes.len(),
                u == universe(nodes),
                u.finite(),
                self.live_ranges_found == old(self).live_ranges_found,
                self.live_in@.len() == n,
                self.live_out@.len() == n,
                forall|i: int|
                    0 <= i < n ==> no_dup_names(#[trigger] self.live_in@[i]@) && no_dup_names(
                        self.live_out@[i]@,
                    ),
                forall|s: Seq<Set<Seq<char>>>|
                    #[trigger] in_sets_eq(nodes, s) ==> below(sets_of(self.live_in@), s),
                forall|j: int|
                    0 <= j < n ==> (#[trigger] sets_of(self.live_in@)[j]).subset_of(
                        in_of(nodes, sets_of(self.live_in@), j),
                    ),
                forall|j: int|
                    0 <= j < n ==> (#[trigger] sets_of(self.live_in@)[j]).subset_of(u),
                forall|j: int|
                    0 <= j < n ==> (#[trigger] sets_of(self.live_out@)[j]).subset_of(
                        out_of(nodes, sets_of(self.live_in@), j),
                    ),
                forall|j: int|
                    0 <= j < n ==> (#[trigger] sets_of(self.live_out@)[j]).subset_of(u),
                !go ==> in_sets_eq(nodes, sets_of(self.live_in@)),
                !go ==> forall|j: int|
                    0 <= j < n ==> name_set(#[trigger] self.live_out@[j]@) == out_of(
                        nodes,
                        sets_of(self.live_in@),
                        j,
                    ),
            decreases n * u.len() + n * u.len() - card_sum(sets_of(self.live_in@)) - card_sum(
                sets_of(self.live_out@),
            ), (if go {
                1int
            } else {
                0int
            }),
        {
            let ghost pass_li = self.live_in@;
            let ghost pass_lo = self.live_out@;
            let ghost start_total = card_sum(sets_of(pass_li)) + card_sum(sets_of(pass_lo));
            let mut changed = false;
            let mut idx: usize = 0;
            while idx < n
                invariant
                    idx <= n,
                    self.nodes == old(self).nodes,
                    self.nodes@ == nodes,
                    self.live_ranges_found == old(self).live_ranges_found,
                    self.live_in@.len() == n,
                    self.live_out@.len() == n,
                    forall|i: int|
                        0 <= i < n ==> no_dup_names(#[trigger] self.live_in@[i]@) && no_dup_names(
                            self.live_out@[i]@,
                        ),
                    forall|s: Seq<Set<Seq<char>>>|
                        #[trigger] in_sets_eq(nodes, s) ==> below(sets_of(self.live_in@), s),
                    forall|j: int|
                        0 <= j < n ==> (#[trigger] sets_of(self.live_in@)[j]).subset_of(
                            in_of(nodes, sets_of(self.live_in@), j),
                        ),
                    forall|j: int|
                        0 <= j < n ==> (#[trigger] sets_of(self.live_in@)[j]).subset_of(u),
                    forall|j: int|
                        0 <= j < n ==> (#[trigger] sets_of(self.live_out@)[j]).subset_of(
                            out_of(nodes, sets_of(self.live_in@), j),
                        ),
                    forall|j: int|
                        0 <= j < n ==> (#[trigger] sets_of(self.live_out@)[j]).subset_of(u),
                    card_sum(sets_of(self.live_in@)) + card_sum(sets_of(self.live_out@))
                        >= start_total,
                    changed ==> card_sum(sets_of(self.live_in@)) + card_sum(
                        sets_of(self.live_out@),
                    ) > start_total,
                    !changed ==> self.live_in@ == pass_li && self.live_out@ == pass_lo,
                    !changed ==> forall|k: int|
                        0 <= k < idx ==> (#[trigger] sets_of(self.live_in@)[k]) == in_of(
                            nodes,
                            sets_of(self.live_in@),
                            k,
                        ) && sets_of(self.live_out@)[k] == out_of(
                            nodes,
                            sets_of(self.live_in@),
                            k,
                        ),
                decreases n - idx,
            {
                let ghost ins_b = sets_of(self.live_in@);
                let ghost outs_b = sets_of(self.live_out@);
                let c = self.refresh_node(idx);
                proof {
                    let ins_a = sets_of(self.live_in@);
                    let outs_a = sets_of(self.live_out@);
                    lemma_refresh_step(nodes, ins_b, ins_a, outs_b, outs_a, idx as int, u);
                    if !changed && !c {
                        assert(self.live_in@ == pass_li);
                        assert(self.live_out@ == pass_lo);
                        assert forall|k: int| 0 <= k < idx + 1 implies (#[trigger] sets_of(
                            self.live_in@,
                        )[k]) == in_of(nodes, sets_of(self.live_in@), k) && sets_of(
                            self.live_out@,
                        )[k] == out_of(nodes, sets_of(self.live_in@), k) by {
                            assert(sets_of(self.live_in@)[k] == in_of(
                                nodes,
                                sets_of(self.live_in@),
                                k,
                            ));
                        };
                    }
                }
                changed = changed || c;
                idx += 1;
            }
            go = changed;
            proof {
                if !changed {
                    assert forall|j: int| 0 <= j < n implies name_set(
                        #[trigger] self.live_out@[j]@,
                    ) == out_of(nodes, sets_of(self.live_in@), j) by {
                        assert(sets_of(self.live_in@)[j] == in_of(
                            nodes,
                            sets_of(self.live_in@),
                            j,
                        ));
                        assert(sets_of(self.live_out@)[j] == out_of(
                            nodes,
                            sets_of(self.live_in@),
                            j,
                        ));
                        assert(sets_of(self.live_out@)[j] == name_set(self.live_out@[j]@));
                    };
                    assert(in_sets_eq(nodes, sets_of(self.live_in@)));
                }
                lemma_card_sum_bound(sets_of(self.live_in@), u);
                lemma_card_sum_bound(sets_of(self.live_out@), u);
            }
        }
        self.live_ranges_found = true;
    }

    /// The same fixed-point computation as
    /// [`Self::perform_liveness_analysis`], visiting the nodes in decreasing
    /// index order, which typically converges in fewer passes for this
    /// backward analysis.  The final sets are the same least solution.
    #[verifier::loop_isolation(false)]
    #[verifier::rlimit(60)]
    pub fn fast_perform_liveness_analysis(&mut self)
        requires
            old(self).wf(),
        ensures
            final(self).wf(),
            final(self).nodes == old(self).nodes,
            final(self).live_ranges_found,
            final(self).analysis_ok(),
    {
        let ghost nodes = old(self).nodes@;
        let ghost u = universe(nodes);
        let n = self.nodes.len();
        self.reset_live_sets();
        proof {
            lemma_universe_finite(nodes);
            assert forall|i: int| 0 <= i < n implies #[trigger] sets_of(self.live_in@)[i]
                == Set::<Seq<char>>::empty() by {
                assert(name_set(self.live_in@[i]@) =~= Set::<Seq<char>>::empty());
            };
            assert forall|i: int| 0 <= i < n implies #[trigger] sets_of(self.live_out@)[i]
                == Set::<Seq<char>>::empty() by {
                assert(name_set(self.live_out@[i]@) =~= Set::<Seq<char>>::empty());
            };
            lemma_empty_live_sets_invs(nodes, sets_of(self.live_in@), sets_of(self.live_out@));
        }
        let mut go = true;
        while go
            invariant
                self.nodes == old(self).nodes,
                self.nodes@ == nodes,
                nodes_wf(nodes),
                n == nodes.len(),
                u == universe(nodes),
                u.finite(),
                self.live_ranges_found == old(self).live_ranges_found,
                self.live_in@.len() == n,
                self.live_out@.len() == n,
                forall|i: int|
                    0 <= i < n ==> no_dup_names(#[trigger] self.live_in@[i]@) && no_dup_names(
                        self.live_out@[i]@,
                    ),
                forall|s: Seq<Set<Seq<char>>>|
                    #[trigger] in_sets_eq(nodes, s) ==> below(sets_of(self.live_in@), s),
                forall|j: int|
                    0 <= j < n ==> (#[trigger] sets_of(self.live_in@)[j]).subset_of(
                        in_of(nodes, sets_of(self.live_in@), j),
                    ),
                forall|j: int|
                    0 <= j < n ==> (#[trigger] sets_of(self.live_in@)[j]).subset_of(u),
                forall|j: int|
                    0 <= j < n ==> (#[trigger] sets_of(self.live_out@)[j]).subset_of(
                        out_of(nodes, sets_of(self.live_in@), j),
                    ),
                forall|j: int|
                    0 <= j < n ==> (#[trigger] sets_of(self.live_out@)[j]).subset_of(u),
                !go ==> in_sets_eq(nodes, sets_of(self.live_in@)),
                !go ==> forall|j: int|
                    0 <= j < n ==> name_set(#[trigger] self.live_out@[j]@) == out_of(
                        nodes,
                        sets_of(self.live_in@),
                        j,
                    ),
            decreases n * u.len() + n * u.len() - card_sum(sets_of(self.live_in@)) - card_sum(
                sets_of(self.live_out@),
            ), (if go {
                1int
            } else {
                0int
            }),
        {
            let ghost pass_li = self.live_in@;
            let ghost pass_lo = self.live_out@;
            let ghost start_total = card_sum(sets_of(pass_li)) + card_sum(sets_of(pass_lo));
            let mut changed = false;
            let mut idx: usize = n;
            while idx > 0
                invariant
                    idx <= n,
                    self.nodes == old(self).nodes,
                    self.nodes@ == nodes,
                    self.live_ranges_found == old(self).live_ranges_found,
                    self.live_in@.len() == n,
                    self.live_out@.len() == n,
                    forall|i: int|
                        0 <= i < n ==> no_dup_names(#[trigger] self.live_in@[i]@) && no_dup_names(
                            self.live_out@[i]@,
                        ),
                    forall|s: Seq<Set<Seq<char>>>|
                        #[trigger] in_sets_eq(nodes, s) ==> below(sets_of(self.live_in@), s),
                    forall|j: int|
                        0 <= j < n ==> (#[trigger] sets_of(self.live_in@)[j]).subset_of(
                            in_of(nodes, sets_of(self.live_in@), j),
                        ),
                    forall|j: int|
                        0 <= j < n ==> (#[trigger] sets_of(self.live_in@)[j]).subset_of(u),
                    forall|j: int|
                        0 <= j < n ==> (#[trigger] sets_of(self.live_out@)[j]).subset_of(
                            out_of(nodes, sets_of(self.live_in@), j),
                        ),
                    forall|j: int|
                        0 <= j < n ==> (#[trigger] sets_of(self.live_out@)[j]).subset_of(u),
                    card_sum(sets_of(self.live_in@)) + card_sum(sets_of(self.live_out@))
                        >= start_total,
                    changed ==> card_sum(sets_of(self.live_in@)) + card_sum(
                        sets_of(self.live_out@),
                    ) > start_total,
                    !changed ==> self.live_in@ == pass_li && self.live_out@ == pass_lo,
                    !changed ==> converged_from(
                        nodes,
                        sets_of(pass_li),
                        sets_of(pass_lo),
                        idx as int,
                    ),
                decreases idx,
            {
                idx -= 1;
                let ghost ins_b = sets_of(self.live_in@);
                let ghost outs_b = sets_of(self.live_out@);
                let c = self.refresh_node(idx);
                changed = changed || c;
                proof {
                    let ins_a = sets_of(self.live_in@);
                    let outs_a = sets_of(self.live_out@);
                    lemma_refresh_step(nodes, ins_b, ins_a, outs_b, outs_a, idx as int, u);
                    if !changed {
                        assert(self.live_in@ == pass_li);
                        assert(self.live_out@ == pass_lo);
                        assert(sets_of(pass_li) == ins_b);
                        assert(sets_of(pass_lo) == outs_b);
                        assert forall|k: int| idx <= k < n implies (#[trigger] sets_of(
                            pass_li,
                        )[k]) == in_of(nodes, sets_of(pass_li), k) && sets_of(pass_lo)[k]
                            == out_of(nodes, sets_of(pass_li), k) by {
                            if k == idx as int {
                                assert(ins_b[k] == in_of(nodes, ins_b, k));
                                assert(outs_b[k] == out_of(nodes, ins_b, k));
                            } else {
                                assert(converged_from(
                                    nodes,
                                    sets_of(pass_li),
                                    sets_of(pass_lo),
                                    idx as int + 1,
                                ));
                                assert(sets_of(pass_li)[k] == in_of(nodes, sets_of(pass_li), k));
                                assert(sets_of(pass_lo)[k] == out_of(nodes, sets_of(pass_li), k));
                            }
                        };
                        assert(converged_from(nodes, sets_of(pass_li), sets_of(pass_lo), idx as int));
                    }
                }
            }
            go = changed;
            proof {
                if !changed {
                    assert(self.live_in@ == pass_li);
                    assert(self.live_out@ == pass_lo);
                    assert(converged_from(nodes, sets_of(pass_li), sets_of(pass_lo), 0));
                    assert forall|j: int| 0 <= j < n implies name_set(
                        #[trigger] self.live_out@[j]@,
                    ) == out_of(nodes, sets_of(self.live_in@), j) by {
                        assert(sets_of(pass_li)[j] == in_of(nodes, sets_of(pass_li), j));
                        assert(sets_of(pass_lo)[j] == out_of(nodes, sets_of(pass_li), j));
                        assert(sets_of(self.live_out@)[j] == name_set(self.live_out@[j]@));
                    };
                    assert forall|j: int| 0 <= j < n implies (#[trigger] sets_of(
                        self.live_in@,
                    )[j]) == in_of(nodes, sets_of(self.live_in@), j) by {
                        assert(sets_of(pass_li)[j] == in_of(nodes, sets_of(pass_li), j));
                    };
                    assert(in_sets_eq(nodes, sets_of(self.live_in@)));
                }
                lemma_card_sum_bound(sets_of(self.live_in@), u);
                lemma_card_sum_bound(sets_of(self.live_out@), u);
            }
        }
        self.live_ranges_found = true;
    }
}

impl ControlFlowGraph {
    /// The live-in set of the node at `idx`; liveness must have been
    /// computed.
    pub fn get_live_in(&self, idx: usize) -> (r: &Vec<String>)
        requires
            self.wf(),
            self.live_ranges_found,
            idx < self.nodes@.len(),
        ensures
            *r == self.live_in@[idx as int],
    {
        &self.live_in[idx]
    }

    /// The live-out set of the node at `idx`; liveness must have been
    /// computed.
    pub fn get_live_out(&self, idx: usize) -> (r: &Vec<String>)
        requires
            self.wf(),
            self.live_ranges_found,
            idx < self.nodes@.len(),
        ensures
            *r == self.live_out@[idx as int],
    {
        &self.live_out[idx]
    }

    /// Both liveness arrays, live-in first.
    pub fn get_live_sets(&self) -> (r: (&Vec<Vec<String>>, &Vec<Vec<String>>))
        ensures
            r.0 == &self.live_in,
            r.1 == &self.live_out,
    {
        (&self.live_in, &self.live_out)
    }

    /// The live range of `var`: every edge `(i, j)` of the graph across
    /// which `var` may still be needed, that is, with `var` live on entry
    /// to `j`.  Liveness must have been computed.
    #[verifier::loop_isolation(false)]
    pub fn get_live_range(&self, var: String) -> (r: Vec<(usize, usize)>)
        requires
            self.wf(),
            self.live_ranges_found,
        ensures
            forall|p: (usize, usize)|
                #[trigger] r@.contains(p) <==> ((p.0 as int) < self.nodes@.len()
                    && self.nodes@[p.0 as int].succ@.contains(p.1) && name_set(
                    self.live_in@[p.1 as int]@,
                ).contains(var@)),
            forall|a: int, b: int| 0 <= a < b < r@.len() ==> r@[a] != r@[b],
    {
        let n = self.nodes.len();
        let mut r: Vec<(usize, usize)> = Vec::new();
        let mut i: usize = 0;
        while i < n
            invariant
                i <= n,
                forall|p: (usize, usize)|
                    #[trigger] r@.contains(p) <==> ((p.0 as int) < i && self.nodes@[p.0 as int].succ@.contains(
                        p.1,
                    ) && name_set(self.live_in@[p.1 as int]@).contains(var@)),
                forall|a: int, b: int| 0 <= a < b < r@.len() ==> r@[a] != r@[b],
            decreases n - i,
        {
            let node = &self.nodes[i];
            let mut k: usize = 0;
            while k < node.succ.len()
                invariant
                    k <= node.succ@.len(),
                    *node == self.nodes@[i as int],
                    i < n,
                    forall|p: (usize, usize)|
                        #[trigger] r@.contains(p) <==> (((p.0 as int) < i
                            && self.nodes@[p.0 as int].succ@.contains(p.1) && name_set(
                            self.live_in@[p.1 as int]@,
                        ).contains(var@)) || (p.0 == i && (exists|m: int|
                            0 <= m < k && node.succ@[m] == p.1) && name_set(
                            self.live_in@[p.1 as int]@,
                        ).contains(var@))),
                    forall|a: int, b: int| 0 <= a < b < r@.len() ==> r@[a] != r@[b],
                decreases node.succ@.len() - k,
            {
                let s = node.succ[k];
                proof {
                    assert(self.nodes@[i as int].succ@.contains(s));
                }
                if contains_name(&self.live_in[s], &var) {
                    let ghost pre = r@;
                    r.push((i, s));
                    proof {
                        assert forall|p: (usize, usize)| #[trigger] r@.contains(p) implies (((
                        p.0 as int) < i && self.nodes@[p.0 as int].succ@.contains(p.1) && name_set(
                            self.live_in@[p.1 as int]@,
                        ).contains(var@)) || (p.0 == i && (exists|m: int|
                            0 <= m < k + 1 && node.succ@[m] == p.1) && name_set(
                            self.live_in@[p.1 as int]@,
                        ).contains(var@))) by {
                            let t = choose|t: int| 0 <= t < r@.len() && r@[t] == p;
                            if t < pre.len() {
                                assert(pre.contains(p));
                            } else {
                                assert(p == (i, s));
                                assert(node.succ@[k as int] == s);
                            }
                        };
                        assert forall|p: (usize, usize)| (((p.0 as int) < i
                            && self.nodes@[p.0 as int].succ@.contains(p.1) && name_set(
                            self.live_in@[p.1 as int]@,
                        ).contains(var@)) || (p.0 == i && (exists|m: int|
                            0 <= m < k + 1 && node.succ@[m] == p.1) && name_set(
                            self.live_in@[p.1 as int]@,
                        ).contains(var@))) implies #[trigger] r@.contains(p) by {
                            if pre.contains(p) {
                                let t = choose|t: int| 0 <= t < pre.len() && pre[t] == p;
                                assert(r@[t] == p);
                            } else {
                                assert(p == (i, s));
                                assert(r@[r@.len() - 1] == p);
                            }
                        };
                        assert forall|a: int, b: int| 0 <= a < b < r@.len() implies r@[a]
                            != r@[b] by {
                            if b == r@.len() - 1 {
                                assert(pre.contains(pre[a]));
                                if pre[a] == (i, s) {
                                    let m = choose|m: int|
                                        0 <= m < k && node.succ@[m] == ((i, s)).1;
                                    assert(node.succ@[m] == node.succ@[k as int]);
                                }
                            }
                        };
                    }
                } else {
                    proof {
                        assert forall|p: (usize, usize)| #[trigger] r@.contains(p) implies (((
                        p.0 as int) < i && self.nodes@[p.0 as int].succ@.contains(p.1) && name_set(
                            self.live_in@[p.1 as int]@,
                        ).contains(var@)) || (p.0 == i && (exists|m: int|
                            0 <= m < k + 1 && node.succ@[m] == p.1) && name_set(
                            self.live_in@[p.1 as int]@,
                        ).contains(var@))) by {};
                        assert forall|p: (usize, usize)| (((p.0 as int) < i
                            && self.nodes@[p.0 as int].succ@.contains(p.1) && name_set(
                            self.live_in@[p.1 as int]@,
                        ).contains(var@)) || (p.0 == i && (exists|m: int|
                            0 <= m < k + 1 && node.succ@[m] == p.1) && name_set(
                            self.live_in@[p.1 as int]@,
                        ).contains(var@))) implies #[trigger] r@.contains(p) by {
                            if p.0 == i && !(exists|m: int| 0 <= m < k && node.succ@[m] == p.1) {
                                let m = choose|m: int| 0 <= m < k + 1 && node.succ@[m] == p.1;
                                assert(m == k as int);
                                assert(p.1 == s);
                            }
                        };
                    }
                }
                k += 1;
            }
            proof {
                assert forall|p: (usize, usize)| #[trigger] r@.contains(p) implies ((p.0 as int) < i
                    + 1 && self.nodes@[p.0 as int].succ@.contains(p.1) && name_set(
                    self.live_in@[p.1 as int]@,
                ).contains(var@)) by {
                    if p.0 == i {
                        let m = choose|m: int|
                            0 <= m < node.succ@.len() && node.succ@[m] == p.1;
                        assert(self.nodes@[i as int].succ@.contains(p.1));
                    }
                };
                assert forall|p: (usize, usize)| ((p.0 as int) < i + 1
                    && self.nodes@[p.0 as int].succ@.contains(p.1) && name_set(
                    self.live_in@[p.1 as int]@,
                ).contains(var@)) implies #[trigger] r@.contains(p) by {
                    if p.0 == i {
                        let m = choose|m: int|
                            0 <= m < node.succ@.len() && node.succ@[m] == p.1;
                    }
                };
            }
            i += 1;
        }
        r
    }
}

/// The dataflow equations hold at every node index at or above `lo`.
spec fn converged_from(
    nodes: Seq<Node>,
    ins: Seq<Set<Seq<char>>>,
    outs: Seq<Set<Seq<char>>>,
    lo: int,
) -> bool {
    forall|k: int|
        lo <= k < nodes.len() ==> (#[trigger] ins[k]) == in_of(nodes, ins, k) && outs[k] == out_of(
            nodes,
            ins,
            k,
        )
}

/// All-empty live sets satisfy every invariant of the fixed-point search.
proof fn lemma_empty_live_sets_invs(
    nodes: Seq<Node>,
    ins: Seq<Set<Seq<char>>>,
    outs: Seq<Set<Seq<char>>>,
)
    requires
        ins.len() == nodes.len(),
        outs.len() == nodes.len(),
        forall|i: int| 0 <= i < ins.len() ==> #[trigger] ins[i] == Set::<Seq<char>>::empty(),
        forall|i: int| 0 <= i < outs.len() ==> #[trigger] outs[i] == Set::<Seq<char>>::empty(),
    ensures
        forall|s: Seq<Set<Seq<char>>>| #[trigger] in_sets_eq(nodes, s) ==> below(ins, s),
        forall|j: int| 0 <= j < nodes.len() ==> (#[trigger] ins[j]).subset_of(
            in_of(nodes, ins, j),
        ),
        forall|j: int| 0 <= j < nodes.len() ==> (#[trigger] ins[j]).subset_of(universe(nodes)),
        forall|j: int| 0 <= j < nodes.len() ==> (#[trigger] outs[j]).subset_of(
            out_of(nodes, ins, j),
        ),
        forall|j: int| 0 <= j < nodes.len() ==> (#[trigger] outs[j]).subset_of(universe(nodes)),
{
    assert forall|s: Seq<Set<Seq<char>>>| #[trigger] in_sets_eq(nodes, s) implies below(
        ins,
        s,
    ) by {
        assert forall|i: int| 0 <= i < ins.len() implies (#[trigger] ins[i]).subset_of(s[i]) by {
            assert(ins[i] =~= Set::<Seq<char>>::empty());
        };
    };
}

/// The label of a node in the graph description: its statement as source
/// text.
pub open spec fn dot_label(k: NodeKind) -> Seq<char> {
    match k {
        NodeKind::Assignment(l, e) => pp_expr(*l) + " = "@ + pp_expr(*e),
        NodeKind::Condition(e) => "if "@ + pp_expr(*e),
        NodeKind::Return(e) => "return "@ + pp_expr(*e),
    }
}

/// The names of `o` that are also names of `i`, in the order of `o`.
pub open spec fn filtered_names(o: Seq<String>, i: Seq<String>) -> Seq<Seq<char>>
    decreases o.len(),
{
    if o.len() == 0 {
        seq![]
    } else {
        let rest = filtered_names(o.drop_first(), i);
        if name_set(i).contains(o[0]@) {
            seq![o[0]@] + rest
        } else {
            rest
        }
    }
}

/// The pieces joined by a comma and a space.
pub open spec fn join_comma(xs: Seq<Seq<char>>) -> Seq<char>
    decreases xs.len(),
{
    if xs.len() == 0 {
        seq![]
    } else if xs.len() == 1 {
        xs[0]
    } else {
        xs[0] + ", "@ + join_comma(xs.drop_first())
    }
}

/// The remainder of a joined list: a comma and a space before each piece.
pub open spec fn join_tail(xs: Seq<Seq<char>>) -> Seq<char>
    decreases xs.len(),
{
    if xs.len() == 0 {
        seq![]
    } else {
        ", "@ + xs[0] + join_tail(xs.drop_first())
    }
}

/// A joined list is its first piece followed by the comma-prefixed rest.
proof fn lemma_join_comma_tail(xs: Seq<Seq<char>>)
    ensures
        xs.len() > 0 ==> join_comma(xs) == xs[0] + join_tail(xs.drop_first()),
    decreases xs.len(),
{
    if xs.len() == 1 {
        assert(join_tail(xs.drop_first()) =~= Seq::<char>::empty());
        assert(xs[0] + join_tail(xs.drop_first()) =~= xs[0]);
    } else if xs.len() > 1 {
        lemma_join_comma_tail(xs.drop_first());
        assert(xs[0] + ", "@ + join_comma(xs.drop_first()) =~= xs[0] + join_tail(
            xs.drop_first(),
        ));
    }
}

/// The edge label: the variables live across the edge from node `i` to node
/// `s` — those leaving `i` live that are also live on entry to `s` — or
/// nothing while liveness has not been computed.
pub open spec fn dot_live_label(g: ControlFlowGraph, i: int, s: int) -> Seq<char> {
    if g.live_ranges_found {
        join_comma(filtered_names(g.live_out@[i]@, g.live_in@[s]@))
    } else {
        seq![]
    }
}

/// One block line of the graph description.
pub open spec fn dot_block_line(i: int, k: NodeKind) -> Seq<char> {
    "\tblock"@ + nat_repr(i) + " [label=\""@ + dot_label(k) + "\"];\n"@
}

/// One edge line of the graph description.
pub open spec fn dot_edge_line(i: int, s: int, live: Seq<char>) -> Seq<char> {
    "\tblock"@ + nat_repr(i) + " -> block"@ + nat_repr(s) + " [label=\""@ + live + "\"];\n"@
}

/// The edge lines of the first `k` successors of node `i`.
pub open spec fn dot_edges_of(g: ControlFlowGraph, i: int, k: int) -> Seq<char>
    decreases k,
{
    if k <= 0 {
        seq![]
    } else {
        dot_edges_of(g, i, k - 1) + dot_edge_line(
            i,
            g.nodes@[i].succ@[k - 1] as int,
            dot_live_label(g, i, g.nodes@[i].succ@[k - 1] as int),
        )
    }
}

/// The block lines of the first `n` nodes.
pub open spec fn dot_blocks(g: ControlFlowGraph, n: int) -> Seq<char>
    decreases n,
{
    if n <= 0 {
        seq![]
    } else {
        dot_blocks(g, n - 1) + dot_block_line(n - 1, g.nodes@[n - 1].node_kind)
    }
}

/// The edge lines of the first `n` nodes.
pub open spec fn dot_edges(g: ControlFlowGraph, n: int) -> Seq<char>
    decreases n,
{
    if n <= 0 {
        seq![]
    } else {
        dot_edges(g, n - 1) + dot_edges_of(g, n - 1, g.nodes@[n - 1].succ@.len() as int)
    }
}

/// The whole graph description: a header, the block lines, a blank line,
/// the edge lines and the closing brace.
pub open spec fn dot_of(g: ControlFlowGraph) -> Seq<char> {
    "digraph CFG {\n\tnode [shape=rectangle];\n\n"@ + dot_blocks(g, g.nodes@.len() as int) + "\n"@
        + dot_edges(g, g.nodes@.len() as int) + "}"@
}

/// The label of one node, executable.
fn dot_label_of(k: &NodeKind) -> (s: String)
    ensures
        s@ == dot_label(*k),
{
    match k {
        NodeKind::Assignment(l, e) => {
            let mut sb = pretty_print_expr(&**l);
            let rhs = pretty_print_expr(&**e);
            sb.append(" = ");
            sb.append(rhs.as_str());
            sb
        },
        NodeKind::Condition(e) => {
            let mut sb = String::from_str("if ");
            let rhs = pretty_print_expr(&**e);
            sb.append(rhs.as_str());
            sb
        },
        NodeKind::Return(e) => {
            let mut sb = String::from_str("return ");
            let rhs = pretty_print_expr(&**e);
            sb.append(rhs.as_str());
            sb
        },
    }
}

/// The names of `o` that also occur in `iv`, joined by commas.
#[verifier::loop_isolation(false)]
fn live_label_of(o: &Vec<String>, iv: &Vec<String>) -> (s: String)
    ensures
        s@ == join_comma(filtered_names(o@, iv@)),
{
    let mut picked: Vec<String> = Vec::new();
    let mut j: usize = 0;
    proof {
        assert(o@.skip(0) =~= o@);
        assert(names_of(picked@) =~= Seq::<Seq<char>>::empty());
    }
    while j < o.len()
        invariant
            j <= o@.len(),
            names_of(picked@) + filtered_names(o@.skip(j as int), iv@) =~= filtered_names(
                o@,
                iv@,
            ),
        decreases o@.len() - j,
    {
        let ghost pre = picked@;
        proof {
            assert(o@.skip(j as int)[0] == o@[j as int]);
            assert(o@.skip(j as int).drop_first() =~= o@.skip(j as int + 1));
        }
        if contains_name(iv, &o[j]) {
            picked.push(o[j].clone());
            proof {
                assert(names_of(picked@) =~= names_of(pre).push(o@[j as int]@));
            }
        }
        proof {
            assert(names_of(picked@) + filtered_names(o@.skip(j as int + 1), iv@) =~= filtered_names(
                o@,
                iv@,
            ));
        }
        j += 1;
    }
    proof {
        assert(o@.skip(o@.len() as int) =~= Seq::<String>::empty());
        assert(names_of(picked@) =~= filtered_names(o@, iv@));
    }
    let mut sb = String::new();
    if picked.len() == 0 {
        proof {
            assert(sb@ =~= join_comma(filtered_names(o@, iv@)));
        }
        return sb;
    }
    sb.append(picked[0].as_str());
    let ghost views = names_of(picked@);
    proof {
        lemma_join_comma_tail(views);
        assert(views.drop_first() =~= views.skip(1));
        assert(sb@ + join_tail(views.skip(1)) =~= join_comma(views));
    }
    let mut k: usize = 1;
    while k < picked.len()
        invariant
            1 <= k <= picked@.len(),
            sb@ + join_tail(views.skip(k as int)) == join_comma(views),
        decreases picked@.len() - k,
    {
        sb.append(", ");
        sb.append(picked[k].as_str());
        proof {
            assert(views.skip(k as int)[0] == picked@[k as int]@);
            assert(views.skip(k as int).drop_first() =~= views.skip(k as int + 1));
            assert(join_tail(views.skip(k as int)) == ", "@ + picked@[k as int]@ + join_tail(
                views.skip(k as int + 1),
            ));
            assert(sb@ + join_tail(views.skip(k as int + 1)) =~= join_comma(views));
        }
        k += 1;
    }
    proof {
        assert(views.skip(views.len() as int) =~= Seq::<Seq<char>>::empty());
        assert(sb@ =~= join_comma(views));
    }
    sb
}

impl ControlFlowGraph {
    /// A `dot` graph description of the control-flow graph: one block per
    /// node, labelled with its statement, and one arrow per edge, labelled
    /// with the variables live across it once liveness has been computed.
    #[verifier::loop_isolation(false)]
    #[verifier::rlimit(100)]
    pub fn generate_dot(&self) -> (s: String)
        requires
            self.wf(),
        ensures
            s@ == dot_of(*self),
    {
        let n = self.nodes.len();
        let mut blocks = String::new();
        let mut edges = String::new();
        let mut i: usize = 0;
        proof {
            assert(blocks@ =~= dot_blocks(*self, 0));
            assert(edges@ =~= dot_edges(*self, 0));
        }
        while i < n
            invariant
                i <= n,
                blocks@ == dot_blocks(*self, i as int),
                edges@ == dot_edges(*self, i as int),
            decreases n - i,
        {
            let node = &self.nodes[i];
            let lbl = dot_label_of(&node.node_kind);
            let idx_text = crate::pretty_print::u64_to_string(i as u64);
            blocks.append("\tblock");
            blocks.append(idx_text.as_str());
            blocks.append(" [label=\"");
            blocks.append(lbl.as_str());
            blocks.append("\"];\n");
            proof {
                assert(blocks@ =~= dot_blocks(*self, i as int + 1));
            }
            let mut k: usize = 0;
            proof {
                assert(edges@ + dot_edges_of(*self, i as int, 0) =~= edges@);
            }
            while k < node.succ.len()
                invariant
                    k <= node.succ@.len(),
                    *node == self.nodes@[i as int],
                    i < n,
                    edges@ == dot_edges(*self, i as int) + dot_edges_of(*self, i as int, k as int),
                decreases node.succ@.len() - k,
            {
                let s_idx = node.succ[k];
                proof {
                    assert(self.nodes@[i as int].succ@.contains(s_idx));
                }
                let live = if self.live_ranges_found {
                    live_label_of(&self.live_out[i], &self.live_in[s_idx])
                } else {
                    String::new()
                };
                let s_text = crate::pretty_print::u64_to_string(s_idx as u64);
                edges.append("\tblock");
                edges.append(idx_text.as_str());
                edges.append(" -> block");
                edges.append(s_text.as_str());
                edges.append(" [label=\"");
                edges.append(live.as_str());
                edges.append("\"];\n");
                proof {
                    assert(live@ == dot_live_label(*self, i as int, s_idx as int));
                    assert(edges@ =~= dot_edges(*self, i as int) + dot_edges_of(
                        *self,
                        i as int,
                        k as int + 1,
                    ));
                }
                k += 1;
            }
            proof {
                assert(edges@ =~= dot_edges(*self, i as int + 1));
            }
            i += 1;
        }
        let mut sb = String::from_str("digraph CFG {\n\tnode [shape=rectangle];\n\n");
        sb.append(blocks.as_str());
        sb.append("\n");
        sb.append(edges.as_str());
        sb.append("}");
        proof {
            assert(sb@ =~= dot_of(*self));
        }
        sb
    }
}

/// Two least solutions of the live-in equations coincide.
proof fn lemma_least_in_sets_unique(
    nodes: Seq<Node>,
    a: Seq<Set<Seq<char>>>,
    b: Seq<Set<Seq<char>>>,
)
    requires
        is_least_in_sets(nodes, a),
        is_least_in_sets(nodes, b),
    ensures
        a == b,
{
    assert(below(a, b));
    assert(below(b, a));
    assert forall|i: int| 0 <= i < a.len() implies a[i] == b[i] by {
        assert(a[i].subset_of(b[i]));
        assert(b[i].subset_of(a[i]));
        assert(a[i] =~= b[i]);
    };
    assert(a =~= b);
}

/// Equation satisfaction: after the analysis has converged, every node `i`
/// satisfies `live-in[i] = use[i] ∪ (live-out[i] − def[i])` and
/// `live-out[i] = ⋃_{j ∈ succ(i)} live-in[j]`.
pub proof fn lemma_liveness_equations(g: ControlFlowGraph, i: int)
    requires
        g.wf(),
        g.live_ranges_found,
        0 <= i < g.nodes@.len(),
    ensures
        name_set(g.live_in@[i]@) == uses_of(g.nodes@, i).union(
            name_set(g.live_out@[i]@).difference(defs_of(g.nodes@, i)),
        ),
        name_set(g.live_out@[i]@) == out_of(g.nodes@, sets_of(g.live_in@), i),
{
    assert(sets_of(g.live_in@)[i] == in_of(g.nodes@, sets_of(g.live_in@), i));
    assert(sets_of(g.live_in@)[i] == name_set(g.live_in@[i]@));
}

/// Idempotence: the liveness results of an analyzed graph are uniquely
/// determined by its nodes, so re-running the analysis — which recomputes
/// from empty sets and, by its contract, again yields the least solution
/// over the unchanged nodes — reproduces identical live-in and live-out
/// sets.
pub proof fn lemma_liveness_idempotent(g1: ControlFlowGraph, g2: ControlFlowGraph)
    requires
        g1.wf(),
        g2.wf(),
        g1.live_ranges_found,
        g2.live_ranges_found,
        g1.nodes == g2.nodes,
    ensures
        sets_of(g1.live_in@) == sets_of(g2.live_in@),
        sets_of(g1.live_out@) == sets_of(g2.live_out@),
{
    lemma_least_in_sets_unique(g1.nodes@, sets_of(g1.live_in@), sets_of(g2.live_in@));
    assert forall|i: int| 0 <= i < g1.live_out@.len() implies sets_of(g1.live_out@)[i] == sets_of(
        g2.live_out@,
    )[i] by {
        assert(name_set(g1.live_out@[i]@) == out_of(g1.nodes@, sets_of(g1.live_in@), i));
        assert(name_set(g2.live_out@[i]@) == out_of(g2.nodes@, sets_of(g2.live_in@), i));
    };
    assert(sets_of(g1.live_out@) =~= sets_of(g2.live_out@));
}

/// Order independence: two analyzed graphs with the same nodes hold the
/// same live-in and live-out sets, whatever visiting order each analysis
/// used.  In particular the increasing-order and decreasing-order analyses
/// converge to identical final sets.
pub proof fn lemma_order_independence(g1: ControlFlowGraph, g2: ControlFlowGraph)
    requires
        g1.wf(),
        g2.wf(),
        g1.live_ranges_found,
        g2.live_ranges_found,
        g1.nodes == g2.nodes,
    ensures
        sets_of(g1.live_in@) == sets_of(g2.live_in@),
        sets_of(g1.live_out@) == sets_of(g2.live_out@),
{
    lemma_liveness_idempotent(g1, g2);
}

} // verus!
