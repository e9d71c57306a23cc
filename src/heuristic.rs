use vstd::prelude::*;
use std::collections::HashMap;
use crate::board::{Board, WIDTH, canonical_spec};

verus! {

broadcast use vstd::std_specs::hash::group_hash_axioms;

/// Role of a node: `Or` nodes (the searching side to move) need one proved
/// child, `And` nodes need every child proved.
#[derive(Clone, Copy, Debug, PartialEq, Eq, Structural)]
pub enum NodeType {
    And,
    Or,
}

#[derive(Clone, Copy, Debug, PartialEq, Eq, Structural)]
pub enum NodeState {
    NotEvaluated,
    Evaluated,
    Expanded,
}

#[derive(Clone, Copy, Debug, PartialEq, Eq, Structural)]
pub enum NodeValue {
    Disproved,
    Unknown,
    Proved,
}

/// Stands for an infinite proof or disproof number.
pub const INFINITY: u64 = 200000000;

/// Number of newly created nodes after which a search gives up.
pub const NODE_BUDGET: usize = 2800;

/// Column preference when several children are equally promising.
pub const NODE_SEQUENCE_ORDER: [usize; 7] = [3, 2, 4, 5, 1, 0, 6];

/// One position of the search graph; children are indices into the graph.
#[derive(Clone, Copy, Debug)]
pub struct Node {
    pub board: Board,
    pub children: [Option<usize>; 7],
    pub state: NodeState,
    pub value: NodeValue,
    pub proof: u64,
    pub disproof: u64,
    pub node_type: NodeType,
}

/// The search graph: nodes, the set of parents of each node, and the node of
/// each canonical position, by key.
pub struct Graph {
    pub nodes: Vec<Node>,
    pub parents: Vec<Vec<usize>>,
    pub index: HashMap<u64, usize>,
}

/// The canonical form of the position after column `c` is played.
pub open spec fn child_position(b: Board, c: u64) -> Board {
    canonical_spec(b.play_spec(c), b.play_spec(c).mirror_spec()).0
}

/// See `Graph::evaluated`.
pub open spec fn evaluated_nodes(nodes: Seq<Node>, root_node_type: NodeType, fight: bool) -> bool {
    &&& nodes.len() >= 1
    &&& nodes[0].node_type == root_node_type
    &&& forall|j: int|
        0 <= j < nodes.len() ==> {
            &&& #[trigger] nodes[j].value == evaluation(nodes[j], root_node_type, fight)
            &&& nodes[j].node_type == if (nodes[j].board.filled_spec() - nodes[0].board.filled_spec()) % 2 == 0 {
                root_node_type
            } else {
                opposite(root_node_type)
            }
        }
}

/// See `Graph::children_canonical`.
pub open spec fn canonical_children(nodes: Seq<Node>) -> bool {
    forall|a: int, c: int|
        0 <= a < nodes.len() && 0 <= c < 7 && #[trigger] nodes[a].children@[c] is Some ==> nodes[nodes[a].children@[c]->Some_0 as int].board
            == child_position(nodes[a].board, c as u64)
}

/// Graphs of the same shape agree on evaluations, roles and children.
proof fn lemma_shape_keeps(a: Seq<Node>, b: Seq<Node>, root_node_type: NodeType, fight: bool)
    requires
        same_shape(a, b),
        forall|x: int, c: int|
            0 <= x < a.len() && 0 <= c < 7 && #[trigger] a[x].children@[c] is Some ==> a[x].children@[c]->Some_0 < a.len(),
    ensures
        evaluated_nodes(a, root_node_type, fight) ==> evaluated_nodes(b, root_node_type, fight),
        canonical_children(a) ==> canonical_children(b),
{
    if a.len() >= 1 {
        assert(b[0].board == a[0].board);
    }
    assert forall|j: int| 0 <= j < a.len() implies #[trigger] b[j] == Node { proof: b[j].proof, disproof: b[j].disproof, ..a[j] } by {
        assert(b[j].board == a[j].board);
    }
    if canonical_children(a) {
        assert forall|x: int, c: int|
            0 <= x < b.len() && 0 <= c < 7 && #[trigger] b[x].children@[c] is Some implies b[b[x].children@[c]->Some_0 as int].board
                == child_position(b[x].board, c as u64) by {
            assert(b[x].board == a[x].board);
            assert(a[x].children@[c] is Some);
            let ch = a[x].children@[c]->Some_0 as int;
            assert(b[ch].board == a[ch].board);
        }
    }
    if evaluated_nodes(a, root_node_type, fight) {
        assert forall|j: int| 0 <= j < b.len() implies {
            &&& #[trigger] b[j].value == evaluation(b[j], root_node_type, fight)
            &&& b[j].node_type == if (b[j].board.filled_spec() - b[0].board.filled_spec()) % 2 == 0 {
                root_node_type
            } else {
                opposite(root_node_type)
            }
        } by {
            assert(b[j].board == a[j].board);
        }
    }
}

/// The other role.
pub open spec fn opposite(t: NodeType) -> NodeType {
    match t {
        NodeType::And => NodeType::Or,
        NodeType::Or => NodeType::And,
    }
}

/// Number of legal moves among the first `k` columns.
pub open spec fn legal_count(b: Board, k: int) -> int
    decreases k,
{
    if k <= 0 {
        0
    } else {
        legal_count(b, k - 1) + if b.can_play_spec((k - 1) as u64) { 1int } else { 0int }
    }
}

/// Outcome of evaluating a freshly reached node (see `evaluate`).
pub open spec fn evaluation(n: Node, root_type: NodeType, fight: bool) -> NodeValue {
    if n.board.is_full_spec() {
        if fight == (root_type == NodeType::And) {
            NodeValue::Disproved
        } else {
            NodeValue::Proved
        }
    } else if n.board.first_winning_from(0) is Some {
        match n.node_type {
            NodeType::And => NodeValue::Disproved,
            NodeType::Or => NodeValue::Proved,
        }
    } else {
        NodeValue::Unknown
    }
}

/// A sum of finite numbers, kept below `INFINITY` so that only a decided
/// node carries an infinite number.
pub open spec fn sat(x: int) -> int {
    if x > INFINITY - 1 {
        INFINITY - 1
    } else {
        x
    }
}

pub open spec fn kid(nodes: Seq<Node>, n: Node, c: int) -> Node {
    nodes[n.children@[c]->Some_0 as int]
}

/// Sum of the children's proof numbers over the first `k` columns, kept
/// below `INFINITY`.
pub open spec fn proof_sum(nodes: Seq<Node>, n: Node, k: int) -> int
    decreases k,
{
    if k <= 0 {
        0
    } else if n.children@[k - 1] is Some {
        sat(proof_sum(nodes, n, k - 1) + kid(nodes, n, k - 1).proof)
    } else {
        proof_sum(nodes, n, k - 1)
    }
}

pub open spec fn disproof_sum(nodes: Seq<Node>, n: Node, k: int) -> int
    decreases k,
{
    if k <= 0 {
        0
    } else if n.children@[k - 1] is Some {
        sat(disproof_sum(nodes, n, k - 1) + kid(nodes, n, k - 1).disproof)
    } else {
        disproof_sum(nodes, n, k - 1)
    }
}

/// Least of `INFINITY` and the children's proof numbers over the first `k` columns.
pub open spec fn proof_min(nodes: Seq<Node>, n: Node, k: int) -> int
    decreases k,
{
    if k <= 0 {
        INFINITY as int
    } else if n.children@[k - 1] is Some && kid(nodes, n, k - 1).proof < proof_min(nodes, n, k - 1) {
        kid(nodes, n, k - 1).proof as int
    } else {
        proof_min(nodes, n, k - 1)
    }
}

pub open spec fn disproof_min(nodes: Seq<Node>, n: Node, k: int) -> int
    decreases k,
{
    if k <= 0 {
        INFINITY as int
    } else if n.children@[k - 1] is Some && kid(nodes, n, k - 1).disproof < disproof_min(nodes, n, k - 1) {
        kid(nodes, n, k - 1).disproof as int
    } else {
        disproof_min(nodes, n, k - 1)
    }
}

/// Proof and disproof numbers of a node that has not been expanded.
pub open spec fn leaf_numbers(n: Node) -> (int, int) {
    match n.value {
        NodeValue::Disproved => (INFINITY as int, 0),
        NodeValue::Proved => (0, INFINITY as int),
        NodeValue::Unknown => match n.node_type {
            NodeType::And => (legal_count(n.board, 7), 1),
            NodeType::Or => (1, legal_count(n.board, 7)),
        },
    }
}

/// Proof and disproof numbers of an expanded node, from its children's.
pub open spec fn expanded_numbers(nodes: Seq<Node>, n: Node) -> (int, int) {
    match n.node_type {
        NodeType::And => if disproof_min(nodes, n, 7) == 0 {
            (INFINITY as int, 0)
        } else {
            (proof_sum(nodes, n, 7), disproof_min(nodes, n, 7))
        },
        NodeType::Or => if proof_min(nodes, n, 7) == 0 {
            (0, INFINITY as int)
        } else {
            (proof_min(nodes, n, 7), disproof_sum(nodes, n, 7))
        },
    }
}

pub open spec fn numbers(nodes: Seq<Node>, n: Node) -> (int, int) {
    if n.state == NodeState::Expanded {
        expanded_numbers(nodes, n)
    } else {
        leaf_numbers(n)
    }
}

/// A node whose links stay inside a graph of `len` nodes.
pub open spec fn node_ok(n: Node, ps: Seq<usize>, len: int) -> bool {
    &&& n.board.wf()
    &&& n.state != NodeState::NotEvaluated
    &&& (n.state == NodeState::Evaluated && n.value == NodeValue::Unknown ==> !n.board.is_full_spec())
    &&& forall|c: int| 0 <= c < 7 && #[trigger] n.children@[c] is Some ==> n.children@[c]->Some_0 < len
    &&& (n.state == NodeState::Expanded ==> forall|c: int|
        0 <= c < 7 ==> (#[trigger] n.children@[c] is Some <==> n.board.can_play_spec(c as u64)))
    &&& forall|k: int| 0 <= k < ps.len() ==> #[trigger] ps[k] < len
}

/// Two graphs with the same nodes, links and states; only numbers may differ.
pub open spec fn same_shape(a: Seq<Node>, b: Seq<Node>) -> bool {
    &&& a.len() == b.len()
    &&& forall|i: int|
        0 <= i < a.len() ==> {
            &&& #[trigger] b[i].board == a[i].board
            &&& b[i].children == a[i].children
            &&& b[i].state == a[i].state
            &&& b[i].value == a[i].value
            &&& b[i].node_type == a[i].node_type
        }
}

/// The stored numbers of node `i` are those its state and children give.
pub open spec fn numbers_current(nodes: Seq<Node>, i: int) -> bool {
    &&& nodes[i].proof as int == numbers(nodes, nodes[i]).0
    &&& nodes[i].disproof as int == numbers(nodes, nodes[i]).1
}

proof fn lemma_sums_frame(old_nodes: Seq<Node>, new_nodes: Seq<Node>, n: Node, k: int)
    requires
        0 <= k <= 7,
        forall|c: int|
            0 <= c < 7 && #[trigger] n.children@[c] is Some ==> {
                &&& kid(new_nodes, n, c).proof == kid(old_nodes, n, c).proof
                &&& kid(new_nodes, n, c).disproof == kid(old_nodes, n, c).disproof
            },
    ensures
        proof_sum(new_nodes, n, k) == proof_sum(old_nodes, n, k),
        disproof_sum(new_nodes, n, k) == disproof_sum(old_nodes, n, k),
        proof_min(new_nodes, n, k) == proof_min(old_nodes, n, k),
        disproof_min(new_nodes, n, k) == disproof_min(old_nodes, n, k),
    decreases k,
{
    if k > 0 {
        lemma_sums_frame(old_nodes, new_nodes, n, k - 1);
    }
}

proof fn lemma_sums_same_links(nodes: Seq<Node>, a: Node, b: Node, k: int)
    requires
        0 <= k <= 7,
        a.children == b.children,
    ensures
        proof_sum(nodes, a, k) == proof_sum(nodes, b, k),
        disproof_sum(nodes, a, k) == disproof_sum(nodes, b, k),
        proof_min(nodes, a, k) == proof_min(nodes, b, k),
        disproof_min(nodes, a, k) == disproof_min(nodes, b, k),
    decreases k,
{
    if k > 0 {
        lemma_sums_same_links(nodes, a, b, k - 1);
    }
}

/// A node's own numbers play no part in computing them.
proof fn lemma_numbers_same_links(nodes: Seq<Node>, a: Node, b: Node)
    requires
        a.children == b.children,
        a.state == b.state,
        a.value == b.value,
        a.node_type == b.node_type,
        a.board == b.board,
    ensures
        numbers(nodes, a) == numbers(nodes, b),
{
    lemma_sums_same_links(nodes, a, b, 7);
}

/// A node's numbers depend on its children's numbers only.
proof fn lemma_numbers_frame(old_nodes: Seq<Node>, new_nodes: Seq<Node>, n: Node)
    requires
        forall|c: int|
            0 <= c < 7 && #[trigger] n.children@[c] is Some ==> {
                &&& kid(new_nodes, n, c).proof == kid(old_nodes, n, c).proof
                &&& kid(new_nodes, n, c).disproof == kid(old_nodes, n, c).disproof
            },
    ensures
        numbers(new_nodes, n) == numbers(old_nodes, n),
{
    lemma_sums_frame(old_nodes, new_nodes, n, 7);
}

/// Proof and disproof numbers within `0..=INFINITY`, where one is infinite
/// exactly when the other is zero: the node is decided.
pub open spec fn numbers_ok(p: int, d: int) -> bool {
    &&& 0 <= p <= INFINITY
    &&& 0 <= d <= INFINITY
    &&& (p == INFINITY <==> d == 0)
    &&& (d == INFINITY <==> p == 0)
}

proof fn lemma_sums_ok(nodes: Seq<Node>, n: Node, k: int)
    requires
        0 <= k <= 7,
        forall|c: int|
            0 <= c < 7 && #[trigger] n.children@[c] is Some ==> numbers_ok(
                kid(nodes, n, c).proof as int,
                kid(nodes, n, c).disproof as int,
            ),
    ensures
        0 <= proof_sum(nodes, n, k) < INFINITY,
        0 <= disproof_sum(nodes, n, k) < INFINITY,
        0 <= proof_min(nodes, n, k) <= INFINITY,
        0 <= disproof_min(nodes, n, k) <= INFINITY,
        proof_min(nodes, n, k) == INFINITY <==> disproof_sum(nodes, n, k) == 0,
        disproof_min(nodes, n, k) == INFINITY <==> proof_sum(nodes, n, k) == 0,
    decreases k,
{
    if k > 0 {
        lemma_sums_ok(nodes, n, k - 1);
    }
}

/// Numbers computed from children whose numbers are in range are in range.
proof fn lemma_numbers_ok(nodes: Seq<Node>, n: Node)
    requires
        n.board.wf(),
        n.state != NodeState::NotEvaluated,
        n.state == NodeState::Evaluated && n.value == NodeValue::Unknown ==> !n.board.is_full_spec(),
        forall|c: int|
            0 <= c < 7 && #[trigger] n.children@[c] is Some ==> numbers_ok(
                kid(nodes, n, c).proof as int,
                kid(nodes, n, c).disproof as int,
            ),
    ensures
        numbers_ok(numbers(nodes, n).0, numbers(nodes, n).1),
{
    lemma_sums_ok(nodes, n, 7);
    lemma_legal_count_nonneg(n.board, 7);
    if n.state == NodeState::Evaluated && n.value == NodeValue::Unknown {
        lemma_not_full_has_move(n.board);
    }
}

impl Graph {
    /// Every entry of the index holds a node whose board has that key.
    pub open spec fn indexed(&self) -> bool {
        &&& forall|k: u64| #[trigger] self.index@.contains_key(k) ==> self.nodes@[self.index@[k] as int].board.key_spec() == k
        &&& forall|t: int|
            0 <= t < self.nodes.len() ==> #[trigger] self.index@.contains_key(self.nodes@[t].board.key_spec() as u64)
                && self.index@[self.nodes@[t].board.key_spec() as u64] == t
    }

    /// No two nodes hold the same position.
    pub open spec fn one_node_per_position(&self) -> bool {
        forall|a: int, b: int|
            0 <= a < self.nodes.len() && 0 <= b < self.nodes.len() && #[trigger] self.nodes@[a].board == #[trigger] self.nodes@[b].board
                ==> a == b
    }

    /// An indexed graph holds each position in one node only.
    pub proof fn lemma_one_node_per_position(&self)
        requires
            self.indexed(),
        ensures
            self.one_node_per_position(),
    {
        assert forall|a: int, b: int|
            0 <= a < self.nodes.len() && 0 <= b < self.nodes.len() && #[trigger] self.nodes@[a].board
                == #[trigger] self.nodes@[b].board implies a == b by {
            assert(self.index@.contains_key(self.nodes@[a].board.key_spec() as u64));
            assert(self.index@.contains_key(self.nodes@[b].board.key_spec() as u64));
        }
    }

    /// Every node holds the outcome its position was evaluated to, and its
    /// role alternates with the number of pieces: the root's role where it
    /// has as many pieces as the root (node 0), modulo 2, the other otherwise.
    pub open spec fn evaluated(&self, root_node_type: NodeType, fight: bool) -> bool {
        evaluated_nodes(self.nodes@, root_node_type, fight)
    }

    /// Every child of a node holds the canonical form of the position after
    /// its column is played.
    pub open spec fn children_canonical(&self) -> bool {
        canonical_children(self.nodes@)
    }

    /// Every node's numbers are in range.
    pub open spec fn bounded(&self) -> bool {
        forall|j: int| 0 <= j < self.nodes.len() ==> numbers_ok(#[trigger] self.nodes@[j].proof as int, self.nodes@[j].disproof as int)
    }

    /// Every node but `skip` holds the numbers its state and children give.
    pub open spec fn consistent_except(&self, skip: int) -> bool {
        forall|j: int| 0 <= j < self.nodes.len() && j != skip ==> #[trigger] numbers_current(self.nodes@, j)
    }

    /// Every node holds the numbers its state and children give.
    pub open spec fn consistent(&self) -> bool {
        self.consistent_except(-1)
    }

    /// Every link to a child is recorded among the child's parents, and a
    /// parent holds one piece fewer than its child.
    pub open spec fn linked(&self) -> bool {
        &&& forall|a: int, c: int|
            0 <= a < self.nodes.len() && 0 <= c < 7 && #[trigger] self.nodes@[a].children@[c] is Some
                ==> self.parents@[self.nodes@[a].children@[c]->Some_0 as int]@.contains(a as usize)
        &&& forall|b: int, k: int|
            0 <= b < self.nodes.len() && 0 <= k < self.parents@[b].len() ==> self.nodes@[#[trigger] self.parents@[b]@[k] as int].board.filled_spec()
                + 1 == self.nodes@[b].board.filled_spec()
    }
}

impl Graph {
    pub open spec fn wf(&self) -> bool {
        &&& self.nodes.len() == self.parents.len()
        &&& forall|i: int|
            0 <= i < self.nodes.len() ==> node_ok(
                #[trigger] self.nodes@[i],
                self.parents@[i]@,
                self.nodes.len() as int,
            )
        &&& forall|k: u64| #[trigger] self.index@.contains_key(k) ==> self.index@[k] < self.nodes.len()
    }
}

impl Node {
    pub fn new(board: Board, node_type: NodeType) -> (r: Node)
        ensures
            r.board == board,
            r.node_type == node_type,
            r.state == NodeState::NotEvaluated,
            r.value == NodeValue::Unknown,
            forall|c: int| 0 <= c < 7 ==> r.children@[c] is None,
    {
        Node {
            board,
            children: [None, None, None, None, None, None, None],
            state: NodeState::NotEvaluated,
            value: NodeValue::Unknown,
            proof: 0,
            disproof: 0,
            node_type,
        }
    }

    /// Marks the node evaluated and decides it where the position allows:
    /// a full board by the draw rule, a board where the side to move wins at
    /// once in favour of that side. Returns the winning column, if any.
    pub fn evaluate(&mut self, root_node_type: NodeType, fight: bool) -> (r: Option<usize>)
        requires
            old(self).board.wf(),
        ensures
            final(self).state == NodeState::Evaluated,
            final(self).value == evaluation(*old(self), root_node_type, fight),
            final(self).board == old(self).board,
            final(self).children == old(self).children,
            final(self).node_type == old(self).node_type,
            r == if old(self).board.is_full_spec() {
                None
            } else {
                old(self).board.first_winning_from(0)
            },
            r is Some ==> old(self).board.can_play_spec(r->Some_0 as u64),
    {
        self.state = NodeState::Evaluated;
        if self.board.is_full() {
            self.value = if fight {
                match root_node_type {
                    NodeType::And => NodeValue::Disproved,
                    NodeType::Or => NodeValue::Proved,
                }
            } else {
                match root_node_type {
                    NodeType::And => NodeValue::Proved,
                    NodeType::Or => NodeValue::Disproved,
                }
            };
            return None;
        }
        let win = self.board.get_winning_move();
        match win {
            Some(_) => {
                self.value = match self.node_type {
                    NodeType::And => NodeValue::Disproved,
                    NodeType::Or => NodeValue::Proved,
                };
            },
            None => {
                self.value = NodeValue::Unknown;
            },
        }
        win
    }
}

/// A board that is not full has a legal move.
proof fn lemma_not_full_has_move(b: Board)
    requires
        b.wf(),
        !b.is_full_spec(),
    ensures
        legal_count(b, 7) >= 1,
{
    lemma_legal_count_full(b, 7);
    lemma_legal_count_nonneg(b, 7);
}

proof fn lemma_legal_count_full(b: Board, k: int)
    requires
        b.wf(),
        0 <= k <= 7,
    ensures
        legal_count(b, k) == 0 ==> crate::board::heights_sum(b.occupied_bits(), k as nat) == 6 * k,
    decreases k,
{
    if k > 0 {
        lemma_legal_count_full(b, k - 1);
        lemma_legal_count_nonneg(b, k - 1);
        assert(crate::board::is_stack(crate::board::col_bits(b.occupied_bits(), (k - 1) as u64)));
    }
}

proof fn lemma_legal_count_nonneg(b: Board, k: int)
    ensures
        0 <= legal_count(b, k) <= if k < 0 { 0 } else { k },
    decreases k,
{
    if k > 0 {
        lemma_legal_count_nonneg(b, k - 1);
    }
}

/// Counts the legal moves of a board.
fn count_legal_moves(b: Board) -> (r: u64)
    requires
        b.wf(),
    ensures
        r == legal_count(b, 7),
{
    let mut count: u64 = 0;
    let mut column: usize = 0;
    while column < WIDTH
        invariant
            column <= 7,
            b.wf(),
            count == legal_count(b, column as int),
            count <= column,
        decreases 7 - column,
    {
        if b.can_play(column) {
            count = count + 1;
        }
        column = column + 1;
    }
    count
}

/// Proof and disproof numbers of a node, computed from its state and, once
/// it is expanded, from its children's numbers.
fn compute_numbers(g: &Graph, n: &Node) -> (r: (u64, u64))
    requires
        g.wf(),
        node_ok(*n, Seq::empty(), g.nodes.len() as int),
    ensures
        (r.0 as int, r.1 as int) == numbers(g.nodes@, *n),
{
    match n.state {
        NodeState::Expanded => {
            let mut sum: u64 = 0;
            let mut least: u64 = INFINITY;
            let mut column: usize = 0;
            match n.node_type {
                NodeType::And => {
                    while column < WIDTH
                        invariant
                            column <= 7,
                            g.wf(),
                            node_ok(*n, Seq::empty(), g.nodes.len() as int),
                            sum == proof_sum(g.nodes@, *n, column as int),
                            least == disproof_min(g.nodes@, *n, column as int),
                        decreases 7 - column,
                    {
                        match n.children[column] {
                            Some(child) => {
                                let kid_node = &g.nodes[child];
                                let t = sum.saturating_add(kid_node.proof);
                                sum = if t > INFINITY - 1 {
                                    INFINITY - 1
                                } else {
                                    t
                                };
                                if kid_node.disproof < least {
                                    least = kid_node.disproof;
                                }
                            },
                            None => {},
                        }
                        column = column + 1;
                    }
                    if least == 0 {
                        (INFINITY, least)
                    } else {
                        (sum, least)
                    }
                },
                NodeType::Or => {
                    while column < WIDTH
                        invariant
                            column <= 7,
                            g.wf(),
                            node_ok(*n, Seq::empty(), g.nodes.len() as int),
                            sum == disproof_sum(g.nodes@, *n, column as int),
                            least == proof_min(g.nodes@, *n, column as int),
                        decreases 7 - column,
                    {
                        match n.children[column] {
                            Some(child) => {
                                let kid_node = &g.nodes[child];
                                let t = sum.saturating_add(kid_node.disproof);
                                sum = if t > INFINITY - 1 {
                                    INFINITY - 1
                                } else {
                                    t
                                };
                                if kid_node.proof < least {
                                    least = kid_node.proof;
                                }
                            },
                            None => {},
                        }
                        column = column + 1;
                    }
                    if least == 0 {
                        (least, INFINITY)
                    } else {
                        (least, sum)
                    }
                },
            }
        },
        _ => leaf_numbers_of(n),
    }
}

/// Numbers of a node that is evaluated but not expanded.
fn leaf_numbers_of(n: &Node) -> (r: (u64, u64))
    requires
        n.board.wf(),
        n.state == NodeState::Evaluated,
        n.value == NodeValue::Unknown ==> !n.board.is_full_spec(),
    ensures
        (r.0 as int, r.1 as int) == leaf_numbers(*n),
        n.value == NodeValue::Unknown ==> r.0 >= 1 && r.1 >= 1,
{
    match n.value {
        NodeValue::Disproved => (INFINITY, 0),
        NodeValue::Proved => (0, INFINITY),
        NodeValue::Unknown => {
            let child_count = count_legal_moves(n.board);
            proof {
                lemma_not_full_has_move(n.board);
            }
            match n.node_type {
                NodeType::And => (child_count, 1),
                NodeType::Or => (1, child_count),
            }
        },
    }
}

/// Largest number of nodes a search graph reaches: the root, the budget,
/// and the children of the last expansion.
pub const MAX_NODES: usize = 2808;

/// Number of nodes among the first `k` that are not expanded.
pub open spec fn unexpanded(nodes: Seq<Node>, k: int) -> int
    decreases k,
{
    if k <= 0 {
        0
    } else {
        unexpanded(nodes, k - 1) + if nodes[k - 1].state != NodeState::Expanded { 1int } else { 0int }
    }
}

proof fn lemma_unexpanded_bounds(nodes: Seq<Node>, k: int)
    ensures
        0 <= unexpanded(nodes, k) <= if k < 0 { 0 } else { k },
    decreases k,
{
    if k > 0 {
        lemma_unexpanded_bounds(nodes, k - 1);
    }
}

proof fn lemma_unexpanded_tail(nodes: Seq<Node>, a: int, k: int)
    requires
        0 <= a <= k <= nodes.len(),
        forall|j: int| a <= j < k ==> #[trigger] nodes[j].state != NodeState::Expanded,
    ensures
        unexpanded(nodes, k) == unexpanded(nodes, a) + (k - a),
    decreases k,
{
    if k > a {
        lemma_unexpanded_tail(nodes, a, k - 1);
    }
}

proof fn lemma_unexpanded_frame(a: Seq<Node>, b: Seq<Node>, k: int, i: int)
    requires
        0 <= k <= a.len(),
        k <= b.len(),
        forall|j: int| 0 <= j < k && j != i ==> #[trigger] b[j].state == a[j].state,
    ensures
        unexpanded(b, k) == unexpanded(a, k) + if 0 <= i < k {
            (if b[i].state != NodeState::Expanded { 1int } else { 0int }) - (if a[i].state
                != NodeState::Expanded { 1int } else { 0int })
        } else {
            0int
        },
    decreases k,
{
    if k > 0 {
        lemma_unexpanded_frame(a, b, k - 1, i);
    }
}


/// The node's numbers brought up to date with its state and children.
pub open spec fn renumbered(nodes: Seq<Node>, i: int) -> Node {
    Node { proof: numbers(nodes, nodes[i]).0 as u64, disproof: numbers(nodes, nodes[i]).1 as u64, ..nodes[i] }
}

/// Recomputes the proof and disproof numbers of node `i`.
pub fn set_proof_and_disproof_numbers(g: &mut Graph, i: usize)
    requires
        old(g).wf(),
        i < old(g).nodes.len(),
    ensures
        final(g).wf(),
        final(g).nodes@ == old(g).nodes@.update(i as int, renumbered(old(g).nodes@, i as int)),
        final(g).nodes@[i as int].proof as int == numbers(old(g).nodes@, old(g).nodes@[i as int]).0,
        final(g).nodes@[i as int].disproof as int == numbers(old(g).nodes@, old(g).nodes@[i as int]).1,
        old(g).bounded() ==> final(g).bounded(),
        final(g).parents@ == old(g).parents@,
        final(g).index@ == old(g).index@,
{
    let n = g.nodes[i];
    assert(node_ok(n, g.parents@[i as int]@, g.nodes.len() as int));
    let (p, d) = compute_numbers(g, &n);
    let mut n2 = n;
    n2.proof = p;
    n2.disproof = d;
    proof {
        if g.bounded() {
            assert forall|c: int| 0 <= c < 7 && #[trigger] n.children@[c] is Some implies numbers_ok(
                kid(g.nodes@, n, c).proof as int,
                kid(g.nodes@, n, c).disproof as int,
            ) by {
                let j = n.children@[c]->Some_0 as int;
                assert(numbers_ok(g.nodes@[j].proof as int, g.nodes@[j].disproof as int));
            }
            lemma_numbers_ok(g.nodes@, n);
        }
    }
    let ghost before = g.nodes@;
    g.nodes.set(i, n2);
    proof {
        if old(g).bounded() {
            assert forall|j: int| 0 <= j < g.nodes.len() implies numbers_ok(
                #[trigger] g.nodes@[j].proof as int,
                g.nodes@[j].disproof as int,
            ) by {
                if j != i {
                    assert(g.nodes@[j] == before[j]);
                }
            }
        }
        assert forall|j: int| 0 <= j < g.nodes.len() implies node_ok(
            #[trigger] g.nodes@[j],
            g.parents@[j]@,
            g.nodes.len() as int,
        ) by {
            assert(node_ok(old(g).nodes@[j], old(g).parents@[j]@, old(g).nodes.len() as int));
        }
    }
}

/// Whether `x` is among the elements of `v`.
fn contains(v: &Vec<usize>, x: usize) -> (r: bool)
    ensures
        r == v@.contains(x),
{
    let mut k: usize = 0;
    while k < v.len()
        invariant
            k <= v.len(),
            forall|j: int| 0 <= j < k ==> v@[j] != x,
        decreases v.len() - k,
    {
        if v[k] == x {
            return true;
        }
        k = k + 1;
    }
    false
}

/// Recomputes the numbers of node `start` and then of all its ancestors,
/// one generation at a time, each node at most once per generation. When
/// only `start` was out of date, every node is up to date afterwards.
pub fn update_ancestors(g: &mut Graph, start: usize)
    requires
        old(g).wf(),
        old(g).linked(),
        start < old(g).nodes.len(),
        old(g).consistent_except(start as int),
        old(g).bounded(),
    ensures
        old(g).indexed() ==> final(g).indexed(),
        final(g).wf(),
        final(g).linked(),
        final(g).consistent(),
        final(g).bounded(),
        same_shape(old(g).nodes@, final(g).nodes@),
        final(g).parents@ == old(g).parents@,
        final(g).index@ == old(g).index@,
{
    let ghost top = g.nodes@[start as int].board.filled_spec() as int;
    let ghost mut depth: int = 0;
    let mut level: Vec<usize> = Vec::new();
    level.push(start);
    proof {
        assert forall|j: int| 0 <= j < g.nodes.len() && !#[trigger] numbers_current(g.nodes@, j) implies level@.contains(
            j as usize,
        ) by {
            assert(level@[0] == start);
        }
    }
    // Each generation holds one piece fewer than the one before, so the
    // ancestors run out after at most `top` generations.
    while level.len() > 0
        invariant
            g.wf(),
            g.linked(),
            g.bounded(),
            same_shape(old(g).nodes@, g.nodes@),
            g.parents@ == old(g).parents@,
            g.index@ == old(g).index@,
            0 <= depth <= top + 1,
            level.len() > 0 ==> depth <= top,
            forall|k: int|
                0 <= k < level.len() ==> #[trigger] level@[k] < g.nodes.len()
                    && g.nodes@[level@[k] as int].board.filled_spec() == top - depth,
            forall|j: int|
                0 <= j < g.nodes.len() && !#[trigger] numbers_current(g.nodes@, j) ==> level@.contains(j as usize),
        decreases top + 1 - depth,
    {
        let mut next: Vec<usize> = Vec::new();
        let mut k: usize = 0;
        assert(level@.subrange(0, level.len() as int) =~= level@);
        while k < level.len()
            invariant
                g.wf(),
                g.linked(),
                g.bounded(),
                same_shape(old(g).nodes@, g.nodes@),
                g.parents@ == old(g).parents@,
                g.index@ == old(g).index@,
                0 <= depth <= top,
                k <= level.len(),
                forall|t: int|
                    0 <= t < level.len() ==> #[trigger] level@[t] < g.nodes.len()
                        && g.nodes@[level@[t] as int].board.filled_spec() == top - depth,
                forall|t: int|
                    0 <= t < next.len() ==> #[trigger] next@[t] < g.nodes.len()
                        && g.nodes@[next@[t] as int].board.filled_spec() + 1 == top - depth,
                forall|j: int|
                    0 <= j < g.nodes.len() && !#[trigger] numbers_current(g.nodes@, j) ==> level@.subrange(
                        k as int,
                        level.len() as int,
                    ).contains(j as usize) || next@.contains(j as usize),
            decreases level.len() - k,
        {
            let idx = level[k];
            let ghost before = g.nodes@;
            set_proof_and_disproof_numbers(g, idx);
            proof {
                assert(node_ok(before[idx as int], g.parents@[idx as int]@, g.nodes.len() as int));
                // A node is not its own child: a child holds one more piece.
                assert forall|c: int| 0 <= c < 7 && #[trigger] before[idx as int].children@[c] is Some implies
                    before[idx as int].children@[c]->Some_0 != idx by {
                    let ch = before[idx as int].children@[c]->Some_0;
                    assert(g.parents@[ch as int]@.contains(idx));
                    let t = choose|t: int| 0 <= t < g.parents@[ch as int]@.len() && g.parents@[ch as int]@[t] == idx;
                    assert(g.nodes@[g.parents@[ch as int]@[t] as int].board.filled_spec() + 1 == g.nodes@[ch as int].board.filled_spec());
                }
                lemma_numbers_frame(before, g.nodes@, before[idx as int]);
                lemma_numbers_same_links(g.nodes@, before[idx as int], g.nodes@[idx as int]);
                assert(numbers_current(g.nodes@, idx as int));
                assert forall|j: int| 0 <= j < g.nodes.len() && !#[trigger] numbers_current(g.nodes@, j) implies level@.subrange(
                    k + 1,
                    level.len() as int,
                ).contains(j as usize) || next@.contains(j as usize) || g.parents@[idx as int]@.contains(j as usize) by {
                    assert(j != idx);
                    assert(g.nodes@[j] == before[j]);
                    if !g.parents@[idx as int]@.contains(j as usize) {
                        assert(node_ok(before[j], g.parents@[j]@, g.nodes.len() as int));
                        assert forall|c: int| 0 <= c < 7 && #[trigger] before[j].children@[c] is Some implies
                            before[j].children@[c]->Some_0 != idx by {
                            assert(g.nodes@[j].children@[c] is Some);
                        }
                        lemma_numbers_frame(before, g.nodes@, before[j]);
                        assert(!numbers_current(before, j));
                        if !next@.contains(j as usize) {
                            assert(level@.subrange(k as int, level.len() as int).contains(j as usize));
                            let t = choose|t: int| 0 <= t < level@.subrange(k as int, level.len() as int).len()
                                && level@.subrange(k as int, level.len() as int)[t] == j as usize;
                            assert(t != 0);
                            assert(level@.subrange(k + 1, level.len() as int)[t - 1] == j as usize);
                        }
                    }
                }
            }
            let ps = &g.parents[idx];
            assert(node_ok(g.nodes@[idx as int], g.parents@[idx as int]@, g.nodes.len() as int));
            let mut j: usize = 0;
            while j < ps.len()
                invariant
                    g.wf(),
                    g.linked(),
                    g.bounded(),
                    idx < g.nodes.len(),
                    g.nodes@[idx as int].board.filled_spec() == top - depth,
                    ps@ == g.parents@[idx as int]@,
                    j <= ps.len(),
                    forall|t: int| 0 <= t < j ==> next@.contains(#[trigger] ps@[t]),
                    forall|t: int|
                        0 <= t < next.len() ==> #[trigger] next@[t] < g.nodes.len()
                            && g.nodes@[next@[t] as int].board.filled_spec() + 1 == top - depth,
                    forall|u: int|
                        0 <= u < g.nodes.len() && !#[trigger] numbers_current(g.nodes@, u) ==> level@.subrange(
                            k + 1,
                            level.len() as int,
                        ).contains(u as usize) || next@.contains(u as usize) || ps@.contains(u as usize),
                decreases ps.len() - j,
            {
                let p = ps[j];
                let ghost next_before = next@;
                assert(g.nodes@[ps@[j as int] as int].board.filled_spec() + 1 == g.nodes@[idx as int].board.filled_spec());
                if !contains(&next, p) {
                    next.push(p);
                    assert(next@[next.len() - 1] == p);
                }
                proof {
                    assert forall|t: int| 0 <= t < j + 1 implies next@.contains(#[trigger] ps@[t]) by {
                        if t < j {
                            let w = choose|w: int| 0 <= w < next_before.len() && next_before[w] == ps@[t];
                            assert(next@[w] == ps@[t]);
                        }
                    }
                    assert forall|u: int| 0 <= u < g.nodes.len() && !#[trigger] numbers_current(g.nodes@, u) implies level@.subrange(
                        k + 1,
                        level.len() as int,
                    ).contains(u as usize) || next@.contains(u as usize) || ps@.contains(u as usize) by {
                        if next_before.contains(u as usize) {
                            let w = choose|w: int| 0 <= w < next_before.len() && next_before[w] == u as usize;
                            assert(next@[w] == u as usize);
                        }
                    }
                }
                j = j + 1;
            }
            proof {
                assert forall|u: int| 0 <= u < g.nodes.len() && !#[trigger] numbers_current(g.nodes@, u) implies level@.subrange(
                    k + 1,
                    level.len() as int,
                ).contains(u as usize) || next@.contains(u as usize) by {
                    if ps@.contains(u as usize) {
                        let t = choose|t: int| 0 <= t < ps.len() && ps@[t] == u as usize;
                        assert(next@.contains(ps@[t]));
                    }
                }
            }
            k = k + 1;
        }
        proof {
            assert forall|u: int| 0 <= u < g.nodes.len() && !#[trigger] numbers_current(g.nodes@, u) implies next@.contains(u as usize) by {
                assert(level@.subrange(level.len() as int, level.len() as int).len() == 0);
            }
            if next.len() > 0 {
                assert(g.nodes@[next@[0] as int].board.filled_spec() + 1 == top - depth);
            }
            depth = depth + 1;
        }
        level = next;
    }
    proof {
        if old(g).indexed() {
            assert forall|k: u64| #[trigger] g.index@.contains_key(k) implies g.nodes@[g.index@[k] as int].board.key_spec() == k by {
                assert(g.nodes@[g.index@[k] as int].board == old(g).nodes@[g.index@[k] as int].board);
            }
            assert forall|t: int| 0 <= t < g.nodes.len() implies #[trigger] g.index@.contains_key(
                g.nodes@[t].board.key_spec() as u64,
            ) && g.index@[g.nodes@[t].board.key_spec() as u64] == t by {
                assert(g.nodes@[t].board == old(g).nodes@[t].board);
            }
        }
    }
}

/// The column tried `k`-th when looking for the most proving child: the
/// centre first, then outwards.
pub fn preferred_column(k: usize) -> (r: usize)
    requires
        k < 7,
    ensures
        r == order(k as int),
        r < 7,
{
    NODE_SEQUENCE_ORDER[k]
}

/// The child through which the node's deciding number comes: at an `Or`
/// node one whose proof number equals the node's, at an `And` node one
/// whose disproof number does; the first in the preferred column order.
pub open spec fn is_most_proving_child(nodes: Seq<Node>, n: Node, c: int) -> bool {
    &&& 0 <= c < 7
    &&& n.children@[c] is Some
    &&& match n.node_type {
        NodeType::Or => kid(nodes, n, c).proof == n.proof,
        NodeType::And => kid(nodes, n, c).disproof == n.disproof,
    }
}

/// Column tried `k`-th in the preference order.
pub open spec fn order(k: int) -> int {
    seq![3int, 2, 4, 5, 1, 0, 6][k]
}

/// The first column, in preference order from the `k`-th on, of a most
/// proving child of `n`.
pub open spec fn first_from(nodes: Seq<Node>, n: Node, k: int) -> Option<usize>
    decreases 7 - k,
{
    if k < 0 || k >= 7 {
        None
    } else if is_most_proving_child(nodes, n, order(k)) {
        Some(order(k) as usize)
    } else {
        first_from(nodes, n, k + 1)
    }
}

/// The column of the most proving child of `n`.
pub open spec fn first_most_proving(nodes: Seq<Node>, n: Node) -> Option<usize> {
    first_from(nodes, n, 0)
}

/// The node reached from node `i` by following most proving children
/// until a node that is not expanded (at most `fuel` steps).
pub open spec fn most_proving_leaf(nodes: Seq<Node>, i: int, fuel: nat) -> int
    decreases fuel,
{
    if fuel == 0 || nodes[i].state != NodeState::Expanded {
        i
    } else {
        match first_most_proving(nodes, nodes[i]) {
            None => i,
            Some(c) => most_proving_leaf(nodes, nodes[i].children@[c as int]->Some_0 as int, (fuel - 1) as nat),
        }
    }
}

/// Neither proved nor disproved.
pub open spec fn undecided(n: Node) -> bool {
    n.proof != 0 && n.disproof != 0
}

proof fn lemma_first_exists(nodes: Seq<Node>, n: Node, c: int, k: int)
    requires
        0 <= k <= 7,
        is_most_proving_child(nodes, n, c),
        forall|j: int| 0 <= j < k ==> order(j) != c,
    ensures
        first_from(nodes, n, k) is Some,
    decreases 7 - k,
{
    assert(order(0) == 3 && order(1) == 2 && order(2) == 4 && order(3) == 5 && order(4) == 1 && order(5) == 0
        && order(6) == 6);
    if k < 7 && !is_most_proving_child(nodes, n, order(k)) {
        lemma_first_exists(nodes, n, c, k + 1);
    }
}

/// An undecided expanded node of an up-to-date graph has a most proving
/// child, and that child is undecided too.
proof fn lemma_most_proving_child(g: &Graph, i: int)
    requires
        g.wf(),
        g.consistent(),
        g.bounded(),
        0 <= i < g.nodes.len(),
        g.nodes@[i].state == NodeState::Expanded,
        undecided(g.nodes@[i]),
    ensures
        first_most_proving(g.nodes@, g.nodes@[i]) is Some,
        forall|c: int|
            is_most_proving_child(g.nodes@, g.nodes@[i], c) ==> undecided(#[trigger] kid(g.nodes@, g.nodes@[i], c)),
{
    let n = g.nodes@[i];
    assert(numbers_current(g.nodes@, i));
    assert(node_ok(n, g.parents@[i]@, g.nodes.len() as int));
    assert(numbers_ok(n.proof as int, n.disproof as int));
    assert forall|c: int| is_most_proving_child(g.nodes@, n, c) implies undecided(#[trigger] kid(g.nodes@, n, c)) by {
        let j = n.children@[c]->Some_0 as int;
        assert(numbers_ok(g.nodes@[j].proof as int, g.nodes@[j].disproof as int));
    }
    match n.node_type {
        NodeType::Or => {
            lemma_proof_min_is_least(g.nodes@, n, 7);
            let c = choose|c: int|
                0 <= c < 7 && #[trigger] n.children@[c] is Some && proof_min(g.nodes@, n, 7) == kid(g.nodes@, n, c).proof;
            lemma_first_exists(g.nodes@, n, c, 0);
        },
        NodeType::And => {
            lemma_disproof_min_is_least(g.nodes@, n, 7);
            let c = choose|c: int|
                0 <= c < 7 && #[trigger] n.children@[c] is Some && disproof_min(g.nodes@, n, 7) == kid(g.nodes@, n, c).disproof;
            lemma_first_exists(g.nodes@, n, c, 0);
        },
    }
}

/// Whether the child in `column` is a most proving child of `n`.
fn child_matches(g: &Graph, n: &Node, column: usize) -> (r: bool)
    requires
        g.wf(),
        column < 7,
        node_ok(*n, Seq::empty(), g.nodes.len() as int),
    ensures
        r == is_most_proving_child(g.nodes@, *n, column as int),
{
    match n.children[column] {
        Some(child) => {
            let cn = &g.nodes[child];
            match n.node_type {
                NodeType::Or => cn.proof == n.proof,
                NodeType::And => cn.disproof == n.disproof,
            }
        },
        None => false,
    }
}

/// Walks down from `root` through most proving children (at each expanded
/// node the first column, in preference order, whose child carries the
/// node's deciding number) to the first node that is not expanded. The
/// column taken at the root, if the root is expanded, is stored in
/// `best_move`.
pub fn select_most_proving_node(g: &Graph, root: usize, best_move: &mut Option<usize>) -> (r: usize)
    requires
        g.wf(),
        g.linked(),
        g.consistent(),
        g.bounded(),
        root < g.nodes.len(),
        undecided(g.nodes@[root as int]),
    ensures
        r < g.nodes.len(),
        r == most_proving_leaf(g.nodes@, root as int, 43),
        g.nodes@[r as int].state == NodeState::Evaluated,
        g.nodes@[r as int].value == NodeValue::Unknown,
        undecided(g.nodes@[r as int]),
        g.nodes@[root as int].state != NodeState::Expanded ==> r == root && *final(best_move) == *old(best_move),
        g.nodes@[root as int].state == NodeState::Expanded ==> *final(best_move) == first_most_proving(
            g.nodes@,
            g.nodes@[root as int],
        ) && *final(best_move) is Some,
{
    let mut node = root;
    let mut at_root = true;
    let ghost mut fuel: nat = 43;
    proof {
        g.nodes@[root as int].board.lemma_filled_bound();
    }
    // A child holds one piece more than its parent, so the walk ends before
    // the board is full.
    while g.nodes[node].state == NodeState::Expanded
        invariant
            g.wf(),
            g.linked(),
            g.consistent(),
            g.bounded(),
            node < g.nodes.len(),
            undecided(g.nodes@[node as int]),
            most_proving_leaf(g.nodes@, root as int, 43) == most_proving_leaf(g.nodes@, node as int, fuel),
            fuel + g.nodes@[node as int].board.filled_spec() == 43 + g.nodes@[root as int].board.filled_spec(),
            g.nodes@[root as int].board.filled_spec() <= 42,
            at_root ==> node == root && *best_move == *old(best_move),
            !at_root ==> g.nodes@[root as int].state == NodeState::Expanded && *best_move == first_most_proving(
                g.nodes@,
                g.nodes@[root as int],
            ) && *best_move is Some,
        decreases 42 - g.nodes@[node as int].board.filled_spec(),
    {
        let n = g.nodes[node];
        proof {
            n.board.lemma_filled_bound();
            lemma_most_proving_child(g, node as int);
        }
        assert(node_ok(n, g.parents@[node as int]@, g.nodes.len() as int));
        let mut k: usize = 0;
        while !child_matches(g, &n, preferred_column(k))
            invariant
                g.wf(),
                n == g.nodes@[node as int],
                node_ok(n, g.parents@[node as int]@, g.nodes.len() as int),
                k < 7,
                first_from(g.nodes@, n, 0) is Some,
                first_from(g.nodes@, n, 0) == first_from(g.nodes@, n, k as int),
            decreases 7 - k,
        {
            k = k + 1;
        }
        let column = preferred_column(k);
        assert(first_from(g.nodes@, n, 0) == Some(column));
        if at_root {
            *best_move = Some(column);
        }
        let child = n.children[column].unwrap();
        proof {
            assert(undecided(kid(g.nodes@, n, column as int)));
            assert(g.parents@[child as int]@.contains(node));
            let t = choose|t: int| 0 <= t < g.parents@[child as int]@.len() && g.parents@[child as int]@[t] == node;
            assert(g.nodes@[g.parents@[child as int]@[t] as int].board.filled_spec() + 1
                == g.nodes@[child as int].board.filled_spec());
            assert(node_ok(g.nodes@[child as int], g.parents@[child as int]@, g.nodes.len() as int));
            g.nodes@[child as int].board.lemma_filled_bound();
            fuel = (fuel - 1) as nat;
        }
        node = child;
        at_root = false;
    }
    proof {
        let m = g.nodes@[node as int];
        assert(numbers_current(g.nodes@, node as int));
        assert(node_ok(m, g.parents@[node as int]@, g.nodes.len() as int));
    }
    node
}

/// Adds `p` to the parents of node `j`, unless it is there already.
fn add_parent(parents: &mut Vec<Vec<usize>>, j: usize, p: usize)
    requires
        j < old(parents).len(),
    ensures
        final(parents).len() == old(parents).len(),
        forall|t: int| 0 <= t < old(parents).len() && t != j ==> #[trigger] final(parents)@[t] == old(parents)@[t],
        final(parents)@[j as int]@ == if old(parents)@[j as int]@.contains(p) {
            old(parents)@[j as int]@
        } else {
            old(parents)@[j as int]@.push(p)
        },
{
    if !contains(&parents[j], p) {
        parents[j].push(p);
    }
}

/// Expands node `i`: links a child for every legal column, through the
/// canonical form of the position it leads to. A position seen before is
/// shared, and only gains `i` as a parent; a new one is created, evaluated
/// and given its leaf numbers, and counted in `nodes_expanded`.
#[verifier::rlimit(100)]
#[verifier::spinoff_prover]
pub fn develop(g: &mut Graph, i: usize, root_node_type: NodeType, fight: bool, nodes_expanded: &mut usize)
    requires
        old(g).wf(),
        old(g).linked(),
        old(g).consistent(),
        old(g).bounded(),
        old(g).indexed(),
        old(g).evaluated(root_node_type, fight),
        old(g).children_canonical(),
        i < old(g).nodes.len(),
        old(g).nodes@[i as int].state == NodeState::Evaluated,
        old(g).nodes@[i as int].value == NodeValue::Unknown,
        *old(nodes_expanded) <= NODE_BUDGET,
    ensures
        final(g).wf(),
        final(g).linked(),
        final(g).consistent_except(i as int),
        final(g).bounded(),
        final(g).indexed(),
        final(g).evaluated(root_node_type, fight),
        final(g).children_canonical(),
        forall|k: u64|
            old(g).index@.contains_key(k) ==> #[trigger] final(g).index@.contains_key(k) && final(g).index@[k]
                == old(g).index@[k],
        forall|k: u64|
            #[trigger] final(g).index@.contains_key(k) && !old(g).index@.contains_key(k) ==> old(g).nodes.len()
                <= final(g).index@[k],
        forall|b: int, x: usize|
            0 <= b < old(g).nodes.len() && old(g).parents@[b]@.contains(x) ==> #[trigger] final(g).parents@[b]@.contains(x),
        *old(nodes_expanded) <= *final(nodes_expanded) <= *old(nodes_expanded) + 7,
        final(g).nodes.len() == old(g).nodes.len() + (*final(nodes_expanded) - *old(nodes_expanded)),
        final(g).nodes@[i as int].state == NodeState::Expanded,
        final(g).nodes@[i as int].board == old(g).nodes@[i as int].board,
        final(g).nodes@[i as int].node_type == old(g).nodes@[i as int].node_type,
        forall|j: int| 0 <= j < old(g).nodes.len() && j != i ==> #[trigger] final(g).nodes@[j] == old(g).nodes@[j],
        forall|j: int|
            old(g).nodes.len() <= j < final(g).nodes.len() ==> #[trigger] final(g).nodes@[j].state == NodeState::Evaluated,
        forall|c: int|
            0 <= c < 7 && #[trigger] final(g).nodes@[i as int].children@[c] is Some ==> final(g).nodes@[final(g).nodes@[i as int].children@[c]->Some_0 as int].board
                == child_position(old(g).nodes@[i as int].board, c as u64),
        forall|j: int|
            old(g).nodes.len() <= j < final(g).nodes.len() ==> #[trigger] final(g).nodes@[j].node_type != old(g).nodes@[i as int].node_type,
{
    let node = g.nodes[i];
    assert(node_ok(node, g.parents@[i as int]@, g.nodes.len() as int));
    let child_type = match node.node_type {
        NodeType::And => NodeType::Or,
        NodeType::Or => NodeType::And,
    };
    assert(child_type != node.node_type);
    let mut children: [Option<usize>; 7] = [None, None, None, None, None, None, None];
    let mut column: usize = 0;
    while column < WIDTH
        invariant
            column <= 7,
            g.wf(),
            i < old(g).nodes.len(),
            *old(nodes_expanded) <= NODE_BUDGET,
            node == old(g).nodes@[i as int],
            node.board.wf(),
            g.bounded(),
            g.indexed(),
            g.evaluated(root_node_type, fight),
            forall|a: int, c: int|
                0 <= a < g.nodes.len() && a != i && 0 <= c < 7 && #[trigger] g.nodes@[a].children@[c] is Some
                    ==> g.nodes@[g.nodes@[a].children@[c]->Some_0 as int].board == child_position(g.nodes@[a].board, c as u64),
            forall|k: u64|
                old(g).index@.contains_key(k) ==> #[trigger] g.index@.contains_key(k) && g.index@[k] == old(g).index@[k],
            forall|k: u64|
                #[trigger] g.index@.contains_key(k) && !old(g).index@.contains_key(k) ==> old(g).nodes.len() <= g.index@[k],
            child_type != node.node_type,
            old(g).nodes.len() <= g.nodes.len(),
            *old(nodes_expanded) <= *nodes_expanded <= *old(nodes_expanded) + column,
            g.nodes.len() == old(g).nodes.len() + (*nodes_expanded - *old(nodes_expanded)),
            forall|j: int| 0 <= j < old(g).nodes.len() ==> #[trigger] g.nodes@[j] == old(g).nodes@[j],
            forall|t: int, c: int|
                old(g).nodes.len() <= t < g.nodes.len() && 0 <= c < 7 ==> #[trigger] g.nodes@[t].children@[c] is None,
            forall|t: int| old(g).nodes.len() <= t < g.nodes.len() ==> #[trigger] g.nodes@[t].state == NodeState::Evaluated,
            forall|c: int| 0 <= c < 7 && #[trigger] children@[c] is Some ==> {
                let ch = children@[c]->Some_0 as int;
                &&& ch < g.nodes.len()
                &&& g.parents@[ch]@.contains(i)
                &&& g.nodes@[ch].board.filled_spec() == node.board.filled_spec() + 1
                &&& g.nodes@[ch].board == child_position(node.board, c as u64)
            },
            forall|t: int| old(g).nodes.len() <= t < g.nodes.len() ==> #[trigger] g.nodes@[t].node_type != node.node_type,
            forall|c: int| 0 <= c < column ==> (#[trigger] children@[c] is Some <==> node.board.can_play_spec(c as u64)),
            forall|c: int| column <= c < 7 ==> #[trigger] children@[c] is None,
            forall|b: int, x: usize|
                0 <= b < old(g).nodes.len() && old(g).parents@[b]@.contains(x) ==> #[trigger] g.parents@[b]@.contains(x),
            forall|b: int, k: int|
                0 <= b < g.nodes.len() && 0 <= k < g.parents@[b].len() ==> g.nodes@[#[trigger] g.parents@[b]@[k] as int].board.filled_spec()
                    + 1 == g.nodes@[b].board.filled_spec(),
            forall|j: int| 0 <= j < g.nodes.len() ==> #[trigger] numbers_current(g.nodes@, j),
        decreases 7 - column,
    {
        match node.board.make_move(column) {
            Ok(played) => {
                let (child_board, _mirrored) = played.canonical();
                let key = child_board.key();
                // A position seen before is shared: its key identifies it.
                let existing: Option<usize> = match g.index.get(&key) {
                    Some(found) => Some(*found),
                    None => None,
                };
                match existing {
                    Some(j) => {
                        proof {
                            assert(node_ok(g.nodes@[j as int], g.parents@[j as int]@, g.nodes.len() as int));
                            g.nodes@[j as int].board.lemma_key_unique(child_board);
                        }
                        let ghost before = g.parents@;
                        add_parent(&mut g.parents, j, i);
                        children[column] = Some(j);
                        proof {
                            assert(g.parents@[j as int]@.contains(i)) by {
                                if !before[j as int]@.contains(i) {
                                    assert(g.parents@[j as int]@[before[j as int]@.len() as int] == i);
                                }
                            }
                            assert forall|t: int| 0 <= t < g.nodes.len() implies node_ok(
                                #[trigger] g.nodes@[t],
                                g.parents@[t]@,
                                g.nodes.len() as int,
                            ) by {
                                assert(node_ok(g.nodes@[t], before[t]@, g.nodes.len() as int));
                                if t == j {
                                    assert forall|k: int| 0 <= k < g.parents@[t]@.len() implies #[trigger] g.parents@[t]@[k] < g.nodes.len() by {
                                        if k < before[t]@.len() {
                                            assert(before[t]@[k] < g.nodes.len());
                                        }
                                    }
                                }
                            }
                            assert forall|b: int, x: usize|
                                0 <= b < old(g).nodes.len() && old(g).parents@[b]@.contains(x) implies #[trigger] g.parents@[b]@.contains(x) by {
                                if b == j {
                                    assert(before[b]@.contains(x));
                                    let w = choose|w: int| 0 <= w < before[b]@.len() && before[b]@[w] == x;
                                    assert(g.parents@[b]@[w] == x);
                                }
                            }
                            assert forall|b: int, k: int|
                                0 <= b < g.nodes.len() && 0 <= k < g.parents@[b].len() implies g.nodes@[#[trigger] g.parents@[b]@[k] as int].board.filled_spec()
                                    + 1 == g.nodes@[b].board.filled_spec() by {
                                if b == j && k >= before[b].len() {
                                    assert(g.parents@[b]@[k] == i);
                                    assert(g.nodes@[i as int] == node);
                                } else if b == j {
                                    assert(g.parents@[b]@[k] == before[b]@[k]);
                                }
                            }
                            assert forall|c: int| 0 <= c < 7 && #[trigger] children@[c] is Some implies {
                                let ch = children@[c]->Some_0 as int;
                                &&& ch < g.nodes.len()
                                &&& g.parents@[ch]@.contains(i)
                                &&& g.nodes@[ch].board.filled_spec() == node.board.filled_spec() + 1
                                &&& g.nodes@[ch].board == child_position(node.board, c as u64)
                            } by {
                                let ch = children@[c]->Some_0 as int;
                                if ch == j && c != column {
                                    assert(g.parents@[ch]@.contains(i));
                                } else if c != column {
                                    assert(before[ch]@.contains(i));
                                    let w = choose|w: int| 0 <= w < before[ch]@.len() && before[ch]@[w] == i;
                                    assert(g.parents@[ch]@[w] == i);
                                }
                            }
                        }
                    },
                    None => {
                        *nodes_expanded = *nodes_expanded + 1;
                        let mut child = Node::new(child_board, child_type);
                        child.evaluate(root_node_type, fight);
                        let (p, d) = leaf_numbers_of(&child);
                        proof {
                            lemma_numbers_ok(g.nodes@, child);
                        }
                        child.proof = p;
                        child.disproof = d;
                        let new_index = g.nodes.len();
                        let ghost old_nodes = g.nodes@;
                        let ghost old_parents = g.parents@;
                        let ghost old_index = g.index@;
                        assert(forall|t: int|
                            old(g).nodes.len() <= t < old_nodes.len() ==> #[trigger] old_nodes[t].node_type != node.node_type);
                        g.nodes.push(child);
                        let mut ps: Vec<usize> = Vec::new();
                        ps.push(i);
                        g.parents.push(ps);
                        g.index.insert(key, new_index);
                        children[column] = Some(new_index);
                        proof {
                            assert(g.parents@[new_index as int]@ == seq![i]);
                            assert forall|k: u64| #[trigger] g.index@.contains_key(k) implies g.nodes@[g.index@[k] as int].board.key_spec() == k by {
                                if k != key {
                                    assert(g.nodes@[g.index@[k] as int] == old_nodes[g.index@[k] as int]);
                                }
                            }
                            assert forall|t: int| 0 <= t < g.nodes.len() implies #[trigger] g.index@.contains_key(
                                g.nodes@[t].board.key_spec() as u64,
                            ) && g.index@[g.nodes@[t].board.key_spec() as u64] == t by {
                                if t < old_nodes.len() {
                                    assert(g.nodes@[t] == old_nodes[t]);
                                    assert(old_index.contains_key(old_nodes[t].board.key_spec() as u64));
                                }
                            }
                            assert forall|t: int| 0 <= t < g.nodes.len() implies {
                                &&& #[trigger] g.nodes@[t].value == evaluation(g.nodes@[t], root_node_type, fight)
                                &&& g.nodes@[t].node_type == if (g.nodes@[t].board.filled_spec() - g.nodes@[0].board.filled_spec()) % 2 == 0 {
                                    root_node_type
                                } else {
                                    opposite(root_node_type)
                                }
                            } by {
                                assert(g.nodes@[0] == old_nodes[0]);
                                if t < old_nodes.len() {
                                    assert(g.nodes@[t] == old_nodes[t]);
                                } else {
                                    assert(g.nodes@[t] == child);
                                    assert(node == old_nodes[i as int]);
                                }
                            }
                            assert forall|a: int, c: int|
                                0 <= a < g.nodes.len() && a != i && 0 <= c < 7 && #[trigger] g.nodes@[a].children@[c] is Some
                                    implies g.nodes@[g.nodes@[a].children@[c]->Some_0 as int].board == child_position(g.nodes@[a].board, c as u64) by {
                                if a < old_nodes.len() {
                                    assert(g.nodes@[a] == old_nodes[a]);
                                    let ch = old_nodes[a].children@[c]->Some_0 as int;
                                    assert(node_ok(old_nodes[a], old_parents[a]@, old_nodes.len() as int));
                                    assert(g.nodes@[ch] == old_nodes[ch]);
                                }
                            }
                            assert forall|t: int| 0 <= t < g.nodes.len() implies numbers_ok(
                                #[trigger] g.nodes@[t].proof as int,
                                g.nodes@[t].disproof as int,
                            ) by {
                                if t < old_nodes.len() {
                                    assert(g.nodes@[t] == old_nodes[t]);
                                }
                            }
                            assert(g.parents@[new_index as int]@[0] == i);
                            assert forall|t: int| 0 <= t < g.nodes.len() implies node_ok(
                                #[trigger] g.nodes@[t],
                                g.parents@[t]@,
                                g.nodes.len() as int,
                            ) by {
                                if t < old_nodes.len() {
                                    assert(g.nodes@[t] == old_nodes[t]);
                                    assert(g.parents@[t] == old_parents[t]);
                                    assert(node_ok(old_nodes[t], old_parents[t]@, old_nodes.len() as int));
                                } else {
                                    assert(g.nodes@[t] == child);
                                }
                            }
                            assert forall|b: int, x: usize|
                                0 <= b < old(g).nodes.len() && old(g).parents@[b]@.contains(x) implies #[trigger] g.parents@[b]@.contains(x) by {
                                assert(g.parents@[b] == old_parents[b]);
                            }
                            assert forall|b: int, k: int|
                                0 <= b < g.nodes.len() && 0 <= k < g.parents@[b].len() implies g.nodes@[#[trigger] g.parents@[b]@[k] as int].board.filled_spec()
                                    + 1 == g.nodes@[b].board.filled_spec() by {
                                if b < old_nodes.len() {
                                    assert(g.parents@[b] == old_parents[b]);
                                    assert(old_parents[b]@[k] < old_nodes.len()) by {
                                        assert(node_ok(old_nodes[b], old_parents[b]@, old_nodes.len() as int));
                                    }
                                } else {
                                    assert(g.parents@[b]@[k] == i);
                                    assert(g.nodes@[i as int] == node);
                                }
                            }
                            assert forall|t: int| old(g).nodes.len() <= t < g.nodes.len() implies #[trigger] g.nodes@[t].node_type
                                != node.node_type by {
                                if t < old_nodes.len() {
                                    assert(g.nodes@[t] == old_nodes[t]);
                                } else {
                                    assert(g.nodes@[t] == child);
                                    assert(child.node_type == child_type);
                                }
                            }
                            assert forall|j: int| 0 <= j < g.nodes.len() implies #[trigger] numbers_current(g.nodes@, j) by {
                                if j < old_nodes.len() {
                                    assert(numbers_current(old_nodes, j));
                                    assert(node_ok(old_nodes[j], old_parents[j]@, old_nodes.len() as int));
                                    lemma_numbers_frame(old_nodes, g.nodes@, old_nodes[j]);
                                }
                            }
                            assert forall|c: int| 0 <= c < 7 && #[trigger] children@[c] is Some implies {
                                let ch = children@[c]->Some_0 as int;
                                &&& ch < g.nodes.len()
                                &&& g.parents@[ch]@.contains(i)
                                &&& g.nodes@[ch].board.filled_spec() == node.board.filled_spec() + 1
                                &&& g.nodes@[ch].board == child_position(node.board, c as u64)
                            } by {
                                let ch = children@[c]->Some_0 as int;
                                if c != column {
                                    assert(g.parents@[ch] == old_parents[ch]);
                                    assert(g.nodes@[ch] == old_nodes[ch]);
                                }
                            }
                        }
                    },
                }
            },
            Err(_) => {},
        }
        column = column + 1;
    }
    let mut expanded = node;
    expanded.state = NodeState::Expanded;
    expanded.children = children;
    let ghost old_nodes = g.nodes@;
    g.nodes.set(i, expanded);
    proof {
        assert forall|k: u64| #[trigger] g.index@.contains_key(k) implies g.nodes@[g.index@[k] as int].board.key_spec() == k by {
            assert(g.nodes@[g.index@[k] as int].board == old_nodes[g.index@[k] as int].board);
        }
        assert forall|t: int| 0 <= t < g.nodes.len() implies #[trigger] g.index@.contains_key(
            g.nodes@[t].board.key_spec() as u64,
        ) && g.index@[g.nodes@[t].board.key_spec() as u64] == t by {
            assert(g.nodes@[t].board == old_nodes[t].board);
        }
        assert forall|t: int| 0 <= t < g.nodes.len() implies {
            &&& #[trigger] g.nodes@[t].value == evaluation(g.nodes@[t], root_node_type, fight)
            &&& g.nodes@[t].node_type == if (g.nodes@[t].board.filled_spec() - g.nodes@[0].board.filled_spec()) % 2 == 0 {
                root_node_type
            } else {
                opposite(root_node_type)
            }
        } by {
            assert(g.nodes@[t].board == old_nodes[t].board);
            assert(g.nodes@[0].board == old_nodes[0].board);
        }
        assert forall|a: int, c: int|
            0 <= a < g.nodes.len() && 0 <= c < 7 && #[trigger] g.nodes@[a].children@[c] is Some implies g.nodes@[g.nodes@[a].children@[c]->Some_0 as int].board
                == child_position(g.nodes@[a].board, c as u64) by {
            let ch = g.nodes@[a].children@[c]->Some_0 as int;
            assert(g.nodes@[ch].board == old_nodes[ch].board);
            if a != i {
                assert(g.nodes@[a] == old_nodes[a]);
            }
        }
        assert forall|t: int| 0 <= t < g.nodes.len() implies numbers_ok(
            #[trigger] g.nodes@[t].proof as int,
            g.nodes@[t].disproof as int,
        ) by {
            assert(numbers_ok(old_nodes[t].proof as int, old_nodes[t].disproof as int));
        }
        assert forall|t: int| 0 <= t < g.nodes.len() implies node_ok(
            #[trigger] g.nodes@[t],
            g.parents@[t]@,
            g.nodes.len() as int,
        ) by {
            assert(node_ok(old_nodes[t], g.parents@[t]@, g.nodes.len() as int));
        }
        assert forall|a: int, c: int|
            0 <= a < g.nodes.len() && 0 <= c < 7 && #[trigger] g.nodes@[a].children@[c] is Some implies g.parents@[g.nodes@[a].children@[c]->Some_0 as int]@.contains(
            a as usize,
        ) by {
            if a != i && a < old(g).nodes.len() {
                assert(old(g).nodes@[a].children@[c] is Some);
                let ch = old(g).nodes@[a].children@[c]->Some_0 as int;
                assert(old(g).parents@[ch]@.contains(a as usize));
                assert(node_ok(old(g).nodes@[a], old(g).parents@[a]@, old(g).nodes.len() as int));
            }
        }
        assert forall|j: int| 0 <= j < g.nodes.len() && j != i implies #[trigger] numbers_current(g.nodes@, j) by {
            assert(numbers_current(old_nodes, j));
            assert(node_ok(old_nodes[j], g.parents@[j]@, g.nodes.len() as int));
            lemma_numbers_frame(old_nodes, g.nodes@, old_nodes[j]);
        }
    }
}

/// The outcome a node's numbers show.
pub open spec fn outcome(n: Node) -> NodeValue {
    if n.proof == 0 {
        NodeValue::Proved
    } else if n.disproof == 0 {
        NodeValue::Disproved
    } else {
        NodeValue::Unknown
    }
}

/// What a search from `root_board` hands back: a graph of at most
/// `MAX_NODES` nodes, one per position, rooted at node 0 on the board, whose
/// nodes hold their evaluations and alternating roles, whose children are the
/// canonical positions after each legal move, and whose numbers are up to
/// date and in range; the root's outcome, undecided only when the node
/// budget ran out; a legal best column, present whenever a root that is not
/// full is proved; and an immediate win found without any expansion.
pub open spec fn search_result(root_board: Board, fight: bool, best: Option<usize>, value: NodeValue, g: Graph) -> bool {
    &&& g.wf()
    &&& g.nodes.len() <= MAX_NODES
    &&& g.evaluated(NodeType::Or, fight)
    &&& g.children_canonical()
    &&& g.one_node_per_position()
    &&& value == NodeValue::Proved && !root_board.is_full_spec() ==> best is Some
    &&& g.linked()
    &&& g.consistent()
    &&& g.bounded()
    &&& g.indexed()
    &&& g.nodes.len() >= 1
    &&& g.nodes@[0].board == root_board
    &&& g.nodes@[0].node_type == NodeType::Or
    &&& value == outcome(g.nodes@[0])
    &&& value == NodeValue::Unknown ==> g.nodes.len() > NODE_BUDGET + 1
    &&& best is Some ==> best->Some_0 < 7 && root_board.can_play_spec(best->Some_0 as u64)
    &&& !root_board.is_full_spec() && root_board.first_winning_from(0) is Some ==> best
        == root_board.first_winning_from(0) && value == NodeValue::Proved && g.nodes.len() == 1
}

/// Runs a proof-number search from `root_board`, with the side to move as
/// the attacker. Returns the best column recorded at the root, the root's
/// outcome, and the search graph (its root is node 0).
pub fn heuristic_proof_number_search(root_board: Board, fight: bool) -> (r: (Option<usize>, NodeValue, Graph))
    requires
        root_board.wf(),
    ensures
        search_result(root_board, fight, r.0, r.1, r.2),
{
    let mut root = Node::new(root_board, NodeType::Or);
    let mut best_move = root.evaluate(NodeType::Or, fight);
    let ghost first_best = best_move;
    let (p, d) = leaf_numbers_of(&root);
    proof {
        lemma_numbers_ok(Seq::empty(), root);
    }
    root.proof = p;
    root.disproof = d;
    let mut g = Graph { nodes: Vec::new(), parents: Vec::new(), index: HashMap::new() };
    let key = root_board.key();
    g.nodes.push(root);
    g.parents.push(Vec::new());
    g.index.insert(key, 0);
    let mut nodes_expanded: usize = 0;
    let ghost decided = !root_board.is_full_spec() && root_board.first_winning_from(0) is Some;
    proof {
        assert(g.parents@[0]@.len() == 0);
        assert(numbers_current(g.nodes@, 0));
        assert(numbers_ok(g.nodes@[0].proof as int, g.nodes@[0].disproof as int));
        assert(g.index@ == Map::<u64, usize>::empty().insert(key, 0));
        assert(g.nodes@[0].board == root_board);
    }
    while g.nodes[0].proof != 0 && g.nodes[0].disproof != 0 && nodes_expanded <= NODE_BUDGET
        invariant
            g.wf(),
            g.linked(),
            g.consistent(),
            g.bounded(),
            g.indexed(),
            g.evaluated(NodeType::Or, fight),
            g.children_canonical(),
            g.nodes.len() >= 1,
            g.nodes@[0].board == root_board,
            first_best == if root_board.is_full_spec() { None } else { root_board.first_winning_from(0) },
            g.nodes@[0].state != NodeState::Expanded ==> best_move == first_best,
            g.nodes@[0].node_type == NodeType::Or,
            best_move is Some ==> best_move->Some_0 < 7 && root_board.can_play_spec(best_move->Some_0 as u64),
            decided ==> g.nodes@[0].proof == 0 && best_move == root_board.first_winning_from(0) && g.nodes.len() == 1,
            g.nodes.len() == 1 + nodes_expanded,
            nodes_expanded <= NODE_BUDGET + 7,
        decreases 2 * (MAX_NODES - g.nodes.len()) + unexpanded(g.nodes@, g.nodes.len() as int),
    {
        proof {
            lemma_unexpanded_bounds(g.nodes@, g.nodes.len() as int);
        }
        let leaf = select_most_proving_node(&g, 0, &mut best_move);
        proof {
            if g.nodes@[0].state == NodeState::Expanded {
                let c = best_move->Some_0;
                assert(first_from(g.nodes@, g.nodes@[0], 0) == Some(c));
                lemma_first_is_child(g.nodes@, g.nodes@[0], 0);
                assert(node_ok(g.nodes@[0], g.parents@[0]@, g.nodes.len() as int));
            }
        }
        let ghost before = g.nodes@;
        develop(&mut g, leaf, NodeType::Or, fight, &mut nodes_expanded);
        let ghost mid = g.nodes@;
        update_ancestors(&mut g, leaf);
        proof {
            lemma_unexpanded_frame(before, mid, before.len() as int, leaf as int);
            lemma_unexpanded_tail(mid, before.len() as int, mid.len() as int);
            assert forall|j: int| 0 <= j < mid.len() && j != -1 implies #[trigger] g.nodes@[j].state == mid[j].state by {
                assert(g.nodes@[j].board == mid[j].board);
            }
            lemma_unexpanded_frame(mid, g.nodes@, mid.len() as int, -1);
            lemma_unexpanded_bounds(g.nodes@, g.nodes.len() as int);
            assert forall|x: int, c: int|
                0 <= x < mid.len() && 0 <= c < 7 && #[trigger] mid[x].children@[c] is Some implies mid[x].children@[c]->Some_0
                    < mid.len() by {
                assert(g.nodes@[x].board == mid[x].board);
                assert(node_ok(g.nodes@[x], g.parents@[x]@, g.nodes.len() as int));
            }
            lemma_shape_keeps(mid, g.nodes@, NodeType::Or, fight);
            assert(g.nodes@[0].board == mid[0].board);
            assert(g.nodes@[0].node_type == mid[0].node_type);
        }
    }
    let value = if g.nodes[0].proof == 0 {
        NodeValue::Proved
    } else if g.nodes[0].disproof == 0 {
        NodeValue::Disproved
    } else {
        NodeValue::Unknown
    };
    // A root proved by its own expansion has no column recorded yet: take
    // the child that proves it.
    if g.nodes[0].proof == 0 && best_move.is_none() && g.nodes[0].state == NodeState::Expanded {
        best_move = Some(proving_column(&g, 0));
    }
    proof {
        g.lemma_one_node_per_position();
        let r = g.nodes@[0];
        assert(numbers_current(g.nodes@, 0));
        assert(node_ok(r, g.parents@[0]@, g.nodes.len() as int));
    }
    (best_move, value, g)
}

/// The column of the most proving child of a proved expanded node.
fn proving_column(g: &Graph, i: usize) -> (r: usize)
    requires
        g.wf(),
        g.consistent(),
        g.bounded(),
        i < g.nodes.len(),
        g.nodes@[i as int].state == NodeState::Expanded,
        g.nodes@[i as int].node_type == NodeType::Or,
        g.nodes@[i as int].proof == 0,
    ensures
        r < 7,
        Some(r) == first_most_proving(g.nodes@, g.nodes@[i as int]),
        g.nodes@[i as int].board.can_play_spec(r as u64),
{
    let n = g.nodes[i];
    proof {
        assert(numbers_current(g.nodes@, i as int));
        assert(node_ok(n, g.parents@[i as int]@, g.nodes.len() as int));
        lemma_proof_min_is_least(g.nodes@, n, 7);
        let c = choose|c: int|
            0 <= c < 7 && #[trigger] n.children@[c] is Some && proof_min(g.nodes@, n, 7) == kid(g.nodes@, n, c).proof;
        lemma_first_exists(g.nodes@, n, c, 0);
    }
    let mut k: usize = 0;
    while !child_matches(g, &n, preferred_column(k))
        invariant
            g.wf(),
            n == g.nodes@[i as int],
            node_ok(n, g.parents@[i as int]@, g.nodes.len() as int),
            k < 7,
            first_from(g.nodes@, n, 0) is Some,
            first_from(g.nodes@, n, 0) == first_from(g.nodes@, n, k as int),
        decreases 7 - k,
    {
        k = k + 1;
    }
    let column = preferred_column(k);
    proof {
        lemma_first_is_child(g.nodes@, n, 0);
    }
    column
}

proof fn lemma_first_is_child(nodes: Seq<Node>, n: Node, k: int)
    requires
        0 <= k <= 7,
    ensures
        first_from(nodes, n, k) is Some ==> is_most_proving_child(nodes, n, first_from(nodes, n, k)->Some_0 as int),
    decreases 7 - k,
{
    if k < 7 {
        lemma_first_is_child(nodes, n, k + 1);
    }
}

/// The answer given for a search result: the best column, mirrored back
/// when the search ran on the mirror image, and only for a proved root.
pub open spec fn answer(best: Option<usize>, value: NodeValue, mirrored: bool) -> Option<usize> {
    if value == NodeValue::Proved && best is Some {
        if mirrored {
            Some((6 - best->Some_0) as usize)
        } else {
            best
        }
    } else {
        None
    }
}

/// `r` is the answer for some result of a search on the canonical form of
/// `board`.
pub open spec fn answers_from_search(board: Board, fight: bool, r: Option<usize>) -> bool {
    let cb = canonical_spec(board, board.mirror_spec());
    exists|best: Option<usize>, value: NodeValue, g: Graph|
        #![trigger search_result(cb.0, fight, best, value, g)]
        search_result(cb.0, fight, best, value, g) && r == answer(best, value, cb.1)
}

/// Where the canonical form of `board` has an immediate win, `r` is that
/// winning column, mirrored back when needed.
pub open spec fn immediate_answer(board: Board, r: Option<usize>) -> bool {
    let cb = canonical_spec(board, board.mirror_spec());
    !cb.0.is_full_spec() && cb.0.first_winning_from(0) is Some ==> r == answer(
        cb.0.first_winning_from(0),
        NodeValue::Proved,
        cb.1,
    )
}

/// The column the search proves best for the side to move, or `None` when
/// the search neither proves the position within its budget nor finds a move.
pub fn heuristic_best_play(board: Board, fight: bool) -> (r: Option<usize>)
    requires
        board.wf(),
    ensures
        r is Some ==> r->Some_0 < 7 && board.can_play_spec(r->Some_0 as u64),
        answers_from_search(board, fight, r),
        immediate_answer(board, r),
{
    let (node_board, mirrored) = board.canonical();
    let (best_move, value, graph) = heuristic_proof_number_search(node_board, fight);
    proof {
        assert(search_result(node_board, fight, best_move, value, graph));
    }
    match value {
        NodeValue::Proved => match best_move {
            Some(column) => Some(
                if mirrored {
                    WIDTH - 1 - column
                } else {
                    column
                },
            ),
            None => None,
        },
        _ => None,
    }
}

/// In a graph whose numbers are up to date, as `update_ancestors` leaves
/// every graph that `develop` hands it, an expanded `Or` node's proof number
/// is the least of its children's (capped at `INFINITY`), and an expanded
/// `And` node's disproof number is the least of its children's.
pub proof fn lemma_min_rule(g: &Graph, i: int)
    requires
        g.consistent(),
        0 <= i < g.nodes.len(),
        g.nodes@[i].state == NodeState::Expanded,
    ensures
        g.nodes@[i].node_type == NodeType::Or ==> g.nodes@[i].proof == proof_min(g.nodes@, g.nodes@[i], 7),
        g.nodes@[i].node_type == NodeType::And ==> g.nodes@[i].disproof == disproof_min(g.nodes@, g.nodes@[i], 7),
{
    assert(numbers_current(g.nodes@, i));
}

/// `proof_min` is the least of `INFINITY` and the children's proof numbers.
pub proof fn lemma_proof_min_is_least(nodes: Seq<Node>, n: Node, k: int)
    requires
        0 <= k <= 7,
    ensures
        proof_min(nodes, n, k) <= INFINITY,
        forall|c: int| 0 <= c < k && #[trigger] n.children@[c] is Some ==> proof_min(nodes, n, k) <= kid(nodes, n, c).proof,
        proof_min(nodes, n, k) == INFINITY || exists|c: int|
            0 <= c < k && #[trigger] n.children@[c] is Some && proof_min(nodes, n, k) == kid(nodes, n, c).proof,
    decreases k,
{
    if k > 0 {
        lemma_proof_min_is_least(nodes, n, k - 1);
    }
}

/// `disproof_min` is the least of `INFINITY` and the children's disproof numbers.
pub proof fn lemma_disproof_min_is_least(nodes: Seq<Node>, n: Node, k: int)
    requires
        0 <= k <= 7,
    ensures
        disproof_min(nodes, n, k) <= INFINITY,
        forall|c: int| 0 <= c < k && #[trigger] n.children@[c] is Some ==> disproof_min(nodes, n, k) <= kid(nodes, n, c).disproof,
        disproof_min(nodes, n, k) == INFINITY || exists|c: int|
            0 <= c < k && #[trigger] n.children@[c] is Some && disproof_min(nodes, n, k) == kid(nodes, n, c).disproof,
    decreases k,
{
    if k > 0 {
        lemma_disproof_min_is_least(nodes, n, k - 1);
    }
}

proof fn lemma_node_numbers_determined(ga: &Graph, gb: &Graph, j: int, f: int)
    requires
        ga.wf(),
        gb.wf(),
        ga.linked(),
        ga.consistent(),
        gb.consistent(),
        same_shape(ga.nodes@, gb.nodes@),
        0 <= j < ga.nodes.len(),
        f == 42 - ga.nodes@[j].board.filled_spec(),
    ensures
        ga.nodes@[j].proof == gb.nodes@[j].proof,
        ga.nodes@[j].disproof == gb.nodes@[j].disproof,
    decreases f,
{
    let n = ga.nodes@[j];
    assert(node_ok(n, ga.parents@[j]@, ga.nodes.len() as int));
    n.board.lemma_filled_bound();
    assert forall|c: int| 0 <= c < 7 && #[trigger] n.children@[c] is Some implies {
        &&& kid(gb.nodes@, n, c).proof == kid(ga.nodes@, n, c).proof
        &&& kid(gb.nodes@, n, c).disproof == kid(ga.nodes@, n, c).disproof
    } by {
        let ch = n.children@[c]->Some_0 as int;
        assert(ga.parents@[ch]@.contains(j as usize));
        let t = choose|t: int| 0 <= t < ga.parents@[ch]@.len() && ga.parents@[ch]@[t] == j as usize;
        assert(ga.nodes@[ga.parents@[ch]@[t] as int].board.filled_spec() + 1 == ga.nodes@[ch].board.filled_spec());
        assert(node_ok(ga.nodes@[ch], ga.parents@[ch]@, ga.nodes.len() as int));
        ga.nodes@[ch].board.lemma_filled_bound();
        lemma_node_numbers_determined(ga, gb, ch, 42 - ga.nodes@[ch].board.filled_spec());
    }
    lemma_numbers_frame(ga.nodes@, gb.nodes@, n);
    assert(gb.nodes@[j].board == n.board);
    lemma_numbers_same_links(gb.nodes@, n, gb.nodes@[j]);
    assert(numbers_current(ga.nodes@, j));
    assert(numbers_current(gb.nodes@, j));
}

/// The numbers of an up-to-date graph follow from its nodes and links
/// alone: two up-to-date graphs of the same shape are the same, node for
/// node. So `update_ancestors` leaves exactly one possible graph.
pub proof fn lemma_numbers_determined(ga: &Graph, gb: &Graph)
    requires
        ga.wf(),
        gb.wf(),
        ga.linked(),
        ga.consistent(),
        gb.consistent(),
        same_shape(ga.nodes@, gb.nodes@),
    ensures
        ga.nodes@ == gb.nodes@,
{
    assert forall|j: int| 0 <= j < ga.nodes.len() implies #[trigger] ga.nodes@[j] == gb.nodes@[j] by {
        lemma_node_numbers_determined(ga, gb, j, 42 - ga.nodes@[j].board.filled_spec());
        assert(gb.nodes@[j].board == ga.nodes@[j].board);
    }
    assert(ga.nodes@ =~= gb.nodes@);
}

} // verus!
