use crate::game::{
    lemma_no_moves_iff_terminal, lemma_open_columns_have_room, lemma_open_columns_sorted, Game, GameView, Player, Token,
};
use petgraph::graph::NodeIndex;
use petgraph::visit::EdgeRef;
use petgraph::Graph;
use rand::seq::SliceRandom;
use vstd::prelude::*;

verus! {

/// Relies on rand's `SliceRandom::choose` with `thread_rng`: `None` exactly for
/// an empty list, otherwise one of its elements.
#[verifier::external_body]
fn choose_one(items: &Vec<usize>) -> (r: Option<usize>)
    ensures
        r is None <==> items@.len() == 0,
        r matches Some(x) ==> items@.contains(x),
{
    items.choose(&mut rand::thread_rng()).copied()
}

#[verifier::external_type_specification]
#[verifier::external_body]
#[verifier::reject_recursive_types(N)]
#[verifier::reject_recursive_types(E)]
#[verifier::reject_recursive_types(Ty)]
#[verifier::reject_recursive_types(Ix)]
pub struct ExGraph<N, E, Ty, Ix>(petgraph::Graph<N, E, Ty, Ix>);

#[verifier::external_type_specification]
#[verifier::external_body]
pub struct ExDirected(petgraph::Directed);

/// The edges of a graph as (source, target, weight), in the order they were added.
pub uninterp spec fn graph_edges(g: Graph<(), usize>) -> Seq<(usize, usize, usize)>;

/// The number of nodes of a graph.
pub uninterp spec fn graph_node_count(g: Graph<(), usize>) -> nat;

/// Relies on `petgraph::Graph::new`: a graph without nodes or edges.
#[verifier::external_body]
fn graph_new() -> (r: Graph<(), usize>)
    ensures
        graph_edges(r) == Seq::<(usize, usize, usize)>::empty(),
        graph_node_count(r) == 0,
{
    Graph::new()
}

/// Relies on `petgraph::Graph::add_node`: the new node's index is the old node
/// count; it panics only at the index type's maximum (`u32::MAX`).
#[verifier::external_body]
fn graph_add_node(g: &mut Graph<(), usize>) -> (r: usize)
    requires
        graph_node_count(*old(g)) < u32::MAX,
    ensures
        r == graph_node_count(*old(g)),
        graph_node_count(*final(g)) == graph_node_count(*old(g)) + 1,
        graph_edges(*final(g)) == graph_edges(*old(g)),
{
    g.add_node(()).index()
}

/// Relies on `petgraph::Graph::add_edge`: appends the edge; it panics only for
/// a node that does not exist or at the index type's maximum of edges.
#[verifier::external_body]
fn graph_add_edge(g: &mut Graph<(), usize>, a: usize, b: usize, w: usize)
    requires
        a < graph_node_count(*old(g)),
        b < graph_node_count(*old(g)),
        graph_edges(*old(g)).len() < u32::MAX,
    ensures
        graph_edges(*final(g)) == graph_edges(*old(g)).push((a, b, w)),
        graph_node_count(*final(g)) == graph_node_count(*old(g)),
{
    g.add_edge(NodeIndex::new(a), NodeIndex::new(b), w);
}

/// Relies on `petgraph::Graph::edge_count`: the number of edges added.
#[verifier::external_body]
fn graph_edge_count(g: &Graph<(), usize>) -> (r: usize)
    ensures
        r == graph_edges(*g).len(),
{
    g.edge_count()
}

/// Relies on `petgraph::Graph::edges_directed` with `Outgoing` on a directed
/// graph: it walks the node's list of outgoing edges, which `add_edge` extends
/// at the front, so the most recently added edge comes first. Each edge is
/// handed out as (weight, target).
#[verifier::external_body]
fn graph_out_edges(g: &Graph<(), usize>, a: usize) -> (r: Vec<(usize, usize)>)
    requires
        a < graph_node_count(*g),
    ensures
        r@ == out_edges(graph_edges(*g), a as int),
{
    g.edges_directed(NodeIndex::new(a), petgraph::Outgoing).map(|e| (*e.weight(), e.target().index())).collect()
}

/// The edges leaving node `n` in `arcs`, as (weight, target), the most
/// recently added first.
pub open spec fn out_edges(arcs: Seq<(usize, usize, usize)>, n: int) -> Seq<(usize, usize)>
    decreases arcs.len(),
{
    if arcs.len() == 0 {
        Seq::empty()
    } else {
        let rest = out_edges(arcs.drop_last(), n);
        let a = arcs.last();
        if a.0 == n {
            seq![(a.2, a.1)] + rest
        } else {
            rest
        }
    }
}

proof fn lemma_out_edges_push(arcs: Seq<(usize, usize, usize)>, a: (usize, usize, usize))
    ensures
        forall|n: int|
            #[trigger] out_edges(arcs.push(a), n) == if a.0 == n {
                seq![(a.2, a.1)] + out_edges(arcs, n)
            } else {
                out_edges(arcs, n)
            },
{
    assert(arcs.push(a).drop_last() =~= arcs);
}

proof fn lemma_out_edges_absent(arcs: Seq<(usize, usize, usize)>, n: int)
    requires
        forall|i: int| 0 <= i < arcs.len() ==> (#[trigger] arcs[i]).0 != n,
    ensures
        out_edges(arcs, n).len() == 0,
    decreases arcs.len(),
{
    if arcs.len() > 0 {
        lemma_out_edges_absent(arcs.drop_last(), n);
    }
}

/// `w` on even steps of a path, `-w` on odd ones.
pub open spec fn alternate(w: int, i: int) -> int {
    if i % 2 == 0 {
        w
    } else {
        -w
    }
}

/// +1 when the winner is `root_player`, -1 when it is the other player, 0 for
/// a draw.
pub open spec fn reward_of(winner: Option<Player>, root_player: Player) -> int {
    match winner {
        Some(p) => if p == root_player {
            1int
        } else {
            -1int
        },
        None => 0int,
    }
}

/// The model of the search tree: nodes numbered from 0, each with its board,
/// its summed reward and visit count, and its outgoing edges as (move, child),
/// the most recently added first.
pub struct MctsView {
    pub states: Seq<GameView>,
    pub values: Seq<int>,
    pub visits: Seq<int>,
    pub edges: Seq<Seq<(usize, usize)>>,
    pub edge_count: int,
    pub root: int,
}

impl MctsView {
    pub open spec fn len(self) -> int {
        self.states.len() as int
    }

    /// Edge `j` of node `i` leads to a later node, whose board is that of `i`
    /// after the turn passes and the edge's move is played.
    pub open spec fn edge_ok(self, i: int, j: int) -> bool {
        let (m, t) = self.edges[i][j];
        &&& i < t < self.len()
        &&& self.states[i].can_drop(m as int)
        &&& self.states[t as int] == self.states[i].switched().dropped(m as int)
    }

    /// Only a node whose game has not ended has children.
    pub open spec fn expanded_only_if_open(self) -> bool {
        forall|i: int| 0 <= i < self.len() && #[trigger] self.edges[i].len() > 0 ==> !self.states[i].terminal()
    }

    /// The edges leaving a node carry distinct moves.
    pub open spec fn moves_distinct(self) -> bool {
        forall|i: int, j: int, k: int|
            0 <= i < self.len() && 0 <= j < k < self.edges[i].len() ==> #[trigger] self.edges[i][j].0
                != #[trigger] self.edges[i][k].0
    }

    pub open spec fn is_child(self, p: int, c: int) -> bool {
        exists|j: int| 0 <= j < self.edges[p].len() && #[trigger] self.edges[p][j].1 == c
    }

    /// A path from the root to a node without children.
    pub open spec fn valid_path(self, p: Seq<usize>) -> bool {
        &&& p.len() > 0
        &&& p[0] == self.root
        &&& forall|i: int| 0 <= i < p.len() ==> #[trigger] p[i] < self.len()
        &&& forall|i: int| 0 <= i < p.len() - 1 ==> #[trigger] self.is_child(p[i] as int, p[i + 1] as int)
        &&& self.edges[p.last() as int].len() == 0
    }

    /// Counters along `p` leave room for one more visit, and the graph for one
    /// more expansion.
    pub open spec fn has_room(self, p: Seq<usize>) -> bool {
        &&& self.len() + 7 < u32::MAX
        &&& self.edge_count + 7 < u32::MAX
        &&& p.len() + 1 < 0x1000_0000
        &&& forall|i: int| 0 <= i < p.len() ==> #[trigger] self.visits[p[i] as int] + p.len() + 1 <= i64::MAX
    }

    /// Node `c`, if visited, has an average value at most `v / n`.
    pub open spec fn beats_or_ties(self, c: int, v: int, n: int) -> bool {
        self.visits[c] > 0 ==> self.values[c] * n <= v * self.visits[c]
    }

    /// Node `c`, if visited, has an average value below `v / n`.
    pub open spec fn beaten(self, c: int, v: int, n: int) -> bool {
        self.visits[c] > 0 ==> self.values[c] * n < v * self.visits[c]
    }

    /// Edge `j` of the root leads to a visited child with the highest average
    /// value, strictly above that of every visited child later in the list,
    /// that is every one created before it.
    pub open spec fn best_child_at(self, j: int) -> bool {
        let e = self.edges[self.root];
        let c = e[j].1 as int;
        &&& self.visits[c] > 0
        &&& forall|i: int| 0 <= i < e.len() ==> #[trigger] self.beats_or_ties(e[i].1 as int, self.values[c], self.visits[c])
        &&& forall|i: int| j < i < e.len() ==> #[trigger] self.beaten(e[i].1 as int, self.values[c], self.visits[c])
    }

    /// Adds `w` to the value and one to the visits of node `n`.
    pub open spec fn bump(self, n: int, w: int) -> MctsView {
        MctsView {
            values: self.values.update(n, self.values[n] + w),
            visits: self.visits.update(n, self.visits[n] + 1),
            ..self
        }
    }

    /// Backpropagation of reward `w` along `p`: `w` at `p[0]`, `-w` at `p[1]`,
    /// and so on, one visit each.
    pub open spec fn backed_up(self, p: Seq<usize>, w: int) -> MctsView
        decreases p.len(),
    {
        if p.len() == 0 {
            self
        } else {
            self.backed_up(p.drop_last(), w).bump(p.last() as int, alternate(w, p.len() - 1))
        }
    }

    /// `self` is `old` with node `node` expanded: one new child per legal
    /// move of its board, created in the order of the moves and listed last
    /// created first.
    pub open spec fn expanded_from(self, old: MctsView, node: int) -> bool {
        let moves = old.states[node].legal_moves();
        let n0 = old.len();
        &&& self.len() == n0 + moves.len()
        &&& self.values.len() == self.len() && self.visits.len() == self.len() && self.edges.len() == self.len()
        &&& self.edge_count == old.edge_count + moves.len()
        &&& self.root == old.root
        &&& forall|i: int| 0 <= i < n0 ==> #[trigger] self.states[i] == old.states[i]
        &&& forall|i: int| 0 <= i < n0 ==> #[trigger] self.values[i] == old.values[i]
        &&& forall|i: int| 0 <= i < n0 ==> #[trigger] self.visits[i] == old.visits[i]
        &&& forall|i: int| 0 <= i < n0 && i != node ==> #[trigger] self.edges[i] == old.edges[i]
        &&& self.edges[node] == Seq::new(
            moves.len(),
            |k: int| (moves[moves.len() - 1 - k], (n0 + moves.len() - 1 - k) as usize),
        )
        &&& forall|k: int|
            0 <= k < moves.len() ==> {
                &&& #[trigger] self.states[n0 + k] == old.states[node].switched().dropped(moves[k] as int)
                &&& self.values[n0 + k] == 0
                &&& self.visits[n0 + k] == 0
                &&& self.edges[n0 + k].len() == 0
            }
    }
}

/// `a / b <= c / d <= e / f` gives `a / b <= e / f`, for positive denominators.
proof fn lemma_ratio_le(a: int, b: int, c: int, d: int, e: int, f: int)
    requires
        b > 0,
        d > 0,
        f > 0,
        a * d <= c * b,
        c * f <= e * d,
    ensures
        a * f <= e * b,
{
    assert(a * d * f <= c * b * f) by (nonlinear_arith)
        requires
            a * d <= c * b,
            f > 0,
    ;
    assert(c * f * b <= e * d * b) by (nonlinear_arith)
        requires
            c * f <= e * d,
            b > 0,
    ;
    assert(a * f * d <= e * b * d) by (nonlinear_arith)
        requires
            a * d * f <= c * b * f,
            c * f * b <= e * d * b,
    ;
    assert(a * f <= e * b) by (nonlinear_arith)
        requires
            a * f * d <= e * b * d,
            d > 0,
    ;
}

/// `v * n` without overflow.
fn cross(v: i64, n: u64) -> (r: i128)
    ensures
        r == v as int * n as int,
{
    proof {
        let a = v as int;
        let b = n as int;
        if a >= 0 {
            assert(0 <= a * b <= 0x7fff_ffff_ffff_ffff * 0xffff_ffff_ffff_ffff) by (nonlinear_arith)
                requires
                    0 <= a <= 0x7fff_ffff_ffff_ffff,
                    0 <= b <= 0xffff_ffff_ffff_ffff,
            ;
        } else {
            assert(-0x8000_0000_0000_0000 * 0xffff_ffff_ffff_ffff <= a * b <= 0) by (nonlinear_arith)
                requires
                    -0x8000_0000_0000_0000 <= a < 0,
                    0 <= b <= 0xffff_ffff_ffff_ffff,
            ;
        }
    }
    (v as i128) * (n as i128)
}

/// The search engine: a petgraph graph whose edges carry the moves, the board
/// and counters of each node in vectors indexed by node, and the node that
/// stands for the current position of the real game.
pub struct Mcts {
    states: Vec<Game>,
    values: Vec<i64>,
    visits: Vec<u64>,
    graph: Graph<(), usize>,
    root: usize,
}

impl View for Mcts {
    type V = MctsView;

    closed spec fn view(&self) -> MctsView {
        MctsView {
            states: self.states@.map_values(|g: Game| g@),
            values: self.values@.map_values(|v: i64| v as int),
            visits: self.visits@.map_values(|v: u64| v as int),
            edges: Seq::new(self.states@.len(), |i: int| out_edges(graph_edges(self.graph), i)),
            edge_count: graph_edges(self.graph).len() as int,
            root: self.root as int,
        }
    }
}

impl Mcts {
    pub closed spec fn wf(&self) -> bool {
        &&& self.values@.len() == self.states@.len()
        &&& self.visits@.len() == self.states@.len()
        &&& graph_node_count(self.graph) == self.states@.len()
        &&& forall|i: int|
            0 <= i < graph_edges(self.graph).len() ==> (#[trigger] graph_edges(self.graph)[i]).0 < self.states@.len()
        &&& self.root < self.states@.len()
        &&& forall|i: int| 0 <= i < self.states@.len() ==> (#[trigger] self.states@[i]).wf()
        &&& forall|i: int|
            0 <= i < self.states@.len() ==> -(#[trigger] self.visits@[i]) <= self.values@[i] <= self.visits@[i]
                <= i64::MAX
        &&& forall|i: int, j: int|
            0 <= i < self.states@.len() && 0 <= j < self@.edges[i].len() ==> #[trigger] self@.edge_ok(i, j)
        &&& self@.expanded_only_if_open()
        &&& self@.moves_distinct()
    }

    /// A tree of one node, the empty board, which is the root.
    pub fn new() -> (r: Mcts)
        ensures
            r.wf(),
            r@.len() == 1,
            r@.root == 0,
            r@.states[0] == GameView::initial(),
            r@.values[0] == 0,
            r@.visits[0] == 0,
            r@.edges[0].len() == 0,
            r@.edge_count == 0,
    {
        let mut graph = graph_new();
        let root = graph_add_node(&mut graph);
        let r = Mcts { graph, states: vec![Game::new()], values: vec![0i64], visits: vec![0u64], root };
        assert(r@.edges[0] =~= Seq::<(usize, usize)>::empty());
        r
    }
    pub fn root(&self) -> (r: usize)
        ensures
            r == self@.root,
    {
        self.root
    }

    /// The number of nodes in the tree, the ones no longer reachable from the
    /// root included.
    pub fn node_count(&self) -> (r: usize)
        requires
            self.wf(),
        ensures
            r == self@.len(),
    {
        self.states.len()
    }

    /// The board of node `n`.
    pub fn node_state(&self, n: usize) -> (r: &Game)
        requires
            self.wf(),
            n < self@.len(),
        ensures
            r.wf(),
            r@ == self@.states[n as int],
    {
        &self.states[n]
    }

    /// The summed reward of node `n`, from the view of the player who moved into it.
    pub fn node_value(&self, n: usize) -> (r: i64)
        requires
            self.wf(),
            n < self@.len(),
        ensures
            r == self@.values[n as int],
    {
        self.values[n]
    }

    pub fn node_visits(&self, n: usize) -> (r: u64)
        requires
            self.wf(),
            n < self@.len(),
        ensures
            r == self@.visits[n as int],
    {
        self.visits[n]
    }

    /// The children of node `n`, the most recently created first.
    pub fn children(&self, n: usize) -> (r: Vec<usize>)
        requires
            self.wf(),
            n < self@.len(),
        ensures
            r@ == self@.edges[n as int].map_values(|e: (usize, usize)| e.1),
    {
        let es = graph_out_edges(&self.graph, n);
        let mut r: Vec<usize> = Vec::new();
        let mut j: usize = 0;
        while j < es.len()
            invariant
                j <= es@.len(),
                es@ == self@.edges[n as int],
                r@ == es@.subrange(0, j as int).map_values(|e: (usize, usize)| e.1),
            decreases es@.len() - j,
        {
            r.push(es[j].1);
            j = j + 1;
            assert(r@ =~= es@.subrange(0, j as int).map_values(|e: (usize, usize)| e.1));
        }
        assert(es@.subrange(0, j as int) =~= es@);
        r
    }
    /// Gives node `node`, which has no children yet, one child per legal move
    /// of its board; `false`, with nothing changed, when its game has ended.
    fn expand(&mut self, node: usize) -> (r: bool)
        requires
            old(self).wf(),
            node < old(self)@.len(),
            old(self)@.edges[node as int].len() == 0,
            old(self)@.len() + 7 < u32::MAX,
            old(self)@.edge_count + 7 < u32::MAX,
        ensures
            final(self).wf(),
            r == !old(self)@.states[node as int].terminal(),
            r ==> final(self)@.expanded_from(old(self)@, node as int),
            !r ==> final(self)@ == old(self)@,
    {
        let moves = self.states[node].legal_moves();
        let ghost parent = self@.states[node as int];
        proof {
            lemma_no_moves_iff_terminal(parent);
            lemma_open_columns_have_room(parent, 7);
        }
        if moves.len() == 0 {
            return false;
        }
        let ghost before = *self;
        let ghost arcs0 = graph_edges(self.graph);
        let n0 = self.states.len();
        let mut k: usize = 0;
        while k < moves.len()
            invariant
                before.wf(),
                k <= moves@.len(),
                moves@.len() <= 7,
                moves@ == parent.legal_moves(),
                !parent.terminal(),
                parent == before@.states[node as int],
                forall|i: int|
                    0 <= i < moves@.len() ==> (#[trigger] moves@[i] as int) < 7 && parent.can_drop(moves@[i] as int),
                n0 == before.states@.len(),
                n0 + 7 < u32::MAX,
                arcs0 == graph_edges(before.graph),
                arcs0.len() + 7 < u32::MAX,
                node < n0,
                out_edges(arcs0, node as int).len() == 0,
                self.root == before.root,
                self.states@.len() == n0 + k,
                self.values@.len() == n0 + k,
                self.visits@.len() == n0 + k,
                graph_node_count(self.graph) == n0 + k,
                graph_edges(self.graph).len() == arcs0.len() + k,
                forall|i: int|
                    0 <= i < graph_edges(self.graph).len() ==> (#[trigger] graph_edges(self.graph)[i]).0 < n0,
                forall|i: int| 0 <= i < n0 ==> #[trigger] self.states@[i] == before.states@[i],
                forall|i: int| 0 <= i < n0 ==> #[trigger] self.values@[i] == before.values@[i],
                forall|i: int| 0 <= i < n0 ==> #[trigger] self.visits@[i] == before.visits@[i],
                forall|i: int|
                    i != node ==> #[trigger] out_edges(graph_edges(self.graph), i) == out_edges(arcs0, i),
                out_edges(graph_edges(self.graph), node as int) == Seq::new(
                    k as nat,
                    |j: int| (moves@[k - 1 - j], (n0 + k - 1 - j) as usize),
                ),
                forall|i: int|
                    n0 <= i < n0 + k ==> {
                        &&& (#[trigger] self.states@[i]).wf()
                        &&& self.states@[i]@ == parent.switched().dropped(moves@[i - n0] as int)
                        &&& self.values@[i] == 0
                        &&& self.visits@[i] == 0
                    },
            decreases moves@.len() - k,
        {
            let mut s = self.states[node].snapshot();
            s.next_player();
            let _ = s.play_move(moves[k]);
            let ghost arcs = graph_edges(self.graph);
            let child = graph_add_node(&mut self.graph);
            graph_add_edge(&mut self.graph, node, child, moves[k]);
            proof {
                lemma_out_edges_push(arcs, (node, child, moves@[k as int]));
                assert(out_edges(graph_edges(self.graph), node as int) =~= Seq::new(
                    (k + 1) as nat,
                    |j: int| (moves@[k + 1 - 1 - j], (n0 + k + 1 - 1 - j) as usize),
                ));
                assert forall|i: int| 0 <= i < graph_edges(self.graph).len() implies (#[trigger] graph_edges(
                    self.graph,
                )[i]).0 < n0 by {
                    if i < arcs.len() {
                        assert(graph_edges(self.graph)[i] == arcs[i]);
                    }
                }
            }
            self.states.push(s);
            self.values.push(0);
            self.visits.push(0);
            k = k + 1;
        }
        proof {
            let len = self.states@.len() as int;
            let arcs = graph_edges(self.graph);
            assert forall|i: int| n0 <= i < len implies #[trigger] out_edges(arcs, i).len() == 0 by {
                lemma_out_edges_absent(arcs, i);
            }
            assert forall|i: int, j: int|
                0 <= i < len && 0 <= j < self@.edges[i].len() implies #[trigger] self@.edge_ok(i, j) by {
                if i < n0 && i != node {
                    assert(self@.edges[i] == before@.edges[i]);
                    assert(before@.edge_ok(i, j));
                    let t = before@.edges[i][j].1 as int;
                    assert(self@.states[t] == before@.states[t]);
                } else if i >= n0 {
                    assert(out_edges(arcs, i).len() == 0);
                }
            }
            assert forall|i: int| 0 <= i < len implies (#[trigger] self.states@[i]).wf() by {
                if i < n0 {
                    assert(before.states@[i].wf());
                }
            }
            assert forall|i: int| 0 <= i < len implies -(#[trigger] self.visits@[i]) <= self.values@[i]
                <= self.visits@[i] <= i64::MAX by {
                if i < n0 {
                    assert(-before.visits@[i] <= before.values@[i] <= before.visits@[i] <= i64::MAX);
                } else {
                    assert(self.states@[i].wf());
                }
            }
            assert forall|i: int| 0 <= i < n0 && i != node implies #[trigger] self@.edges[i] == before@.edges[i] by {
                assert(out_edges(arcs0, i) == out_edges(arcs, i));
            }
            assert forall|k: int| 0 <= k < moves@.len() implies #[trigger] self@.states[n0 + k]
                == parent.switched().dropped(moves@[k] as int) by {
                assert(self.states@[n0 + k]@ == parent.switched().dropped(moves@[(n0 + k) - n0] as int));
            }
            assert forall|k: int| 0 <= k < moves@.len() implies #[trigger] self@.edges[n0 + k].len() == 0 by {
                assert(out_edges(arcs, n0 + k).len() == 0);
            }
            lemma_open_columns_sorted(parent, 7);
            let l = moves@.len() as int;
            assert(self@.edges[node as int] == Seq::new(
                moves@.len(),
                |k: int| (moves@[l - 1 - k], (n0 + l - 1 - k) as usize),
            ));
            assert forall|i: int| 0 <= i < len && #[trigger] self@.edges[i].len() > 0 implies !self@.states[i].terminal() by {
                if i < n0 && i != node {
                    assert(self@.edges[i] == before@.edges[i]);
                    assert(self@.states[i] == before@.states[i]);
                } else if i >= n0 {
                    assert(out_edges(arcs, i).len() == 0);
                }
            }
            assert forall|i: int, j: int, k: int|
                0 <= i < len && 0 <= j < k < self@.edges[i].len() implies #[trigger] self@.edges[i][j].0
                    != #[trigger] self@.edges[i][k].0 by {
                if i == node {
                    assert(self@.edges[i][j].0 == moves@[l - 1 - j]);
                    assert(self@.edges[i][k].0 == moves@[l - 1 - k]);
                    assert(moves@[l - 1 - k] < moves@[l - 1 - j]);
                } else if i < n0 {
                    assert(self@.edges[i] == before@.edges[i]);
                } else {
                    assert(out_edges(arcs, i).len() == 0);
                }
            }
        }
        true
    }

    /// The result of a random playout from the board of node `n`: the winner
    /// of the ended game reached, `None` for a draw.
    fn rollout(&self, n: usize) -> (r: Option<Player>)
        requires
            self.wf(),
            n < self@.len(),
        ensures
            self@.states[n as int].terminal() ==> r == winner_of(self@.states[n as int]),
            exists|end: GameView| #[trigger] playout_end(self@.states[n as int], end) && r == winner_of(end),
    {
        let end = playout(&self.states[n]);
        let r = outcome(&end);
        assert(playout_end(self@.states[n as int], end@));
        r
    }

    /// Adds `w`, `-w`, `w`, ... to the values along `path` and one visit to each.
    fn backprop(&mut self, path: &Vec<usize>, w: i64)
        requires
            old(self).wf(),
            -1 <= w <= 1,
            path@.len() < 0x1000_0000,
            forall|i: int|
                0 <= i < path@.len() ==> #[trigger] path@[i] < old(self)@.len() && old(self)@.visits[path@[i] as int]
                    + path@.len() <= i64::MAX,
        ensures
            final(self).wf(),
            final(self)@ == old(self)@.backed_up(path@, w as int),
    {
        let ghost before = self@;
        let mut i: usize = 0;
        let mut v: i64 = w;
        while i < path.len()
            invariant
                self.wf(),
                0 <= i <= path@.len(),
                path@.len() < 0x1000_0000,
                -1 <= w <= 1,
                v == alternate(w as int, i as int),
                self@ == before.backed_up(path@.subrange(0, i as int), w as int),
                self@.len() == before.len(),
                forall|n: int| 0 <= n < self@.len() ==> #[trigger] self@.visits[n] <= before.visits[n] + i,
                forall|j: int|
                    0 <= j < path@.len() ==> #[trigger] path@[j] < before.len() && before.visits[path@[j] as int]
                        + path@.len() <= i64::MAX,
            decreases path@.len() - i,
        {
            let ghost prev = *self;
            let n = path[i];
            assert(self@.visits[n as int] <= before.visits[n as int] + i);
            assert(-self.visits@[n as int] <= self.values@[n as int] <= self.visits@[n as int]);
            self.values.set(n, self.values[n] + v);
            self.visits.set(n, self.visits[n] + 1);
            proof {
                assert(path@.subrange(0, i + 1).drop_last() =~= path@.subrange(0, i as int));
                assert(self@.values =~= prev@.values.update(n as int, prev@.values[n as int] + v));
                assert(self@.visits =~= prev@.visits.update(n as int, prev@.visits[n as int] + 1));
                assert(self@.states =~= prev@.states);
                assert forall|a: int, b: int|
                    0 <= a < self.states@.len() && 0 <= b < self@.edges[a].len() implies #[trigger] self@.edge_ok(a, b) by {
                    assert(prev@.edge_ok(a, b));
                }
                assert(self@.edges == prev@.edges);
                assert forall|m: int| 0 <= m < self.states@.len() implies -(#[trigger] self.visits@[m]) <= self.values@[m]
                    <= self.visits@[m] <= i64::MAX by {
                    assert(-prev.visits@[m] <= prev.values@[m] <= prev.visits@[m] <= i64::MAX);
                }
            }
            v = -v;
            i = i + 1;
        }
        assert(path@.subrange(0, path@.len() as int) =~= path@);
    }
    fn has_child(&self, p: usize, c: usize) -> (r: bool)
        requires
            self.wf(),
            p < self@.len(),
        ensures
            r == self@.is_child(p as int, c as int),
    {
        let es = graph_out_edges(&self.graph, p);
        let mut j: usize = 0;
        while j < es.len()
            invariant
                j <= es@.len(),
                es@ == self@.edges[p as int],
                forall|i: int| 0 <= i < j ==> (#[trigger] es@[i]).1 != c,
            decreases es@.len() - j,
        {
            if es[j].1 == c {
                assert(self@.edges[p as int][j as int].1 == c);
                return true;
            }
            j = j + 1;
        }
        assert forall|i: int| 0 <= i < self@.edges[p as int].len() implies #[trigger] self@.edges[p as int][i].1
            != c by {
            assert(es@[i].1 != c);
        }
        false
    }

    /// Whether `path` runs from the root to a node without children, with room
    /// in the counters along it and in the graph.
    fn path_ok(&self, path: &Vec<usize>) -> (r: bool)
        requires
            self.wf(),
        ensures
            r == (self@.valid_path(path@) && self@.has_room(path@)),
    {
        let len = self.states.len();
        let arcs = graph_edge_count(&self.graph);
        if path.len() == 0 || path[0] != self.root || len >= 0xffff_ffff - 7 || arcs >= 0xffff_ffff - 7 || path.len()
            >= 0x1000_0000 - 1 {
            return false;
        }
        let limit: u64 = 0x7fff_ffff_ffff_ffff - (path.len() as u64) - 1;
        let mut i: usize = 0;
        while i < path.len()
            invariant
                self.wf(),
                0 < path@.len() < 0x1000_0000 - 1,
                len == self@.len(),
                limit == i64::MAX - path@.len() - 1,
                i <= path@.len(),
                forall|k: int| 0 <= k < i ==> #[trigger] path@[k] < len,
                forall|k: int| 0 <= k < i ==> #[trigger] self@.visits[path@[k] as int] <= limit,
                forall|k: int| 0 <= k < i - 1 ==> #[trigger] self@.is_child(path@[k] as int, path@[k + 1] as int),
            decreases path@.len() - i,
        {
            let n = path[i];
            if n >= len {
                assert(!(path@[i as int] < self@.len()));
                return false;
            }
            if self.visits[n] > limit {
                assert(self@.visits[path@[i as int] as int] + path@.len() + 1 > i64::MAX);
                return false;
            }
            if i > 0 && !self.has_child(path[i - 1], n) {
                assert(!self@.is_child(path@[i - 1] as int, path@[(i - 1) + 1] as int));
                return false;
            }
            i = i + 1;
        }
        let last = path[path.len() - 1];
        graph_out_edges(&self.graph, last).len() == 0
    }

    /// One round of the search along `path`, a path from the root to a node
    /// without children that the selection rule chose: the node is expanded
    /// unless its game has ended, then one of its new children is picked at
    /// random and appended; a random playout from the last node of the path
    /// gives a reward for the player to move at the root, which is backed up
    /// along the path. Returns `false`, with nothing changed, when `path` is
    /// not such a path or a counter on it has no room.
    pub fn mcts_iteration(&mut self, path: Vec<usize>) -> (r: bool)
        requires
            old(self).wf(),
        ensures
            final(self).wf(),
            r == (old(self)@.valid_path(path@) && old(self)@.has_room(path@)),
            !r ==> final(self)@ == old(self)@,
            r ==> exists|mid: MctsView, p: Seq<usize>, w: int, end: GameView|
                {
                    &&& #[trigger] mid.backed_up(p, w) == final(self)@
                    &&& #[trigger] playout_end(mid.states[p.last() as int], end)
                    &&& w == reward_of(winner_of(end), old(self)@.states[old(self)@.root].player)
                    &&& if old(self)@.states[path@.last() as int].terminal() {
                        mid == old(self)@ && p == path@
                    } else {
                        &&& mid.expanded_from(old(self)@, path@.last() as int)
                        &&& p.len() == path@.len() + 1
                        &&& p.drop_last() == path@
                        &&& mid.is_child(path@.last() as int, p.last() as int)
                    }
                },
    {
        if !self.path_ok(&path) {
            return false;
        }
        let ghost before = self@;
        let ghost given = path@;
        let mut path = path;
        let leaf = path[path.len() - 1];
        let expanded = self.expand(leaf);
        let ghost mid = self@;
        if expanded {
            let kids = self.children(leaf);
            proof {
                lemma_no_moves_iff_terminal(before.states[leaf as int]);
                lemma_open_columns_have_room(before.states[leaf as int], 7);
            }
            assert(kids@.len() == mid.edges[leaf as int].len());
            match choose_one(&kids) {
                Some(c) => {
                    let ghost j = choose|j: int| 0 <= j < kids@.len() && kids@[j] == c;
                    let ghost moves = before.states[leaf as int].legal_moves();
                    let ghost l = moves.len() as int;
                    assert(mid.edges[leaf as int] == Seq::new(
                        moves.len(),
                        |k: int| (moves[l - 1 - k], (before.len() + l - 1 - k) as usize),
                    ));
                    assert(kids@[j] == mid.edges[leaf as int][j].1);
                    assert(c == before.len() + (l - 1 - j));
                    assert(mid.states[before.len() + (l - 1 - j)] == before.states[leaf as int].switched().dropped(
                        moves[l - 1 - j] as int,
                    ));
                    path.push(c);
                    assert(path@.drop_last() =~= given);
                    assert(mid.visits[path@[given.len() as int] as int] == 0);
                    assert(path@[given.len() as int] < mid.len());
                },
                None => {},
            }
        }
        let last = path[path.len() - 1];
        let winner = self.rollout(last);
        let ghost end = choose|end: GameView| #[trigger] playout_end(mid.states[last as int], end) && winner == winner_of(end);
        let w = reward(winner, self.states[self.root].current_player());
        assert forall|i: int| 0 <= i < path@.len() implies #[trigger] path@[i] < self@.len() && self@.visits[path@[i] as int]
            + path@.len() <= i64::MAX by {
            if i < given.len() {
                assert(given[i] == path@[i]);
                assert(before.visits[given[i] as int] + given.len() + 1 <= i64::MAX);
            }
        }
        self.backprop(&path, w);
        assert(mid.backed_up(path@, w as int) == self@);
        assert(playout_end(mid.states[path@.last() as int], end));
        assert(mid.root == before.root);
        assert(mid.states[mid.root] == before.states[before.root]);
        assert(w == reward_of(winner_of(end), before.states[before.root].player));
        true
    }
    /// Among the visited children of the root, the one with the highest
    /// average value (value over visits), the one created first on ties: its
    /// move, value and visits. At least one child of the root must have been
    /// visited.
    pub fn best_move(&self) -> (r: (usize, i64, u64))
        requires
            self.wf(),
            exists|j: int|
                0 <= j < self@.edges[self@.root].len() && #[trigger] self@.visits[self@.edges[self@.root][j].1 as int]
                    > 0,
        ensures
            exists|j: int|
                0 <= j < self@.edges[self@.root].len() && #[trigger] self@.edges[self@.root][j].0 == r.0
                    && self@.best_child_at(j) && r.1 == self@.values[self@.edges[self@.root][j].1 as int] && r.2
                    == self@.visits[self@.edges[self@.root][j].1 as int],
            self@.states[self@.root].legal_moves().contains(r.0),
    {
        let ghost e = self@.edges[self@.root];
        let es = graph_out_edges(&self.graph, self.root);
        let mut best: Option<usize> = None;
        let mut bv: i64 = 0;
        let mut bn: u64 = 0;
        let mut k: usize = 0;
        while k < es.len()
            invariant
                self.wf(),
                es@ == e,
                e == self@.edges[self@.root],
                k <= e.len(),
                best is None ==> forall|i: int| 0 <= i < k ==> #[trigger] self@.visits[e[i].1 as int] == 0,
                best matches Some(b) ==> {
                    &&& b < k
                    &&& bv == self@.values[e[b as int].1 as int]
                    &&& bn == self@.visits[e[b as int].1 as int]
                    &&& bn > 0
                    &&& forall|i: int| 0 <= i < k ==> #[trigger] self@.beats_or_ties(e[i].1 as int, bv as int, bn as int)
                    &&& forall|i: int| b < i < k ==> #[trigger] self@.beaten(e[i].1 as int, bv as int, bn as int)
                },
            decreases e.len() - k,
        {
            let c = es[k].1;
            assert(self@.edge_ok(self@.root, k as int));
            let n = self.visits[c];
            let v = self.values[c];
            if n > 0 {
                let better = match best {
                    None => true,
                    Some(_) => cross(v, bn) >= cross(bv, n),
                };
                if better {
                    proof {
                        if best is Some {
                            assert forall|i: int| 0 <= i < k implies #[trigger] self@.beats_or_ties(e[i].1 as int, v as int, n as int) by {
                                let ci = e[i].1 as int;
                                assert(self@.edge_ok(self@.root, i));
                                assert(self@.beats_or_ties(ci, bv as int, bn as int));
                                if self@.visits[ci] > 0 {
                                    lemma_ratio_le(self@.values[ci], self@.visits[ci], bv as int, bn as int, v as int, n as int);
                                }
                            }
                        }
                    }
                    best = Some(k);
                    bv = v;
                    bn = n;
                    assert(self@.beats_or_ties(e[k as int].1 as int, bv as int, bn as int));
                } else {
                    assert(self@.beaten(e[k as int].1 as int, bv as int, bn as int));
                }
            } else {
                assert(self@.visits[e[k as int].1 as int] == 0);
            }
            k = k + 1;
        }
        let b = best.unwrap();
        let m = es[b].0;
        proof {
            let g = self@.states[self@.root];
            assert(self@.edge_ok(self@.root, b as int));
            assert(self@.best_child_at(b as int));
            assert(self@.edges[self@.root].len() > 0);
            lemma_open_columns_sorted(g, 7);
            assert(g.can_drop(m as int));
            assert(0 <= m as int && m < 7 && g.heights[m as int] < 6);
            assert(g.open_columns(7).contains((m as int) as usize));
            assert(!g.terminal());
        }
        (m, bv, bn)
    }

    /// Whether some child of the root is reached by move `m`.
    pub fn has_move(&self, m: usize) -> (r: bool)
        requires
            self.wf(),
        ensures
            r == exists|j: int|
                0 <= j < self@.edges[self@.root].len() && #[trigger] self@.edges[self@.root][j].0 == m,
    {
        let es = graph_out_edges(&self.graph, self.root);
        let mut j: usize = 0;
        while j < es.len()
            invariant
                self.wf(),
                es@ == self@.edges[self@.root],
                j <= es@.len(),
                forall|i: int| 0 <= i < j ==> #[trigger] es@[i].0 != m,
            decreases es@.len() - j,
        {
            if es[j].0 == m {
                assert(self@.edges[self@.root][j as int].0 == m);
                return true;
            }
            j = j + 1;
        }
        false
    }

    /// Facts of every well-formed tree: the root is one of its nodes, only a
    /// node whose game has not ended has children, the edges leaving a node
    /// carry distinct moves, and each edge leads to a later node holding the
    /// board after the turn passes and its move is played.
    pub proof fn lemma_tree_facts(&self)
        requires
            self.wf(),
        ensures
            0 <= self@.root < self@.len(),
            self@.edges.len() == self@.len(),
            forall|i: int| 0 <= i < self@.len() ==> (#[trigger] self@.states[i]).well_formed(),
            self@.expanded_only_if_open(),
            self@.moves_distinct(),
            forall|i: int, j: int| 0 <= i < self@.len() && 0 <= j < self@.edges[i].len() ==> #[trigger] self@.edge_ok(i, j),
    {
        assert forall|i: int| 0 <= i < self@.len() implies (#[trigger] self@.states[i]).well_formed() by {
            assert(self.states@[i].wf());
        }
    }

    /// Moves the root to the child of the root reached by move `m`, keeping
    /// every node. The root must have such a child.
    pub fn execute_move(&mut self, m: usize)
        requires
            old(self).wf(),
            exists|j: int|
                0 <= j < old(self)@.edges[old(self)@.root].len() && #[trigger] old(self)@.edges[old(self)@.root][j].0
                    == m,
        ensures
            final(self).wf(),
            exists|j: int|
                {
                    &&& 0 <= j < old(self)@.edges[old(self)@.root].len()
                    &&& #[trigger] old(self)@.edges[old(self)@.root][j].0 == m
                    &&& final(self)@ == MctsView { root: old(self)@.edges[old(self)@.root][j].1 as int, ..old(self)@ }
                },
            final(self)@.states[final(self)@.root] == old(self)@.states[old(self)@.root].switched().dropped(m as int),
            final(self)@.states[final(self)@.root].heights == old(self)@.states[old(self)@.root].heights.update(
                m as int,
                old(self)@.states[old(self)@.root].heights[m as int] + 1,
            ),
            final(self)@.states[final(self)@.root].player != old(self)@.states[old(self)@.root].player,
    {
        let es = graph_out_edges(&self.graph, self.root);
        let ghost e = es@;
        let mut j: usize = 0;
        while j < es.len()
            invariant
                self.wf(),
                es@ == e,
                e == self@.edges[self@.root],
                j <= e.len(),
                *self == *old(self),
                forall|i: int| 0 <= i < j ==> #[trigger] e[i].0 != m,
            decreases e.len() - j,
        {
            if es[j].0 == m {
                let t = es[j].1;
                assert(self@.edge_ok(self@.root, j as int));
                let ghost before = self@;
                assert(old(self)@.edges[old(self)@.root][j as int].0 == m);
                self.root = t;
                assert(self@ == MctsView { root: before.edges[before.root][j as int].1 as int, ..before });
                assert forall|a: int, b: int|
                    0 <= a < self.states@.len() && 0 <= b < self@.edges[a].len() implies #[trigger] self@.edge_ok(a, b) by {
                    assert(before.edge_ok(a, b));
                }
                assert(self@.edges == before.edges && self@.states == before.states);
                return;
            }
            j = j + 1;
        }
    }
}

/// The stones on a board.
pub open spec fn stones(g: GameView) -> int {
    g.heights[0] + g.heights[1] + g.heights[2] + g.heights[3] + g.heights[4] + g.heights[5] + g.heights[6]
}

/// The board after the turns `ms` from `g`: before each move the turn
/// passes, then the move's column gets a stone.
pub open spec fn play_turns(g: GameView, ms: Seq<usize>) -> GameView
    decreases ms.len(),
{
    if ms.len() == 0 {
        g
    } else {
        play_turns(g, ms.drop_last()).switched().dropped(ms.last() as int)
    }
}

/// Each turn of `ms` starts from a board whose game has not ended and drops
/// into a column with room.
pub open spec fn turns_legal(g: GameView, ms: Seq<usize>) -> bool
    decreases ms.len(),
{
    if ms.len() == 0 {
        true
    } else {
        let p = play_turns(g, ms.drop_last());
        turns_legal(g, ms.drop_last()) && !p.terminal() && p.switched().can_drop(ms.last() as int)
    }
}

/// `end` is reached from `g` by the legal turns `ms`.
pub open spec fn reached(g: GameView, ms: Seq<usize>, end: GameView) -> bool {
    turns_legal(g, ms) && end == play_turns(g, ms)
}

/// Where a playout from `start` may stop: an ended board reached by legal
/// turns, or, when the player to move next would have no move on such a
/// board that has not ended, that board with the turn passed.
pub open spec fn playout_end(start: GameView, end: GameView) -> bool {
    &&& end.terminal()
    &&& exists|ms: Seq<usize>, s: GameView|
        #[trigger] reached(start, ms, s) && (end == s || (!s.terminal() && end == s.switched()))
}

/// Plays random moves from `start`, the turn passing before each, until the
/// game ends. A board that has already ended is returned as it is.
pub fn playout(start: &Game) -> (r: Game)
    requires
        start.wf(),
    ensures
        r.wf(),
        playout_end(start@, r@),
        start@.terminal() ==> r@ == start@,
{
    let mut g = start.snapshot();
    let ghost mut ms: Seq<usize> = Seq::empty();
    let ghost mut s0: GameView = start@;
    assert(reached(start@, ms, g@));
    while !g.is_terminal()
        invariant_except_break
            reached(start@, ms, g@),
        invariant
            g.wf(),
            start@.terminal() ==> g@ == start@,
        ensures
            g.wf(),
            g@.terminal(),
            reached(start@, ms, g@) || (reached(start@, ms, s0) && !s0.terminal() && g@ == s0.switched()),
            start@.terminal() ==> g@ == start@,
        decreases 42 - stones(g@),
    {
        proof {
            s0 = g@;
        }
        g.next_player();
        let moves = g.legal_moves();
        proof {
            lemma_no_moves_iff_terminal(g@);
            lemma_open_columns_have_room(g@, 7);
        }
        match choose_one(&moves) {
            Some(m) => {
                let ghost before = g@;
                let _ = g.play_move(m);
                assert(before.can_drop(m as int));
                assert(stones(g@) == stones(before) + 1);
                proof {
                    let ms2 = ms.push(m);
                    assert(ms2.drop_last() =~= ms);
                    ms = ms2;
                }
                assert(reached(start@, ms, g@));
            },
            None => {
                break;
            },
        }
    }
    assert(reached(start@, ms, g@) || reached(start@, ms, s0));
    g
}

/// The player to move if they have four in a row, `None` otherwise.
pub open spec fn winner_of(g: GameView) -> Option<Player> {
    if g.four_in_a_row(Token::OWN) {
        Some(g.player)
    } else {
        None
    }
}

/// The winner of an ended game: the player to move if they have four in a
/// row, `None` for a draw.
pub fn outcome(g: &Game) -> (r: Option<Player>)
    requires
        g.wf(),
    ensures
        r == winner_of(g@),
{
    if g.is_win() {
        Some(g.current_player())
    } else {
        None
    }
}

/// The reward of a playout for the player to move at the root.
pub fn reward(winner: Option<Player>, root_player: Player) -> (r: i64)
    ensures
        r == reward_of(winner, root_player),
{
    match winner {
        Some(p) => if p == root_player {
            1
        } else {
            -1
        },
        None => 0,
    }
}

} // verus!
