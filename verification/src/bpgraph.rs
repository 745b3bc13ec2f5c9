use vstd::prelude::*;

use crate::error::{index_error, is_index_error, reports, BPError, BPResult, Failure};
use crate::node::{
    answered, inbox_answered, inbox_get, inbox_set, message_of, read_of, Node, NodeView,
};
use crate::node_function::{Behaviour, Msg, NodeFunction, NodeIndex};

verus! {

/// The views of a list of nodes.
pub open spec fn node_views<T, MsgT: Msg<T>, CtrlMsgT, CtrlMsgAT: Default>(
    nodes: Seq<Node<T, MsgT, CtrlMsgT, CtrlMsgAT>>,
) -> Seq<NodeView<MsgT>> {
    nodes.map_values(|n: Node<T, MsgT, CtrlMsgT, CtrlMsgAT>| n@)
}

/// Each node after it filled its matrix row (`NodeView::initialised`).
pub open spec fn nodes_initialised<MsgT>(nodes: Seq<NodeView<MsgT>>, use_prior: bool) -> Seq<NodeView<MsgT>> {
    nodes.map_values(|n: NodeView<MsgT>| n.initialised(use_prior))
}

/// A check node without edges after one or more propagation steps: its node
/// function is handed no messages each step and answers alike each time, and
/// the answer replaces the inbox where it is not an error.
pub open spec fn computed_alone<MsgT>(n: NodeView<MsgT>) -> NodeView<MsgT> {
    n.with_inbox(inbox_answered(n.inbox, (n.behaviour.compute)(Seq::empty())))
}

/// How many times `v` occurs in `s`.
pub open spec fn count_of(s: Seq<NodeIndex>, v: NodeIndex) -> nat
    decreases s.len(),
{
    if s.len() == 0 {
        0
    } else {
        count_of(s.drop_last(), v) + if s.last() == v {
            1nat
        } else {
            0nat
        }
    }
}

/// The log-probabilities after `update_log_prob` was handed each pair of
/// `pairs` in turn, starting from `log_prob`.
pub open spec fn folded<M>(
    log_prob: Option<M>,
    fold: spec_fn(Option<M>, M, M) -> Option<M>,
    pairs: Seq<(M, M)>,
) -> Option<M>
    decreases pairs.len(),
{
    if pairs.len() == 0 {
        log_prob
    } else {
        fold(folded(log_prob, fold, pairs.drop_last()), pairs.last().0, pairs.last().1)
    }
}

/// What a graph is: its two lists of nodes and its settings.
#[verifier::reject_recursive_types(MsgT)]
pub struct GraphView<MsgT> {
    pub check_nodes: Seq<NodeView<MsgT>>,
    pub var_nodes: Seq<NodeView<MsgT>>,
    /// How many propagation steps have run.
    pub step: nat,
    pub normalize: bool,
    pub check_validity: bool,
    pub num_var_nodes: nat,
    pub num_check_nodes: nat,
}

impl<MsgT> GraphView<MsgT> {
    /// The counters agree with the lists: `num_var_nodes` counts the variable
    /// nodes, and `num_check_nodes`, which only `add_node_directly` raises, is at
    /// most the number of check nodes; the step counter and the number of
    /// check nodes fit a `usize`.
    pub open spec fn wf(self) -> bool {
        &&& self.num_var_nodes == self.var_nodes.len()
        &&& self.num_check_nodes <= self.check_nodes.len()
        &&& self.check_nodes.len() <= usize::MAX
        &&& self.step <= usize::MAX
    }

    /// What `initialise_matrix` makes of the graph: every variable node appends
    /// its prior and every check node its zero pdf, once per connection.
    pub open spec fn initialised(self) -> Self {
        GraphView {
            var_nodes: nodes_initialised(self.var_nodes, true),
            check_nodes: nodes_initialised(self.check_nodes, false),
            ..self
        }
    }

    /// A new graph: no nodes, no steps run, messages normalized, validity not checked.
    pub open spec fn empty() -> Self {
        GraphView {
            check_nodes: Seq::empty(),
            var_nodes: Seq::empty(),
            step: 0,
            normalize: true,
            check_validity: false,
            num_var_nodes: 0,
            num_check_nodes: 0,
        }
    }

    /// The behaviour of the last node of the list named by `is_var`.
    pub open spec fn last_behaviour(self, is_var: bool) -> Behaviour<MsgT> {
        if is_var {
            self.var_nodes.last().behaviour
        } else {
            self.check_nodes.last().behaviour
        }
    }

    /// What `add_node` gives: the graph with `node` appended to the list of its
    /// kind, and the node's index in that list.
    pub open spec fn add_node_spec(self, node: NodeView<MsgT>, is_var: bool) -> (Self, nat) {
        if is_var {
            (
                GraphView {
                    var_nodes: self.var_nodes.push(node),
                    num_var_nodes: self.num_var_nodes + 1,
                    ..self
                },
                self.var_nodes.len(),
            )
        } else {
            (GraphView { check_nodes: self.check_nodes.push(node), ..self }, self.check_nodes.len())
        }
    }

    /// What `add_node_directly` gives: as `add_node_spec`, but a check node also
    /// raises `num_check_nodes`.
    pub open spec fn add_node_directly_spec(self, node: NodeView<MsgT>, is_var: bool) -> (
        Self,
        nat,
    ) {
        if is_var {
            self.add_node_spec(node, true)
        } else {
            (
                GraphView {
                    check_nodes: self.check_nodes.push(node),
                    num_check_nodes: self.num_check_nodes + 1,
                    ..self
                },
                self.check_nodes.len(),
            )
        }
    }

    /// What `add_edge(var, check)` gives: the graph and the failure, if any.
    /// The variable node is looked up and connected first; only then is the
    /// check node looked up and connected, so a failure on the check side
    /// leaves the variable node's new edge in place.
    pub open spec fn add_edge_spec(self, var: NodeIndex, check: NodeIndex) -> (
        Self,
        Option<Failure>,
    ) {
        if var >= self.var_nodes.len() {
            (self, Some(Failure::OutOfBounds { index: var, len: self.var_nodes.len() as usize }))
        } else {
            let var_step = self.var_nodes[var as int].add_edge_spec(check);
            let g1 = GraphView { var_nodes: self.var_nodes.update(var as int, var_step.0), ..self };
            if var_step.1 is Some {
                (g1, var_step.1)
            } else if check >= self.check_nodes.len() {
                (g1, Some(Failure::OutOfBounds { index: check, len: self.check_nodes.len() as usize }))
            } else {
                let check_step = self.check_nodes[check as int].add_edge_spec(var);
                (
                    GraphView {
                        check_nodes: self.check_nodes.update(check as int, check_step.0),
                        ..g1
                    },
                    check_step.1,
                )
            }
        }
    }

    /// The two graphs have the same nodes, edges and settings; only inboxes and
    /// the step counter may differ.
    pub open spec fn same_structure(self, other: Self) -> bool {
        &&& self.check_nodes.len() == other.check_nodes.len()
        &&& self.var_nodes.len() == other.var_nodes.len()
        &&& forall|i: int|
            0 <= i < self.check_nodes.len() ==> #[trigger] self.check_nodes[i].same_but_inbox(
                other.check_nodes[i],
            )
        &&& forall|i: int|
            0 <= i < self.var_nodes.len() ==> #[trigger] self.var_nodes[i].same_but_inbox(
                other.var_nodes[i],
            )
        &&& self.normalize == other.normalize
        &&& self.check_validity == other.check_validity
        &&& self.num_var_nodes == other.num_var_nodes
        &&& self.num_check_nodes == other.num_check_nodes
    }

    /// Every edge recorded at check node `check` leads to an existing variable node.
    pub open spec fn check_edges_in_range(self, check: int) -> bool {
        forall|j: int|
            0 <= j < self.check_nodes[check].connections.len()
                ==> #[trigger] self.check_nodes[check].connections[j] < self.var_nodes.len()
    }

    /// A propagation step runs to its end on this graph: every edge recorded at
    /// a check node leads to an existing variable node, and the message keys
    /// `check - num_var_nodes` computed for the check nodes do not underflow,
    /// which, as check indices start at 0, holds only where there are no
    /// variable nodes or no check nodes.
    pub open spec fn can_propagate(self) -> bool {
        &&& self.num_var_nodes == 0 || self.check_nodes.len() == 0
        &&& forall|c: int| 0 <= c < self.check_nodes.len() ==> #[trigger] self.check_edges_in_range(c)
    }

    /// The graph after `steps` propagation steps, on a graph where
    /// `can_propagate` holds (no variable nodes, or no check nodes, and then no
    /// check node has edges). The step counter rises by `steps`; the first step
    /// from step 0 fills the variable nodes' inboxes from their priors; at
    /// every step each check node's node function is handed no messages and its
    /// answer replaces the inbox where it is not an error (`computed_alone`).
    /// No steps change nothing.
    pub open spec fn after_steps(self, steps: nat) -> Self {
        if steps == 0 {
            self
        } else {
            GraphView {
                step: self.step + steps,
                var_nodes: if self.step == 0 {
                    nodes_initialised(self.var_nodes, true)
                } else {
                    self.var_nodes
                },
                check_nodes: self.check_nodes.map_values(|n: NodeView<MsgT>| computed_alone(n)),
                ..self
            }
        }
    }
}

/// `incoming` is what check node `c` of `g` takes in: for each of its
/// connections, in order, the connected variable node's message for this
/// check node, as `get_matrix_value` reads it.
pub open spec fn incoming_for<M: Clone>(g: GraphView<M>, c: int, incoming: Seq<(NodeIndex, M)>) -> bool {
    &&& incoming.len() == g.check_nodes[c].connections.len()
    &&& forall|j: int|
        0 <= j < incoming.len() ==> {
            let v = g.check_nodes[c].connections[j];
            &&& (#[trigger] incoming[j]).0 == v
            &&& read_of(g.var_nodes[v as int].inbox, c as NodeIndex, g.var_nodes[v as int].behaviour.zero_pdf, incoming[j].1)
        }
}

/// What `create_messages_var(c)` does: every variable node `v` reads the
/// check node's message `r` for it, and stores `message_of(its behaviour, r)`
/// under the key `c - num_var_nodes`; nothing else changes.
pub open spec fn messages_var_sent<T, M: Msg<T> + Clone>(g: GraphView<M>, new: GraphView<M>, c: NodeIndex) -> bool {
    &&& new == (GraphView { var_nodes: new.var_nodes, ..g })
    &&& new.var_nodes.len() == g.var_nodes.len()
    &&& forall|v: int| 0 <= v < g.var_nodes.len() ==> #[trigger] message_var_sent::<T, M>(g, new, c, v)
}

/// Variable node `v` of `g` read the check node's message `r` for it and
/// stored `message_of(its behaviour, r)` under the key `c - num_var_nodes`.
pub open spec fn message_var_sent<T, M: Msg<T> + Clone>(g: GraphView<M>, new: GraphView<M>, c: NodeIndex, v: int) -> bool {
    exists|r: M| {
        &&& read_of(g.check_nodes[c as int].inbox, v as NodeIndex, g.check_nodes[c as int].behaviour.zero_pdf, r)
        &&& #[trigger] new.var_nodes[v] == g.var_nodes[v].with_inbox(
            inbox_set(g.var_nodes[v].inbox, (c - g.num_var_nodes) as NodeIndex, message_of::<T, M>(g.var_nodes[v].behaviour, r)),
        )
    }
}

/// Check node `c` of `g` was handed `incoming` and took the answer; nothing else changed.
pub open spec fn check_computed_from<M: Clone>(g: GraphView<M>, new: GraphView<M>, c: int, incoming: Seq<(NodeIndex, M)>) -> bool {
    let before = g.check_nodes[c];
    &&& incoming_for(g, c, incoming)
    &&& new == (GraphView {
        check_nodes: g.check_nodes.update(c, before.with_inbox(inbox_answered(before.inbox, (before.behaviour.compute)(incoming)))),
        ..g
    })
}

/// What `create_messages_check(c)` does to the graph: check node `c`, if
/// there is one, hands its node function the messages `incoming_for` reads and
/// takes the answer (`check_computed_from`); an index past the check nodes
/// changes nothing.
pub open spec fn messages_check_computed<M: Clone>(g: GraphView<M>, new: GraphView<M>, c: NodeIndex) -> bool {
    if c >= g.check_nodes.len() {
        new == g
    } else {
        exists|incoming: Seq<(NodeIndex, M)>| #[trigger] check_computed_from(g, new, c as int, incoming)
    }
}

/// Variable node `v` of `g` had `update_log_prob` handed each pair of `pairs`
/// in turn, one per edge of check node `c` that leads to it, each pair read
/// as `get_matrix_value` reads: its own message under the key and the check
/// node's message for it.
pub open spec fn log_prob_pairs<M: Clone>(g: GraphView<M>, new: GraphView<M>, c: NodeIndex, v: int, pairs: Seq<(M, M)>) -> bool {
    let old_v = g.var_nodes[v];
    &&& pairs.len() == (if c < g.check_nodes.len() {
        count_of(g.check_nodes[c as int].connections, v as NodeIndex)
    } else {
        0
    })
    &&& forall|j: int| 0 <= j < pairs.len() ==> {
        &&& read_of(old_v.inbox, (c - g.num_var_nodes) as NodeIndex, old_v.behaviour.zero_pdf, (#[trigger] pairs[j]).0)
        &&& read_of(g.check_nodes[c as int].inbox, v as NodeIndex, g.check_nodes[c as int].behaviour.zero_pdf, pairs[j].1)
    }
    &&& new.var_nodes[v] == (NodeView {
        behaviour: Behaviour {
            log_prob: folded(old_v.behaviour.log_prob, old_v.behaviour.fold_log_prob, pairs),
            ..old_v.behaviour
        },
        ..old_v
    })
}

/// What `update_log_prob(c)` does: each variable node's node function is
/// handed one pair of messages per edge of check node `c` that leads to it
/// (`log_prob_pairs`); nothing else changes.
pub open spec fn log_probs_updated<M: Clone>(g: GraphView<M>, new: GraphView<M>, c: NodeIndex) -> bool {
    &&& new == (GraphView { var_nodes: new.var_nodes, ..g })
    &&& new.var_nodes.len() == g.var_nodes.len()
    &&& forall|v: int| 0 <= v < g.var_nodes.len() ==> #[trigger] var_log_prob_updated(g, new, c, v)
}

/// Variable node `v` of `g` had `update_log_prob` handed some pairs as
/// `log_prob_pairs` describes.
pub open spec fn var_log_prob_updated<M: Clone>(g: GraphView<M>, new: GraphView<M>, c: NodeIndex, v: int) -> bool {
    exists|pairs: Seq<(M, M)>| #[trigger] log_prob_pairs(g, new, c, v, pairs)
}

/// The three steps for check node `c` in a round whose states are `states`:
/// `create_messages_var(c)`, `create_messages_check(c)`, `update_log_prob(c)`.
pub open spec fn round_part<T, M: Msg<T> + Clone>(states: Seq<GraphView<M>>, c: int) -> bool {
    &&& messages_var_sent::<T, M>(states[3 * c], states[3 * c + 1], c as NodeIndex)
    &&& messages_check_computed(states[3 * c + 1], states[3 * c + 2], c as NodeIndex)
    &&& log_probs_updated(states[3 * c + 2], states[3 * c + 3], c as NodeIndex)
}

/// `new` is `g` after one propagation step that went through `states`: the
/// matrices are filled first if no step has run; then, for each check node in
/// increasing order, `round_part`; then the step counter rises by one.
pub open spec fn round<T, M: Msg<T> + Clone>(g: GraphView<M>, states: Seq<GraphView<M>>, new: GraphView<M>) -> bool {
    let n = g.check_nodes.len();
    &&& states.len() == 3 * n + 1
    &&& states[0] == (if g.step == 0 { g.initialised() } else { g })
    &&& forall|c: int| 0 <= c < n ==> #[trigger] round_part::<T, M>(states, c)
    &&& new == (GraphView { step: g.step + 1, ..states.last() })
}

proof fn lemma_views_update<T, MsgT: Msg<T>, CtrlMsgT, CtrlMsgAT: Default>(
    nodes: Seq<Node<T, MsgT, CtrlMsgT, CtrlMsgAT>>,
    i: int,
    n: Node<T, MsgT, CtrlMsgT, CtrlMsgAT>,
)
    requires
        0 <= i < nodes.len(),
    ensures
        node_views(nodes.update(i, n)) == node_views(nodes).update(i, n@),
{
    assert(node_views(nodes.update(i, n)) =~= node_views(nodes).update(i, n@));
}

proof fn lemma_views_push<T, MsgT: Msg<T>, CtrlMsgT, CtrlMsgAT: Default>(
    nodes: Seq<Node<T, MsgT, CtrlMsgT, CtrlMsgAT>>,
    n: Node<T, MsgT, CtrlMsgT, CtrlMsgAT>,
)
    ensures
        node_views(nodes.push(n)) == node_views(nodes).push(n@),
{
    assert(node_views(nodes.push(n)) =~= node_views(nodes).push(n@));
}

/// Steps keep the graph well formed and fit for more steps, as long as the
/// step counter fits.
pub proof fn lemma_after_steps_keeps<MsgT>(g: GraphView<MsgT>, steps: nat)
    requires
        g.wf(),
        steps > 0 ==> g.can_propagate(),
        g.step + steps <= usize::MAX,
    ensures
        g.after_steps(steps).wf(),
        steps > 0 ==> g.after_steps(steps).can_propagate(),
        g.after_steps(steps).step == g.step + steps,
{
    if steps > 0 {
        let a = g.after_steps(steps);
        assert forall|c: int| 0 <= c < a.check_nodes.len() implies #[trigger] a.check_edges_in_range(c) by {
            assert(g.check_edges_in_range(c));
            assert(a.check_nodes[c].connections == g.check_nodes[c].connections);
        }
    }
}

/// A node without edges is left as it was when it fills its matrix row.
pub proof fn lemma_initialised_without_edges<MsgT>(n: NodeView<MsgT>, use_prior: bool)
    requires
        n.connections.len() == 0,
    ensures
        n.initialised(use_prior) == n,
{
    assert(n.initial_messages(use_prior) =~= Seq::<(NodeIndex, MsgT)>::empty());
    assert(n.inbox + n.initial_messages(use_prior) =~= n.inbox);
}

/// A bipartite graph of variable nodes and check nodes on which messages are propagated.
#[verifier::reject_recursive_types(T)]
#[verifier::reject_recursive_types(MsgT)]
#[verifier::reject_recursive_types(CtrlMsgT)]
#[verifier::reject_recursive_types(CtrlMsgAT)]
pub struct BPGraph<T, MsgT: Msg<T>, CtrlMsgT = (), CtrlMsgAT: Default = ()> {
    check_nodes: Vec<Node<T, MsgT, CtrlMsgT, CtrlMsgAT>>,
    var_nodes: Vec<Node<T, MsgT, CtrlMsgT, CtrlMsgAT>>,
    step: usize,
    normalize: bool,
    check_validity: bool,
    num_var_nodes: usize,
    num_check_nodes: usize,
}

impl<T, MsgT: Msg<T>, CtrlMsgT, CtrlMsgAT: Default> View for BPGraph<
    T,
    MsgT,
    CtrlMsgT,
    CtrlMsgAT,
> {
    type V = GraphView<MsgT>;

    closed spec fn view(&self) -> GraphView<MsgT> {
        GraphView {
            check_nodes: node_views(self.check_nodes@),
            var_nodes: node_views(self.var_nodes@),
            step: self.step as nat,
            normalize: self.normalize,
            check_validity: self.check_validity,
            num_var_nodes: self.num_var_nodes as nat,
            num_check_nodes: self.num_check_nodes as nat,
        }
    }
}

impl<T, MsgT: Msg<T>, CtrlMsgT, CtrlMsgAT: Default> BPGraph<T, MsgT, CtrlMsgT, CtrlMsgAT> {
    /// Every graph is well formed (`GraphView::wf`): `num_var_nodes` counts the
    /// variable nodes, `num_check_nodes` is at most the number of check nodes,
    /// and that number fits a `usize`.
    #[verifier::type_invariant]
    spec fn counters_agree(self) -> bool {
        &&& self.num_var_nodes == self.var_nodes@.len()
        &&& self.num_check_nodes <= self.check_nodes@.len()
        &&& self.check_nodes@.len() <= usize::MAX
    }


    /// An empty graph.
    pub fn new() -> (g: Self)
        ensures
            g@ == GraphView::<MsgT>::empty(),
            g@.wf(),
    {
        let g = BPGraph {
            check_nodes: Vec::new(),
            var_nodes: Vec::new(),
            step: 0,
            normalize: true,
            check_validity: false,
            num_var_nodes: 0,
            num_check_nodes: 0,
        };
        assert(node_views(g.check_nodes@) =~= Seq::<NodeView<MsgT>>::empty());
        assert(node_views(g.var_nodes@) =~= Seq::<NodeView<MsgT>>::empty());
        g
    }

    /// Sets whether messages are to be normalized.
    pub fn set_normalize(&mut self, normalize: bool)
        ensures
            final(self)@ == (GraphView { normalize, ..old(self)@ }),
    {
        proof {
            use_type_invariant(&*self);
        }
        self.normalize = normalize;
    }

    /// Sets whether messages are to be checked for validity.
    pub fn set_check_validity(&mut self, value: bool)
        ensures
            final(self)@ == (GraphView { check_validity: value, ..old(self)@ }),
    {
        proof {
            use_type_invariant(&*self);
        }
        self.check_validity = value;
    }

    /// Whether every check node is initialized.
    pub fn is_initialized_check(&self) -> (r: bool)
        ensures
            r == (forall|i: int| 0 <= i < self@.check_nodes.len() ==> #[trigger] self@.check_nodes[i].initialized),
    {
        let n = self.check_nodes.len();
        let mut i: usize = 0;
        while i < n
            invariant
                n == self.check_nodes@.len(),
                0 <= i <= n,
                forall|j: int| 0 <= j < i ==> #[trigger] self@.check_nodes[j].initialized,
            decreases n - i,
        {
            if !self.check_nodes[i].is_initialized() {
                assert(!self@.check_nodes[i as int].initialized);
                return false;
            }
            i = i + 1;
        }
        true
    }

    /// Whether every variable node is initialized.
    pub fn is_initialized_var(&self) -> (r: bool)
        ensures
            r == (forall|i: int| 0 <= i < self@.var_nodes.len() ==> #[trigger] self@.var_nodes[i].initialized),
    {
        let n = self.var_nodes.len();
        let mut i: usize = 0;
        while i < n
            invariant
                n == self.var_nodes@.len(),
                0 <= i <= n,
                forall|j: int| 0 <= j < i ==> #[trigger] self@.var_nodes[j].initialized,
            decreases n - i,
        {
            if !self.var_nodes[i].is_initialized() {
                assert(!self@.var_nodes[i as int].initialized);
                return false;
            }
            i = i + 1;
        }
        true
    }

    /// Adds a node made from `name` and `node_function` to the list of its kind
    /// and returns its index there. Adding a check node leaves `num_check_nodes`
    /// as it was.
    pub fn add_node(
        &mut self,
        name: String,
        node_function: Box<dyn NodeFunction<T, MsgT, CtrlMsgT, CtrlMsgAT>>,
        is_var: bool,
    ) -> (idx: NodeIndex)
        ensures
            final(self)@ == old(self)@.add_node_spec(NodeView::fresh(name@, is_var, final(self)@.last_behaviour(is_var)), is_var).0,
            idx == old(self)@.add_node_spec(NodeView::fresh(name@, is_var, final(self)@.last_behaviour(is_var)), is_var).1,
            final(self)@.wf(),
    {
        proof {
            use_type_invariant(&*self);
        }
        let node = Node::<T, MsgT, CtrlMsgT, CtrlMsgAT>::new(name, node_function, is_var);
        self.push_node(node, is_var, false)
    }

    /// Appends `node` to the list named by `is_var`, counts a variable node in
    /// `num_var_nodes`, and a check node in `num_check_nodes` where
    /// `count_check`; returns the node's index in its list.
    fn push_node(&mut self, node: Node<T, MsgT, CtrlMsgT, CtrlMsgAT>, is_var: bool, count_check: bool) -> (idx: NodeIndex)
        ensures
            final(self)@ == (if is_var || !count_check {
                old(self)@.add_node_spec(node@, is_var).0
            } else {
                old(self)@.add_node_directly_spec(node@, is_var).0
            }),
            idx == old(self)@.add_node_spec(node@, is_var).1,
            final(self)@.wf(),
    {
        proof {
            use_type_invariant(&*self);
        }
        let mut taken = BPGraph::new();
        std::mem::swap(self, &mut taken);
        let BPGraph {
            mut check_nodes,
            mut var_nodes,
            step,
            normalize,
            check_validity,
            mut num_var_nodes,
            mut num_check_nodes,
        } = taken;
        proof {
            lemma_views_push(var_nodes@, node);
            lemma_views_push(check_nodes@, node);
        }
        let idx;
        if is_var {
            var_nodes.push(node);
            idx = var_nodes.len() - 1;
            num_var_nodes += 1;
        } else {
            check_nodes.push(node);
            idx = check_nodes.len() - 1;
            if count_check {
                num_check_nodes += 1;
            }
        }
        *self = BPGraph {
            check_nodes,
            var_nodes,
            step,
            normalize,
            check_validity,
            num_var_nodes,
            num_check_nodes,
        };
        idx
    }

    /// Adds `node` to the list named by `is_var` and returns its index there.
    pub fn add_node_directly(&mut self, node: Node<T, MsgT, CtrlMsgT, CtrlMsgAT>, is_var: bool) -> (idx:
        NodeIndex)
        ensures
            final(self)@ == old(self)@.add_node_directly_spec(node@, is_var).0,
            idx == old(self)@.add_node_directly_spec(node@, is_var).1,
            final(self)@.wf(),
    {
        proof {
            use_type_invariant(&*self);
        }
        self.push_node(node, is_var, true)
    }

    /// Connects variable node `var` and check node `check`: the variable node
    /// records the edge first, then the check node.
    pub fn add_edge(&mut self, var: NodeIndex, check: NodeIndex) -> (r: BPResult<()>)
        ensures
            final(self)@ == old(self)@.add_edge_spec(var, check).0,
            reports(r, old(self)@.add_edge_spec(var, check).1),
    {
        proof {
            use_type_invariant(&*self);
        }
        let ghost g0 = self@;
        let ghost s0 = *self;
        {
            let n0 = match self.get_node_mut_var(var) {
                Ok(n) => n,
                Err(e) => {
                    assert(self@ == g0);
                    return Err(e);
                },
            };
            let ghost before = *n0;
            let r0 = n0.add_edge(check);
            proof {
                lemma_views_update(s0.var_nodes@, var as int, *n0);
            }
            match r0 {
                Ok(()) => {},
                Err(e) => {
                    assert(self@ == GraphView { var_nodes: g0.var_nodes.update(var as int, before@), ..g0 });
                    return Err(e);
                },
            }
        }
        let ghost g1 = self@;
        let ghost s1 = *self;
        assert(g1 == (GraphView { var_nodes: g0.var_nodes.update(var as int, g0.var_nodes[var as int].connect(check)), ..g0 }));
        let n1 = match self.get_node_mut_check(check) {
            Ok(n) => n,
            Err(e) => {
                assert(self@ == g1);
                return Err(e);
            },
        };
        let r1 = n1.add_edge(var);
        proof {
            lemma_views_update(s1.check_nodes@, check as int, *n1);
        }
        match r1 {
            Ok(()) => {},
            Err(e) => {
                return Err(e);
            },
        }
        Ok(())
    }

    /// The check node at index `node`.
    pub fn get_node_check(&self, node: NodeIndex) -> (r: BPResult<&Node<T, MsgT, CtrlMsgT, CtrlMsgAT>>)
        ensures
            node < self@.check_nodes.len() ==> (r matches Ok(n) && n@ == self@.check_nodes[node as int]),
            node >= self@.check_nodes.len() ==> (r matches Err(e) && is_index_error(e, node, self@.check_nodes.len() as usize)),
    {
        let len = self.check_nodes.len();
        if node < len {
            Ok(&self.check_nodes[node])
        } else {
            Err(index_error(node, len))
        }
    }

    /// The variable node at index `node`.
    pub fn get_node_var(&self, node: NodeIndex) -> (r: BPResult<&Node<T, MsgT, CtrlMsgT, CtrlMsgAT>>)
        ensures
            node < self@.var_nodes.len() ==> (r matches Ok(n) && n@ == self@.var_nodes[node as int]),
            node >= self@.var_nodes.len() ==> (r matches Err(e) && is_index_error(e, node, self@.var_nodes.len() as usize)),
    {
        let len = self.var_nodes.len();
        if node < len {
            Ok(&self.var_nodes[node])
        } else {
            Err(index_error(node, len))
        }
    }

    fn get_node_mut_check(&mut self, node: NodeIndex) -> (r: BPResult<&mut Node<T, MsgT, CtrlMsgT, CtrlMsgAT>>)
        ensures
            node < old(self).check_nodes@.len() ==> (r matches Ok(n) && *n == old(self).check_nodes@[node as int]
                && final(self).check_nodes@ == old(self).check_nodes@.update(node as int, *final(n))
                && final(self).var_nodes == old(self).var_nodes
                && final(self).step == old(self).step
                && final(self).normalize == old(self).normalize
                && final(self).check_validity == old(self).check_validity
                && final(self).num_var_nodes == old(self).num_var_nodes
                && final(self).num_check_nodes == old(self).num_check_nodes),
            node >= old(self).check_nodes@.len() ==> (r matches Err(e) && is_index_error(e, node, old(self).check_nodes@.len() as usize)
                && *final(self) == *old(self)),
    {
        proof {
            use_type_invariant(&*self);
        }
        let len = self.check_nodes.len();
        if node < len {
            Ok(&mut self.check_nodes[node])
        } else {
            Err(index_error(node, len))
        }
    }

    fn get_node_mut_var(&mut self, node: NodeIndex) -> (r: BPResult<&mut Node<T, MsgT, CtrlMsgT, CtrlMsgAT>>)
        ensures
            node < old(self).var_nodes@.len() ==> (r matches Ok(n) && *n == old(self).var_nodes@[node as int]
                && final(self).var_nodes@ == old(self).var_nodes@.update(node as int, *final(n))
                && final(self).check_nodes == old(self).check_nodes
                && final(self).step == old(self).step
                && final(self).normalize == old(self).normalize
                && final(self).check_validity == old(self).check_validity
                && final(self).num_var_nodes == old(self).num_var_nodes
                && final(self).num_check_nodes == old(self).num_check_nodes),
            node >= old(self).var_nodes@.len() ==> (r matches Err(e) && is_index_error(e, node, old(self).var_nodes@.len() as usize)
                && *final(self) == *old(self)),
    {
        proof {
            use_type_invariant(&*self);
        }
        let len = self.var_nodes.len();
        if node < len {
            Ok(&mut self.var_nodes[node])
        } else {
            Err(index_error(node, len))
        }
    }
}

impl<T, MsgT: Msg<T>, CtrlMsgT, CtrlMsgAT: Default> BPGraph<T, MsgT, CtrlMsgT, CtrlMsgAT> {
    /// Fills the message matrices: every variable node receives its prior, and
    /// every check node its zero pdf, once for each of its connections.
    pub fn initialise_matrix(&mut self)
        ensures
            final(self)@ == old(self)@.initialised(),
    {
        proof {
            use_type_invariant(&*self);
        }
        let ghost g0 = self@;
        let n = self.var_nodes.len();
        let mut i: usize = 0;
        while i < n
            invariant
                n == self.var_nodes@.len(),
                0 <= i <= n,
                self.check_nodes == old(self).check_nodes,
                self.step == old(self).step,
                self.normalize == old(self).normalize,
                self.check_validity == old(self).check_validity,
                self.num_var_nodes == old(self).num_var_nodes,
                self.num_check_nodes == old(self).num_check_nodes,
                self.counters_agree(),
                g0 == old(self)@,
                forall|j: int| 0 <= j < i ==> (#[trigger] self.var_nodes@[j])@ == g0.var_nodes[j].initialised(true),
                forall|j: int| i <= j < n ==> (#[trigger] self.var_nodes@[j])@ == g0.var_nodes[j],
            decreases n - i,
        {
            self.var_nodes[i].push_initial_messages(true);
            i = i + 1;
        }
        let m = self.check_nodes.len();
        let mut i: usize = 0;
        while i < m
            invariant
                m == self.check_nodes@.len(),
                0 <= i <= m,
                n == self.var_nodes@.len(),
                self.step == old(self).step,
                self.normalize == old(self).normalize,
                self.check_validity == old(self).check_validity,
                self.num_var_nodes == old(self).num_var_nodes,
                self.num_check_nodes == old(self).num_check_nodes,
                self.counters_agree(),
                g0 == old(self)@,
                forall|j: int| 0 <= j < n ==> (#[trigger] self.var_nodes@[j])@ == g0.var_nodes[j].initialised(true),
                forall|j: int| 0 <= j < i ==> (#[trigger] self.check_nodes@[j])@ == g0.check_nodes[j].initialised(false),
                forall|j: int| i <= j < m ==> (#[trigger] self.check_nodes@[j])@ == g0.check_nodes[j],
            decreases m - i,
        {
            self.check_nodes[i].push_initial_messages(false);
            i = i + 1;
        }
        proof {
            assert(self@.var_nodes =~= nodes_initialised(g0.var_nodes, true)) by {
                assert forall|j: int| 0 <= j < n implies self@.var_nodes[j] == nodes_initialised(g0.var_nodes, true)[j] by {
                    assert(self@.var_nodes[j] == self.var_nodes@[j]@);
                }
            }
            assert(self@.check_nodes =~= nodes_initialised(g0.check_nodes, false)) by {
                assert forall|j: int| 0 <= j < m implies self@.check_nodes[j] == nodes_initialised(g0.check_nodes, false)[j] by {
                    assert(self@.check_nodes[j] == self.check_nodes@[j]@);
                }
            }
        }
    }

    /// Sends from every variable node a message for check node `check_node_index`:
    /// the check node's message `r` for that variable node is read, and the
    /// variable node's log-probabilities `lp`; where `r` is valid the message
    /// is `exponent(subtract(lp, get_log(r)))`, else `exponent(lp)`; it is
    /// stored in the variable node's inbox under the key
    /// `check_node_index - num_var_nodes`.
    pub fn create_messages_var(&mut self, check_node_index: usize) -> (r: BPResult<()>) where
        MsgT: Clone,
        requires
            check_node_index < old(self)@.check_nodes.len(),
            old(self)@.num_var_nodes == 0 || check_node_index >= old(self)@.num_var_nodes,
        ensures
            r is Ok,
            messages_var_sent::<T, MsgT>(old(self)@, final(self)@, check_node_index),
    {
        proof {
            use_type_invariant(&*self);
        }
        let ghost g0 = self@;
        let variable_nodes_num = self.num_var_nodes;
        let ghost key = (check_node_index - variable_nodes_num) as NodeIndex;
        let ghost check = g0.check_nodes[check_node_index as int];
        let ghost mut rs: Seq<MsgT> = Seq::empty();
        let mut v: usize = 0;
        while v < variable_nodes_num
            invariant
                g0 == old(self)@,
                g0.wf(),
                variable_nodes_num == g0.num_var_nodes,
                key == (check_node_index - variable_nodes_num) as NodeIndex,
                check_node_index < g0.check_nodes.len(),
                check == g0.check_nodes[check_node_index as int],
                variable_nodes_num == 0 || check_node_index >= variable_nodes_num,
                0 <= v <= variable_nodes_num,
                rs.len() == v,
                self.check_nodes == old(self).check_nodes,
                self.step == old(self).step,
                self.normalize == old(self).normalize,
                self.check_validity == old(self).check_validity,
                self.num_var_nodes == old(self).num_var_nodes,
                self.num_check_nodes == old(self).num_check_nodes,
                self.var_nodes@.len() == g0.var_nodes.len(),
                forall|j: int| 0 <= j < v ==> {
                    &&& read_of(check.inbox, j as NodeIndex, check.behaviour.zero_pdf, #[trigger] rs[j])
                    &&& self.var_nodes@[j]@ == g0.var_nodes[j].with_inbox(
                        inbox_set(g0.var_nodes[j].inbox, key, message_of::<T, MsgT>(g0.var_nodes[j].behaviour, rs[j])),
                    )
                },
                forall|j: int| v <= j < g0.var_nodes.len() ==> (#[trigger] self.var_nodes@[j])@ == g0.var_nodes[j],
            decreases variable_nodes_num - v,
        {
            assert(g0.check_nodes[check_node_index as int] == self.check_nodes@[check_node_index as int]@);
            let r = self.check_nodes[check_node_index].get_matrix_value(v);
            if v < self.var_nodes.len() {
                let ghost n0 = self.var_nodes@[v as int]@;
                let ghost r0 = r;
                let log_prob_curr = self.var_nodes[v].get_log_prob();
                let q = if r.is_valid() {
                    let r_log = self.var_nodes[v].get_log(r);
                    let q_log = self.var_nodes[v].subtract(log_prob_curr, r_log);
                    self.var_nodes[v].exponent(q_log)
                } else {
                    self.var_nodes[v].exponent(log_prob_curr)
                };
                assert(q == message_of::<T, MsgT>(n0.behaviour, r0));
                self.var_nodes[v].update_push(check_node_index - variable_nodes_num, q);
                proof {
                    rs = rs.push(r0);
                    assert forall|j: int| 0 <= j < v + 1 implies {
                        &&& read_of(check.inbox, j as NodeIndex, check.behaviour.zero_pdf, #[trigger] rs[j])
                        &&& self.var_nodes@[j]@ == g0.var_nodes[j].with_inbox(
                            inbox_set(g0.var_nodes[j].inbox, key, message_of::<T, MsgT>(g0.var_nodes[j].behaviour, rs[j])),
                        )
                    } by {}
                }
            }
            v = v + 1;
        }
        proof {
            assert forall|j: int| 0 <= j < g0.var_nodes.len() implies #[trigger] message_var_sent::<T, MsgT>(g0, self@, check_node_index, j) by {
                assert(self@.var_nodes[j] == self.var_nodes@[j]@);
                let r = rs[j];
                assert(read_of(check.inbox, j as NodeIndex, check.behaviour.zero_pdf, rs[j]));
            }
            assert(self@.var_nodes.len() == g0.var_nodes.len());
        }
        Ok(())
    }

    /// The messages that check node `check_node_index` takes in: for each of its
    /// connections, in order, the connected variable node's message for this check node.
    pub fn collect_var_messages(&self, check_node_index: usize) -> (msgs: Vec<(NodeIndex, MsgT)>) where
        MsgT: Clone,
        requires
            check_node_index < self@.check_nodes.len(),
            self@.check_edges_in_range(check_node_index as int),
        ensures
            incoming_for(self@, check_node_index as int, msgs@),
    {
        let connections = self.check_nodes[check_node_index].get_connections();
        let n = connections.len();
        let mut var_messages: Vec<(NodeIndex, MsgT)> = Vec::with_capacity(n);
        let mut j: usize = 0;
        while j < n
            invariant
                n == connections@.len(),
                connections@ == self@.check_nodes[check_node_index as int].connections,
                check_node_index < self@.check_nodes.len(),
                self@.check_edges_in_range(check_node_index as int),
                0 <= j <= n,
                var_messages@.len() == j,
                forall|k: int| 0 <= k < j ==> {
                    let v = connections@[k];
                    &&& (#[trigger] var_messages@[k]).0 == v
                    &&& read_of(self@.var_nodes[v as int].inbox, check_node_index, self@.var_nodes[v as int].behaviour.zero_pdf, var_messages@[k].1)
                },
            decreases n - j,
        {
            let var_node_index = connections[j];
            assert(self@.check_nodes[check_node_index as int].connections[j as int] < self@.var_nodes.len());
            assert(self@.var_nodes[var_node_index as int] == self.var_nodes@[var_node_index as int]@);
            let msg = self.var_nodes[var_node_index].get_matrix_value(check_node_index);
            var_messages.push((var_node_index, msg));
            j = j + 1;
        }
        var_messages
    }

    /// Lets check node `check_node_index` compute its messages from those of its
    /// variable nodes (as `collect_var_messages` gathers them); on success they
    /// replace its inbox, on failure the error is returned and the inbox stays.
    /// An index past the check nodes does nothing.
    pub fn create_messages_check(&mut self, check_node_index: usize) -> (r: BPResult<()>) where
        MsgT: Clone,
        requires
            check_node_index < old(self)@.check_nodes.len() ==> old(self)@.check_edges_in_range(check_node_index as int),
        ensures
            messages_check_computed(old(self)@, final(self)@, check_node_index),
            check_node_index >= old(self)@.check_nodes.len() ==> r is Ok,
            check_node_index < old(self)@.check_nodes.len() ==> exists|incoming: Seq<(NodeIndex, MsgT)>| {
                &&& #[trigger] check_computed_from(old(self)@, final(self)@, check_node_index as int, incoming)
                &&& answered(
                    old(self)@.check_nodes[check_node_index as int],
                    (old(self)@.check_nodes[check_node_index as int].behaviour.compute)(incoming),
                    final(self)@.check_nodes[check_node_index as int],
                    r,
                )
            },
    {
        proof {
            use_type_invariant(&*self);
        }
        if check_node_index < self.check_nodes.len() {
            let ghost g0 = self@;
            let var_messages = self.collect_var_messages(check_node_index);
            let ghost incoming = var_messages@;
            let ghost s0 = *self;
            let res = self.check_nodes[check_node_index].receive(var_messages);
            proof {
                lemma_views_update(s0.check_nodes@, check_node_index as int, self.check_nodes@[check_node_index as int]);
                assert(self@.check_nodes[check_node_index as int] == self.check_nodes@[check_node_index as int]@);
                assert(s0@.check_nodes[check_node_index as int] == s0.check_nodes@[check_node_index as int]@);
                assert(check_computed_from(g0, self@, check_node_index as int, incoming));
            }
            match res {
                Ok(()) => Ok(()),
                Err(e) => Err(e),
            }
        } else {
            Ok(())
        }
    }

    /// Lets every variable node connected to check node `check_node_index` fold
    /// the two messages of that edge into its log-probabilities: the variable
    /// node's message under the key `check_node_index - num_var_nodes` and the
    /// check node's message for the variable node. Only the log-probabilities
    /// change.
    pub fn update_log_prob(&mut self, check_node_index: usize) -> (r: BPResult<()>) where
        MsgT: Clone,
        requires
            check_node_index < old(self)@.check_nodes.len() ==> forall|j: int|
                0 <= j < old(self)@.check_nodes[check_node_index as int].connections.len()
                    && #[trigger] old(self)@.check_nodes[check_node_index as int].connections[j] < old(self)@.var_nodes.len()
                    ==> check_node_index >= old(self)@.num_var_nodes,
        ensures
            r is Ok,
            log_probs_updated(old(self)@, final(self)@, check_node_index),
    {
        proof {
            use_type_invariant(&*self);
        }
        let ghost g0 = self@;
        let ghost key = (check_node_index - g0.num_var_nodes) as NodeIndex;
        let ghost c = check_node_index;
        let ghost mut pairs: Seq<Seq<(MsgT, MsgT)>> = Seq::new(g0.var_nodes.len(), |v: int| Seq::<(MsgT, MsgT)>::empty());
        proof {
            assert forall|v: int| 0 <= v < g0.var_nodes.len() implies self@.var_nodes[v] == (NodeView {
                behaviour: Behaviour {
                    log_prob: folded(g0.var_nodes[v].behaviour.log_prob, g0.var_nodes[v].behaviour.fold_log_prob, #[trigger] pairs[v]),
                    ..g0.var_nodes[v].behaviour
                },
                ..g0.var_nodes[v]
            }) by {}
        }
        if check_node_index < self.check_nodes.len() {
            let variable_nodes_num = self.num_var_nodes;
            let n = self.check_nodes[check_node_index].get_connections().len();
            let ghost conns = g0.check_nodes[check_node_index as int].connections;
            let ghost check = g0.check_nodes[check_node_index as int];
            let mut j: usize = 0;
            while j < n
                invariant
                    g0 == old(self)@,
                    self@ == (GraphView { var_nodes: self@.var_nodes, ..g0 }),
                    self.check_nodes == old(self).check_nodes,
                    self@.var_nodes.len() == g0.var_nodes.len(),
                    g0.wf(),
                    variable_nodes_num == g0.num_var_nodes,
                    key == (check_node_index - variable_nodes_num) as NodeIndex,
                    c == check_node_index,
                    check_node_index < g0.check_nodes.len(),
                    check == g0.check_nodes[check_node_index as int],
                    conns == check.connections,
                    n == conns.len(),
                    forall|k: int|
                        0 <= k < n && #[trigger] g0.check_nodes[check_node_index as int].connections[k] < g0.var_nodes.len()
                            ==> check_node_index >= variable_nodes_num,
                    0 <= j <= n,
                    pairs.len() == g0.var_nodes.len(),
                    forall|v: int| 0 <= v < g0.var_nodes.len() ==> {
                        &&& (#[trigger] pairs[v]).len() == count_of(conns.take(j as int), v as NodeIndex)
                        &&& forall|i: int| 0 <= i < pairs[v].len() ==> {
                            &&& read_of(g0.var_nodes[v].inbox, key, g0.var_nodes[v].behaviour.zero_pdf, (#[trigger] pairs[v][i]).0)
                            &&& read_of(check.inbox, v as NodeIndex, check.behaviour.zero_pdf, pairs[v][i].1)
                        }
                        &&& self@.var_nodes[v] == (NodeView {
                            behaviour: Behaviour {
                                log_prob: folded(g0.var_nodes[v].behaviour.log_prob, g0.var_nodes[v].behaviour.fold_log_prob, pairs[v]),
                                ..g0.var_nodes[v].behaviour
                            },
                            ..g0.var_nodes[v]
                        })
                    },
                decreases n - j,
            {
                assert(self@.check_nodes[check_node_index as int] == self.check_nodes@[check_node_index as int]@);
                let var_node_index = self.check_nodes[check_node_index].get_connections()[j];
                proof {
                    assert(conns.take(j + 1).drop_last() =~= conns.take(j as int));
                    assert(conns.take(j + 1).last() == var_node_index);
                }
                if var_node_index < self.var_nodes.len() {
                    let r = self.check_nodes[check_node_index].get_matrix_value(var_node_index);
                    assert(self@.var_nodes[var_node_index as int] == self.var_nodes@[var_node_index as int]@);
                    let q = self.var_nodes[var_node_index].get_matrix_value(check_node_index - variable_nodes_num);
                    let ghost s0 = *self;
                    let ghost before = self@;
                    self.var_nodes[var_node_index].update_log_prob(q, r);
                    proof {
                        lemma_views_update(s0.var_nodes@, var_node_index as int, self.var_nodes@[var_node_index as int]);
                        let v0 = var_node_index as int;
                        let old_pairs = pairs[v0];
                        pairs = pairs.update(v0, old_pairs.push((q, r)));
                        assert(pairs[v0].drop_last() =~= old_pairs);
                        assert forall|v: int| 0 <= v < g0.var_nodes.len() implies {
                            &&& (#[trigger] pairs[v]).len() == count_of(conns.take(j + 1), v as NodeIndex)
                            &&& forall|i: int| 0 <= i < pairs[v].len() ==> {
                                &&& read_of(g0.var_nodes[v].inbox, key, g0.var_nodes[v].behaviour.zero_pdf, (#[trigger] pairs[v][i]).0)
                                &&& read_of(check.inbox, v as NodeIndex, check.behaviour.zero_pdf, pairs[v][i].1)
                            }
                            &&& self@.var_nodes[v] == (NodeView {
                                behaviour: Behaviour {
                                    log_prob: folded(g0.var_nodes[v].behaviour.log_prob, g0.var_nodes[v].behaviour.fold_log_prob, pairs[v]),
                                    ..g0.var_nodes[v].behaviour
                                },
                                ..g0.var_nodes[v]
                            })
                        } by {
                            if v == v0 {
                                assert forall|i: int| 0 <= i < pairs[v].len() implies {
                                    &&& read_of(g0.var_nodes[v].inbox, key, g0.var_nodes[v].behaviour.zero_pdf, (#[trigger] pairs[v][i]).0)
                                    &&& read_of(check.inbox, v as NodeIndex, check.behaviour.zero_pdf, pairs[v][i].1)
                                } by {
                                    if i < old_pairs.len() {
                                        assert(pairs[v][i] == old_pairs[i]);
                                    }
                                }
                            } else {
                                assert(self@.var_nodes[v] == before.var_nodes[v]);
                            }
                        }
                    }
                } else {
                    proof {
                        assert forall|v: int| 0 <= v < g0.var_nodes.len() implies
                            #[trigger] count_of(conns.take(j + 1), v as NodeIndex) == count_of(conns.take(j as int), v as NodeIndex) by {}
                    }
                }
                j = j + 1;
            }
            assert(conns.take(n as int) =~= conns);
        }
        proof {
            assert forall|v: int| 0 <= v < g0.var_nodes.len() implies #[trigger] var_log_prob_updated(g0, self@, c, v) by {
                assert(log_prob_pairs(g0, self@, c, v, pairs[v]));
            }
        }
        Ok(())
    }

    /// Runs one propagation step: on the first step the message matrices are
    /// filled; then, for each check node in turn, the variable nodes send their
    /// messages to it, it computes its own, and the variable nodes fold both into
    /// their log-probabilities. Failures of node functions are passed over.
    pub fn propagate_step(&mut self) -> (r: BPResult<()>) where MsgT: Clone
        requires
            old(self)@.can_propagate(),
            old(self)@.step < usize::MAX,
        ensures
            r is Ok,
            final(self)@.wf(),
            exists|states: Seq<GraphView<MsgT>>| #[trigger] round::<T, MsgT>(old(self)@, states, final(self)@),
            final(self)@ == old(self)@.after_steps(1),
    {
        proof {
            use_type_invariant(&*self);
        }
        let ghost g0 = self@;
        if self.step == 0 {
            self.initialise_matrix();
        }
        let ghost g1 = self@;
        proof {
            if g0.check_nodes.len() > 0 {
                assert forall|c: int| 0 <= c < g0.check_nodes.len() implies (#[trigger] g0.check_nodes[c]).connections.len() == 0 by {
                    assert(g0.check_edges_in_range(c));
                    if g0.check_nodes[c].connections.len() > 0 {
                        assert(g0.check_nodes[c].connections[0] < g0.var_nodes.len());
                    }
                }
                if g0.step == 0 {
                    assert forall|c: int| 0 <= c < g0.check_nodes.len() implies g1.check_nodes[c] == g0.check_nodes[c] by {
                        lemma_initialised_without_edges(g0.check_nodes[c], false);
                    }
                    assert(g1.check_nodes =~= g0.check_nodes);
                    assert(g1.var_nodes =~= g0.var_nodes);
                }
                assert(g1 == g0);
            }
        }
        let ghost mut states: Seq<GraphView<MsgT>> = seq![g1];
        let num_check_nodes = self.check_nodes.len();
        assert(g1.check_nodes.len() == g0.check_nodes.len());
        assert(num_check_nodes == g1.check_nodes.len());
        assert(num_check_nodes > 0 ==> g0.var_nodes.len() == 0);
        assert(num_check_nodes > 0 ==> g1 == g0);
        let mut index: usize = 0;
        while index < num_check_nodes
            invariant
                g0 == old(self)@,
                g0.wf(),
                g0.can_propagate(),
                num_check_nodes == g0.check_nodes.len(),
                g1 == (if g0.step == 0 { g0.initialised() } else { g0 }),
                num_check_nodes > 0 ==> g1 == g0 && g0.var_nodes.len() == 0,
                num_check_nodes > 0 ==> forall|c: int| 0 <= c < num_check_nodes ==> (#[trigger] g0.check_nodes[c]).connections.len() == 0,
                0 <= index <= num_check_nodes,
                states.len() == 3 * index + 1,
                states[0] == g1,
                states.last() == self@,
                forall|c: int| 0 <= c < index ==> #[trigger] round_part::<T, MsgT>(states, c),
                self@ == (GraphView { check_nodes: self@.check_nodes, ..g1 }),
                self@.check_nodes.len() == num_check_nodes,
                forall|c: int| 0 <= c < index ==> #[trigger] self@.check_nodes[c] == computed_alone(g1.check_nodes[c]),
                forall|c: int| index <= c < num_check_nodes ==> #[trigger] self@.check_nodes[c] == g1.check_nodes[c],
            decreases num_check_nodes - index,
        {
            let _node = match self.get_node_check(index) {
                Ok(n) => n,
                Err(e) => {
                    return Err(e);
                },
            };
            proof {
                assert(g0.check_nodes[index as int].connections.len() == 0);
            }
            let ghost before = self@;
            let ghost states0 = states;
            let _ = self.create_messages_var(index);
            proof {
                assert(self@.var_nodes =~= before.var_nodes);
                states = states.push(self@);
            }
            let ghost mid = self@;
            let _ = self.create_messages_check(index);
            let ghost mid2 = self@;
            proof {
                states = states.push(self@);
            }
            let _ = self.update_log_prob(index);
            proof {
                assert(self@.var_nodes =~= mid2.var_nodes);
                states = states.push(self@);
                assert(states[3 * index as int] == before);
                assert(states[3 * index + 1] == mid);
                assert(states[3 * index + 2] == mid2);
                assert(round_part::<T, MsgT>(states, index as int));
                assert forall|c: int| 0 <= c < index + 1 implies #[trigger] round_part::<T, MsgT>(states, c) by {
                    if c < index {
                        assert(round_part::<T, MsgT>(states0, c));
                        assert(states[3 * c] == states0[3 * c]);
                        assert(states[3 * c + 1] == states0[3 * c + 1]);
                        assert(states[3 * c + 2] == states0[3 * c + 2]);
                        assert(states[3 * c + 3] == states0[3 * c + 3]);
                    }
                }
                let c = index as int;
                let incoming = choose|incoming: Seq<(NodeIndex, MsgT)>| #[trigger] check_computed_from(mid, mid2, c, incoming);
                assert(check_computed_from(mid, mid2, c, incoming));
                assert(incoming =~= Seq::<(NodeIndex, MsgT)>::empty());
                assert(self@.check_nodes[c] == computed_alone(g1.check_nodes[c]));
                assert forall|k: int| 0 <= k < num_check_nodes && k != c implies #[trigger] self@.check_nodes[k] == before.check_nodes[k] by {
                    assert(mid2.check_nodes[k] == mid.check_nodes[k]);
                }
            }
            index = index + 1;
        }
        proof {
            use_type_invariant(&*self);
        }
        self.step += 1;
        proof {
            assert(round::<T, MsgT>(g0, states, self@));
            let after = g0.after_steps(1);
            assert(self@.check_nodes =~= after.check_nodes);
            assert(self@.var_nodes =~= after.var_nodes);
        }
        Ok(())
    }

    /// Runs `steps` propagation steps.
    pub fn propagate(&mut self, steps: usize) -> (r: BPResult<()>) where MsgT: Clone
        requires
            steps > 0 ==> old(self)@.can_propagate(),
            old(self)@.step + steps <= usize::MAX,
        ensures
            r is Ok,
            final(self)@.wf(),
            final(self)@ == old(self)@.after_steps(steps as nat),
    {
        proof {
            use_type_invariant(&*self);
        }
        let ghost g0 = self@;
        let mut i: usize = 0;
        while i < steps
            invariant
                g0 == old(self)@,
                g0.wf(),
                steps > 0 ==> g0.can_propagate(),
                g0.step + steps <= usize::MAX,
                0 <= i <= steps,
                self@ == g0.after_steps(i as nat),
            decreases steps - i,
        {
            proof {
                lemma_after_steps_keeps(g0, i as nat);
            }
            match self.propagate_step() {
                Ok(()) => {},
                Err(e) => {
                    return Err(e);
                },
            }
            proof {
                crate::laws::law_after_steps_compose(g0, i as nat, 1);
            }
            i = i + 1;
        }
        proof {
            lemma_after_steps_keeps(g0, steps as nat);
        }
        Ok(())
    }
}

} // verus!
