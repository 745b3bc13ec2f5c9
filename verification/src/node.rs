use vstd::prelude::*;

use crate::error::{BPError, BPResult, Failure};
use crate::node_function::{outcome_view, Behaviour, Msg, NodeFunction, NodeIndex};

verus! {

// ---------------------------------------------------------------------------
// The inbox: a list of (sender, message) pairs, read and written by sender.
// ---------------------------------------------------------------------------

/// `i` is the first position of the inbox whose sender is `key`.
pub open spec fn is_first_index<M>(inbox: Seq<(NodeIndex, M)>, key: NodeIndex, i: int) -> bool {
    &&& 0 <= i < inbox.len()
    &&& inbox[i].0 == key
    &&& forall|j: int| 0 <= j < i ==> #[trigger] inbox[j].0 != key
}

/// The inbox holds a message from `key`.
pub open spec fn inbox_has<M>(inbox: Seq<(NodeIndex, M)>, key: NodeIndex) -> bool {
    exists|i: int| 0 <= i < inbox.len() && #[trigger] inbox[i].0 == key
}

/// The first position of the inbox whose sender is `key` (meaningful when `inbox_has`).
pub open spec fn first_index<M>(inbox: Seq<(NodeIndex, M)>, key: NodeIndex) -> int {
    choose|i: int| is_first_index(inbox, key, i)
}

/// The message stored for `key`: the first one from that sender, if any.
pub open spec fn inbox_get<M>(inbox: Seq<(NodeIndex, M)>, key: NodeIndex) -> Option<M> {
    if inbox_has(inbox, key) {
        Some(inbox[first_index(inbox, key)].1)
    } else {
        None
    }
}

/// The inbox after storing `msg` for `key`: the first entry from `key` is
/// overwritten, or, where there is none, the pair is appended.
pub open spec fn inbox_set<M>(inbox: Seq<(NodeIndex, M)>, key: NodeIndex, msg: M) -> Seq<
    (NodeIndex, M),
> {
    if inbox_has(inbox, key) {
        inbox.update(first_index(inbox, key), (key, msg))
    } else {
        inbox.push((key, msg))
    }
}

/// There is exactly one first position for a sender that occurs in the inbox.
pub proof fn lemma_first_index<M>(inbox: Seq<(NodeIndex, M)>, key: NodeIndex)
    requires
        inbox_has(inbox, key),
    ensures
        is_first_index(inbox, key, first_index(inbox, key)),
        forall|i: int| #[trigger] is_first_index(inbox, key, i) ==> i == first_index(inbox, key),
    decreases inbox.len(),
{
    let w = choose|i: int| 0 <= i < inbox.len() && #[trigger] inbox[i].0 == key;
    if w == 0 {
        assert(is_first_index(inbox, key, 0));
    } else {
        let prefix = inbox.subrange(0, w);
        if inbox_has(prefix, key) {
            lemma_first_index(prefix, key);
            let f = first_index(prefix, key);
            assert(is_first_index(inbox, key, f)) by {
                assert forall|j: int| 0 <= j < f implies #[trigger] inbox[j].0 != key by {
                    assert(prefix[j] == inbox[j]);
                }
                assert(prefix[f] == inbox[f]);
            }
        } else {
            assert(is_first_index(inbox, key, w)) by {
                assert forall|j: int| 0 <= j < w implies #[trigger] inbox[j].0 != key by {
                    assert(prefix[j] == inbox[j]);
                }
            }
        }
    }
    assert forall|i: int| #[trigger] is_first_index(inbox, key, i) implies i == first_index(
        inbox,
        key,
    ) by {
        let f = first_index(inbox, key);
        if i < f {
            assert(inbox[i].0 != key);
        } else if f < i {
            assert(inbox[f].0 != key);
        }
    }
}

// ---------------------------------------------------------------------------
// What a node function's answers make of messages
// ---------------------------------------------------------------------------

/// The inbox after a node function's answer is taken: its messages, or, on an
/// error, the inbox as it was.
pub open spec fn inbox_answered<M>(
    inbox: Seq<(NodeIndex, M)>,
    outcome: Result<Seq<(NodeIndex, M)>, BPError>,
) -> Seq<(NodeIndex, M)> {
    match outcome {
        Ok(msgs) => msgs,
        Err(_) => inbox,
    }
}

/// How a node's answer is taken: the inbox becomes `inbox_answered`, and the
/// result is `Ok` or the node function's error.
pub open spec fn answered<M>(
    old: NodeView<M>,
    outcome: Result<Seq<(NodeIndex, M)>, BPError>,
    new: NodeView<M>,
    r: BPResult<()>,
) -> bool {
    &&& new.inbox == inbox_answered(old.inbox, outcome)
    &&& outcome is Ok ==> r is Ok
    &&& outcome matches Err(e) ==> r == Err::<(), BPError>(e)
}

/// The node's prior, or its zero pdf where it has none.
pub open spec fn prior_value<M>(b: Behaviour<M>) -> M {
    match b.prior {
        Some(p) => p,
        None => b.zero_pdf,
    }
}

/// The node's log-probabilities, or its zero pdf where it has none.
pub open spec fn log_prob_value<M>(b: Behaviour<M>) -> M {
    match b.log_prob {
        Some(p) => p,
        None => b.zero_pdf,
    }
}

/// The message a node appends for each connection when the matrices are
/// filled: its prior where `use_prior`, else its zero pdf.
pub open spec fn initial_value<M>(b: Behaviour<M>, use_prior: bool) -> M {
    if use_prior {
        prior_value(b)
    } else {
        b.zero_pdf
    }
}

/// `r` is what `get_matrix_value(key)` gives on a node with this inbox and
/// zero pdf: a clone of the message held for `key`, or the zero pdf.
pub open spec fn read_of<M: Clone>(inbox: Seq<(NodeIndex, M)>, key: NodeIndex, zero_pdf: M, r: M) -> bool {
    match inbox_get(inbox, key) {
        Some(m) => cloned(m, r),
        None => r == zero_pdf,
    }
}

/// The message that a variable node with behaviour `b` sends for the check
/// node's message `r`: with `lp` its log-probabilities,
/// `exponent(subtract(lp, get_log(r)))` where `r` is valid, else `exponent(lp)`.
pub open spec fn message_of<T, M: Msg<T>>(b: Behaviour<M>, r: M) -> M {
    if r.valid() {
        (b.exponential)((b.difference)(log_prob_value(b), (b.log)(r)))
    } else {
        (b.exponential)(log_prob_value(b))
    }
}

// ---------------------------------------------------------------------------
// Nodes
// ---------------------------------------------------------------------------

/// What a node is: its name, kind, edges, inbox, initialization, and what its
/// node function answers in its present state.
#[verifier::reject_recursive_types(MsgT)]
pub struct NodeView<MsgT> {
    pub name: Seq<char>,
    pub is_var: bool,
    /// The indices of the nodes of the other kind that this node is connected to.
    pub connections: Seq<NodeIndex>,
    /// The messages this node holds, each with the index of the node it belongs to.
    pub inbox: Seq<(NodeIndex, MsgT)>,
    pub initialized: bool,
    pub behaviour: Behaviour<MsgT>,
}

impl<MsgT> NodeView<MsgT> {
    /// A node as it is made: no edges, no messages, not initialized.
    pub open spec fn fresh(name: Seq<char>, is_var: bool, behaviour: Behaviour<MsgT>) -> Self {
        NodeView {
            name,
            is_var,
            connections: Seq::empty(),
            inbox: Seq::empty(),
            initialized: false,
            behaviour,
        }
    }

    /// The two nodes agree on name, kind, edges and initialization.
    pub open spec fn same_but_inbox(self, other: Self) -> bool {
        &&& self.name == other.name
        &&& self.is_var == other.is_var
        &&& self.connections == other.connections
        &&& self.initialized == other.initialized
    }

    /// The node with its inbox replaced.
    pub open spec fn with_inbox(self, inbox: Seq<(NodeIndex, MsgT)>) -> Self {
        NodeView { inbox, ..self }
    }

    /// The node with one more edge, to `to`.
    pub open spec fn connect(self, to: NodeIndex) -> Self {
        NodeView { connections: self.connections.push(to), ..self }
    }

    /// What `add_edge(to)` gives: the node and the failure, if any.
    pub open spec fn add_edge_spec(self, to: NodeIndex) -> (Self, Option<Failure>) {
        if self.connections.contains(to) {
            (self, Some(Failure::DuplicateEdge { to }))
        } else {
            (self.connect(to), None)
        }
    }

    /// The messages the node appends when the matrices are filled: one per
    /// connection, in order, keyed by it, each `initial_value`.
    pub open spec fn initial_messages(self, use_prior: bool) -> Seq<(NodeIndex, MsgT)> {
        self.connections.map_values(|c: NodeIndex| (c, initial_value(self.behaviour, use_prior)))
    }

    /// The node after it filled its matrix row.
    pub open spec fn initialised(self, use_prior: bool) -> Self {
        self.with_inbox(self.inbox + self.initial_messages(use_prior))
    }
}

/// A node of the graph: its name, kind, edges and inbox, and the function
/// that computes its messages.
#[verifier::reject_recursive_types(T)]
#[verifier::reject_recursive_types(MsgT)]
#[verifier::reject_recursive_types(CtrlMsgT)]
#[verifier::reject_recursive_types(CtrlMsgAT)]
pub struct Node<T, MsgT: Msg<T>, CtrlMsgT = (), CtrlMsgAT: Default = ()> {
    name: String,
    node_function: Box<dyn NodeFunction<T, MsgT, CtrlMsgT, CtrlMsgAT>>,
    is_var: bool,
    connections: Vec<NodeIndex>,
    inbox: Vec<(NodeIndex, MsgT)>,
    initialized: bool,
}

impl<T, MsgT: Msg<T>, CtrlMsgT, CtrlMsgAT: Default> View for Node<T, MsgT, CtrlMsgT, CtrlMsgAT> {
    type V = NodeView<MsgT>;

    closed spec fn view(&self) -> NodeView<MsgT> {
        NodeView {
            name: self.name@,
            is_var: self.is_var,
            connections: self.connections@,
            inbox: self.inbox@,
            initialized: self.initialized,
            behaviour: self.node_function.behaviour(),
        }
    }
}

impl<T, MsgT: Msg<T>, CtrlMsgT, CtrlMsgAT: Default> Node<T, MsgT, CtrlMsgT, CtrlMsgAT> {
    /// A node with no edges and no messages. It answers as `node_function`
    /// does; the contract leaves its behaviour unnamed, as Verus does not
    /// follow a boxed trait object into a struct field.
    pub fn new(
        name: String,
        node_function: Box<dyn NodeFunction<T, MsgT, CtrlMsgT, CtrlMsgAT>>,
        is_var: bool,
    ) -> (n: Self)
        ensures
            n@ == NodeView::<MsgT>::fresh(name@, is_var, n@.behaviour),
    {
        let n = Node {
            name,
            node_function,
            is_var,
            connections: Vec::new(),
            inbox: Vec::new(),
            initialized: false,
        };
        assert(n.connections@ =~= Seq::<NodeIndex>::empty());
        assert(n.inbox@ =~= Seq::<(NodeIndex, MsgT)>::empty());
        n
    }

    /// The node's name.
    pub fn get_name(&self) -> (r: &String)
        ensures
            r@ == self@.name,
    {
        &self.name
    }

    /// Whether this is a variable node.
    pub fn is_var(&self) -> (r: bool)
        ensures
            r == self@.is_var,
    {
        self.is_var
    }

    /// Whether `initialize` has succeeded on this node.
    pub fn is_initialized(&self) -> (r: bool)
        ensures
            r == self@.initialized,
    {
        self.initialized
    }

    /// The nodes this node is connected to.
    pub fn get_connections(&self) -> (r: &Vec<NodeIndex>)
        ensures
            r@ == self@.connections,
    {
        &self.connections
    }

    /// The messages this node holds.
    pub fn get_inbox(&self) -> (r: &Vec<(NodeIndex, MsgT)>)
        ensures
            r@ == self@.inbox,
    {
        &self.inbox
    }

    /// Hands the node's connections to its node function and, where that
    /// succeeds, marks the node initialized. The node function may change its
    /// behaviour on the way.
    pub fn initialize(&mut self) -> (r: BPResult<()>)
        ensures
            r == (old(self)@.behaviour.initialize)(old(self)@.connections),
            final(self)@ == (NodeView {
                initialized: old(self)@.initialized || r is Ok,
                behaviour: final(self)@.behaviour,
                ..old(self)@
            }),
    {
        let connections = self.connections.clone();
        assert(connections@ =~= self.connections@);
        let outcome = self.node_function.initialize(connections);
        if outcome.is_ok() {
            self.initialized = true;
        }
        outcome
    }

    /// Whether the node records an edge to `to`.
    pub fn is_connected_to(&self, to: NodeIndex) -> (r: bool)
        ensures
            r == self@.connections.contains(to),
    {
        let n = self.connections.len();
        let mut i: usize = 0;
        while i < n
            invariant
                n == self.connections@.len(),
                0 <= i <= n,
                forall|j: int| 0 <= j < i ==> self.connections@[j] != to,
            decreases n - i,
        {
            if self.connections[i] == to {
                assert(self.connections@[i as int] == to);
                return true;
            }
            i = i + 1;
        }
        false
    }

    /// Records an edge to node `to`; an edge that is already there is refused.
    pub fn add_edge(&mut self, to: NodeIndex) -> (r: BPResult<()>)
        ensures
            final(self)@ == old(self)@.add_edge_spec(to).0,
            crate::error::reports(r, old(self)@.add_edge_spec(to).1),
    {
        if self.is_connected_to(to) {
            Err(BPError::DuplicateEdge { to })
        } else {
            self.connections.push(to);
            Ok(())
        }
    }

    /// The position of the first message from `key`, if there is one.
    fn find_message(&self, key: NodeIndex) -> (r: Option<usize>)
        ensures
            r is Some <==> inbox_has(self@.inbox, key),
            r matches Some(i) ==> i == first_index(self@.inbox, key) && i < self@.inbox.len(),
    {
        let n = self.inbox.len();
        let mut i: usize = 0;
        while i < n
            invariant
                n == self.inbox@.len(),
                0 <= i <= n,
                forall|j: int| 0 <= j < i ==> #[trigger] self.inbox@[j].0 != key,
            decreases n - i,
        {
            if self.inbox[i].0 == key {
                proof {
                    assert(is_first_index(self.inbox@, key, i as int));
                    lemma_first_index(self.inbox@, key);
                }
                return Some(i);
            }
            i = i + 1;
        }
        None
    }

    /// The message held for `key`, or, where there is none, the node's zero pdf.
    pub fn get_matrix_value(&self, key: NodeIndex) -> (r: MsgT) where MsgT: Clone
        ensures
            read_of(self@.inbox, key, self@.behaviour.zero_pdf, r),
    {
        match self.find_message(key) {
            Some(i) => self.inbox[i].1.clone(),
            None => self.node_function.get_zero_pdf(),
        }
    }

    /// Stores `msg` for `key`: overwrites the first message from `key`, or appends one.
    pub fn update_push(&mut self, key: NodeIndex, msg: MsgT)
        ensures
            final(self)@ == old(self)@.with_inbox(inbox_set(old(self)@.inbox, key, msg)),
    {
        match self.find_message(key) {
            Some(i) => {
                self.inbox.set(i, (key, msg));
            },
            None => {
                self.inbox.push((key, msg));
            },
        }
    }

    /// The node's zero pdf.
    pub fn get_zero_pdf(&self) -> (z: MsgT)
        ensures
            z == self@.behaviour.zero_pdf,
    {
        self.node_function.get_zero_pdf()
    }

    /// The node's prior, or its zero pdf where it has no prior.
    pub fn get_prior(&self) -> (p: MsgT)
        ensures
            p == prior_value(self@.behaviour),
    {
        match self.node_function.get_prior() {
            Some(p) => p,
            None => self.node_function.get_zero_pdf(),
        }
    }

    /// The node's log-probabilities, or its zero pdf where it has none.
    pub fn get_log_prob(&self) -> (p: MsgT)
        ensures
            p == log_prob_value(self@.behaviour),
    {
        match self.node_function.get_log_prob() {
            Some(p) => p,
            None => self.node_function.get_zero_pdf(),
        }
    }

    /// The logarithm of `r`, as the node function computes it.
    pub fn get_log(&mut self, r: MsgT) -> (l: MsgT)
        ensures
            l == (old(self)@.behaviour.log)(r),
            final(self)@ == old(self)@,
    {
        self.node_function.get_log(r)
    }

    /// The difference of two messages, as the node function computes it.
    pub fn subtract(&mut self, p_1: MsgT, p_2: MsgT) -> (d: MsgT)
        ensures
            d == (old(self)@.behaviour.difference)(p_1, p_2),
            final(self)@ == old(self)@,
    {
        self.node_function.subtract(p_1, p_2)
    }

    /// The exponential of a message, as the node function computes it.
    pub fn exponent(&mut self, p: MsgT) -> (e: MsgT)
        ensures
            e == (old(self)@.behaviour.exponential)(p),
            final(self)@ == old(self)@,
    {
        self.node_function.exponent(p)
    }

    /// Lets the node function fold the messages of one edge into its log-probabilities.
    pub fn update_log_prob(&mut self, q: MsgT, r: MsgT)
        ensures
            final(self)@ == (NodeView {
                behaviour: Behaviour {
                    log_prob: (old(self)@.behaviour.fold_log_prob)(old(self)@.behaviour.log_prob, q, r),
                    ..old(self)@.behaviour
                },
                ..old(self)@
            }),
    {
        self.node_function.update_log_prob(q, r)
    }

    /// Takes what a node function answered: its messages become the inbox, and
    /// an error is passed on with the inbox left as it was.
    pub fn accept_messages(&mut self, outcome: BPResult<Vec<(NodeIndex, MsgT)>>) -> (r: BPResult<()>)
        ensures
            final(self)@ == old(self)@.with_inbox(final(self)@.inbox),
            answered(old(self)@, outcome_view(outcome), final(self)@, r),
    {
        match outcome {
            Ok(outgoing) => {
                self.inbox = outgoing;
                Ok(())
            },
            Err(e) => Err(e),
        }
    }

    /// Runs the node function on `incoming` and takes its answer as `accept_messages` does.
    pub fn receive(&mut self, incoming: Vec<(NodeIndex, MsgT)>) -> (r: BPResult<()>)
        ensures
            final(self)@ == old(self)@.with_inbox(final(self)@.inbox),
            answered(old(self)@, (old(self)@.behaviour.compute)(incoming@), final(self)@, r),
    {
        let outcome = self.node_function.node_function(incoming);
        self.accept_messages(outcome)
    }

    /// Appends one message per connection, in the order of the connections:
    /// the node's prior where `use_prior`, else its zero pdf.
    pub fn push_initial_messages(&mut self, use_prior: bool)
        ensures
            final(self)@ == old(self)@.initialised(use_prior),
    {
        let n = self.connections.len();
        let ghost v0 = self@;
        let mut j: usize = 0;
        assert(v0.inbox + v0.initial_messages(use_prior).take(0) =~= v0.inbox);
        while j < n
            invariant
                n == self.connections@.len(),
                0 <= j <= n,
                v0 == old(self)@,
                self@ == v0.with_inbox(v0.inbox + v0.initial_messages(use_prior).take(j as int)),
            decreases n - j,
        {
            let m = if use_prior {
                self.get_prior()
            } else {
                self.get_zero_pdf()
            };
            let key = self.connections[j];
            let ghost before = self@;
            self.inbox.push((key, m));
            proof {
                assert(v0.initial_messages(use_prior)[j as int] == (key, m));
                assert(v0.inbox + v0.initial_messages(use_prior).take(j + 1) =~= before.inbox.push((key, m)));
            }
            j = j + 1;
        }
        assert(v0.initial_messages(use_prior).take(n as int) =~= v0.initial_messages(use_prior));
    }
}

} // verus!
