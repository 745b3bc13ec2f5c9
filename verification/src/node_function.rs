use vstd::prelude::*;

use crate::error::{BPError, BPResult};

verus! {

/// The two references point at equal values.
pub open spec fn same_state<S: ?Sized>(a: &S, b: &S) -> bool {
    a == b
}

/// The index of a node within the list (variable nodes or check nodes) that holds it.
pub type NodeIndex = usize;

/// A message that travels along the edges of a graph.
///
/// The type parameter `T` is the kind of value the message speaks about.
pub trait Msg<T> {
    /// Whether the message may be used in a computation.
    spec fn valid(&self) -> bool;

    /// Whether the message may be used in a computation: an implementation
    /// answers `valid()`.
    fn is_valid(&self) -> (b: bool)
        ensures
            b == self.valid(),
    ;
}

/// The answer of a node function, with its messages taken as a sequence.
pub open spec fn outcome_view<M>(outcome: BPResult<Vec<(NodeIndex, M)>>) -> Result<
    Seq<(NodeIndex, M)>,
    BPError,
> {
    match outcome {
        Ok(msgs) => Ok(msgs@),
        Err(e) => Err(e),
    }
}

/// What a node function answers, as a function of its state: the answer of
/// each method that the library calls, for every argument.
#[verifier::reject_recursive_types(M)]
pub struct Behaviour<M> {
    /// What `node_function` answers for the messages handed to it.
    pub compute: spec_fn(Seq<(NodeIndex, M)>) -> Result<Seq<(NodeIndex, M)>, BPError>,
    /// What `initialize` answers for the connections handed to it.
    pub initialize: spec_fn(Seq<NodeIndex>) -> BPResult<()>,
    /// What `get_prior` answers.
    pub prior: Option<M>,
    /// What `get_log_prob` answers.
    pub log_prob: Option<M>,
    /// What `get_zero_pdf` answers.
    pub zero_pdf: M,
    /// What `get_log` answers.
    pub log: spec_fn(M) -> M,
    /// What `subtract` answers.
    pub difference: spec_fn(M, M) -> M,
    /// What `exponent` answers.
    pub exponential: spec_fn(M) -> M,
    /// The log-probabilities after `update_log_prob(q, r)`, from those before.
    pub fold_log_prob: spec_fn(Option<M>, M, M) -> Option<M>,
}

/// The computation that a node performs; the library calls these methods and
/// routes the messages that go in and come out.
///
/// An implementation names what its methods answer in `behaviour`, and meets
/// the `ensures` of each method: an answer is what `behaviour` says for the
/// arguments, and only `update_log_prob` (its log-probabilities) and
/// `initialize` change the behaviour.
pub trait NodeFunction<T, MsgT: Msg<T>, CtrlMsgT = (), CtrlMsgAT: Default = ()>: Send + Sync {
    /// What this node function answers in its present state.
    spec fn behaviour(&self) -> Behaviour<MsgT>;

    /// Computes the outgoing messages of the node from the messages it received.
    fn node_function(&mut self, inbox: Vec<(NodeIndex, MsgT)>) -> (r: BPResult<Vec<(NodeIndex, MsgT)>>)
        ensures
            outcome_view(r) == (old(self).behaviour().compute)(inbox@),
            final(self).behaviour() == old(self).behaviour(),
    ;

    /// Whether the node is a factor (check) node.
    fn is_factor(&self) -> bool;

    /// How many inputs the node expects, if that is fixed.
    fn number_inputs(&self) -> Option<usize>;

    /// Prepares the node for the given connections.
    fn initialize(&mut self, connections: Vec<NodeIndex>) -> (r: BPResult<()>)
        ensures
            r == (old(self).behaviour().initialize)(connections@),
    ;

    /// Whether the node is ready to send, given what it received so far.
    fn is_ready(&self, recv_from: &Vec<(NodeIndex, MsgT)>, current_step: usize) -> BPResult<bool>;

    /// Puts the node back into its starting state.
    fn reset(&mut self) -> BPResult<()>;

    /// The prior distribution of a variable node, if it has one.
    fn get_prior(&self) -> (p: Option<MsgT>)
        ensures
            p == self.behaviour().prior,
    ;

    /// The current log-probabilities of a variable node, if it has them.
    fn get_log_prob(&self) -> (p: Option<MsgT>)
        ensures
            p == self.behaviour().log_prob,
    ;

    /// The message that stands for "nothing received yet".
    fn get_zero_pdf(&self) -> (z: MsgT)
        ensures
            z == self.behaviour().zero_pdf,
    ;

    /// The logarithm of a message.
    fn get_log(&mut self, r: MsgT) -> (l: MsgT)
        ensures
            l == (old(self).behaviour().log)(r),
            final(self).behaviour() == old(self).behaviour(),
    ;

    /// Folds the messages `q` and `r` of one edge into the node's log-probabilities.
    fn update_log_prob(&mut self, q: MsgT, r: MsgT)
        ensures
            final(self).behaviour() == (Behaviour {
                log_prob: (old(self).behaviour().fold_log_prob)(old(self).behaviour().log_prob, q, r),
                ..old(self).behaviour()
            }),
    ;

    /// The difference of two messages.
    fn subtract(&mut self, p_1: MsgT, p_2: MsgT) -> (d: MsgT)
        ensures
            d == (old(self).behaviour().difference)(p_1, p_2),
            final(self).behaviour() == old(self).behaviour(),
    ;

    /// The exponential of a message.
    fn exponent(&mut self, p: MsgT) -> (e: MsgT)
        ensures
            e == (old(self).behaviour().exponential)(p),
            final(self).behaviour() == old(self).behaviour(),
    ;

    /// Handles a control message; by default it answers with the default answer.
    fn send_control_message(&mut self, ctrl_msg: CtrlMsgT) -> (r: BPResult<CtrlMsgAT>)
        default_ensures
            same_state(&*final(self), &*old(self)),
            r matches Ok(a) && call_ensures(CtrlMsgAT::default, (), a),
    {
        Ok(CtrlMsgAT::default())
    }

    /// Whether the node throws away what it received while it is not ready.
    fn discard_mode(&self) -> (r: bool)
        default_ensures
            !r,
    {
        false
    }
}

} // verus!
