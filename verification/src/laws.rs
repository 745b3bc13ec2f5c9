use vstd::prelude::*;

use crate::bpgraph::{
    check_computed_from, computed_alone, count_of, folded, log_prob_pairs, log_probs_updated,
    message_var_sent, messages_check_computed, messages_var_sent, round, round_part,
    var_log_prob_updated, GraphView,
};
use crate::error::Failure;
use crate::node::{
    first_index, inbox_get, inbox_has, inbox_set, is_first_index,
    lemma_first_index, message_of, read_of, NodeView,
};
use crate::node_function::{Behaviour, Msg, NodeIndex};

verus! {

/// Reading a message back: after `update_push(key, msg)` the message held for
/// `key` is `msg`.
pub proof fn law_update_push_then_get<M>(inbox: Seq<(NodeIndex, M)>, key: NodeIndex, msg: M)
    ensures
        inbox_get(inbox_set(inbox, key, msg), key) == Some(msg),
{
    let new = inbox_set(inbox, key, msg);
    if inbox_has(inbox, key) {
        lemma_first_index(inbox, key);
        let f = first_index(inbox, key);
        assert(is_first_index(new, key, f)) by {
            assert forall|j: int| 0 <= j < f implies #[trigger] new[j].0 != key by {
                assert(new[j] == inbox[j]);
            }
        }
        lemma_first_index(new, key);
    } else {
        let f = inbox.len() as int;
        assert(is_first_index(new, key, f)) by {
            assert forall|j: int| 0 <= j < f implies #[trigger] new[j].0 != key by {
                assert(new[j] == inbox[j]);
            }
        }
        lemma_first_index(new, key);
    }
}

/// Storing a message for one sender leaves the message held for every other
/// sender as it was.
pub proof fn law_update_push_keeps_others<M>(
    inbox: Seq<(NodeIndex, M)>,
    key: NodeIndex,
    msg: M,
    other: NodeIndex,
)
    requires
        other != key,
    ensures
        inbox_get(inbox_set(inbox, key, msg), other) == inbox_get(inbox, other),
{
    let new = inbox_set(inbox, key, msg);
    if inbox_has(inbox, key) {
        lemma_first_index(inbox, key);
    }
    // The entries from `other` sit at the same positions before and after.
    assert forall|i: int| 0 <= i < new.len() && #[trigger] new[i].0 == other implies 0 <= i
        < inbox.len() && inbox[i] == new[i] by {}
    assert forall|i: int| 0 <= i < inbox.len() && #[trigger] inbox[i].0 == other implies new[i]
        == inbox[i] by {}
    if inbox_has(inbox, other) {
        lemma_first_index(inbox, other);
        let g = first_index(inbox, other);
        assert(inbox[g].0 == other);
        assert(new[g] == inbox[g]);
        assert(is_first_index(new, other, g)) by {
            assert forall|j: int| 0 <= j < g implies #[trigger] new[j].0 != other by {
                assert(inbox[j].0 != other);
            }
        }
        assert(inbox_has(new, other));
        lemma_first_index(new, other);
    } else {
        assert(!inbox_has(new, other)) by {
            if inbox_has(new, other) {
                let i = choose|i: int| 0 <= i < new.len() && #[trigger] new[i].0 == other;
                assert(inbox[i].0 == other);
            }
        }
    }
}

/// After the message matrices are filled, a node holds a message from each of
/// its connections, and what it held before stays at the front of its inbox.
pub proof fn law_initialised_inbox_covers_connections<M>(n: NodeView<M>, use_prior: bool)
    ensures
        forall|j: int|
            0 <= j < n.connections.len() ==> inbox_has(
                n.initialised(use_prior).inbox,
                #[trigger] n.connections[j],
            ),
        forall|i: int| 0 <= i < n.inbox.len() ==> #[trigger] n.initialised(use_prior).inbox[i] == n.inbox[i],
{
    let new = n.initialised(use_prior);
    assert forall|j: int| 0 <= j < n.connections.len() implies inbox_has(
        new.inbox,
        #[trigger] n.connections[j],
    ) by {
        assert(new.inbox[n.inbox.len() + j].0 == n.connections[j]);
    }
}

/// Filling the message matrices is not idempotent: a second fill appends each
/// node's block of initial messages once more, the same block as the first.
pub proof fn law_initialise_twice_appends_twice<M>(g: GraphView<M>)
    ensures
        g.initialised().initialised().var_nodes.len() == g.var_nodes.len(),
        g.initialised().initialised().check_nodes.len() == g.check_nodes.len(),
        forall|v: int|
            0 <= v < g.var_nodes.len() ==> (#[trigger] g.initialised().initialised().var_nodes[v]).inbox
                == g.var_nodes[v].inbox + g.var_nodes[v].initial_messages(true)
                + g.var_nodes[v].initial_messages(true),
        forall|c: int|
            0 <= c < g.check_nodes.len() ==> (#[trigger] g.initialised().initialised().check_nodes[c]).inbox
                == g.check_nodes[c].inbox + g.check_nodes[c].initial_messages(false)
                + g.check_nodes[c].initial_messages(false),
        forall|v: int|
            0 <= v < g.var_nodes.len() ==> (#[trigger] g.var_nodes[v].initial_messages(true)).len()
                == g.var_nodes[v].connections.len(),
{
    let g2 = g.initialised().initialised();
    assert forall|v: int| 0 <= v < g.var_nodes.len() implies (#[trigger] g2.var_nodes[v]).inbox
        == g.var_nodes[v].inbox + g.var_nodes[v].initial_messages(true)
        + g.var_nodes[v].initial_messages(true) by {
        let n1 = g.var_nodes[v].initialised(true);
        assert(g.initialised().var_nodes[v] == n1);
        assert(n1.initial_messages(true) =~= g.var_nodes[v].initial_messages(true));
    }
    assert forall|c: int| 0 <= c < g.check_nodes.len() implies (#[trigger] g2.check_nodes[c]).inbox
        == g.check_nodes[c].inbox + g.check_nodes[c].initial_messages(false)
        + g.check_nodes[c].initial_messages(false) by {
        let n1 = g.check_nodes[c].initialised(false);
        assert(g.initialised().check_nodes[c] == n1);
        assert(n1.initial_messages(false) =~= g.check_nodes[c].initial_messages(false));
    }
}

/// A check node that has taken the answer to an empty inbox once is left as
/// it is by taking it again: its behaviour does not change, so the answer is
/// the same, and it replaces the inbox once more or, as an error, leaves it.
pub proof fn law_computed_alone_idempotent<M>(n: NodeView<M>)
    ensures
        computed_alone(computed_alone(n)) == computed_alone(n),
{
}

/// Propagation composes: running `a` steps and then `b` steps leaves the graph
/// as running `a + b` steps does.
pub proof fn law_after_steps_compose<M>(g: GraphView<M>, a: nat, b: nat)
    ensures
        g.after_steps(a).after_steps(b) == g.after_steps(a + b),
{
    if a == 0 {
        assert(a + b == b);
    } else if b == 0 {
        assert(a + b == a);
    } else {
        let g1 = g.after_steps(a);
        let g2 = g1.after_steps(b);
        let g3 = g.after_steps(a + b);
        assert forall|c: int| 0 <= c < g.check_nodes.len() implies #[trigger] g2.check_nodes[c] == g3.check_nodes[c] by {
            law_computed_alone_idempotent(g.check_nodes[c]);
        }
        assert(g2.check_nodes =~= g3.check_nodes);
        assert(g2.var_nodes =~= g3.var_nodes);
    }
}

/// `steps` single propagation steps, one after the other.
pub open spec fn steps_one_by_one<M>(g: GraphView<M>, steps: nat) -> GraphView<M>
    decreases steps,
{
    if steps == 0 {
        g
    } else {
        steps_one_by_one(g, (steps - 1) as nat).after_steps(1)
    }
}

/// `propagate(steps)` leaves the graph as `steps` calls of `propagate_step`
/// in a row do.
pub proof fn law_steps_one_by_one<M>(g: GraphView<M>, steps: nat)
    ensures
        steps_one_by_one(g, steps) == g.after_steps(steps),
    decreases steps,
{
    if steps > 0 {
        law_steps_one_by_one(g, (steps - 1) as nat);
        law_after_steps_compose(g, (steps - 1) as nat, 1);
    }
}

/// What `create_messages_var(c)` stores is what `update_log_prob(c)` reads
/// back: after the step, the message each variable node holds under the key
/// `c - num_var_nodes` is `message_of` its behaviour and the check node's
/// message for it.
pub proof fn law_sent_message_is_read_back<T, M: Msg<T> + Clone>(
    g: GraphView<M>,
    new: GraphView<M>,
    c: NodeIndex,
    v: int,
)
    requires
        messages_var_sent::<T, M>(g, new, c),
        0 <= v < g.var_nodes.len(),
    ensures
        exists|r: M| {
            &&& read_of(g.check_nodes[c as int].inbox, v as NodeIndex, g.check_nodes[c as int].behaviour.zero_pdf, r)
            &&& #[trigger] inbox_get(new.var_nodes[v].inbox, (c - g.num_var_nodes) as NodeIndex)
                == Some(message_of::<T, M>(g.var_nodes[v].behaviour, r))
        },
{
    let key = (c - g.num_var_nodes) as NodeIndex;
    assert(new.var_nodes[v] == new.var_nodes[v]);
    assert(crate::bpgraph::message_var_sent::<T, M>(g, new, c, v));
    let r = choose|r: M| {
        &&& read_of(g.check_nodes[c as int].inbox, v as NodeIndex, g.check_nodes[c as int].behaviour.zero_pdf, r)
        &&& #[trigger] new.var_nodes[v] == g.var_nodes[v].with_inbox(
            inbox_set(g.var_nodes[v].inbox, key, message_of::<T, M>(g.var_nodes[v].behaviour, r)),
        )
    };
    law_update_push_then_get(g.var_nodes[v].inbox, key, message_of::<T, M>(g.var_nodes[v].behaviour, r));
    assert(inbox_get(new.var_nodes[v].inbox, key) == Some(message_of::<T, M>(g.var_nodes[v].behaviour, r)));
}
/// Every edge is recorded on both of its ends: a variable node's edge leads to
/// an existing check node that records it back, and the other way round.
pub open spec fn edges_mutual<M>(g: GraphView<M>) -> bool {
    &&& forall|v: int, j: int|
        0 <= v < g.var_nodes.len() && 0 <= j < g.var_nodes[v].connections.len() ==> {
            let c = #[trigger] g.var_nodes[v].connections[j];
            &&& c < g.check_nodes.len()
            &&& g.check_nodes[c as int].connections.contains(v as NodeIndex)
        }
    &&& forall|c: int, j: int|
        0 <= c < g.check_nodes.len() && 0 <= j < g.check_nodes[c].connections.len() ==> {
            let v = #[trigger] g.check_nodes[c].connections[j];
            &&& v < g.var_nodes.len()
            &&& g.var_nodes[v as int].connections.contains(c as NodeIndex)
        }
}

/// A successful `add_edge(var, check)` records the edge at both nodes, and
/// changes nothing else.
pub proof fn law_add_edge_links_both_ends<M>(g: GraphView<M>, var: NodeIndex, check: NodeIndex)
    requires
        g.add_edge_spec(var, check).1 is None,
    ensures
        ({
            let new = g.add_edge_spec(var, check).0;
            &&& var < g.var_nodes.len()
            &&& check < g.check_nodes.len()
            &&& new.var_nodes == g.var_nodes.update(var as int, g.var_nodes[var as int].connect(check))
            &&& new.check_nodes == g.check_nodes.update(
                check as int,
                g.check_nodes[check as int].connect(var),
            )
            &&& new.var_nodes[var as int].connections.contains(check)
            &&& new.check_nodes[check as int].connections.contains(var)
            &&& new.step == g.step && new.normalize == g.normalize
            &&& new.check_validity == g.check_validity
            &&& new.num_var_nodes == g.num_var_nodes && new.num_check_nodes == g.num_check_nodes
        }),
{
    let new = g.add_edge_spec(var, check).0;
    assert(new.var_nodes[var as int].connections[new.var_nodes[var as int].connections.len() - 1]
        == check);
    assert(new.check_nodes[check as int].connections[new.check_nodes[check as int].connections.len()
        - 1] == var);
}

/// An edge is added once: asking for it again after a success is refused as a
/// duplicate and changes nothing.
pub proof fn law_add_edge_twice_is_refused<M>(g: GraphView<M>, var: NodeIndex, check: NodeIndex)
    requires
        g.add_edge_spec(var, check).1 is None,
    ensures
        ({
            let g1 = g.add_edge_spec(var, check).0;
            g1.add_edge_spec(var, check) == (g1, Some(Failure::DuplicateEdge { to: check }))
        }),
{
    law_add_edge_links_both_ends(g, var, check);
    let g1 = g.add_edge_spec(var, check).0;
    assert(g1.var_nodes.update(var as int, g1.var_nodes[var as int]) =~= g1.var_nodes);
}

/// `add_edge` never changes the node lists' lengths, the nodes' names, kinds,
/// inboxes or initialization, nor the settings, whatever its outcome; so it
/// keeps the graph well formed.
pub proof fn law_add_edge_keeps_nodes<M>(g: GraphView<M>, var: NodeIndex, check: NodeIndex)
    ensures
        ({
            let new = g.add_edge_spec(var, check).0;
            &&& new.var_nodes.len() == g.var_nodes.len()
            &&& new.check_nodes.len() == g.check_nodes.len()
            &&& forall|i: int|
                0 <= i < g.var_nodes.len() ==> {
                    &&& (#[trigger] new.var_nodes[i]).name == g.var_nodes[i].name
                    &&& new.var_nodes[i].is_var == g.var_nodes[i].is_var
                    &&& new.var_nodes[i].inbox == g.var_nodes[i].inbox
                    &&& new.var_nodes[i].initialized == g.var_nodes[i].initialized
                }
            &&& forall|i: int|
                0 <= i < g.check_nodes.len() ==> {
                    &&& (#[trigger] new.check_nodes[i]).name == g.check_nodes[i].name
                    &&& new.check_nodes[i].is_var == g.check_nodes[i].is_var
                    &&& new.check_nodes[i].inbox == g.check_nodes[i].inbox
                    &&& new.check_nodes[i].initialized == g.check_nodes[i].initialized
                }
            &&& new.step == g.step && new.normalize == g.normalize
            &&& new.check_validity == g.check_validity
            &&& new.num_var_nodes == g.num_var_nodes && new.num_check_nodes == g.num_check_nodes
            &&& g.wf() ==> new.wf()
        }),
{
}

/// On a graph whose edges are all mutual, `add_edge(var, check)` with both
/// indices in range adds a new edge at both ends, or refuses an edge that is
/// already there as a duplicate and changes nothing; either way the edges stay
/// mutual.
pub proof fn law_add_edge_keeps_edges_mutual<M>(g: GraphView<M>, var: NodeIndex, check: NodeIndex)
    requires
        edges_mutual(g),
        var < g.var_nodes.len(),
        check < g.check_nodes.len(),
    ensures
        ({
            let (new, r) = g.add_edge_spec(var, check);
            &&& r is None <==> !g.var_nodes[var as int].connections.contains(check)
            &&& r is Some ==> new == g && r == Some(Failure::DuplicateEdge { to: check })
            &&& edges_mutual(new)
        }),
{
    let new = g.add_edge_spec(var, check).0;
    if g.var_nodes[var as int].connections.contains(check) {
        assert(g.var_nodes.update(var as int, g.var_nodes[var as int]) =~= g.var_nodes);
    } else {
        assert(!g.check_nodes[check as int].connections.contains(var)) by {
            if g.check_nodes[check as int].connections.contains(var) {
                let j = choose|j: int|
                    0 <= j < g.check_nodes[check as int].connections.len()
                        && g.check_nodes[check as int].connections[j] == var;
                assert(g.check_nodes[check as int].connections[j] == var);
            }
        }
        law_add_edge_links_both_ends(g, var, check);
        assert forall|v: int, j: int|
            0 <= v < new.var_nodes.len() && 0 <= j < new.var_nodes[v].connections.len() implies {
            let c = #[trigger] new.var_nodes[v].connections[j];
            &&& c < new.check_nodes.len()
            &&& new.check_nodes[c as int].connections.contains(v as NodeIndex)
        } by {
            let c = new.var_nodes[v].connections[j];
            if v == var && j == g.var_nodes[v].connections.len() {
                assert(c == check);
                assert(new.check_nodes[check as int].connections.last() == var);
            } else {
                assert(c == g.var_nodes[v].connections[j]);
                assert(g.check_nodes[c as int].connections.contains(v as NodeIndex));
                let k = choose|k: int|
                    0 <= k < g.check_nodes[c as int].connections.len()
                        && g.check_nodes[c as int].connections[k] == v as NodeIndex;
                assert(new.check_nodes[c as int].connections[k] == v as NodeIndex);
            }
        }
        assert forall|c: int, j: int|
            0 <= c < new.check_nodes.len() && 0 <= j < new.check_nodes[c].connections.len() implies {
            let v = #[trigger] new.check_nodes[c].connections[j];
            &&& v < new.var_nodes.len()
            &&& new.var_nodes[v as int].connections.contains(c as NodeIndex)
        } by {
            let v = new.check_nodes[c].connections[j];
            if c == check && j == g.check_nodes[c].connections.len() {
                assert(v == var);
                assert(new.var_nodes[var as int].connections.last() == check);
            } else {
                assert(v == g.check_nodes[c].connections[j]);
                assert(g.var_nodes[v as int].connections.contains(c as NodeIndex));
                let k = choose|k: int|
                    0 <= k < g.var_nodes[v as int].connections.len()
                        && g.var_nodes[v as int].connections[k] == c as NodeIndex;
                assert(new.var_nodes[v as int].connections[k] == c as NodeIndex);
            }
        }
    }
}

/// The index that `add_node` returns addresses the new node, and two nodes
/// added one after the other to the same list get consecutive indices.
pub proof fn law_add_node_indices<M>(
    g: GraphView<M>,
    a: NodeView<M>,
    b: NodeView<M>,
    is_var: bool,
)
    ensures
        ({
            let (g1, i) = g.add_node_spec(a, is_var);
            let (g2, k) = g1.add_node_spec(b, is_var);
            &&& is_var ==> g1.var_nodes[i as int] == a && g2.var_nodes[i as int] == a
                && g2.var_nodes[k as int] == b
            &&& !is_var ==> g1.check_nodes[i as int] == a && g2.check_nodes[i as int] == a
                && g2.check_nodes[k as int] == b
            &&& k == i + 1
        }),
{
}

/// `add_node` and `add_node_directly` with a freshly made node agree on the
/// nodes and on the index returned; they differ only in that the second counts
/// a check node in `num_check_nodes`.
pub proof fn law_add_node_directly_agrees<M>(
    g: GraphView<M>,
    name: Seq<char>,
    is_var: bool,
    behaviour: Behaviour<M>,
)
    ensures
        ({
            let (g1, i) = g.add_node_spec(NodeView::fresh(name, is_var, behaviour), is_var);
            let (g2, k) = g.add_node_directly_spec(NodeView::fresh(name, is_var, behaviour), is_var);
            &&& i == k
            &&& g1.var_nodes == g2.var_nodes
            &&& g1.check_nodes == g2.check_nodes
            &&& g1.num_var_nodes == g2.num_var_nodes
            &&& g2.num_check_nodes == g1.num_check_nodes + (if is_var {
                0int
            } else {
                1int
            })
            &&& g.wf() && g.check_nodes.len() < usize::MAX ==> g1.wf() && g2.wf()
        }),
{
}


/// After the first `k` parts of a round on a graph with check nodes and no
/// variable nodes, the first `k` check nodes have taken the answer to an empty
/// inbox and everything else is as it was.
proof fn lemma_round_prefix<T, M: Msg<T> + Clone>(
    g: GraphView<M>,
    states: Seq<GraphView<M>>,
    new: GraphView<M>,
    k: int,
)
    requires
        g.wf(),
        g.can_propagate(),
        g.check_nodes.len() > 0,
        round::<T, M>(g, states, new),
        0 <= k <= g.check_nodes.len(),
    ensures
        states[3 * k] == (GraphView { check_nodes: states[3 * k].check_nodes, ..g }),
        states[3 * k].check_nodes.len() == g.check_nodes.len(),
        forall|c: int| 0 <= c < k ==> #[trigger] states[3 * k].check_nodes[c] == computed_alone(g.check_nodes[c]),
        forall|c: int| k <= c < g.check_nodes.len() ==> #[trigger] states[3 * k].check_nodes[c] == g.check_nodes[c],
    decreases k,
{
    assert(g.var_nodes.len() == 0);
    assert forall|c: int| 0 <= c < g.check_nodes.len() implies (#[trigger] g.check_nodes[c]).connections.len() == 0 by {
        assert(g.check_edges_in_range(c));
        if g.check_nodes[c].connections.len() > 0 {
            assert(g.check_nodes[c].connections[0] < g.var_nodes.len());
        }
    }
    if k == 0 {
        if g.step == 0 {
            let g1 = states[0];
            assert forall|c: int| 0 <= c < g.check_nodes.len() implies g1.check_nodes[c] == g.check_nodes[c] by {
                crate::bpgraph::lemma_initialised_without_edges(g.check_nodes[c], false);
            }
            assert(g1.check_nodes =~= g.check_nodes);
            assert(g1.var_nodes =~= g.var_nodes);
        }
    } else {
        lemma_round_prefix::<T, M>(g, states, new, k - 1);
        let c = k - 1;
        assert(round_part::<T, M>(states, c));
        let s0 = states[3 * c];
        let s1 = states[3 * c + 1];
        let s2 = states[3 * c + 2];
        let s3 = states[3 * c + 3];
        assert(3 * c + 3 == 3 * k);
        assert(s1.var_nodes =~= s0.var_nodes);
        assert(s1 == s0);
        let incoming = choose|incoming: Seq<(NodeIndex, M)>| #[trigger] check_computed_from(s1, s2, c, incoming);
        assert(check_computed_from(s1, s2, c, incoming));
        assert(s1.check_nodes[c] == g.check_nodes[c]);
        assert(incoming =~= Seq::<(NodeIndex, M)>::empty());
        assert(s3.var_nodes =~= s2.var_nodes);
        assert(s3 == s2);
        assert(s2.check_nodes[c] == computed_alone(g.check_nodes[c]));
        assert forall|d: int| 0 <= d < g.check_nodes.len() && d != c implies #[trigger] s2.check_nodes[d] == s1.check_nodes[d] by {}
    }
}

/// One propagation step is the round it is made of: whatever states the
/// three steps for each check node pass through (`round`), the graph after
/// them, with the step counter raised, is the graph `after_steps` describes
/// for one step.
pub proof fn law_round_is_one_step<T, M: Msg<T> + Clone>(
    g: GraphView<M>,
    states: Seq<GraphView<M>>,
    new: GraphView<M>,
)
    requires
        g.wf(),
        g.can_propagate(),
        round::<T, M>(g, states, new),
    ensures
        new == g.after_steps(1),
{
    let n = g.check_nodes.len();
    if n == 0 {
        assert(states.last() == states[0]);
        assert(new.check_nodes =~= g.after_steps(1).check_nodes);
        assert(new.var_nodes =~= g.after_steps(1).var_nodes);
    } else {
        lemma_round_prefix::<T, M>(g, states, new, n as int);
        assert(states.last() == states[3 * n as int]);
        assert(new.var_nodes =~= g.after_steps(1).var_nodes);
        assert(new.check_nodes =~= g.after_steps(1).check_nodes);
    }
}


/// `r` is what a read of `key` from `inbox` gives: a clone of the first
/// message held for `key`, or `zero` where there is none.
pub open spec fn stored_or_zero<M: Clone>(inbox: Seq<(NodeIndex, M)>, key: NodeIndex, zero: M, r: M) -> bool {
    match inbox_get(inbox, key) {
        Some(m) => cloned(m, r),
        None => r == zero,
    }
}

/// How many times `v` occurs in `s`.
pub open spec fn occurrences(s: Seq<NodeIndex>, v: NodeIndex) -> nat {
    s.filter(|x: NodeIndex| x == v).len()
}

proof fn lemma_count_is_occurrences(s: Seq<NodeIndex>, v: NodeIndex)
    ensures
        count_of(s, v) == occurrences(s, v),
    decreases s.len(),
{
    reveal(Seq::filter);
    if s.len() > 0 {
        lemma_count_is_occurrences(s.drop_last(), v);
    }
}

/// What a variable node sends a check node: for every variable node `v`,
/// after `create_messages_var(c)` the message it holds under the key
/// `c - num_var_nodes` is `exponent(subtract(lp, get_log(r)))`, where `r` is
/// the check node's message for `v` (or the check node's zero pdf) and `lp`
/// is `v`'s log-probabilities (or its zero pdf); where `r` is not valid it is
/// `exponent(lp)`. Messages held under other keys, and everything else about
/// the node, stay as they were.
pub proof fn law_var_message_formula<T, M: Msg<T> + Clone>(
    g: GraphView<M>,
    new: GraphView<M>,
    c: NodeIndex,
    v: int,
)
    requires
        messages_var_sent::<T, M>(g, new, c),
        0 <= v < g.var_nodes.len(),
    ensures
        exists|r: M| {
            let b = g.var_nodes[v].behaviour;
            let lp = match b.log_prob {
                Some(p) => p,
                None => b.zero_pdf,
            };
            &&& #[trigger] stored_or_zero(g.check_nodes[c as int].inbox, v as NodeIndex, g.check_nodes[c as int].behaviour.zero_pdf, r)
            &&& inbox_get(new.var_nodes[v].inbox, (c - g.num_var_nodes) as NodeIndex) == Some(
                if r.valid() {
                    (b.exponential)((b.difference)(lp, (b.log)(r)))
                } else {
                    (b.exponential)(lp)
                },
            )
        },
        forall|k: NodeIndex|
            k != (c - g.num_var_nodes) as NodeIndex ==> #[trigger] inbox_get(new.var_nodes[v].inbox, k)
                == inbox_get(g.var_nodes[v].inbox, k),
        new.var_nodes[v] == g.var_nodes[v].with_inbox(new.var_nodes[v].inbox),
{
    let key = (c - g.num_var_nodes) as NodeIndex;
    assert(message_var_sent::<T, M>(g, new, c, v));
    let r = choose|r: M| {
        &&& read_of(g.check_nodes[c as int].inbox, v as NodeIndex, g.check_nodes[c as int].behaviour.zero_pdf, r)
        &&& #[trigger] new.var_nodes[v] == g.var_nodes[v].with_inbox(
            inbox_set(g.var_nodes[v].inbox, key, message_of::<T, M>(g.var_nodes[v].behaviour, r)),
        )
    };
    let m = message_of::<T, M>(g.var_nodes[v].behaviour, r);
    law_update_push_then_get(g.var_nodes[v].inbox, key, m);
    assert(inbox_get(new.var_nodes[v].inbox, key) == Some(m));
    assert(stored_or_zero(g.check_nodes[c as int].inbox, v as NodeIndex, g.check_nodes[c as int].behaviour.zero_pdf, r));
    assert forall|k: NodeIndex| k != key implies #[trigger] inbox_get(new.var_nodes[v].inbox, k)
        == inbox_get(g.var_nodes[v].inbox, k) by {
        law_update_push_keeps_others(g.var_nodes[v].inbox, key, m, k);
    }
}

/// What a variable node folds into its log-probabilities: after
/// `update_log_prob(c)`, variable node `v` was handed one pair `(q, r)` for
/// each time it occurs among check node `c`'s connections (none where `c`
/// is past the check nodes), with `q` its own message under the key
/// `c - num_var_nodes` and `r` the check node's message for `v` itself; the
/// log-probabilities are folded over those pairs in turn, so a node on no
/// edge keeps them and a node on one edge has them folded once. Nothing else
/// about the node changes.
pub proof fn law_log_prob_folds_each_edge<M: Clone>(
    g: GraphView<M>,
    new: GraphView<M>,
    c: NodeIndex,
    v: int,
)
    requires
        log_probs_updated(g, new, c),
        0 <= v < g.var_nodes.len(),
    ensures
        exists|pairs: Seq<(M, M)>| {
            let old_v = g.var_nodes[v];
            let new_lp = new.var_nodes[v].behaviour.log_prob;
            &&& #[trigger] pairs.len() == (if c < g.check_nodes.len() {
                occurrences(g.check_nodes[c as int].connections, v as NodeIndex)
            } else {
                0
            })
            &&& forall|j: int| 0 <= j < pairs.len() ==> {
                &&& stored_or_zero(old_v.inbox, (c - g.num_var_nodes) as NodeIndex, old_v.behaviour.zero_pdf, (#[trigger] pairs[j]).0)
                &&& stored_or_zero(g.check_nodes[c as int].inbox, v as NodeIndex, g.check_nodes[c as int].behaviour.zero_pdf, pairs[j].1)
            }
            &&& new_lp == folded(old_v.behaviour.log_prob, old_v.behaviour.fold_log_prob, pairs)
            &&& pairs.len() == 0 ==> new_lp == old_v.behaviour.log_prob
            &&& pairs.len() == 1 ==> new_lp == (old_v.behaviour.fold_log_prob)(old_v.behaviour.log_prob, pairs[0].0, pairs[0].1)
            &&& new.var_nodes[v] == (NodeView {
                behaviour: Behaviour { log_prob: new_lp, ..old_v.behaviour },
                ..old_v
            })
        },
{
    assert(var_log_prob_updated(g, new, c, v));
    let pairs = choose|pairs: Seq<(M, M)>| #[trigger] log_prob_pairs(g, new, c, v, pairs);
    assert(log_prob_pairs(g, new, c, v, pairs));
    if c < g.check_nodes.len() {
        lemma_count_is_occurrences(g.check_nodes[c as int].connections, v as NodeIndex);
    }
    if pairs.len() == 1 {
        assert(pairs.drop_last().len() == 0);
        assert(pairs.last() == pairs[0]);
    }
    assert forall|j: int| 0 <= j < pairs.len() implies {
        &&& stored_or_zero(g.var_nodes[v].inbox, (c - g.num_var_nodes) as NodeIndex, g.var_nodes[v].behaviour.zero_pdf, (#[trigger] pairs[j]).0)
        &&& stored_or_zero(g.check_nodes[c as int].inbox, v as NodeIndex, g.check_nodes[c as int].behaviour.zero_pdf, pairs[j].1)
    } by {}
}

/// What a check node is handed: after `create_messages_check(c)` on an
/// existing check node, its node function was handed, for each of its
/// connections in order, the connected variable node's index with the
/// message that node holds under the key `c` (or its zero pdf); the answer's
/// messages became the check node's inbox, or, on an error, the inbox stayed.
/// The variable nodes, the other check nodes, and everything but the inbox
/// of this one stay as they were.
pub proof fn law_check_handed_var_messages<M: Clone>(g: GraphView<M>, new: GraphView<M>, c: NodeIndex)
    requires
        messages_check_computed(g, new, c),
        c < g.check_nodes.len(),
    ensures
        exists|incoming: Seq<(NodeIndex, M)>| {
            let check = g.check_nodes[c as int];
            &&& #[trigger] incoming.len() == check.connections.len()
            &&& forall|j: int| 0 <= j < incoming.len() ==> {
                let v = check.connections[j];
                &&& (#[trigger] incoming[j]).0 == v
                &&& stored_or_zero(g.var_nodes[v as int].inbox, c, g.var_nodes[v as int].behaviour.zero_pdf, incoming[j].1)
            }
            &&& match (check.behaviour.compute)(incoming) {
                Ok(msgs) => new.check_nodes[c as int].inbox == msgs,
                Err(_) => new.check_nodes[c as int].inbox == check.inbox,
            }
        },
        new.check_nodes[c as int] == g.check_nodes[c as int].with_inbox(new.check_nodes[c as int].inbox),
        new.var_nodes == g.var_nodes,
        new.check_nodes.len() == g.check_nodes.len(),
        forall|d: int| 0 <= d < g.check_nodes.len() && d != c ==> #[trigger] new.check_nodes[d] == g.check_nodes[d],
{
    let incoming = choose|incoming: Seq<(NodeIndex, M)>| #[trigger] check_computed_from(g, new, c as int, incoming);
    assert(check_computed_from(g, new, c as int, incoming));
    let check = g.check_nodes[c as int];
    assert forall|j: int| 0 <= j < incoming.len() implies {
        let v = check.connections[j];
        &&& (#[trigger] incoming[j]).0 == v
        &&& stored_or_zero(g.var_nodes[v as int].inbox, c, g.var_nodes[v as int].behaviour.zero_pdf, incoming[j].1)
    } by {}
}

/// What filling the matrices appends: after `initialise_matrix`, each node's
/// inbox is its old inbox followed by one message per connection, in the
/// order of the connections and keyed by them; a check node's messages are
/// its zero pdf, a variable node's its prior (or its zero pdf where it has
/// none). Nothing else about the nodes changes.
pub proof fn law_initialise_appends_prior_or_zero<M>(g: GraphView<M>)
    ensures
        g.initialised().check_nodes.len() == g.check_nodes.len(),
        g.initialised().var_nodes.len() == g.var_nodes.len(),
        forall|c: int, j: int|
            0 <= c < g.check_nodes.len() && 0 <= j < g.check_nodes[c].connections.len() ==>
                #[trigger] g.initialised().check_nodes[c].inbox[g.check_nodes[c].inbox.len() + j]
                == (g.check_nodes[c].connections[j], g.check_nodes[c].behaviour.zero_pdf),
        forall|v: int, j: int|
            0 <= v < g.var_nodes.len() && 0 <= j < g.var_nodes[v].connections.len() ==>
                #[trigger] g.initialised().var_nodes[v].inbox[g.var_nodes[v].inbox.len() + j]
                == (g.var_nodes[v].connections[j], match g.var_nodes[v].behaviour.prior {
                    Some(p) => p,
                    None => g.var_nodes[v].behaviour.zero_pdf,
                }),
        forall|c: int| 0 <= c < g.check_nodes.len() ==> {
            let old = g.check_nodes[c];
            let new = #[trigger] g.initialised().check_nodes[c];
            &&& new.inbox.len() == old.inbox.len() + old.connections.len()
            &&& new.inbox.take(old.inbox.len() as int) == old.inbox
            &&& new == old.with_inbox(new.inbox)
        },
        forall|v: int| 0 <= v < g.var_nodes.len() ==> {
            let old = g.var_nodes[v];
            let new = #[trigger] g.initialised().var_nodes[v];
            &&& new.inbox.len() == old.inbox.len() + old.connections.len()
            &&& new.inbox.take(old.inbox.len() as int) == old.inbox
            &&& new == old.with_inbox(new.inbox)
        },
{
    let gi = g.initialised();
    assert forall|c: int| 0 <= c < g.check_nodes.len() implies {
        let old = g.check_nodes[c];
        let new = #[trigger] gi.check_nodes[c];
        &&& new.inbox.len() == old.inbox.len() + old.connections.len()
        &&& new.inbox.take(old.inbox.len() as int) == old.inbox
        &&& new == old.with_inbox(new.inbox)
    } by {
        let old = g.check_nodes[c];
        assert(gi.check_nodes[c].inbox.take(old.inbox.len() as int) =~= old.inbox);
    }
    assert forall|v: int| 0 <= v < g.var_nodes.len() implies {
        let old = g.var_nodes[v];
        let new = #[trigger] gi.var_nodes[v];
        &&& new.inbox.len() == old.inbox.len() + old.connections.len()
        &&& new.inbox.take(old.inbox.len() as int) == old.inbox
        &&& new == old.with_inbox(new.inbox)
    } by {
        let old = g.var_nodes[v];
        assert(gi.var_nodes[v].inbox.take(old.inbox.len() as int) =~= old.inbox);
    }
    assert forall|c: int, j: int|
        0 <= c < g.check_nodes.len() && 0 <= j < g.check_nodes[c].connections.len() implies
            #[trigger] gi.check_nodes[c].inbox[g.check_nodes[c].inbox.len() + j]
            == (g.check_nodes[c].connections[j], g.check_nodes[c].behaviour.zero_pdf) by {
        assert(gi.check_nodes[c] == g.check_nodes[c].initialised(false));
    }
    assert forall|v: int, j: int|
        0 <= v < g.var_nodes.len() && 0 <= j < g.var_nodes[v].connections.len() implies
            #[trigger] gi.var_nodes[v].inbox[g.var_nodes[v].inbox.len() + j]
            == (g.var_nodes[v].connections[j], match g.var_nodes[v].behaviour.prior {
                Some(p) => p,
                None => g.var_nodes[v].behaviour.zero_pdf,
            }) by {
        assert(gi.var_nodes[v] == g.var_nodes[v].initialised(true));
    }
}


/// What `steps > 0` propagation steps do on a graph where they run to the end
/// (`can_propagate`): the step counter rises by `steps`; each check node's
/// node function is handed no messages, and its answer's messages become the
/// inbox, or, on an error, the inbox stays; the variable nodes append, on the
/// first step from step 0 only, their prior (or zero pdf) once per
/// connection. The nodes change in nothing but their inboxes.
pub proof fn law_steps_on_runnable_graph<M>(g: GraphView<M>, steps: nat)
    requires
        steps > 0,
    ensures
        g.after_steps(steps).step == g.step + steps,
        g.after_steps(steps).check_nodes.len() == g.check_nodes.len(),
        g.after_steps(steps).var_nodes.len() == g.var_nodes.len(),
        forall|c: int| 0 <= c < g.check_nodes.len() ==> {
            let old = g.check_nodes[c];
            let new = #[trigger] g.after_steps(steps).check_nodes[c];
            &&& new == old.with_inbox(new.inbox)
            &&& match (old.behaviour.compute)(Seq::empty()) {
                Ok(msgs) => new.inbox == msgs,
                Err(_) => new.inbox == old.inbox,
            }
        },
        forall|v: int| 0 <= v < g.var_nodes.len() ==> {
            let old = g.var_nodes[v];
            let new = #[trigger] g.after_steps(steps).var_nodes[v];
            &&& new == old.with_inbox(new.inbox)
            &&& g.step != 0 ==> new.inbox == old.inbox
            &&& g.step == 0 ==> new.inbox.len() == old.inbox.len() + old.connections.len()
                && new.inbox.take(old.inbox.len() as int) == old.inbox
                && forall|j: int| 0 <= j < old.connections.len() ==> #[trigger] new.inbox[old.inbox.len() + j]
                    == (old.connections[j], match old.behaviour.prior {
                        Some(p) => p,
                        None => old.behaviour.zero_pdf,
                    })
        },
        g.after_steps(steps).normalize == g.normalize,
        g.after_steps(steps).check_validity == g.check_validity,
        g.after_steps(steps).num_var_nodes == g.num_var_nodes,
        g.after_steps(steps).num_check_nodes == g.num_check_nodes,
{
    let a = g.after_steps(steps);
    law_initialise_appends_prior_or_zero(g);
    assert forall|v: int| 0 <= v < g.var_nodes.len() implies {
        let old = g.var_nodes[v];
        let new = #[trigger] a.var_nodes[v];
        &&& new == old.with_inbox(new.inbox)
        &&& g.step != 0 ==> new.inbox == old.inbox
        &&& g.step == 0 ==> new.inbox.len() == old.inbox.len() + old.connections.len()
            && new.inbox.take(old.inbox.len() as int) == old.inbox
            && forall|j: int| 0 <= j < old.connections.len() ==> #[trigger] new.inbox[old.inbox.len() + j]
                == (old.connections[j], match old.behaviour.prior {
                    Some(p) => p,
                    None => old.behaviour.zero_pdf,
                })
    } by {
        if g.step == 0 {
            assert(a.var_nodes[v] == g.initialised().var_nodes[v]);
            let old = g.var_nodes[v];
            assert forall|j: int| 0 <= j < old.connections.len() implies #[trigger] a.var_nodes[v].inbox[old.inbox.len() + j]
                == (old.connections[j], match old.behaviour.prior {
                    Some(p) => p,
                    None => old.behaviour.zero_pdf,
                }) by {
                assert(g.initialised().var_nodes[v].inbox[g.var_nodes[v].inbox.len() + j]
                    == (g.var_nodes[v].connections[j], match g.var_nodes[v].behaviour.prior {
                        Some(p) => p,
                        None => g.var_nodes[v].behaviour.zero_pdf,
                    }));
            }
        }
    }
}

} // verus!
