use std::sync::{Arc, Mutex};

use lib::{BPError, BPGraph, BPResult, Behaviour, Msg, Node, NodeFunction, NodeIndex};

#[derive(Clone, Debug, PartialEq)]
struct P(f64);

impl Msg<()> for P {
    fn valid(&self) -> bool {
        self.0.is_finite()
    }
    fn is_valid(&self) -> bool {
        self.valid()
    }
}

/// A node function whose arithmetic is plain `f64` arithmetic and which records
/// what it is handed.
struct TestFn {
    prior: Option<f64>,
    log_prob: Option<f64>,
    fail: bool,
    seen: Arc<Mutex<Vec<(f64, f64)>>>,
    received: Arc<Mutex<Vec<Vec<(usize, f64)>>>>,
}

impl NodeFunction<(), P> for TestFn {
    // What the methods answer is stated for verified callers only; nothing
    // ever runs this.
    fn behaviour(&self) -> Behaviour<P> {
        unreachable!()
    }
    fn node_function(&mut self, inbox: Vec<(NodeIndex, P)>) -> BPResult<Vec<(NodeIndex, P)>> {
        self.received
            .lock().unwrap()
            .push(inbox.iter().map(|(i, m)| (*i, m.0)).collect());
        if self.fail {
            Err(BPError::new("TestFn".to_string(), "refused".to_string()))
        } else {
            Ok(inbox.into_iter().map(|(i, m)| (i, P(m.0 * 2.0))).collect())
        }
    }
    fn is_factor(&self) -> bool {
        false
    }
    fn number_inputs(&self) -> Option<usize> {
        None
    }
    fn initialize(&mut self, _connections: Vec<NodeIndex>) -> BPResult<()> {
        if self.fail {
            Err(BPError::new("TestFn".to_string(), "no init".to_string()))
        } else {
            Ok(())
        }
    }
    fn is_ready(&self, _recv_from: &Vec<(NodeIndex, P)>, _current_step: usize) -> BPResult<bool> {
        Ok(true)
    }
    fn reset(&mut self) -> BPResult<()> {
        Ok(())
    }
    fn get_prior(&self) -> Option<P> {
        self.prior.map(P)
    }
    fn get_log_prob(&self) -> Option<P> {
        self.log_prob.map(P)
    }
    fn get_zero_pdf(&self) -> P {
        P(0.0)
    }
    fn get_log(&mut self, r: P) -> P {
        P(r.0.ln())
    }
    fn update_log_prob(&mut self, q: P, r: P) {
        self.seen.lock().unwrap().push((q.0, r.0));
    }
    fn subtract(&mut self, p_1: P, p_2: P) -> P {
        P(p_1.0 - p_2.0)
    }
    fn exponent(&mut self, p: P) -> P {
        P(p.0.exp())
    }
}

struct Probe {
    seen: Arc<Mutex<Vec<(f64, f64)>>>,
    received: Arc<Mutex<Vec<Vec<(usize, f64)>>>>,
}

fn probe() -> Probe {
    Probe { seen: Arc::new(Mutex::new(Vec::new())), received: Arc::new(Mutex::new(Vec::new())) }
}

fn func(prior: Option<f64>, log_prob: Option<f64>, fail: bool, p: &Probe) -> Box<dyn NodeFunction<(), P>> {
    Box::new(TestFn { prior, log_prob, fail, seen: p.seen.clone(), received: p.received.clone() })
}

fn plain() -> Box<dyn NodeFunction<(), P>> {
    func(Some(0.5), Some(0.0), false, &probe())
}

fn is_index_error<R>(r: BPResult<R>, index: usize, len: usize) -> bool {
    match r {
        Err(BPError::Custom { location, message }) => {
            location == "BPGraph::get_node" && message == format!("Index {} out of bounds ({})", index, len)
        }
        _ => false,
    }
}

fn inbox_of(node: &Node<(), P>) -> Vec<(usize, f64)> {
    node.get_inbox().iter().map(|(i, m)| (*i, m.0)).collect()
}

#[test]
fn new_graph_is_empty_and_initialized() {
    let g: BPGraph<(), P> = BPGraph::new();
    assert!(g.is_initialized_check());
    assert!(g.is_initialized_var());
    assert!(is_index_error(g.get_node_var(0), 0, 0));
    assert!(is_index_error(g.get_node_check(3), 3, 0));
}

#[test]
fn add_node_returns_consecutive_indices_per_kind() {
    let mut g: BPGraph<(), P> = BPGraph::new();
    assert_eq!(g.add_node("v0".to_string(), plain(), true), 0);
    assert_eq!(g.add_node("c0".to_string(), plain(), false), 0);
    assert_eq!(g.add_node("v1".to_string(), plain(), true), 1);
    assert_eq!(g.add_node("c1".to_string(), plain(), false), 1);
    assert_eq!(g.get_node_var(1).unwrap().get_name(), "v1");
    assert_eq!(g.get_node_check(0).unwrap().get_name(), "c0");
    assert!(g.get_node_var(0).unwrap().is_var());
    assert!(!g.get_node_check(1).unwrap().is_var());
    assert!(!g.is_initialized_var());
    assert!(!g.is_initialized_check());
}

#[test]
fn add_node_directly_uses_the_given_node() {
    let mut g: BPGraph<(), P> = BPGraph::new();
    let mut n = Node::new("pre".to_string(), plain(), false);
    n.update_push(7, P(0.25));
    assert_eq!(g.add_node_directly(n, false), 0);
    let v = Node::new("var".to_string(), plain(), true);
    assert_eq!(g.add_node_directly(v, true), 0);
    assert_eq!(inbox_of(g.get_node_check(0).unwrap()), vec![(7, 0.25)]);
    assert_eq!(g.get_node_var(0).unwrap().get_name(), "var");
}

#[test]
fn initialized_nodes_are_reported() {
    let mut g: BPGraph<(), P> = BPGraph::new();
    let mut n = Node::new("c".to_string(), plain(), false);
    assert!(n.initialize().is_ok());
    assert!(n.is_initialized());
    g.add_node_directly(n, false);
    assert!(g.is_initialized_check());
    let mut bad = Node::new("v".to_string(), func(None, None, true, &probe()), true);
    assert!(matches!(bad.initialize(), Err(BPError::Custom { .. })));
    assert!(!bad.is_initialized());
    g.add_node_directly(bad, true);
    assert!(!g.is_initialized_var());
}

#[test]
fn add_edge_links_both_ends() {
    let mut g: BPGraph<(), P> = BPGraph::new();
    g.add_node("v0".to_string(), plain(), true);
    g.add_node("v1".to_string(), plain(), true);
    g.add_node("c0".to_string(), plain(), false);
    assert!(g.add_edge(1, 0).is_ok());
    assert_eq!(g.get_node_var(1).unwrap().get_connections(), &vec![0]);
    assert_eq!(g.get_node_check(0).unwrap().get_connections(), &vec![1]);
    assert!(g.get_node_var(0).unwrap().get_connections().is_empty());
}

#[test]
fn add_edge_twice_is_refused() {
    let mut g: BPGraph<(), P> = BPGraph::new();
    g.add_node("v0".to_string(), plain(), true);
    g.add_node("c0".to_string(), plain(), false);
    assert!(g.add_edge(0, 0).is_ok());
    assert!(matches!(g.add_edge(0, 0), Err(BPError::DuplicateEdge { to: 0 })));
    assert_eq!(g.get_node_var(0).unwrap().get_connections(), &vec![0]);
    assert_eq!(g.get_node_check(0).unwrap().get_connections(), &vec![0]);
}

#[test]
fn add_edge_with_unknown_variable_changes_nothing() {
    let mut g: BPGraph<(), P> = BPGraph::new();
    g.add_node("c0".to_string(), plain(), false);
    assert!(is_index_error(g.add_edge(2, 0), 2, 0));
    assert!(g.get_node_check(0).unwrap().get_connections().is_empty());
}

#[test]
fn add_edge_with_unknown_check_keeps_the_variable_side() {
    let mut g: BPGraph<(), P> = BPGraph::new();
    g.add_node("v0".to_string(), plain(), true);
    assert!(is_index_error(g.add_edge(0, 1), 1, 0));
    assert_eq!(g.get_node_var(0).unwrap().get_connections(), &vec![1]);
    g.add_node("c0".to_string(), plain(), false);
    g.add_node("c1".to_string(), plain(), false);
    // The variable node already records the edge, so the second attempt is a duplicate.
    assert!(matches!(g.add_edge(0, 1), Err(BPError::DuplicateEdge { to: 1 })));
    assert!(g.get_node_check(1).unwrap().get_connections().is_empty());
}

#[test]
fn add_edge_duplicate_on_check_side() {
    let mut g: BPGraph<(), P> = BPGraph::new();
    g.add_node("v0".to_string(), plain(), true);
    let mut c = Node::new("c0".to_string(), plain(), false);
    assert!(c.add_edge(0).is_ok());
    g.add_node_directly(c, false);
    assert!(matches!(g.add_edge(0, 0), Err(BPError::DuplicateEdge { to: 0 })));
    assert_eq!(g.get_node_var(0).unwrap().get_connections(), &vec![0]);
    assert_eq!(g.get_node_check(0).unwrap().get_connections(), &vec![0]);
}

#[test]
fn node_update_push_then_get() {
    let mut n: Node<(), P> = Node::new("n".to_string(), plain(), true);
    assert_eq!(n.get_matrix_value(3), P(0.0));
    n.update_push(3, P(1.5));
    n.update_push(4, P(2.5));
    assert_eq!(n.get_matrix_value(3), P(1.5));
    n.update_push(3, P(9.0));
    assert_eq!(n.get_matrix_value(3), P(9.0));
    assert_eq!(n.get_matrix_value(4), P(2.5));
    assert_eq!(inbox_of(&n), vec![(3, 9.0), (4, 2.5)]);
}

#[test]
fn node_add_edge_refuses_duplicates() {
    let mut n: Node<(), P> = Node::new("n".to_string(), plain(), false);
    assert!(n.add_edge(2).is_ok());
    assert!(n.add_edge(5).is_ok());
    assert!(n.is_connected_to(5));
    assert!(!n.is_connected_to(4));
    assert!(matches!(n.add_edge(2), Err(BPError::DuplicateEdge { to: 2 })));
    assert_eq!(n.get_connections(), &vec![2, 5]);
}

#[test]
fn node_prior_and_log_prob_fall_back_to_zero_pdf() {
    let n: Node<(), P> = Node::new("n".to_string(), func(None, None, false, &probe()), true);
    assert_eq!(n.get_prior(), P(0.0));
    assert_eq!(n.get_log_prob(), P(0.0));
    let m: Node<(), P> = Node::new("m".to_string(), func(Some(0.3), Some(-1.0), false, &probe()), true);
    assert_eq!(m.get_prior(), P(0.3));
    assert_eq!(m.get_log_prob(), P(-1.0));
    assert_eq!(m.get_zero_pdf(), P(0.0));
}

#[test]
fn initialise_matrix_fills_inboxes_from_connections() {
    let mut g: BPGraph<(), P> = BPGraph::new();
    g.add_node("v0".to_string(), func(Some(0.75), Some(0.0), false, &probe()), true);
    g.add_node("c0".to_string(), plain(), false);
    g.add_node("c1".to_string(), plain(), false);
    assert!(g.add_edge(0, 1).is_ok());
    assert!(g.add_edge(0, 0).is_ok());
    g.initialise_matrix();
    assert_eq!(inbox_of(g.get_node_var(0).unwrap()), vec![(1, 0.75), (0, 0.75)]);
    assert_eq!(inbox_of(g.get_node_check(0).unwrap()), vec![(0, 0.0)]);
    assert_eq!(inbox_of(g.get_node_check(1).unwrap()), vec![(0, 0.0)]);
}

#[test]
fn create_messages_var_stores_under_shifted_key() {
    let mut g: BPGraph<(), P> = BPGraph::new();
    g.add_node("v0".to_string(), func(Some(0.5), Some(0.0), false, &probe()), true);
    g.add_node("c0".to_string(), plain(), false);
    let mut c1 = Node::new("c1".to_string(), plain(), false);
    c1.update_push(0, P(0.5));
    g.add_node_directly(c1, false);
    // r = 0.5 is valid: exp(0 - ln 0.5) = 2, stored under key 1 - 1 = 0.
    assert!(g.create_messages_var(1).is_ok());
    let inbox = inbox_of(g.get_node_var(0).unwrap());
    assert_eq!(inbox.len(), 1);
    assert_eq!(inbox[0].0, 0);
    assert!((inbox[0].1 - 2.0).abs() < 1e-12);
}

#[test]
fn create_messages_var_overwrites_the_same_key() {
    let mut g: BPGraph<(), P> = BPGraph::new();
    g.add_node("v0".to_string(), func(Some(0.5), Some(0.0), false, &probe()), true);
    g.add_node("c0".to_string(), plain(), false);
    let mut c1 = Node::new("c1".to_string(), plain(), false);
    c1.update_push(0, P(0.25));
    g.add_node_directly(c1, false);
    assert!(g.create_messages_var(1).is_ok());
    assert!(g.create_messages_var(1).is_ok());
    let inbox = inbox_of(g.get_node_var(0).unwrap());
    assert_eq!(inbox.len(), 1);
    assert_eq!(inbox[0].0, 0);
    assert!((inbox[0].1 - 4.0).abs() < 1e-12);
}

#[test]
fn create_messages_var_invalid_branch() {
    let mut g: BPGraph<(), P> = BPGraph::new();
    g.add_node("v0".to_string(), func(Some(0.5), Some(1.0), false, &probe()), true);
    g.add_node("c0".to_string(), plain(), false);
    let mut c1 = Node::new("c1".to_string(), plain(), false);
    c1.update_push(0, P(f64::INFINITY));
    g.add_node_directly(c1, false);
    // r is not valid: the message is exp(log_prob) = e.
    assert!(g.create_messages_var(1).is_ok());
    let inbox = inbox_of(g.get_node_var(0).unwrap());
    assert_eq!(inbox.len(), 1);
    assert_eq!(inbox[0].0, 0);
    assert!((inbox[0].1 - std::f64::consts::E).abs() < 1e-12);
}

#[test]
fn create_messages_check_replaces_inbox() {
    let p = probe();
    let mut g: BPGraph<(), P> = BPGraph::new();
    let mut v0 = Node::new("v0".to_string(), plain(), true);
    v0.update_push(0, P(0.25));
    g.add_node_directly(v0, true);
    g.add_node("v1".to_string(), plain(), true);
    g.add_node("c0".to_string(), func(None, None, false, &p), false);
    assert!(g.add_edge(0, 0).is_ok());
    assert!(g.add_edge(1, 0).is_ok());
    assert!(g.create_messages_check(0).is_ok());
    // The node function got (0, 0.25) and, for variable 1 which holds nothing, its zero pdf.
    assert_eq!(p.received.lock().unwrap().clone(), vec![vec![(0, 0.25), (1, 0.0)]]);
    assert_eq!(inbox_of(g.get_node_check(0).unwrap()), vec![(0, 0.5), (1, 0.0)]);
    // An index past the check nodes does nothing.
    assert!(g.create_messages_check(5).is_ok());
}

#[test]
fn create_messages_check_failure_keeps_inbox() {
    let mut g: BPGraph<(), P> = BPGraph::new();
    g.add_node("v0".to_string(), plain(), true);
    let mut c0 = Node::new("c0".to_string(), func(None, None, true, &probe()), false);
    c0.update_push(0, P(3.0));
    g.add_node_directly(c0, false);
    assert!(matches!(g.create_messages_check(0), Err(BPError::Custom { .. })));
    assert_eq!(inbox_of(g.get_node_check(0).unwrap()), vec![(0, 3.0)]);
}

#[test]
fn update_log_prob_hands_both_messages_of_each_edge() {
    let p = probe();
    let mut g: BPGraph<(), P> = BPGraph::new();
    let mut v0 = Node::new("v0".to_string(), func(None, None, false, &p), true);
    v0.update_push(0, P(0.125));
    g.add_node_directly(v0, true);
    g.add_node("c0".to_string(), plain(), false);
    let mut c1 = Node::new("c1".to_string(), plain(), false);
    c1.update_push(0, P(0.75));
    g.add_node_directly(c1, false);
    assert!(g.add_edge(0, 1).is_ok());
    // Key for the variable side is 1 - 1 = 0.
    assert!(g.update_log_prob(1).is_ok());
    assert_eq!(p.seen.lock().unwrap().clone(), vec![(0.125, 0.75)]);
    assert_eq!(inbox_of(g.get_node_var(0).unwrap()), vec![(0, 0.125)]);
    // An index past the check nodes does nothing.
    assert!(g.update_log_prob(9).is_ok());
    assert_eq!(p.seen.lock().unwrap().len(), 1);
}

#[test]
fn propagate_without_variable_nodes_runs_the_check_functions() {
    let p = probe();
    let mut g: BPGraph<(), P> = BPGraph::new();
    g.add_node("c0".to_string(), func(None, None, false, &p), false);
    g.add_node("c1".to_string(), func(None, None, false, &p), false);
    g.set_normalize(false);
    g.set_check_validity(true);
    assert!(g.propagate(3).is_ok());
    assert_eq!(p.received.lock().unwrap().len(), 6);
    assert!(p.received.lock().unwrap().iter().all(|m| m.is_empty()));
    assert!(g.get_node_check(1).unwrap().get_inbox().is_empty());
}

#[test]
fn propagate_without_check_nodes_initialises_once() {
    let mut g: BPGraph<(), P> = BPGraph::new();
    g.add_node("v0".to_string(), func(Some(0.25), None, false, &probe()), true);
    // The edge is refused on the check side, but the variable node keeps it.
    assert!(g.add_edge(0, 4).is_err());
    assert!(g.propagate(0).is_ok());
    assert!(g.get_node_var(0).unwrap().get_inbox().is_empty());
    assert!(g.propagate(2).is_ok());
    assert_eq!(inbox_of(g.get_node_var(0).unwrap()), vec![(4, 0.25)]);
    assert!(g.propagate_step().is_ok());
    assert_eq!(inbox_of(g.get_node_var(0).unwrap()), vec![(4, 0.25)]);
}

#[test]
fn error_new_keeps_location_and_message() {
    let e = BPError::new("here".to_string(), "why".to_string());
    match e {
        BPError::Custom { location, message } => {
            assert_eq!(location, "here");
            assert_eq!(message, "why");
        }
        _ => panic!("wrong variant"),
    }
}

#[test]
fn default_trait_methods() {
    let mut f = TestFn { prior: None, log_prob: None, fail: false, seen: probe().seen, received: probe().received };
    assert!(!f.discard_mode());
    assert!(matches!(f.send_control_message(()), Ok(())));
}


#[test]
fn accept_messages_takes_answer_or_error() {
    let mut n: Node<(), P> = Node::new("n".to_string(), plain(), false);
    n.update_push(1, P(1.0));
    assert!(n.accept_messages(Ok(vec![(2, P(0.5)), (3, P(0.25))])).is_ok());
    assert_eq!(inbox_of(&n), vec![(2, 0.5), (3, 0.25)]);
    let r = n.accept_messages(Err(BPError::DuplicateEdge { to: 9 }));
    assert!(matches!(r, Err(BPError::DuplicateEdge { to: 9 })));
    assert_eq!(inbox_of(&n), vec![(2, 0.5), (3, 0.25)]);
}

#[test]
fn collect_var_messages_follows_connections() {
    let mut g: BPGraph<(), P> = BPGraph::new();
    g.add_node("v0".to_string(), plain(), true);
    let mut v1 = Node::new("v1".to_string(), plain(), true);
    v1.update_push(0, P(0.625));
    v1.update_push(1, P(0.5));
    g.add_node_directly(v1, true);
    g.add_node("c0".to_string(), plain(), false);
    assert!(g.add_edge(1, 0).is_ok());
    assert!(g.add_edge(0, 0).is_ok());
    let msgs: Vec<(usize, f64)> = g.collect_var_messages(0).into_iter().map(|(i, m)| (i, m.0)).collect();
    assert_eq!(msgs, vec![(1, 0.625), (0, 0.0)]);
}

#[test]
fn index_error_names_lookup_and_numbers() {
    let mut g: BPGraph<(), P> = BPGraph::new();
    g.add_node("v0".to_string(), plain(), true);
    g.add_node("v1".to_string(), plain(), true);
    match g.get_node_var(3) {
        Err(BPError::Custom { location, message }) => {
            assert_eq!(location, "BPGraph::get_node");
            assert_eq!(message, "Index 3 out of bounds (2)");
        }
        _ => panic!("expected the lookup error"),
    }
}

fn assert_send_sync<X: Send + Sync>() {}

#[test]
fn graph_can_move_between_threads() {
    assert_send_sync::<BPGraph<(), P>>();
    assert_send_sync::<Node<(), P>>();
}

#[test]
fn initialise_matrix_twice_appends_twice() {
    let mut g: BPGraph<(), P> = BPGraph::new();
    g.add_node("v0".to_string(), func(Some(0.75), Some(0.0), false, &probe()), true);
    g.add_node("c0".to_string(), plain(), false);
    assert!(g.add_edge(0, 0).is_ok());
    g.initialise_matrix();
    g.initialise_matrix();
    assert_eq!(inbox_of(g.get_node_var(0).unwrap()), vec![(0, 0.75), (0, 0.75)]);
    assert_eq!(inbox_of(g.get_node_check(0).unwrap()), vec![(0, 0.0), (0, 0.0)]);
}

fn check_only_graph(p: &Probe, fail: bool) -> BPGraph<(), P> {
    let mut g: BPGraph<(), P> = BPGraph::new();
    let mut c0 = Node::new("c0".to_string(), func(None, None, fail, p), false);
    c0.update_push(7, P(1.5));
    g.add_node_directly(c0, false);
    g
}

#[test]
fn propagate_in_parts_equals_propagate_at_once() {
    let p1 = probe();
    let mut g1 = check_only_graph(&p1, false);
    assert!(g1.propagate(1).is_ok());
    assert!(g1.propagate(2).is_ok());
    let p2 = probe();
    let mut g2 = check_only_graph(&p2, false);
    assert!(g2.propagate(3).is_ok());
    assert_eq!(inbox_of(g1.get_node_check(0).unwrap()), inbox_of(g2.get_node_check(0).unwrap()));
    assert!(g1.get_node_check(0).unwrap().get_inbox().is_empty());
    assert_eq!(*p1.received.lock().unwrap(), *p2.received.lock().unwrap());
    assert_eq!(p1.received.lock().unwrap().len(), 3);
}

#[test]
fn propagate_equals_single_steps() {
    let p1 = probe();
    let mut g1 = check_only_graph(&p1, true);
    assert!(g1.propagate_step().is_ok());
    assert!(g1.propagate_step().is_ok());
    let p2 = probe();
    let mut g2 = check_only_graph(&p2, true);
    assert!(g2.propagate(2).is_ok());
    // A failing node function leaves the inbox as it was, step after step.
    assert_eq!(inbox_of(g1.get_node_check(0).unwrap()), vec![(7, 1.5)]);
    assert_eq!(inbox_of(g2.get_node_check(0).unwrap()), vec![(7, 1.5)]);
    assert_eq!(p1.received.lock().unwrap().len(), 2);
    assert_eq!(p2.received.lock().unwrap().len(), 2);
}

#[test]
fn index_error_message_spells_numbers_in_decimal() {
    let g: BPGraph<(), P> = BPGraph::new();
    match g.get_node_check(1207) {
        Err(BPError::Custom { location, message }) => {
            assert_eq!(location, "BPGraph::get_node");
            assert_eq!(message, "Index 1207 out of bounds (0)");
        }
        _ => panic!("expected the lookup error"),
    }
    assert!(is_index_error(g.get_node_var(usize::MAX), usize::MAX, 0));
}

#[test]
fn node_arithmetic_goes_through_the_node_function() {
    let mut n: Node<(), P> = Node::new("n".to_string(), plain(), true);
    assert_eq!(n.subtract(P(3.0), P(1.25)), P(1.75));
    assert_eq!(n.exponent(P(0.0)), P(1.0));
    assert_eq!(n.get_log(P(1.0)), P(0.0));
}
