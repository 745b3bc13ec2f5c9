use vstd::prelude::*;

use crate::node_function::NodeIndex;

verus! {

/// What can go wrong while a graph is built or run.
#[derive(Debug)]
pub enum BPError {
    /// The node already records an edge to node `to`.
    DuplicateEdge { to: usize },
    /// A failure with where it happened and why; the graph's own lookups and
    /// node functions report this way.
    Custom { location: String, message: String },
}

impl BPError {
    /// An error raised at `location` for the reason given in `message`.
    pub fn new(location: String, message: String) -> (e: BPError)
        ensures
            e matches BPError::Custom { location: l, message: m } && l@ == location@ && m@
                == message@,
    {
        BPError::Custom { location, message }
    }
}

/// The result of every fallible operation of the library.
pub type BPResult<R> = Result<R, BPError>;

/// The decimal digit for `d`, where `d < 10`.
pub open spec fn digit(d: nat) -> char {
    if d == 0 {
        '0'
    } else if d == 1 {
        '1'
    } else if d == 2 {
        '2'
    } else if d == 3 {
        '3'
    } else if d == 4 {
        '4'
    } else if d == 5 {
        '5'
    } else if d == 6 {
        '6'
    } else if d == 7 {
        '7'
    } else if d == 8 {
        '8'
    } else {
        '9'
    }
}

/// The decimal notation of `n`, without leading zeros (`0` is "0").
pub open spec fn decimal(n: nat) -> Seq<char>
    decreases n,
{
    if n < 10 {
        seq![digit(n)]
    } else {
        decimal(n / 10).push(digit(n % 10))
    }
}

/// The message of a failed lookup of node `index` in a list of `len` nodes:
/// "Index {index} out of bounds ({len})".
pub open spec fn out_of_bounds_text(index: usize, len: usize) -> Seq<char> {
    "Index "@ + decimal(index as nat) + " out of bounds ("@ + decimal(len as nat) + ")"@
}

/// Appends `c` to `s` with `String::push`; the contract claims that the text
/// afterwards is the text before with `c` at its end.
#[verifier::external_body]
fn push_char(s: &mut String, c: char)
    ensures
        final(s)@ == old(s)@.push(c),
{
    s.push(c)
}

/// Appends the characters of `t` to `s`, one at a time.
fn push_text(s: &mut String, t: &str)
    ensures
        final(s)@ == old(s)@ + t@,
{
    let n = t.unicode_len();
    let mut i: usize = 0;
    while i < n
        invariant
            n == t@.len(),
            0 <= i <= n,
            s@ == old(s)@ + t@.take(i as int),
        decreases n - i,
    {
        let c = t.get_char(i);
        push_char(s, c);
        assert(t@.take(i + 1) =~= t@.take(i as int).push(c));
        assert(old(s)@ + t@.take(i + 1) =~= (old(s)@ + t@.take(i as int)).push(c));
        i = i + 1;
    }
    assert(t@.take(n as int) =~= t@);
}

/// The character of the decimal digit `d`.
fn digit_char(d: usize) -> (c: char)
    requires
        d < 10,
    ensures
        c == digit(d as nat),
{
    if d == 0 {
        '0'
    } else if d == 1 {
        '1'
    } else if d == 2 {
        '2'
    } else if d == 3 {
        '3'
    } else if d == 4 {
        '4'
    } else if d == 5 {
        '5'
    } else if d == 6 {
        '6'
    } else if d == 7 {
        '7'
    } else if d == 8 {
        '8'
    } else {
        '9'
    }
}

/// Appends the decimal notation of `n` to `s`.
fn push_decimal(s: &mut String, n: usize)
    ensures
        final(s)@ == old(s)@ + decimal(n as nat),
    decreases n,
{
    if n >= 10 {
        push_decimal(s, n / 10);
    }
    push_char(s, digit_char(n % 10));
    assert(old(s)@ + decimal(n as nat) =~= if n >= 10 {
        (old(s)@ + decimal((n / 10) as nat)).push(digit((n % 10) as nat))
    } else {
        old(s)@.push(digit(n as nat))
    });
}

/// The message of a failed lookup of node `index` in a list of `len` nodes.
fn out_of_bounds_message(index: usize, len: usize) -> (s: String)
    ensures
        s@ == out_of_bounds_text(index, len),
{
    let mut s = "Index ".to_owned();
    push_decimal(&mut s, index);
    push_text(&mut s, " out of bounds (");
    push_decimal(&mut s, len);
    push_text(&mut s, ")");
    s
}

/// `e` is the error of a node lookup with `index` in a list of `len` nodes:
/// raised at "BPGraph::get_node" with the message "Index {index} out of bounds ({len})".
pub open spec fn is_index_error(e: BPError, index: usize, len: usize) -> bool {
    &&& e matches BPError::Custom { location, message }
    &&& e->location@ == "BPGraph::get_node"@
    &&& e->message@ == out_of_bounds_text(index, len)
}

/// The error of a lookup of node `index` in a list of `len` nodes.
pub fn index_error(index: usize, len: usize) -> (e: BPError)
    ensures
        is_index_error(e, index, len),
{
    BPError::new("BPGraph::get_node".to_owned(), out_of_bounds_message(index, len))
}

/// The failures of building a graph, as the contracts speak of them.
pub enum Failure {
    /// A node index past the end of a list of `len` nodes.
    OutOfBounds { index: usize, len: usize },
    /// An edge that the node already records.
    DuplicateEdge { to: NodeIndex },
}

/// `r` is the result that `failure` describes: `Ok` where there is none.
pub open spec fn reports(r: BPResult<()>, failure: Option<Failure>) -> bool {
    match failure {
        None => r is Ok,
        Some(Failure::OutOfBounds { index, len }) => r matches Err(e) && is_index_error(e, index, len),
        Some(Failure::DuplicateEdge { to }) => r matches Err(e) && e == BPError::DuplicateEdge { to },
    }
}

} // verus!
