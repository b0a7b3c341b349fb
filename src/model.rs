use vstd::prelude::*;

verus! {

/// A two-terminal component.
///
/// Values are integers in the unit that the caller picks for the circuit (ohms
/// and volts, or milliohms and millivolts, and so on).
#[derive(Debug, Clone, Copy, PartialEq, Eq, Structural)]
pub enum Components {
    /// A resistance, which must be strictly positive.
    Resistor(i64),
    /// A source holding `V(terminal 1) - V(terminal 0)` at this voltage.
    VoltageGenerator(i64),
}

/// Components in declaration order and the wires that join their terminals.
#[derive(Debug, Clone)]
pub struct Circuit {
    pub components: Vec<Components>,
    pub terminal_edges: Vec<(TerminalID, TerminalID)>,
}

/// Why a circuit could not be simulated.
#[derive(Debug, Clone, Copy, PartialEq, Eq, Structural)]
pub enum SimulationError {
    /// A resistor whose resistance is not strictly positive.
    InvalidComponent(ComponentID),
    /// A wire end naming a missing component or a terminal index other than 0 or 1.
    InvalidTerminal(TerminalID),
    /// The assembled system has no unique solution.
    SingularSystem,
}

pub open spec fn is_source(c: Components) -> bool {
    c is VoltageGenerator
}

/// A terminal that exists in a circuit of `count` components.
pub open spec fn valid_terminal(count: int, t: TerminalID) -> bool {
    t.component_id.0 < count && t.idx < 2
}

/// The slot of a terminal in a table with two entries per component.
pub open spec fn terminal_key(t: TerminalID) -> int {
    2 * t.component_id.0 + t.idx
}

/// `a` and `b` are joined by the wires of `edges`, directly or through others.
pub open spec fn linked(edges: Seq<(TerminalID, TerminalID)>, a: TerminalID, b: TerminalID) -> bool
    decreases edges.len(),
{
    if edges.len() == 0 {
        a == b
    } else {
        let prev = edges.drop_last();
        let l = edges.last().0;
        let r = edges.last().1;
        ||| linked(prev, a, b)
        ||| linked(prev, a, l) && linked(prev, r, b)
        ||| linked(prev, a, r) && linked(prev, l, b)
    }
}

/// Position at which a component was declared in its circuit.
#[derive(Debug, Clone, Copy, PartialEq, Eq, Hash, Structural)]
pub struct ComponentID(pub usize);

/// One of the two connection points of a component.
#[derive(Debug, Clone, Copy, PartialEq, Eq, Hash, Structural)]
pub struct TerminalID {
    pub component_id: ComponentID,
    pub idx: usize,
}

impl TerminalID {
    pub fn new(component_id: usize, terminal_id: usize) -> (r: Self)
        ensures
            r.component_id == ComponentID(component_id),
            r.idx == terminal_id,
    {
        let component_id = ComponentID(component_id);
        TerminalID { component_id, idx: terminal_id }
    }
}

pub proof fn lemma_linked_refl(edges: Seq<(TerminalID, TerminalID)>, a: TerminalID)
    ensures
        linked(edges, a, a),
    decreases edges.len(),
{
    if edges.len() > 0 {
        lemma_linked_refl(edges.drop_last(), a);
    }
}

pub proof fn lemma_linked_symm(edges: Seq<(TerminalID, TerminalID)>, a: TerminalID, b: TerminalID)
    requires
        linked(edges, a, b),
    ensures
        linked(edges, b, a),
    decreases edges.len(),
{
    if edges.len() > 0 {
        let prev = edges.drop_last();
        let l = edges.last().0;
        let r = edges.last().1;
        if linked(prev, a, b) {
            lemma_linked_symm(prev, a, b);
        } else if linked(prev, a, l) && linked(prev, r, b) {
            lemma_linked_symm(prev, a, l);
            lemma_linked_symm(prev, r, b);
        } else {
            lemma_linked_symm(prev, a, r);
            lemma_linked_symm(prev, l, b);
        }
    }
}

pub proof fn lemma_linked_trans(
    edges: Seq<(TerminalID, TerminalID)>,
    a: TerminalID,
    b: TerminalID,
    c: TerminalID,
)
    requires
        linked(edges, a, b),
        linked(edges, b, c),
    ensures
        linked(edges, a, c),
    decreases edges.len(),
{
    if edges.len() > 0 {
        let prev = edges.drop_last();
        let l = edges.last().0;
        let r = edges.last().1;
        if linked(prev, a, b) && linked(prev, b, c) {
            lemma_linked_trans(prev, a, b, c);
        } else if linked(prev, a, b) && linked(prev, b, l) && linked(prev, r, c) {
            lemma_linked_trans(prev, a, b, l);
        } else if linked(prev, a, b) {
            lemma_linked_trans(prev, a, b, r);
        } else if linked(prev, a, l) && linked(prev, r, b) {
            if linked(prev, b, c) {
                lemma_linked_trans(prev, r, b, c);
            } else if linked(prev, b, l) && linked(prev, r, c) {
            } else {
                lemma_linked_trans(prev, a, l, c);
            }
        } else {
            if linked(prev, b, c) {
                lemma_linked_trans(prev, l, b, c);
            } else if linked(prev, b, l) && linked(prev, r, c) {
                lemma_linked_trans(prev, a, r, c);
            } else {
            }
        }
        lemma_linked_refl(prev, r);
    }
}

/// Both ends of a wire are linked.
pub proof fn lemma_linked_edge(edges: Seq<(TerminalID, TerminalID)>, i: int)
    requires
        0 <= i < edges.len(),
    ensures
        linked(edges, edges[i].0, edges[i].1),
    decreases edges.len(),
{
    let prev = edges.drop_last();
    if i == edges.len() - 1 {
        lemma_linked_refl(prev, edges[i].0);
        lemma_linked_refl(prev, edges[i].1);
    } else {
        lemma_linked_edge(prev, i);
    }
}

/// Wiring again two terminals that a wire already joins, in either direction,
/// changes no link between any two terminals, and so leaves the nodes as they
/// were.
pub proof fn lemma_duplicate_edge(
    edges: Seq<(TerminalID, TerminalID)>,
    e: (TerminalID, TerminalID),
    a: TerminalID,
    b: TerminalID,
)
    requires
        edges.contains(e) || edges.contains((e.1, e.0)),
    ensures
        linked(edges.push(e), a, b) <==> linked(edges, a, b),
{
    if edges.contains(e) {
        let i = choose|i: int| 0 <= i < edges.len() && edges[i] == e;
        lemma_linked_edge(edges, i);
    } else {
        let i = choose|i: int| 0 <= i < edges.len() && edges[i] == (e.1, e.0);
        lemma_linked_edge(edges, i);
        lemma_linked_symm(edges, e.1, e.0);
    }
    assert(linked(edges, e.0, e.1));
    assert(edges.push(e).drop_last() =~= edges);
    if linked(edges, a, e.0) && linked(edges, e.1, b) {
        lemma_linked_trans(edges, a, e.0, e.1);
        lemma_linked_trans(edges, a, e.1, b);
    }
    if linked(edges, a, e.1) && linked(edges, e.0, b) {
        lemma_linked_symm(edges, e.0, e.1);
        lemma_linked_trans(edges, a, e.1, e.0);
        lemma_linked_trans(edges, a, e.0, b);
    }
}

/// The wires of `edges` with every terminal renamed by `f`.
pub open spec fn rename_edges(
    edges: Seq<(TerminalID, TerminalID)>,
    f: spec_fn(TerminalID) -> TerminalID,
) -> Seq<(TerminalID, TerminalID)> {
    Seq::new(edges.len(), |i: int| (f(edges[i].0), f(edges[i].1)))
}

/// Renaming terminals one to one, as declaring the components in another
/// order does, renames the links between them and changes nothing else.
pub proof fn lemma_linked_rename(
    edges: Seq<(TerminalID, TerminalID)>,
    f: spec_fn(TerminalID) -> TerminalID,
    a: TerminalID,
    b: TerminalID,
)
    requires
        forall|u: TerminalID, v: TerminalID| #[trigger] f(u) == #[trigger] f(v) ==> u == v,
    ensures
        linked(rename_edges(edges, f), f(a), f(b)) <==> linked(edges, a, b),
    decreases edges.len(),
{
    if edges.len() > 0 {
        let prev = edges.drop_last();
        let l = edges.last().0;
        let r = edges.last().1;
        assert(rename_edges(edges, f).drop_last() =~= rename_edges(prev, f));
        assert(rename_edges(edges, f).last() == (f(l), f(r)));
        lemma_linked_rename(prev, f, a, b);
        lemma_linked_rename(prev, f, a, l);
        lemma_linked_rename(prev, f, r, b);
        lemma_linked_rename(prev, f, a, r);
        lemma_linked_rename(prev, f, l, b);
    } else {
        assert(f(a) == f(b) ==> a == b);
    }
}

} // verus!
