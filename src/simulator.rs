use vstd::prelude::*;

use crate::disjoint_set::DisjointSet;
use crate::model::{
    is_source, lemma_duplicate_edge, lemma_linked_refl, lemma_linked_rename, lemma_linked_trans,
    linked, rename_edges, terminal_key, valid_terminal, Circuit, ComponentID, Components,
    SimulationError, TerminalID,
};

verus! {

/// The terminal with key `k`: terminal `k % 2` of component `k / 2`.
pub open spec fn seed(k: int) -> TerminalID {
    TerminalID { component_id: ComponentID((k / 2) as usize), idx: (k % 2) as usize }
}

/// Every terminal of a circuit of `count` components, component by component,
/// terminal 0 before terminal 1.
pub open spec fn all_terminals(count: int) -> Seq<TerminalID> {
    Seq::new((2 * count) as nat, |k: int| seed(k))
}

/// The terminal with key `k` is the first of its node in key order.
pub open spec fn starts_node(edges: Seq<(TerminalID, TerminalID)>, k: int) -> bool {
    forall|j: int| 0 <= j < k ==> !linked(edges, #[trigger] seed(j), seed(k))
}

/// Number of nodes whose first terminal has a key below `k`.
pub open spec fn nodes_before(edges: Seq<(TerminalID, TerminalID)>, k: int) -> nat
    decreases k,
{
    if k <= 0 {
        0
    } else {
        nodes_before(edges, k - 1) + if starts_node(edges, k - 1) {
            1nat
        } else {
            0nat
        }
    }
}

/// The terminals with a key below `k` that `table` puts in node `g`, in key order.
pub open spec fn collect_node(table: Seq<usize>, g: int, k: int) -> Seq<TerminalID>
    decreases k,
{
    if k <= 0 {
        Seq::empty()
    } else {
        let p = collect_node(table, g, k - 1);
        if table[k - 1] == g {
            p.push(seed(k - 1))
        } else {
            p
        }
    }
}

/// Some entry of `table` below `k` is `g`.
pub open spec fn appears_below(table: Seq<usize>, k: int, g: int) -> bool {
    exists|i: int| 0 <= i < k && table[i] == g
}

/// Every terminal shares its node with a terminal that starts a node.
proof fn lemma_has_start(edges: Seq<(TerminalID, TerminalID)>, k: int) -> (k0: int)
    requires
        0 <= k,
    ensures
        0 <= k0 <= k,
        starts_node(edges, k0),
        linked(edges, seed(k0), seed(k)),
    decreases k,
{
    if starts_node(edges, k) {
        lemma_linked_refl(edges, seed(k));
        k
    } else {
        let j = choose|j: int| 0 <= j < k && linked(edges, #[trigger] seed(j), seed(k));
        let k0 = lemma_has_start(edges, j);
        lemma_linked_trans(edges, seed(k0), seed(j), seed(k));
        k0
    }
}

/// Wires that link the same terminals start the same nodes.
proof fn lemma_nodes_before_eq(
    e1: Seq<(TerminalID, TerminalID)>,
    e2: Seq<(TerminalID, TerminalID)>,
    count: int,
    k: int,
)
    requires
        0 <= k <= 2 * count,
        count < 0x1000_0000,
        forall|a: TerminalID, b: TerminalID|
            valid_terminal(count, a) && valid_terminal(count, b) ==> (#[trigger] linked(e1, a, b)
                <==> linked(e2, a, b)),
    ensures
        nodes_before(e1, k) == nodes_before(e2, k),
        forall|i: int| 0 <= i < k ==> (#[trigger] starts_node(e1, i) <==> starts_node(e2, i)),
    decreases k,
{
    if k > 0 {
        lemma_nodes_before_eq(e1, e2, count, k - 1);
        lemma_seed(k - 1, count);
        assert forall|j: int| 0 <= j < k - 1 implies (linked(e1, #[trigger] seed(j), seed(k - 1))
            <==> linked(e2, seed(j), seed(k - 1))) by {
            lemma_seed(j, count);
        }
        assert(starts_node(e1, k - 1) <==> starts_node(e2, k - 1));
    }
}

/// Number of voltage sources among the first `c` components.
pub open spec fn sources_before(comps: Seq<Components>, c: int) -> nat
    decreases c,
{
    if c <= 0 {
        0
    } else {
        sources_before(comps, c - 1) + if is_source(comps[c - 1]) {
            1nat
        } else {
            0nat
        }
    }
}

pub proof fn lemma_seed(k: int, count: int)
    requires
        0 <= k < 2 * count,
        count < 0x1000_0000,
    ensures
        valid_terminal(count, seed(k)),
        terminal_key(seed(k)) == k,
{
}

pub proof fn lemma_key(t: TerminalID, count: int)
    requires
        valid_terminal(count, t),
        count < 0x1000_0000,
    ensures
        0 <= terminal_key(t) < 2 * count,
        seed(terminal_key(t)) == t,
{
}

proof fn lemma_collect_node(table: Seq<usize>, g: int, k: int, count: int)
    requires
        0 <= k <= 2 * count,
        count < 0x1000_0000,
    ensures
        forall|i: int|
            0 <= i < collect_node(table, g, k).len() ==> valid_terminal(
                count,
                #[trigger] collect_node(table, g, k)[i],
            ) && table[terminal_key(collect_node(table, g, k)[i])] == g,
    decreases k,
{
    if k > 0 {
        lemma_collect_node(table, g, k - 1, count);
        lemma_seed(k - 1, count);
        let p = collect_node(table, g, k - 1);
        assert forall|i: int|
            0 <= i < collect_node(table, g, k).len() implies valid_terminal(
            count,
            #[trigger] collect_node(table, g, k)[i],
        ) && table[terminal_key(collect_node(table, g, k)[i])] == g by {
            if i < p.len() {
                assert(collect_node(table, g, k)[i] == p[i]);
            }
        }
    }
}

proof fn lemma_collect_node_nonempty(table: Seq<usize>, g: int, k: int, j: int)
    requires
        0 <= j < k,
        table[j] == g,
    ensures
        collect_node(table, g, k).len() > 0,
    decreases k,
{
    if j < k - 1 {
        lemma_collect_node_nonempty(table, g, k - 1, j);
    }
}

proof fn lemma_collect_node_distinct(table: Seq<usize>, g: int, k: int, count: int)
    requires
        0 <= k <= 2 * count,
        count < 0x1000_0000,
    ensures
        collect_node(table, g, k).no_duplicates(),
        forall|i: int|
            0 <= i < collect_node(table, g, k).len() ==> terminal_key(
                #[trigger] collect_node(table, g, k)[i],
            ) < k,
    decreases k,
{
    if k > 0 {
        lemma_collect_node_distinct(table, g, k - 1, count);
        lemma_seed(k - 1, count);
        let p = collect_node(table, g, k - 1);
        let c = collect_node(table, g, k);
        assert forall|i: int| 0 <= i < c.len() implies terminal_key(#[trigger] c[i]) < k by {
            if i < p.len() {
                assert(c[i] == p[i]);
            }
        }
        if table[k - 1] == g {
            assert forall|i: int| 0 <= i < p.len() implies p[i] != seed(k - 1) by {
                assert(terminal_key(p[i]) < k - 1);
            }
        }
    }
}

proof fn lemma_collect_node_contains(table: Seq<usize>, g: int, k: int, j: int)
    requires
        0 <= j < k,
        table[j] == g,
    ensures
        collect_node(table, g, k).contains(seed(j)),
    decreases k,
{
    if j < k - 1 {
        lemma_collect_node_contains(table, g, k - 1, j);
        let p = collect_node(table, g, k - 1);
        let w = choose|w: int| 0 <= w < p.len() && p[w] == seed(j);
        assert(collect_node(table, g, k)[w] == seed(j));
    } else {
        let c = collect_node(table, g, k);
        assert(c[c.len() - 1] == seed(j));
    }
}

/// Tables that agree below `k` collect the same terminals.
proof fn lemma_collect_node_eq(t1: Seq<usize>, t2: Seq<usize>, g: int, k: int)
    requires
        forall|i: int| 0 <= i < k ==> t1[i] == t2[i],
    ensures
        collect_node(t1, g, k) == collect_node(t2, g, k),
    decreases k,
{
    if k > 0 {
        lemma_collect_node_eq(t1, t2, g, k - 1);
    }
}

/// Component `c` is a resistor whose resistance is not strictly positive.
pub open spec fn bad_resistor(comps: Seq<Components>, c: int) -> bool {
    0 <= c < comps.len() && match comps[c] {
        Components::Resistor(r) => r <= 0,
        Components::VoltageGenerator(_) => false,
    }
}

/// The terminals named by `edges`, left end before right end, edge by edge.
pub open spec fn edge_ends(edges: Seq<(TerminalID, TerminalID)>) -> Seq<TerminalID> {
    Seq::new(
        (2 * edges.len()) as nat,
        |k: int| if k % 2 == 0 { edges[k / 2].0 } else { edges[k / 2].1 },
    )
}

/// One coefficient of a row of the system, on the unknown in column `col`.
///
/// Its value is `+1` or `-1` by `positive`, times the conductance `1/R` of the
/// named resistor where there is one. Terms on the same column add up.
#[derive(Debug, Clone, Copy, PartialEq, Eq, Structural)]
pub struct Term {
    pub col: usize,
    pub positive: bool,
    pub conductance_of: Option<ComponentID>,
}

/// The conductance of the named resistor, or 1 where none is named.
pub open spec fn coefficient(conductance_of: Option<ComponentID>, g: Seq<int>) -> int {
    match conductance_of {
        Some(id) => g[id.0 as int],
        None => 1,
    }
}

/// The value of a term against the unknowns `x`, with `g[c]` the conductance
/// of component `c`.
pub open spec fn term_value(t: Term, g: Seq<int>, x: Seq<int>) -> int {
    let coef = coefficient(t.conductance_of, g);
    if t.positive {
        coef * x[t.col as int]
    } else {
        -coef * x[t.col as int]
    }
}

/// The value of a row against the unknowns `x`: the sum of its terms.
pub open spec fn row_value(ts: Seq<Term>, g: Seq<int>, x: Seq<int>) -> int
    decreases ts.len(),
{
    if ts.len() == 0 {
        0
    } else {
        row_value(ts.drop_last(), g, x) + term_value(ts.last(), g, x)
    }
}

/// The value of two rows laid end to end is the sum of their values.
pub proof fn lemma_row_value_concat(a: Seq<Term>, b: Seq<Term>, g: Seq<int>, x: Seq<int>)
    ensures
        row_value(a + b, g, x) == row_value(a, g, x) + row_value(b, g, x),
    decreases b.len(),
{
    if b.len() == 0 {
        assert(a + b =~= a);
    } else {
        assert((a + b).drop_last() =~= a + b.drop_last());
        lemma_row_value_concat(a, b.drop_last(), g, x);
    }
}

/// The other terminal of the same two-terminal component.
pub open spec fn other_terminal(t: TerminalID) -> TerminalID {
    TerminalID { component_id: t.component_id, idx: (1 - t.idx) as usize }
}

/// The term on the voltage of node `k`, or nothing for the ground.
pub open spec fn voltage_term(k: int, positive: bool, conductance_of: Option<ComponentID>) -> Seq<
    Term,
> {
    if k == 0 {
        Seq::empty()
    } else {
        seq![Term { col: (k - 1) as usize, positive, conductance_of }]
    }
}

/// The voltage of node `k` under the unknowns `x`; the ground is at 0.
pub open spec fn voltage_at(k: int, x: Seq<int>) -> int {
    if k == 0 {
        0
    } else {
        x[k - 1]
    }
}

pub open spec fn source_voltage(c: Components) -> int {
    match c {
        Components::VoltageGenerator(v) => v as int,
        Components::Resistor(_) => 0,
    }
}

/// Assembles the modified nodal analysis system of a circuit.
///
/// The unknowns are `[V_1, .., V_{N-1}, I_0, .., I_{m-1}]`: the voltage of every
/// node but the ground node 0, then the current through every voltage source,
/// from terminal 0 to terminal 1 inside the source, sources in declaration order.
pub struct Simulator {
    circuit: Circuit,
    n: usize,
    nodes: Vec<Vec<TerminalID>>,
    terminal_to_node: Vec<usize>,
    vgenerators: Vec<ComponentID>,
    component_id_to_vgenerator_id: Vec<usize>,
}

impl Simulator {
    pub closed spec fn components(&self) -> Seq<Components> {
        self.circuit.components@
    }

    pub closed spec fn edges(&self) -> Seq<(TerminalID, TerminalID)> {
        self.circuit.terminal_edges@
    }

    /// Number of nodes; node 0 is the ground.
    pub closed spec fn node_count(&self) -> int {
        self.nodes@.len() as int
    }

    /// The node that a terminal of the circuit belongs to.
    pub closed spec fn node_of(&self, t: TerminalID) -> int {
        self.terminal_to_node@[terminal_key(t)] as int
    }

    /// The terminals of node `k`.
    pub closed spec fn node_members(&self, k: int) -> Seq<TerminalID> {
        self.nodes@[k]@
    }

    /// Number of voltage sources.
    pub closed spec fn source_count(&self) -> int {
        self.vgenerators@.len() as int
    }

    /// The component that is voltage source `j`.
    pub closed spec fn source_component(&self, j: int) -> int {
        self.vgenerators@[j].0 as int
    }

    /// The source number of component `c`, where `c` is a voltage source.
    pub closed spec fn source_index(&self, c: int) -> int {
        self.component_id_to_vgenerator_id@[c] as int
    }

    /// Number of unknowns, and so the size of the system.
    pub closed spec fn unknowns(&self) -> int {
        self.n as int
    }

    pub open spec fn valid(&self, t: TerminalID) -> bool {
        valid_terminal(self.components().len() as int, t)
    }

    /// Column of the current through voltage source `j`.
    pub open spec fn current_col(&self, j: int) -> int {
        self.node_count() - 1 + j
    }

    /// The terms for the current that leaves the node of `t` into its component.
    pub open spec fn terminal_terms(&self, t: TerminalID) -> Seq<Term> {
        let c = t.component_id.0 as int;
        match self.components()[c] {
            Components::Resistor(_) => voltage_term(
                self.node_of(t),
                true,
                Some(t.component_id),
            ) + voltage_term(self.node_of(other_terminal(t)), false, Some(t.component_id)),
            Components::VoltageGenerator(_) => seq![
                Term {
                    col: self.current_col(self.source_index(c)) as usize,
                    positive: t.idx == 1,
                    conductance_of: None,
                },
            ],
        }
    }

    /// The terms of all the given terminals, one after the other.
    pub open spec fn terms_of(&self, ts: Seq<TerminalID>) -> Seq<Term>
        decreases ts.len(),
    {
        if ts.len() == 0 {
            Seq::empty()
        } else {
            self.terms_of(ts.drop_last()) + self.terminal_terms(ts.last())
        }
    }

    /// The row of Kirchhoff's current law at node `k`.
    pub open spec fn node_terms(&self, k: int) -> Seq<Term> {
        self.terms_of(self.node_members(k))
    }

    /// The row `V(terminal 1) - V(terminal 0)` of voltage source `j`.
    pub open spec fn source_terms(&self, j: int) -> Seq<Term> {
        let id = ComponentID(self.source_component(j) as usize);
        let p = self.node_of(TerminalID { component_id: id, idx: 0 });
        let q = self.node_of(TerminalID { component_id: id, idx: 1 });
        voltage_term(q, true, None) + voltage_term(p, false, None)
    }

    /// The right-hand side entry of row `i`.
    pub open spec fn rhs_entry(&self, i: int) -> int {
        if i < self.node_count() - 1 {
            0
        } else {
            source_voltage(self.components()[self.source_component(i - (self.node_count() - 1))])
        }
    }

    /// The terms of row `i` of the system, as `get_matrix` lays them out.
    pub open spec fn row_terms(&self, i: int) -> Seq<Term> {
        if i < self.node_count() - 1 {
            self.node_terms(i + 1)
        } else {
            self.source_terms(i - (self.node_count() - 1))
        }
    }

    /// The unknowns `x` satisfy every row of the system, with `g[c]` the
    /// conductance of component `c`.
    pub open spec fn solves(&self, g: Seq<int>, x: Seq<int>) -> bool {
        forall|i: int|
            0 <= i < self.unknowns() ==> row_value(#[trigger] self.row_terms(i), g, x)
                == self.rhs_entry(i)
    }

    /// Assuming the terminal is one of a two-terminal component, returns the
    /// other terminal of the same component.
    pub fn get_other_terminal(terminal_id: &TerminalID) -> (r: TerminalID)
        requires
            terminal_id.idx < 2,
        ensures
            r == other_terminal(*terminal_id),
    {
        if terminal_id.idx == 0 {
            TerminalID::new(terminal_id.component_id.0, 1)
        } else {
            TerminalID::new(terminal_id.component_id.0, 0)
        }
    }

    /// The node that a terminal belongs to.
    pub fn get_node_id_from_terminal_id(&self, terminal_id: &TerminalID) -> (r: usize)
        requires
            self.wf(),
            self.valid(*terminal_id),
        ensures
            r == self.node_of(*terminal_id),
            r < self.node_count(),
    {
        self.terminal_to_node[2 * terminal_id.component_id.0 + terminal_id.idx]
    }

    /// The source number of a component that is a voltage source.
    pub fn get_vgenerator_id_from_component_id(&self, component_id: &ComponentID) -> (r: usize)
        requires
            self.wf(),
            component_id.0 < self.components().len(),
            is_source(self.components()[component_id.0 as int]),
        ensures
            r == self.source_index(component_id.0 as int),
            r < self.source_count(),
    {
        self.component_id_to_vgenerator_id[component_id.0]
    }

    /// The component that is voltage source `vgenerator_id`.
    pub fn get_component_id_from_vgenerator_id(&self, vgenerator_id: usize) -> (r: ComponentID)
        requires
            self.wf(),
            vgenerator_id < self.source_count(),
        ensures
            r.0 == self.source_component(vgenerator_id as int),
            r.0 < self.components().len(),
    {
        assert(0 <= self.source_component(vgenerator_id as int) < self.components().len());
        self.vgenerators[vgenerator_id]
    }

    /// The column of the voltage of a node among the unknowns; the ground has none,
    /// its voltage being 0.
    pub fn unknown_node_voltage(&self, node_id: usize) -> (r: Option<usize>)
        requires
            self.wf(),
            node_id < self.node_count(),
        ensures
            node_id == 0 ==> r is None,
            node_id > 0 ==> r == Some((node_id - 1) as usize),
            node_id > 0 ==> r.unwrap() < self.unknowns(),
    {
        if node_id == 0 {
            None
        } else {
            Some(node_id - 1)
        }
    }

    /// The column of the current through voltage source `vgenerator_id` among
    /// the unknowns.
    pub fn unknown_vgenerator_intensity(&self, vgenerator_id: usize) -> (r: usize)
        requires
            self.wf(),
            vgenerator_id < self.source_count(),
        ensures
            r == self.current_col(vgenerator_id as int),
            self.node_count() - 1 <= r < self.unknowns(),
    {
        self.nodes.len() - 1 + vgenerator_id
    }

    /// Number of nodes, the ground included.
    pub fn get_node_count(&self) -> (r: usize)
        ensures
            r == self.node_count(),
    {
        self.nodes.len()
    }

    /// Number of unknowns, which is the size of the system.
    pub fn get_unknown_count(&self) -> (r: usize)
        ensures
            r == self.unknowns(),
    {
        self.n
    }

    /// The terms for the current that leaves the node of `output_terminal_id`
    /// through that terminal into its component.
    pub fn get_component_intensity_vector(&self, output_terminal_id: TerminalID) -> (r: Vec<Term>)
        requires
            self.wf(),
            self.valid(output_terminal_id),
        ensures
            r@ == self.terminal_terms(output_terminal_id),
    {
        let c = output_terminal_id.component_id;
        let mut result: Vec<Term> = Vec::new();
        match self.circuit.components[c.0] {
            Components::Resistor(_) => {
                let input_terminal_id = Self::get_other_terminal(&output_terminal_id);
                let node_output = self.get_node_id_from_terminal_id(&output_terminal_id);
                let node_input = self.get_node_id_from_terminal_id(&input_terminal_id);
                if node_output != 0 {
                    result.push(Term { col: node_output - 1, positive: true, conductance_of: Some(c) });
                }
                if node_input != 0 {
                    result.push(Term { col: node_input - 1, positive: false, conductance_of: Some(c) });
                }
                assert(result@ =~= self.terminal_terms(output_terminal_id));
            },
            Components::VoltageGenerator(_) => {
                let generator_id = self.get_vgenerator_id_from_component_id(&c);
                let col = self.unknown_vgenerator_intensity(generator_id);
                result.push(Term { col, positive: output_terminal_id.idx == 1, conductance_of: None });
                assert(result@ =~= self.terminal_terms(output_terminal_id));
            },
        }
        result
    }

    /// The row of Kirchhoff's current law at a node.
    pub fn get_node_intensity(&self, node_id: usize) -> (r: Vec<Term>)
        requires
            self.wf(),
            node_id < self.node_count(),
        ensures
            r@ == self.node_terms(node_id as int),
    {
        let members = &self.nodes[node_id];
        let mut result: Vec<Term> = Vec::new();
        let mut i: usize = 0;
        while i < members.len()
            invariant
                self.wf(),
                node_id < self.node_count(),
                members@ == self.node_members(node_id as int),
                i <= members@.len(),
                result@ == self.terms_of(members@.subrange(0, i as int)),
            decreases members@.len() - i,
        {
            assert(self.valid(members@[i as int]));
            let mut terms = self.get_component_intensity_vector(members[i]);
            result.append(&mut terms);
            assert(members@.subrange(0, i + 1).drop_last() =~= members@.subrange(0, i as int));
            i = i + 1;
        }
        assert(members@.subrange(0, members@.len() as int) =~= members@);
        result
    }

    /// The row of voltage source `vgenerator_id`: `V(terminal 1) - V(terminal 0)`.
    pub fn get_vgenerator_voltage(&self, vgenerator_id: usize) -> (r: Vec<Term>)
        requires
            self.wf(),
            vgenerator_id < self.source_count(),
        ensures
            r@ == self.source_terms(vgenerator_id as int),
    {
        let component_id = self.get_component_id_from_vgenerator_id(vgenerator_id);
        let terminal_input = TerminalID::new(component_id.0, 0);
        let terminal_output = TerminalID::new(component_id.0, 1);
        let node_input = self.get_node_id_from_terminal_id(&terminal_input);
        let node_output = self.get_node_id_from_terminal_id(&terminal_output);
        let mut result: Vec<Term> = Vec::new();
        if node_output != 0 {
            result.push(Term { col: node_output - 1, positive: true, conductance_of: None });
        }
        if node_input != 0 {
            result.push(Term { col: node_input - 1, positive: false, conductance_of: None });
        }
        assert(result@ =~= self.source_terms(vgenerator_id as int));
        result
    }

    /// The rows of the matrix `M` of `M * X = Y`: first Kirchhoff's current law
    /// at nodes 1 to `N - 1`, then one row per voltage source.
    pub fn get_matrix(&self) -> (r: Vec<Vec<Term>>)
        requires
            self.wf(),
        ensures
            r@.len() == self.unknowns(),
            forall|i: int| 0 <= i < self.node_count() - 1 ==> (#[trigger] r@[i])@ == self.node_terms(i + 1),
            forall|j: int|
                0 <= j < self.source_count() ==> (#[trigger] r@[self.current_col(j)])@
                    == self.source_terms(j),
            forall|i: int| 0 <= i < self.unknowns() ==> (#[trigger] r@[i])@ == self.row_terms(i),
    {
        let mut rows: Vec<Vec<Term>> = Vec::new();
        let mut node_id: usize = 1;
        while node_id < self.nodes.len()
            invariant
                self.wf(),
                1 <= node_id,
                node_id <= self.node_count() || node_id == 1,
                rows@.len() == node_id - 1,
                forall|i: int| 0 <= i < node_id - 1 ==> (#[trigger] rows@[i])@ == self.node_terms(i + 1),
            decreases self.nodes@.len() - node_id,
        {
            rows.push(self.get_node_intensity(node_id));
            node_id = node_id + 1;
        }
        let ghost kcl = rows@.len();
        let mut j: usize = 0;
        while j < self.vgenerators.len()
            invariant
                self.wf(),
                self.components().len() > 0 || self.source_count() == 0,
                self.node_count() > 0 ==> kcl == self.node_count() - 1,
                self.node_count() == 0 ==> kcl == 0,
                j <= self.source_count(),
                rows@.len() == kcl + j,
                forall|i: int| 0 <= i < kcl ==> (#[trigger] rows@[i])@ == self.node_terms(i + 1),
                forall|i: int| 0 <= i < j ==> (#[trigger] rows@[kcl + i])@ == self.source_terms(i),
            decreases self.source_count() - j,
        {
            rows.push(self.get_vgenerator_voltage(j));
            j = j + 1;
        }
        assert forall|i: int| 0 <= i < self.source_count() implies (#[trigger] rows@[self.current_col(i)])@
            == self.source_terms(i) by {
            assert(rows@[kcl + i]@ == self.source_terms(i));
        }
        assert forall|i: int| 0 <= i < self.unknowns() implies (#[trigger] rows@[i])@ == self.row_terms(i) by {
            if i >= self.node_count() - 1 {
                assert(rows@[kcl + (i - kcl)]@ == self.source_terms(i - kcl));
            }
        }
        rows
    }

    /// The right-hand side `Y` of `M * X = Y`: 0 in the rows of Kirchhoff's
    /// current law, the source's voltage in the row of each voltage source.
    pub fn get_result_vector(&self) -> (r: Vec<i64>)
        requires
            self.wf(),
        ensures
            r@.len() == self.unknowns(),
            forall|i: int| 0 <= i < r@.len() ==> r@[i] == self.rhs_entry(i),
    {
        let mut result: Vec<i64> = Vec::new();
        let mut node_id: usize = 1;
        while node_id < self.nodes.len()
            invariant
                self.wf(),
                1 <= node_id,
                node_id <= self.node_count() || node_id == 1,
                result@.len() == node_id - 1,
                forall|i: int| 0 <= i < result@.len() ==> result@[i] == self.rhs_entry(i),
            decreases self.nodes@.len() - node_id,
        {
            result.push(0);
            node_id = node_id + 1;
        }
        let ghost kcl = result@.len();
        let mut j: usize = 0;
        while j < self.vgenerators.len()
            invariant
                self.wf(),
                self.components().len() > 0 || self.source_count() == 0,
                self.node_count() > 0 ==> kcl == self.node_count() - 1,
                self.node_count() == 0 ==> kcl == 0,
                j <= self.source_count(),
                result@.len() == kcl + j,
                forall|i: int| 0 <= i < result@.len() ==> result@[i] == self.rhs_entry(i),
            decreases self.source_count() - j,
        {
            let generator = self.vgenerators[j];
            assert(0 <= self.source_component(j as int) < self.components().len());
            let voltage = match self.circuit.components[generator.0] {
                Components::VoltageGenerator(v) => v,
                Components::Resistor(_) => 0,
            };
            result.push(voltage);
            j = j + 1;
        }
        result
    }

    pub closed spec fn wf(&self) -> bool {
        let count = self.components().len();
        &&& count < 0x1000_0000
        &&& self.node_count() <= 2 * count
        &&& self.terminal_to_node@.len() == 2 * count
        &&& self.component_id_to_vgenerator_id@.len() == count
        &&& forall|t: TerminalID| #[trigger] self.valid(t) ==> 0 <= self.node_of(t) < self.node_count()
        &&& forall|a: TerminalID, b: TerminalID|
            self.valid(a) && self.valid(b) ==> (self.node_of(a) == self.node_of(b) <==> linked(
                self.edges(),
                a,
                b,
            ))
        &&& forall|k: int, i: int|
            0 <= k < self.node_count() && 0 <= i < self.node_members(k).len() ==> {
                &&& self.valid(#[trigger] self.node_members(k)[i])
                &&& self.node_of(self.node_members(k)[i]) == k
            }
        &&& forall|k: int| 0 <= k < self.node_count() ==> self.node_members(k).len() > 0
        &&& (count > 0 ==> self.node_count() > 0)
        &&& (count == 0 ==> self.node_count() == 0)
        &&& forall|j: int|
            0 <= j < self.source_count() ==> {
                &&& 0 <= #[trigger] self.source_component(j) < count
                &&& is_source(self.components()[self.source_component(j)])
                &&& self.source_index(self.source_component(j)) == j
            }
        &&& forall|c: int|
            0 <= c < count && is_source(#[trigger] self.components()[c]) ==> {
                &&& 0 <= self.source_index(c) < self.source_count()
                &&& self.source_component(self.source_index(c)) == c
            }
        &&& self.source_count() <= count
        &&& forall|k: int|
            0 <= k < 2 * count && #[trigger] starts_node(self.edges(), k) ==> self.node_of(seed(k))
                == nodes_before(self.edges(), k)
        &&& self.node_count() == nodes_before(self.edges(), 2 * count as int)
        &&& forall|g: int|
            0 <= g < self.node_count() ==> #[trigger] self.node_members(g) == collect_node(
                self.terminal_to_node@,
                g,
                2 * count as int,
            )
        &&& forall|c: int|
            0 <= c < count && is_source(#[trigger] self.components()[c]) ==> self.source_index(c)
                == sources_before(self.components(), c)
        &&& self.source_count() == sources_before(self.components(), count as int)
        &&& forall|j1: int, j2: int|
            0 <= j1 < j2 < self.source_count() ==> self.source_component(j1) < self.source_component(j2)
        &&& self.unknowns() == if count == 0 {
            0
        } else {
            self.node_count() - 1 + self.source_count()
        }
    }

    /// Validates a circuit, groups its terminals into nodes and numbers the
    /// unknowns.
    ///
    /// Nodes are numbered in the order of their first terminal, components in
    /// declaration order and terminal 0 before terminal 1; so the ground is the
    /// node of terminal 0 of component 0. A terminal that no wire names is a
    /// node of its own.
    pub fn new(circuit: Circuit) -> (r: Result<Simulator, SimulationError>)
        requires
            circuit.components@.len() < 0x1000_0000,
        ensures
            match r {
                Err(SimulationError::InvalidComponent(id)) => {
                    &&& bad_resistor(circuit.components@, id.0 as int)
                    &&& forall|c: int| 0 <= c < id.0 ==> !bad_resistor(circuit.components@, c)
                },
                Err(SimulationError::InvalidTerminal(t)) => {
                    &&& forall|c: int| !bad_resistor(circuit.components@, c)
                    &&& exists|k: int|
                        0 <= k < edge_ends(circuit.terminal_edges@).len() && edge_ends(
                            circuit.terminal_edges@,
                        )[k] == t && !valid_terminal(circuit.components@.len() as int, t)
                        && forall|i: int|
                            0 <= i < k ==> valid_terminal(
                                circuit.components@.len() as int,
                                #[trigger] edge_ends(circuit.terminal_edges@)[i],
                            )
                },
                Err(SimulationError::SingularSystem) => false,
                Ok(s) => {
                    &&& forall|c: int| !bad_resistor(circuit.components@, c)
                    &&& forall|k: int|
                        0 <= k < edge_ends(circuit.terminal_edges@).len() ==> valid_terminal(
                            circuit.components@.len() as int,
                            #[trigger] edge_ends(circuit.terminal_edges@)[k],
                        )
                    &&& s.wf()
                    &&& s.components() == circuit.components@
                    &&& s.edges() == circuit.terminal_edges@
                    &&& forall|a: TerminalID, b: TerminalID|
                        s.valid(a) && s.valid(b) ==> (s.node_of(a) == s.node_of(b) <==> linked(
                            circuit.terminal_edges@,
                            a,
                            b,
                        ))
                    &&& s.components().len() > 0 ==> s.node_of(
                        TerminalID { component_id: ComponentID(0), idx: 0 },
                    ) == 0
                    &&& forall|j1: int, j2: int|
                        0 <= j1 < j2 < s.source_count() ==> s.source_component(j1)
                            < s.source_component(j2)
                    &&& forall|k: int| 0 <= k < s.node_count() ==> #[trigger] s.node_is_used(k)
                    &&& forall|t: TerminalID|
                        #[trigger] s.valid(t) ==> s.node_members(s.node_of(t)).contains(t)
                    &&& forall|k: int, i: int|
                        0 <= k < s.node_count() && 0 <= i < s.node_members(k).len() ==> s.node_of(
                            #[trigger] s.node_members(k)[i],
                        ) == k
                },
            },
    {
        let count = circuit.components.len();
        let mut c: usize = 0;
        while c < count
            invariant
                count == circuit.components@.len(),
                c <= count,
                forall|i: int| 0 <= i < c ==> !bad_resistor(circuit.components@, i),
            decreases count - c,
        {
            match circuit.components[c] {
                Components::Resistor(r) => {
                    if r <= 0 {
                        return Err(SimulationError::InvalidComponent(ComponentID(c)));
                    }
                },
                Components::VoltageGenerator(_) => {},
            }
            c = c + 1;
        }
        let ghost ends = edge_ends(circuit.terminal_edges@);
        let mut e: usize = 0;
        while e < circuit.terminal_edges.len()
            invariant
                count == circuit.components@.len(),
                forall|i: int| !bad_resistor(circuit.components@, i),
                ends == edge_ends(circuit.terminal_edges@),
                e <= circuit.terminal_edges@.len(),
                forall|i: int|
                    0 <= i < 2 * e ==> valid_terminal(count as int, #[trigger] ends[i]),
            decreases circuit.terminal_edges@.len() - e,
        {
            let (left, right) = circuit.terminal_edges[e];
            assert(ends[2 * e] == left);
            assert(ends[2 * e + 1] == right);
            if !(left.component_id.0 < count && left.idx < 2) {
                return Err(SimulationError::InvalidTerminal(left));
            }
            if !(right.component_id.0 < count && right.idx < 2) {
                return Err(SimulationError::InvalidTerminal(right));
            }
            e = e + 1;
        }
        assert(ends.len() == 2 * circuit.terminal_edges@.len());
        let ghost edges = circuit.terminal_edges@;
        let mut terminals: Vec<TerminalID> = Vec::new();
        let mut c: usize = 0;
        while c < count
            invariant
                count == circuit.components@.len(),
                count < 0x1000_0000,
                c <= count,
                terminals@ =~= all_terminals(c as int),
            decreases count - c,
        {
            terminals.push(TerminalID::new(c, 0));
            terminals.push(TerminalID::new(c, 1));
            c = c + 1;
            assert(terminals@ =~= all_terminals(c as int));
        }
        let ghost seeds = terminals@;
        proof {
            assert forall|t: TerminalID|
                seeds.contains(t) <==> valid_terminal(count as int, t) by {
                if valid_terminal(count as int, t) {
                    assert(seeds[terminal_key(t)] == t);
                }
            }
        }
        let mut ds = DisjointSet::new(terminals);
        let ghost members = ds.members();
        let mut e: usize = 0;
        while e < circuit.terminal_edges.len()
            invariant
                count == circuit.components@.len(),
                edges == circuit.terminal_edges@,
                ends == edge_ends(edges),
                forall|i: int|
                    0 <= i < ends.len() ==> valid_terminal(count as int, #[trigger] ends[i]),
                e <= edges.len(),
                ds.wf(),
                ds.members() == members,
                forall|t: TerminalID| members.contains(t) <==> valid_terminal(count as int, t),
                forall|a: TerminalID, b: TerminalID|
                    ds.connected(a, b) <==> (valid_terminal(count as int, a) && valid_terminal(
                        count as int,
                        b,
                    ) && linked(edges.subrange(0, e as int), a, b)),
            decreases edges.len() - e,
        {
            let (left, right) = circuit.terminal_edges[e];
            assert(ends[2 * e] == left);
            assert(ends[2 * e + 1] == right);
            ds.merge(left, right);
            assert(edges.subrange(0, e + 1).drop_last() =~= edges.subrange(0, e as int));
            assert(edges.subrange(0, e + 1).last() == (left, right));
            e = e + 1;
        }
        assert(edges.subrange(0, edges.len() as int) =~= edges);
        proof {
            assert forall|a: TerminalID, b: TerminalID|
                valid_terminal(count as int, a) && valid_terminal(count as int, b) implies (
                ds.connected(a, b) <==> linked(edges, a, b)) by {}
        }
        let mut reps: Vec<TerminalID> = Vec::new();
        let mut k: usize = 0;
        while k < 2 * count
            invariant
                count == circuit.components@.len(),
                count < 0x1000_0000,
                k <= 2 * count,
                ds.wf(),
                forall|t: TerminalID| ds.members().contains(t) <==> valid_terminal(count as int, t),
                reps@.len() == k,
                forall|i: int| 0 <= i < k ==> reps@[i] == ds.rep(#[trigger] seed(i)),
            decreases 2 * count - k,
        {
            let t = TerminalID::new(k / 2, k % 2);
            proof {
                lemma_seed(k as int, count as int);
                assert(t == seed(k as int));
            }
            let r = ds.find(&t);
            reps.push(r);
            k = k + 1;
        }
        proof {
            assert forall|i1: int, i2: int|
                0 <= i1 < 2 * count && 0 <= i2 < 2 * count implies (reps@[i1] == reps@[i2] <==> linked(
                edges,
                #[trigger] seed(i1),
                #[trigger] seed(i2),
            )) by {
                lemma_seed(i1, count as int);
                lemma_seed(i2, count as int);
                ds.lemma_rep_canonical(seed(i1), seed(i2));
            }
        }
        let mut terminal_to_node: Vec<usize> = Vec::new();
        let mut next: usize = 0;
        let mut k: usize = 0;
        while k < 2 * count
            invariant
                count == circuit.components@.len(),
                count < 0x1000_0000,
                k <= 2 * count,
                reps@.len() == 2 * count,
                forall|i1: int, i2: int|
                    0 <= i1 < 2 * count && 0 <= i2 < 2 * count ==> (reps@[i1] == reps@[i2] <==> linked(
                        edges,
                        #[trigger] seed(i1),
                        #[trigger] seed(i2),
                    )),
                terminal_to_node@.len() == k,
                next <= k,
                next == nodes_before(edges, k as int),
                forall|i: int| 0 <= i < k ==> terminal_to_node@[i] < next,
                forall|i: int|
                    0 <= i < k && #[trigger] starts_node(edges, i) ==> terminal_to_node@[i]
                        == nodes_before(edges, i),
                forall|i1: int, i2: int|
                    0 <= i1 < k && 0 <= i2 < k ==> (terminal_to_node@[i1] == terminal_to_node@[i2]
                        <==> reps@[i1] == reps@[i2]),
                forall|g: int| 0 <= g < next ==> #[trigger] appears_below(terminal_to_node@, k as int, g),
            decreases 2 * count - k,
        {
            let mut found: usize = k;
            let mut j: usize = 0;
            while j < k
                invariant
                    j <= k,
                    k < 2 * count,
                    reps@.len() == 2 * count,
                    found == k || found < j,
                    found == k ==> forall|i: int| 0 <= i < j ==> reps@[i] != reps@[k as int],
                    found < k ==> reps@[found as int] == reps@[k as int],
                decreases k - j,
            {
                if found == k && reps[j] == reps[k] {
                    found = j;
                }
                j = j + 1;
            }
            let ghost before = terminal_to_node@;
            let ghost old_next = next;
            if found < k {
                let v = terminal_to_node[found];
                terminal_to_node.push(v);
                proof {
                    assert(linked(edges, seed(found as int), seed(k as int)));
                    assert(!starts_node(edges, k as int));
                }
            } else {
                terminal_to_node.push(next);
                next = next + 1;
                proof {
                    assert forall|i: int| 0 <= i < k implies !linked(edges, #[trigger] seed(i), seed(k as int)) by {
                        assert(reps@[i] != reps@[k as int]);
                    }
                    assert(starts_node(edges, k as int));
                }
            }
            proof {
                assert(nodes_before(edges, k + 1) == nodes_before(edges, k as int) + if starts_node(edges, k as int) { 1nat } else { 0nat });
                assert forall|g: int| 0 <= g < next implies #[trigger] appears_below(
                    terminal_to_node@,
                    k + 1,
                    g,
                ) by {
                    if g < old_next {
                        assert(appears_below(before, k as int, g));
                        let i = choose|i: int| 0 <= i < k && before[i] == g;
                        assert(terminal_to_node@[i] == g);
                    } else {
                        assert(terminal_to_node@[k as int] == g);
                    }
                }
            }
            k = k + 1;
        }
        let mut nodes: Vec<Vec<TerminalID>> = Vec::new();
        let mut g: usize = 0;
        while g < next
            invariant
                count < 0x1000_0000,
                terminal_to_node@.len() == 2 * count,
                g <= next,
                nodes@.len() == g,
                forall|gi: int| 0 <= gi < g ==> (#[trigger] nodes@[gi])@ == collect_node(
                    terminal_to_node@,
                    gi,
                    2 * count,
                ),
            decreases next - g,
        {
            let mut members: Vec<TerminalID> = Vec::new();
            let mut k: usize = 0;
            while k < 2 * count
                invariant
                    count < 0x1000_0000,
                    terminal_to_node@.len() == 2 * count,
                    k <= 2 * count,
                    members@ == collect_node(terminal_to_node@, g as int, k as int),
                decreases 2 * count - k,
            {
                if terminal_to_node[k] == g {
                    let t = TerminalID::new(k / 2, k % 2);
                    members.push(t);
                }
                k = k + 1;
            }
            nodes.push(members);
            g = g + 1;
        }
        let mut vgenerators: Vec<ComponentID> = Vec::new();
        let mut component_id_to_vgenerator_id: Vec<usize> = Vec::new();
        let mut c: usize = 0;
        while c < count
            invariant
                count == circuit.components@.len(),
                c <= count,
                component_id_to_vgenerator_id@.len() == c,
                vgenerators@.len() <= c,
                vgenerators@.len() == sources_before(circuit.components@, c as int),
                forall|j: int|
                    0 <= j < vgenerators@.len() ==> {
                        &&& 0 <= (#[trigger] vgenerators@[j]).0 < c
                        &&& is_source(circuit.components@[vgenerators@[j].0 as int])
                        &&& component_id_to_vgenerator_id@[vgenerators@[j].0 as int] == j
                    },
                forall|i: int|
                    0 <= i < c && is_source(#[trigger] circuit.components@[i]) ==> {
                        &&& 0 <= component_id_to_vgenerator_id@[i] < vgenerators@.len()
                        &&& vgenerators@[component_id_to_vgenerator_id@[i] as int].0 == i
                        &&& component_id_to_vgenerator_id@[i] == sources_before(
                            circuit.components@,
                            i,
                        )
                    },
                forall|j1: int, j2: int|
                    0 <= j1 < j2 < vgenerators@.len() ==> vgenerators@[j1].0 < vgenerators@[j2].0,
            decreases count - c,
        {
            match circuit.components[c] {
                Components::VoltageGenerator(_) => {
                    component_id_to_vgenerator_id.push(vgenerators.len());
                    vgenerators.push(ComponentID(c));
                },
                Components::Resistor(_) => {
                    component_id_to_vgenerator_id.push(0);
                },
            }
            c = c + 1;
        }
        let n = if count == 0 {
            0
        } else {
            next - 1 + vgenerators.len()
        };
        let ghost table = terminal_to_node@;
        let s = Simulator {
            circuit,
            n,
            nodes,
            terminal_to_node,
            vgenerators,
            component_id_to_vgenerator_id,
        };
        proof {
            if count > 0 {
                assert(table[0] < next);
                assert(starts_node(edges, 0));
                assert(terminal_key(TerminalID { component_id: ComponentID(0), idx: 0 }) == 0);
            }
            assert forall|t: TerminalID| #[trigger] s.valid(t) implies 0 <= s.node_of(t)
                < s.node_count() by {
                lemma_key(t, count as int);
            }
            assert forall|a: TerminalID, b: TerminalID|
                s.valid(a) && s.valid(b) implies (s.node_of(a) == s.node_of(b) <==> linked(
                    edges,
                    a,
                    b,
                )) by {
                lemma_key(a, count as int);
                lemma_key(b, count as int);
                let ka = terminal_key(a);
                let kb = terminal_key(b);
                assert(reps@[ka] == reps@[kb] <==> linked(edges, seed(ka), seed(kb)));
            }
            assert forall|g: int| 0 <= g < s.node_count() implies s.node_members(g).len() > 0 by {
                assert(appears_below(table, 2 * count, g));
                let i = choose|i: int| 0 <= i < 2 * count && table[i] == g;
                lemma_collect_node_nonempty(table, g, 2 * count, i);
            }
            assert forall|g: int, i: int|
                0 <= g < s.node_count() && 0 <= i < s.node_members(g).len() implies {
                &&& s.valid(#[trigger] s.node_members(g)[i])
                &&& s.node_of(s.node_members(g)[i]) == g
            } by {
                lemma_collect_node(table, g, 2 * count, count as int);
            }
            assert forall|k: int|
                0 <= k < 2 * count && #[trigger] starts_node(s.edges(), k) implies s.node_of(seed(k))
                == nodes_before(s.edges(), k) by {
                lemma_seed(k, count as int);
            }
        }
        proof {
            s.lemma_node_members();
        }
        Ok(s)
    }

    /// Some terminal of the circuit belongs to node `k`.
    pub open spec fn node_is_used(&self, k: int) -> bool {
        exists|t: TerminalID| self.valid(t) && self.node_of(t) == k
    }

    /// The nodes split the terminals of the circuit: each node holds at least
    /// one terminal, each terminal once, and exactly the terminals whose node it
    /// is. So the nodes are exactly the classes of linked terminals.
    pub proof fn lemma_node_members(&self)
        requires
            self.wf(),
        ensures
            forall|k: int, i: int|
                0 <= k < self.node_count() && 0 <= i < self.node_members(k).len() ==> {
                    &&& self.valid(#[trigger] self.node_members(k)[i])
                    &&& self.node_of(self.node_members(k)[i]) == k
                },
            forall|t: TerminalID| #[trigger] self.valid(t) ==> 0 <= self.node_of(t)
                < self.node_count() && self.node_members(self.node_of(t)).contains(t),
            forall|k: int|
                0 <= k < self.node_count() ==> (#[trigger] self.node_members(k)).no_duplicates()
                    && self.node_members(k).len() > 0,
            forall|k: int| 0 <= k < self.node_count() ==> #[trigger] self.node_is_used(k),
            0 <= self.source_count(),
    {
        let count = self.components().len() as int;
        assert forall|t: TerminalID| #[trigger] self.valid(t) implies 0 <= self.node_of(t)
            < self.node_count() && self.node_members(self.node_of(t)).contains(t) by {
            lemma_key(t, count);
            lemma_collect_node_contains(
                self.terminal_to_node@,
                self.node_of(t),
                2 * count,
                terminal_key(t),
            );
        }
        assert forall|k: int| 0 <= k < self.node_count() implies (#[trigger] self.node_members(
            k,
        )).no_duplicates() && self.node_members(k).len() > 0 by {
            lemma_collect_node_distinct(self.terminal_to_node@, k, 2 * count, count);
        }
        assert forall|k: int| 0 <= k < self.node_count() implies #[trigger] self.node_is_used(k) by {
            let t = self.node_members(k)[0];
            assert(self.valid(t) && self.node_of(t) == k);
        }
    }

    /// The unknowns are the voltages of the nodes but the ground, then the
    /// currents of all the voltage sources in declaration order.
    pub proof fn lemma_unknown_layout(&self)
        requires
            self.wf(),
        ensures
            self.components().len() > 0 ==> self.unknowns() == self.node_count() - 1
                + self.source_count(),
            self.components().len() == 0 ==> self.unknowns() == 0,
            forall|c: int|
                0 <= c < self.components().len() && is_source(#[trigger] self.components()[c])
                    ==> 0 <= self.source_index(c) < self.source_count() && self.source_component(
                    self.source_index(c),
                ) == c,
            forall|j: int|
                0 <= j < self.source_count() ==> is_source(
                    self.components()[#[trigger] self.source_component(j)],
                ) && self.source_index(self.source_component(j)) == j,
            forall|j1: int, j2: int|
                0 <= j1 < j2 < self.source_count() ==> self.source_component(j1)
                    < self.source_component(j2),
    {
    }

    /// Declaring the same circuit with its terminals renamed one to one (its
    /// components in another order) groups the renamed terminals into nodes
    /// as the terminals were grouped before renaming.
    pub proof fn lemma_relabel_same_nodes(
        s1: &Simulator,
        s2: &Simulator,
        f: spec_fn(TerminalID) -> TerminalID,
        a: TerminalID,
        b: TerminalID,
    )
        requires
            s1.wf(),
            s2.wf(),
            forall|u: TerminalID, v: TerminalID| #[trigger] f(u) == #[trigger] f(v) ==> u == v,
            s2.edges() == rename_edges(s1.edges(), f),
            s1.valid(a),
            s1.valid(b),
            s2.valid(f(a)),
            s2.valid(f(b)),
        ensures
            s1.node_of(a) == s1.node_of(b) <==> s2.node_of(f(a)) == s2.node_of(f(b)),
    {
        lemma_linked_rename(s1.edges(), f, a, b);
    }

    proof fn lemma_terms_of_eq(s1: &Simulator, s2: &Simulator, ts: Seq<TerminalID>)
        requires
            s1.wf(),
            s2.wf(),
            s1.components() == s2.components(),
            s1.node_count() == s2.node_count(),
            forall|t: TerminalID| #[trigger] s1.valid(t) ==> s1.node_of(t) == s2.node_of(t),
            forall|c: int|
                0 <= c < s1.components().len() && is_source(#[trigger] s1.components()[c])
                    ==> s1.source_index(c) == s2.source_index(c),
            forall|i: int| 0 <= i < ts.len() ==> s1.valid(#[trigger] ts[i]),
        ensures
            s1.terms_of(ts) == s2.terms_of(ts),
        decreases ts.len(),
    {
        if ts.len() > 0 {
            let prev = ts.drop_last();
            assert forall|i: int| 0 <= i < prev.len() implies s1.valid(#[trigger] prev[i]) by {
                assert(prev[i] == ts[i]);
            }
            Self::lemma_terms_of_eq(s1, s2, prev);
            let t = ts.last();
            assert(s1.valid(ts[ts.len() - 1]));
            assert(s1.valid(other_terminal(t)));
        }
    }

    /// Two circuits with the same components whose wires link the same
    /// terminals get the same nodes, numbered alike, and so assemble the same
    /// system: the same unknowns, rows and right-hand side.
    pub proof fn lemma_same_links_same_system(s1: &Simulator, s2: &Simulator)
        requires
            s1.wf(),
            s2.wf(),
            s1.components() == s2.components(),
            forall|a: TerminalID, b: TerminalID|
                s1.valid(a) && s1.valid(b) ==> (#[trigger] linked(s1.edges(), a, b) <==> linked(
                    s2.edges(),
                    a,
                    b,
                )),
        ensures
            s1.node_count() == s2.node_count(),
            s1.source_count() == s2.source_count(),
            s1.unknowns() == s2.unknowns(),
            forall|t: TerminalID| #[trigger] s1.valid(t) ==> s1.node_of(t) == s2.node_of(t),
            forall|k: int| 0 <= k < s1.node_count() ==> #[trigger] s1.node_terms(k) == s2.node_terms(k),
            forall|j: int|
                0 <= j < s1.source_count() ==> #[trigger] s1.source_terms(j) == s2.source_terms(j),
            forall|i: int| 0 <= i < s1.unknowns() ==> #[trigger] s1.rhs_entry(i) == s2.rhs_entry(i),
    {
        let count = s1.components().len() as int;
        let e1 = s1.edges();
        let e2 = s2.edges();
        lemma_nodes_before_eq(e1, e2, count, 2 * count);
        assert forall|k: int| 0 <= k < 2 * count implies s1.node_of(#[trigger] seed(k)) == s2.node_of(
            seed(k),
        ) by {
            let k0 = lemma_has_start(e1, k);
            lemma_seed(k, count);
            lemma_seed(k0, count);
            lemma_nodes_before_eq(e1, e2, count, k0);
            assert(starts_node(e1, k0));
            assert(starts_node(e2, k0));
            assert(linked(e2, seed(k0), seed(k)));
            assert(s1.node_of(seed(k0)) == s1.node_of(seed(k)));
            assert(s2.node_of(seed(k0)) == s2.node_of(seed(k)));
        }
        assert forall|t: TerminalID| #[trigger] s1.valid(t) implies s1.node_of(t) == s2.node_of(t) by {
            lemma_key(t, count);
            assert(s1.node_of(seed(terminal_key(t))) == s2.node_of(seed(terminal_key(t))));
        }
        assert forall|i: int| 0 <= i < 2 * count implies s1.terminal_to_node@[i]
            == s2.terminal_to_node@[i] by {
            lemma_seed(i, count);
            assert(s1.node_of(seed(i)) == s2.node_of(seed(i)));
        }
        assert forall|g: int| 0 <= g < s1.node_count() implies s1.node_members(g) == s2.node_members(g) by {
            lemma_collect_node_eq(s1.terminal_to_node@, s2.terminal_to_node@, g, 2 * count);
        }
        assert forall|j: int| 0 <= j < s1.source_count() implies s1.source_component(j)
            == s2.source_component(j) by {
            let c2 = s2.source_component(j);
            assert(0 <= c2 < count && is_source(s2.components()[c2]));
            assert(s1.source_index(c2) == s2.source_index(c2));
        }
        assert forall|k: int| 0 <= k < s1.node_count() implies #[trigger] s1.node_terms(k)
            == s2.node_terms(k) by {
            let ts = s1.node_members(k);
            assert forall|i: int| 0 <= i < ts.len() implies s1.valid(#[trigger] ts[i]) by {}
            Self::lemma_terms_of_eq(s1, s2, ts);
        }
    }

    /// Wiring again two terminals that a wire already joins, in either
    /// direction, leaves the nodes and the whole system as they were, and so
    /// every solution.
    pub proof fn lemma_duplicate_edge_same_system(
        s1: &Simulator,
        s2: &Simulator,
        e: (TerminalID, TerminalID),
    )
        requires
            s1.wf(),
            s2.wf(),
            s1.components() == s2.components(),
            s1.edges().contains(e) || s1.edges().contains((e.1, e.0)),
            s2.edges() == s1.edges().push(e),
        ensures
            forall|g: Seq<int>, x: Seq<int>| #[trigger] s1.solves(g, x) <==> s2.solves(g, x),
            s1.node_count() == s2.node_count(),
            s1.source_count() == s2.source_count(),
            s1.unknowns() == s2.unknowns(),
            forall|t: TerminalID| #[trigger] s1.valid(t) ==> s1.node_of(t) == s2.node_of(t),
            forall|k: int| 0 <= k < s1.node_count() ==> #[trigger] s1.node_terms(k) == s2.node_terms(k),
            forall|j: int|
                0 <= j < s1.source_count() ==> #[trigger] s1.source_terms(j) == s2.source_terms(j),
            forall|i: int| 0 <= i < s1.unknowns() ==> #[trigger] s1.rhs_entry(i) == s2.rhs_entry(i),
    {
        assert forall|a: TerminalID, b: TerminalID|
            s1.valid(a) && s1.valid(b) implies (#[trigger] linked(s1.edges(), a, b) <==> linked(
                s2.edges(),
                a,
                b,
            )) by {
            lemma_duplicate_edge(s1.edges(), e, a, b);
        }
        Self::lemma_same_links_same_system(s1, s2);
        assert forall|i: int| 0 <= i < s1.unknowns() implies #[trigger] s1.row_terms(i)
            == s2.row_terms(i) by {
            s1.lemma_unknown_layout();
            if i < s1.node_count() - 1 {
                assert(s1.node_terms(i + 1) == s2.node_terms(i + 1));
            } else {
                assert(s1.source_terms(i - (s1.node_count() - 1)) == s2.source_terms(
                    i - (s1.node_count() - 1),
                ));
            }
        }
        assert forall|g: Seq<int>, x: Seq<int>| #[trigger] s1.solves(g, x) <==> s2.solves(g, x) by {
            if s1.solves(g, x) {
                assert forall|i: int| 0 <= i < s2.unknowns() implies row_value(
                    #[trigger] s2.row_terms(i),
                    g,
                    x,
                ) == s2.rhs_entry(i) by {
                    assert(s1.row_terms(i) == s2.row_terms(i));
                    assert(s1.rhs_entry(i) == s2.rhs_entry(i));
                }
            }
            if s2.solves(g, x) {
                assert forall|i: int| 0 <= i < s1.unknowns() implies row_value(
                    #[trigger] s1.row_terms(i),
                    g,
                    x,
                ) == s1.rhs_entry(i) by {
                    assert(s1.row_terms(i) == s2.row_terms(i));
                    assert(s1.rhs_entry(i) == s2.rhs_entry(i));
                    assert(row_value(s2.row_terms(i), g, x) == s2.rhs_entry(i));
                }
            }
        }
    }

    /// The sum of the currents that leave through the given terminals into
    /// their components, under the unknowns `x` and the conductances `g`.
    pub open spec fn currents(&self, ts: Seq<TerminalID>, g: Seq<int>, x: Seq<int>) -> int
        decreases ts.len(),
    {
        if ts.len() == 0 {
            0
        } else {
            self.currents(ts.drop_last(), g, x) + self.current_leaving(ts.last(), g, x)
        }
    }

    /// The current that leaves the node of `t` through `t`: `(V(t) - V(other)) / R`
    /// for a resistor, the source current with the sign of the terminal for a
    /// voltage source.
    pub open spec fn current_leaving(&self, t: TerminalID, g: Seq<int>, x: Seq<int>) -> int {
        let c = t.component_id.0 as int;
        match self.components()[c] {
            Components::Resistor(_) => g[c] * (voltage_at(self.node_of(t), x) - voltage_at(
                self.node_of(other_terminal(t)),
                x,
            )),
            Components::VoltageGenerator(_) => {
                let i = x[self.current_col(self.source_index(c))];
                if t.idx == 1 {
                    i
                } else {
                    -i
                }
            },
        }
    }

    proof fn lemma_voltage_term(k: int, positive: bool, cond: Option<ComponentID>, g: Seq<int>, x: Seq<int>)
        requires
            0 <= k <= usize::MAX,
        ensures
            positive ==> row_value(voltage_term(k, positive, cond), g, x) == coefficient(cond, g)
                * voltage_at(k, x),
            !positive ==> row_value(voltage_term(k, positive, cond), g, x) == -(coefficient(cond, g)
                * voltage_at(k, x)),
    {
        if k != 0 {
            let t = Term { col: (k - 1) as usize, positive, conductance_of: cond };
            assert(seq![t].drop_last() =~= Seq::<Term>::empty());
            assert(voltage_term(k, positive, cond) == seq![t]);
            assert(t.col as int == k - 1);
            assert(row_value(seq![t], g, x) == row_value(Seq::<Term>::empty(), g, x) + term_value(t, g, x));
            let c = coefficient(cond, g);
            let v = x[k - 1];
            assert(-c * v == -(c * v)) by (nonlinear_arith);
        } else {
            let c = coefficient(cond, g);
            assert(c * 0 == 0) by (nonlinear_arith);
        }
    }

    proof fn lemma_terminal_row(&self, t: TerminalID, g: Seq<int>, x: Seq<int>)
        requires
            self.wf(),
            self.valid(t),
        ensures
            row_value(self.terminal_terms(t), g, x) == self.current_leaving(t, g, x),
    {
        let c = t.component_id.0 as int;
        let o = other_terminal(t);
        assert(self.valid(o));
        let k = self.node_of(t);
        let m = self.node_of(o);
        match self.components()[c] {
            Components::Resistor(_) => {
                Self::lemma_voltage_term(k, true, Some(t.component_id), g, x);
                Self::lemma_voltage_term(m, false, Some(t.component_id), g, x);
                lemma_row_value_concat(
                    voltage_term(k, true, Some(t.component_id)),
                    voltage_term(m, false, Some(t.component_id)),
                    g,
                    x,
                );
                let gc = g[c];
                let vk = voltage_at(k, x);
                let vm = voltage_at(m, x);
                assert(gc * vk + -(gc * vm) == gc * (vk - vm)) by (nonlinear_arith);
                assert(coefficient(Some(t.component_id), g) == gc);
                assert(row_value(self.terminal_terms(t), g, x) == gc * vk + -(gc * vm));
            },
            Components::VoltageGenerator(_) => {
                let term = self.terminal_terms(t)[0];
                assert(self.terminal_terms(t).drop_last() =~= Seq::<Term>::empty());
                assert(0 <= self.source_index(c) < self.source_count());
                let col = self.current_col(self.source_index(c));
                assert(term.col as int == col);
                let v = x[col];
                assert(1 * v == v && -1 * v == -v) by (nonlinear_arith);
                let ts = self.terminal_terms(t);
                assert(ts.len() == 1);
                assert(ts.last() == term);
                assert(row_value(ts.drop_last(), g, x) == 0);
                assert(row_value(ts, g, x) == term_value(term, g, x));
            },
        }
    }

    proof fn lemma_terms_of(&self, ts: Seq<TerminalID>, g: Seq<int>, x: Seq<int>)
        requires
            self.wf(),
            forall|i: int| 0 <= i < ts.len() ==> self.valid(#[trigger] ts[i]),
        ensures
            row_value(self.terms_of(ts), g, x) == self.currents(ts, g, x),
        decreases ts.len(),
    {
        if ts.len() > 0 {
            let prev = ts.drop_last();
            assert forall|i: int| 0 <= i < prev.len() implies self.valid(#[trigger] prev[i]) by {
                assert(prev[i] == ts[i]);
            }
            self.lemma_terms_of(prev, g, x);
            assert(self.valid(ts[ts.len() - 1]));
            self.lemma_terminal_row(ts.last(), g, x);
            lemma_row_value_concat(self.terms_of(prev), self.terminal_terms(ts.last()), g, x);
        }
    }

    /// Kirchhoff's current law: unknowns that satisfy the row of a node that is
    /// not the ground make the currents leaving that node sum to zero.
    pub proof fn lemma_node_currents_balance(&self, k: int, g: Seq<int>, x: Seq<int>)
        requires
            self.wf(),
            1 <= k < self.node_count(),
            row_value(self.node_terms(k), g, x) == self.rhs_entry(k - 1),
        ensures
            self.currents(self.node_members(k), g, x) == 0,
    {
        let ts = self.node_members(k);
        assert forall|i: int| 0 <= i < ts.len() implies self.valid(#[trigger] ts[i]) by {}
        self.lemma_terms_of(ts, g, x);
    }

    /// Unknowns that satisfy the row of voltage source `j` put its voltage
    /// across it: `V(terminal 1) - V(terminal 0) = E_j`.
    pub proof fn lemma_source_voltage_held(&self, j: int, g: Seq<int>, x: Seq<int>)
        requires
            self.wf(),
            0 <= j < self.source_count(),
            row_value(self.source_terms(j), g, x) == self.rhs_entry(self.current_col(j)),
        ensures
            ({
                let id = ComponentID(self.source_component(j) as usize);
                voltage_at(self.node_of(TerminalID { component_id: id, idx: 1 }), x) - voltage_at(
                    self.node_of(TerminalID { component_id: id, idx: 0 }),
                    x,
                ) == source_voltage(self.components()[self.source_component(j)])
            }),
    {
        let id = ComponentID(self.source_component(j) as usize);
        let t0 = TerminalID { component_id: id, idx: 0 };
        let t1 = TerminalID { component_id: id, idx: 1 };
        assert(0 <= self.source_component(j) < self.components().len());
        assert(self.valid(t0));
        assert(self.valid(t1));
        let p = self.node_of(t0);
        let q = self.node_of(t1);
        Self::lemma_voltage_term(q, true, None, g, x);
        Self::lemma_voltage_term(p, false, None, g, x);
        lemma_row_value_concat(voltage_term(q, true, None), voltage_term(p, false, None), g, x);
        assert(coefficient(None, g) == 1);
        let vq = voltage_at(q, x);
        let vp = voltage_at(p, x);
        assert(1 * vq == vq && 1 * vp == vp) by (nonlinear_arith);
        assert(row_value(voltage_term(q, true, None), g, x) == voltage_at(q, x));
        assert(row_value(voltage_term(p, false, None), g, x) == -voltage_at(p, x));
        assert(self.source_terms(j) == voltage_term(q, true, None) + voltage_term(p, false, None));
        assert(row_value(self.source_terms(j), g, x) == voltage_at(q, x) - voltage_at(p, x));
        assert(self.rhs_entry(self.current_col(j)) == source_voltage(self.components()[self.source_component(j)]));
    }
}

} // verus!
