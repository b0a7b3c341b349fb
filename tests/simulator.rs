use dc_circuit::disjoint_set::DisjointSet;
use dc_circuit::model::{Circuit, ComponentID, Components, SimulationError, TerminalID};
use dc_circuit::simulator::{Simulator, Term};
use nalgebra::{DMatrix, DVector};

const TOL: f64 = 1e-9;

fn t(component: usize, idx: usize) -> TerminalID {
    TerminalID::new(component, idx)
}

fn circuit(components: Vec<Components>, edges: Vec<(TerminalID, TerminalID)>) -> Circuit {
    Circuit { components, terminal_edges: edges }
}

fn coefficient(components: &[Components], term: &Term) -> f64 {
    let c = match term.conductance_of {
        Some(id) => match components[id.0] {
            Components::Resistor(r) => 1.0 / r as f64,
            Components::VoltageGenerator(_) => panic!("conductance of a source"),
        },
        None => 1.0,
    };
    if term.positive {
        c
    } else {
        -c
    }
}

fn dense(components: &[Components], sim: &Simulator) -> DMatrix<f64> {
    let n = sim.get_unknown_count();
    let mut m = DMatrix::<f64>::zeros(n, n);
    for (i, row) in sim.get_matrix().iter().enumerate() {
        for term in row {
            m[(i, term.col)] += coefficient(components, term);
        }
    }
    m
}

struct Solved {
    sim: Simulator,
    x: Vec<f64>,
}

impl Solved {
    fn node_voltage(&self, node: usize) -> f64 {
        match self.sim.unknown_node_voltage(node) {
            Some(i) => self.x[i],
            None => 0.0,
        }
    }

    fn terminal_voltage(&self, terminal: TerminalID) -> f64 {
        self.node_voltage(self.sim.get_node_id_from_terminal_id(&terminal))
    }

    fn across(&self, component: usize) -> f64 {
        self.terminal_voltage(t(component, 1)) - self.terminal_voltage(t(component, 0))
    }

    fn source_current(&self, component: usize) -> f64 {
        let j = self.sim.get_vgenerator_id_from_component_id(&ComponentID(component));
        self.x[self.sim.unknown_vgenerator_intensity(j)]
    }
}

fn solve(c: Circuit) -> Result<Solved, SimulationError> {
    let components = c.components.clone();
    let sim = Simulator::new(c)?;
    let m = dense(&components, &sim);
    let y = DVector::from_iterator(
        sim.get_unknown_count(),
        sim.get_result_vector().iter().map(|v| *v as f64),
    );
    match m.lu().solve(&y) {
        Some(x) => Ok(Solved { sim, x: x.iter().copied().collect() }),
        None => Err(SimulationError::SingularSystem),
    }
}

fn close(a: f64, b: f64) -> bool {
    (a - b).abs() <= TOL * b.abs().max(1.0)
}

fn series_parallel() -> Circuit {
    circuit(
        vec![
            Components::VoltageGenerator(10),
            Components::Resistor(2),
            Components::Resistor(4),
            Components::Resistor(3),
        ],
        vec![
            (t(0, 1), t(1, 0)),
            (t(1, 1), t(2, 0)),
            (t(2, 1), t(0, 0)),
            (t(1, 1), t(3, 0)),
            (t(3, 1), t(0, 0)),
        ],
    )
}

#[test]
fn terminal_id_new_keeps_fields() {
    let id = TerminalID::new(3, 1);
    assert_eq!(id.component_id, ComponentID(3));
    assert_eq!(id.idx, 1);
}

#[test]
fn disjoint_set_starts_apart() {
    let ds = DisjointSet::new(vec![t(0, 0), t(0, 1), t(1, 0)]);
    assert_eq!(ds.find(&t(0, 0)), t(0, 0));
    assert_eq!(ds.find(&t(0, 1)), t(0, 1));
    assert_eq!(ds.into_terminal_groups().len(), 3);
}

#[test]
fn disjoint_set_merge_joins_transitively() {
    let mut ds = DisjointSet::new(vec![t(0, 0), t(0, 1), t(1, 0), t(1, 1), t(0, 0)]);
    ds.merge(t(0, 0), t(1, 0));
    ds.merge(t(1, 0), t(1, 1));
    assert_eq!(ds.find(&t(0, 0)), ds.find(&t(1, 1)));
    assert_ne!(ds.find(&t(0, 0)), ds.find(&t(0, 1)));
    let groups = ds.into_terminal_groups();
    assert_eq!(groups.len(), 2);
    assert_eq!(groups[0][0], t(0, 0));
    let mut first = groups[0].clone();
    first.sort_by_key(|x| (x.component_id.0, x.idx));
    assert_eq!(first, vec![t(0, 0), t(1, 0), t(1, 1)]);
    assert_eq!(groups[1], vec![t(0, 1)]);
}

#[test]
fn disjoint_set_merge_twice_is_idempotent() {
    let mut ds = DisjointSet::new(vec![t(0, 0), t(0, 1)]);
    ds.merge(t(0, 0), t(0, 1));
    ds.merge(t(0, 1), t(0, 0));
    assert_eq!(ds.find(&t(0, 0)), ds.find(&t(0, 1)));
    assert_eq!(ds.into_terminal_groups().len(), 1);
}

#[test]
fn disjoint_set_empty_has_no_groups() {
    let ds = DisjointSet::new(vec![]);
    assert!(ds.into_terminal_groups().is_empty());
}

#[test]
fn other_terminal_swaps_index() {
    assert_eq!(Simulator::get_other_terminal(&t(4, 0)), t(4, 1));
    assert_eq!(Simulator::get_other_terminal(&t(4, 1)), t(4, 0));
}

#[test]
fn single_loop_source_and_resistor() {
    let s = solve(circuit(
        vec![Components::VoltageGenerator(5), Components::Resistor(10)],
        vec![(t(0, 1), t(1, 0)), (t(1, 1), t(0, 0))],
    ))
    .unwrap();
    assert!(close(s.source_current(0), -0.5));
    // 5 V drop from terminal 0 to terminal 1 of the resistor.
    assert!(close(s.across(1), -5.0));
    assert!(close(s.across(0), 5.0));
}

#[test]
fn series_and_parallel_resistors() {
    let s = solve(series_parallel()).unwrap();
    assert!(close(s.across(0), 10.0));
    assert!(close(s.across(1).abs(), 70.0 / 13.0));
    assert!(close(s.across(2).abs(), 60.0 / 13.0));
    assert!(close(s.across(3).abs(), 60.0 / 13.0));
    assert!((s.across(1).abs() - 5.3846).abs() < 1e-4);
    assert!((s.across(2).abs() - 4.6154).abs() < 1e-4);
    assert!(close(s.source_current(0), -35.0 / 13.0));
}

#[test]
fn two_resistors_in_parallel() {
    let s = solve(circuit(
        vec![Components::VoltageGenerator(6), Components::Resistor(2), Components::Resistor(3)],
        vec![(t(0, 1), t(1, 0)), (t(1, 1), t(0, 0)), (t(0, 1), t(2, 0)), (t(2, 1), t(0, 0))],
    ))
    .unwrap();
    assert!(close(s.across(1).abs(), 6.0));
    assert!(close(s.across(2).abs(), 6.0));
    assert!(close(s.source_current(0), -5.0));
}

#[test]
fn short_circuited_resistor_in_a_closed_loop() {
    let s = solve(circuit(
        vec![Components::VoltageGenerator(4), Components::Resistor(5), Components::Resistor(2)],
        vec![(t(0, 1), t(1, 0)), (t(1, 1), t(2, 0)), (t(2, 1), t(0, 0)), (t(1, 0), t(1, 1))],
    ))
    .unwrap();
    assert!(close(s.across(1), 0.0));
    assert!(close(s.across(2).abs(), 4.0));
}

#[test]
fn short_circuited_resistor_without_a_loop_is_singular() {
    let r = solve(circuit(
        vec![Components::VoltageGenerator(4), Components::Resistor(5)],
        vec![(t(1, 0), t(1, 1))],
    ));
    assert_eq!(r.err(), Some(SimulationError::SingularSystem));
}

#[test]
fn shorted_source_is_singular() {
    let r = solve(circuit(vec![Components::VoltageGenerator(4)], vec![(t(0, 0), t(0, 1))]));
    assert_eq!(r.err(), Some(SimulationError::SingularSystem));
}

#[test]
fn zero_resistance_is_invalid() {
    let r = Simulator::new(circuit(vec![Components::Resistor(0)], vec![]));
    assert_eq!(r.err(), Some(SimulationError::InvalidComponent(ComponentID(0))));
}

#[test]
fn negative_resistance_is_invalid() {
    let r = Simulator::new(circuit(
        vec![Components::VoltageGenerator(1), Components::Resistor(3), Components::Resistor(-2)],
        vec![],
    ));
    assert_eq!(r.err(), Some(SimulationError::InvalidComponent(ComponentID(2))));
}

#[test]
fn terminal_index_two_is_invalid() {
    let r = Simulator::new(circuit(
        vec![Components::VoltageGenerator(1), Components::Resistor(3)],
        vec![(t(0, 1), t(1, 0)), (t(1, 2), t(0, 0))],
    ));
    assert_eq!(r.err(), Some(SimulationError::InvalidTerminal(t(1, 2))));
}

#[test]
fn component_out_of_range_is_invalid() {
    let r = Simulator::new(circuit(
        vec![Components::VoltageGenerator(1), Components::Resistor(3)],
        vec![(t(0, 1), t(7, 0))],
    ));
    assert_eq!(r.err(), Some(SimulationError::InvalidTerminal(t(7, 0))));
}

#[test]
fn component_error_comes_before_terminal_error() {
    let r = Simulator::new(circuit(vec![Components::Resistor(-1)], vec![(t(0, 5), t(0, 0))]));
    assert_eq!(r.err(), Some(SimulationError::InvalidComponent(ComponentID(0))));
}

#[test]
fn source_voltage_holds_in_solution() {
    let s = solve(series_parallel()).unwrap();
    let e = 10.0;
    assert!((s.across(0) - e).abs() <= TOL * e.abs().max(1.0));
}

#[test]
fn kcl_holds_at_every_non_ground_node() {
    let c = series_parallel();
    let components = c.components.clone();
    let s = solve(c).unwrap();
    for node in 1..s.sim.get_node_count() {
        let mut sum = 0.0;
        for (id, comp) in components.iter().enumerate() {
            for idx in 0..2 {
                if s.sim.get_node_id_from_terminal_id(&t(id, idx)) != node {
                    continue;
                }
                sum += match comp {
                    Components::Resistor(r) => {
                        (s.terminal_voltage(t(id, idx)) - s.terminal_voltage(t(id, 1 - idx)))
                            / *r as f64
                    }
                    Components::VoltageGenerator(_) => {
                        let i = s.source_current(id);
                        if idx == 1 {
                            i
                        } else {
                            -i
                        }
                    }
                };
            }
        }
        assert!(sum.abs() <= TOL);
    }
}

#[test]
fn ground_is_node_of_first_terminal_and_reads_zero() {
    let s = solve(series_parallel()).unwrap();
    assert_eq!(s.sim.get_node_id_from_terminal_id(&t(0, 0)), 0);
    assert_eq!(s.sim.unknown_node_voltage(0), None);
    assert_eq!(s.terminal_voltage(t(0, 0)), 0.0);
}

#[test]
fn unknown_layout_matches_nodes_and_sources() {
    let sim = Simulator::new(circuit(
        vec![
            Components::Resistor(1),
            Components::VoltageGenerator(2),
            Components::Resistor(3),
            Components::VoltageGenerator(4),
        ],
        vec![(t(0, 1), t(1, 0)), (t(1, 1), t(2, 0)), (t(2, 1), t(3, 0)), (t(3, 1), t(0, 0))],
    ))
    .unwrap();
    assert_eq!(sim.get_node_count(), 4);
    assert_eq!(sim.get_unknown_count(), 3 + 2);
    assert_eq!(sim.get_matrix().len(), 5);
    assert_eq!(sim.get_result_vector(), vec![0, 0, 0, 2, 4]);
    assert_eq!(sim.unknown_node_voltage(2), Some(1));
    assert_eq!(sim.get_vgenerator_id_from_component_id(&ComponentID(1)), 0);
    assert_eq!(sim.get_vgenerator_id_from_component_id(&ComponentID(3)), 1);
    assert_eq!(sim.get_component_id_from_vgenerator_id(1), ComponentID(3));
    assert_eq!(sim.unknown_vgenerator_intensity(0), 3);
    assert_eq!(sim.unknown_vgenerator_intensity(1), 4);
}

#[test]
fn loose_terminal_is_a_node_of_its_own() {
    let sim = Simulator::new(circuit(
        vec![Components::VoltageGenerator(1), Components::Resistor(3)],
        vec![(t(0, 1), t(1, 0))],
    ))
    .unwrap();
    assert_eq!(sim.get_node_count(), 3);
    assert_ne!(
        sim.get_node_id_from_terminal_id(&t(0, 0)),
        sim.get_node_id_from_terminal_id(&t(1, 1))
    );
}

#[test]
fn source_row_and_kcl_row_terms() {
    let sim = Simulator::new(circuit(
        vec![Components::VoltageGenerator(5), Components::Resistor(10)],
        vec![(t(0, 1), t(1, 0)), (t(1, 1), t(0, 0))],
    ))
    .unwrap();
    let rows = sim.get_matrix();
    assert_eq!(
        rows[0],
        vec![
            Term { col: 1, positive: true, conductance_of: None },
            Term { col: 0, positive: true, conductance_of: Some(ComponentID(1)) },
        ]
    );
    assert_eq!(rows[1], vec![Term { col: 0, positive: true, conductance_of: None }]);
    assert_eq!(sim.get_result_vector(), vec![0, 5]);
}

#[test]
fn self_loop_terms_cancel() {
    let sim = Simulator::new(circuit(
        vec![Components::VoltageGenerator(4), Components::Resistor(5)],
        vec![(t(1, 0), t(1, 1))],
    ))
    .unwrap();
    let components = [Components::VoltageGenerator(4), Components::Resistor(5)];
    let node = sim.get_node_id_from_terminal_id(&t(1, 0));
    let m = dense(&components, &sim);
    for col in 0..sim.get_unknown_count() {
        assert_eq!(m[(node - 1, col)], 0.0);
    }
}

#[test]
fn duplicate_edge_changes_nothing() {
    let mut with_dup = series_parallel();
    with_dup.terminal_edges.push((t(1, 1), t(2, 0)));
    let a = solve(series_parallel()).unwrap();
    let b = solve(with_dup).unwrap();
    assert_eq!(a.sim.get_node_count(), b.sim.get_node_count());
    for c1 in 0..4 {
        for i1 in 0..2 {
            for c2 in 0..4 {
                for i2 in 0..2 {
                    let same_a = a.sim.get_node_id_from_terminal_id(&t(c1, i1))
                        == a.sim.get_node_id_from_terminal_id(&t(c2, i2));
                    let same_b = b.sim.get_node_id_from_terminal_id(&t(c1, i1))
                        == b.sim.get_node_id_from_terminal_id(&t(c2, i2));
                    assert_eq!(same_a, same_b);
                }
            }
        }
    }
    assert_eq!(a.x.len(), b.x.len());
    for (u, v) in a.x.iter().zip(b.x.iter()) {
        assert!(close(*u, *v));
    }
}

#[test]
fn relabeling_components_keeps_readings() {
    // Components 0..4 of the series circuit, declared as [R3, R1, V0, R2].
    let perm = [2usize, 1, 3, 0];
    let relabeled = circuit(
        vec![
            Components::Resistor(3),
            Components::Resistor(2),
            Components::VoltageGenerator(10),
            Components::Resistor(4),
        ],
        vec![
            (t(2, 1), t(1, 0)),
            (t(1, 1), t(3, 0)),
            (t(3, 1), t(2, 0)),
            (t(1, 1), t(0, 0)),
            (t(0, 1), t(2, 0)),
        ],
    );
    let a = solve(series_parallel()).unwrap();
    let b = solve(relabeled).unwrap();
    for old in 0..4 {
        assert!(close(a.across(old), b.across(perm[old])));
    }
    assert!(close(a.source_current(0), b.source_current(2)));
}

#[test]
fn nodes_are_numbered_by_first_terminal() {
    let sim = Simulator::new(circuit(
        vec![Components::Resistor(1), Components::Resistor(2), Components::VoltageGenerator(3)],
        vec![(t(2, 1), t(1, 1)), (t(0, 1), t(2, 0)), (t(1, 0), t(0, 0))],
    ))
    .unwrap();
    assert_eq!(sim.get_node_count(), 3);
    assert_eq!(sim.get_node_id_from_terminal_id(&t(0, 0)), 0);
    assert_eq!(sim.get_node_id_from_terminal_id(&t(1, 0)), 0);
    assert_eq!(sim.get_node_id_from_terminal_id(&t(0, 1)), 1);
    assert_eq!(sim.get_node_id_from_terminal_id(&t(2, 0)), 1);
    assert_eq!(sim.get_node_id_from_terminal_id(&t(1, 1)), 2);
    assert_eq!(sim.get_node_id_from_terminal_id(&t(2, 1)), 2);
    assert_eq!(
        sim.get_node_intensity(2),
        vec![
            Term { col: 1, positive: true, conductance_of: Some(ComponentID(1)) },
            Term { col: 2, positive: true, conductance_of: None },
        ]
    );
    assert_eq!(
        sim.get_vgenerator_voltage(0),
        vec![
            Term { col: 1, positive: true, conductance_of: None },
            Term { col: 0, positive: false, conductance_of: None },
        ]
    );
}

#[test]
fn no_components_give_an_empty_system() {
    let sim = Simulator::new(circuit(vec![], vec![])).unwrap();
    assert_eq!(sim.get_node_count(), 0);
    assert_eq!(sim.get_unknown_count(), 0);
    assert!(sim.get_matrix().is_empty());
    assert!(sim.get_result_vector().is_empty());
}

#[test]
fn reversed_duplicate_edge_changes_nothing() {
    let mut with_dup = series_parallel();
    with_dup.terminal_edges.push((t(2, 0), t(1, 1)));
    let a = Simulator::new(series_parallel()).unwrap();
    let b = Simulator::new(with_dup).unwrap();
    assert_eq!(a.get_matrix(), b.get_matrix());
    assert_eq!(a.get_result_vector(), b.get_result_vector());
    for c in 0..4 {
        for i in 0..2 {
            assert_eq!(
                a.get_node_id_from_terminal_id(&t(c, i)),
                b.get_node_id_from_terminal_id(&t(c, i))
            );
        }
    }
}
