use glicol_engine::engine::{Effect, Engine, EngineError, OUTPUT};
use glicol_engine::plan::{edit_from_script, plan_chain, DiffStep};
use glicol_engine::program::{Chain, Program};

fn s(x: &str) -> String {
    x.to_string()
}

fn chain(name: &str, nodes: &[&str], params: &[&str]) -> Chain {
    Chain {
        name: s(name),
        nodes: nodes.iter().map(|n| s(n)).collect(),
        params: params.iter().map(|p| s(p)).collect(),
        refs: vec![],
    }
}

fn program(chains: Vec<Chain>) -> Program {
    Program { chains }
}

fn program_a() -> Program {
    program(vec![chain("a", &["sin", "mul"], &["440", "0.5"])])
}

fn program_b() -> Program {
    program(vec![chain("a", &["sin", "mul", "lpf"], &["880", "0.5", "2000"])])
}

#[test]
fn first_program_creates_every_node() {
    let mut e = Engine::new();
    let fx = e.update(program_a()).unwrap();
    assert_eq!(
        fx,
        vec![
            Effect::Create { handle: 1, node: s("sin"), params: s("440") },
            Effect::Create { handle: 2, node: s("mul"), params: s("0.5") },
        ]
    );
    assert_eq!(e.index_info(&s("a")), Some(&vec![1u64, 2]));
    assert_eq!(e.edges, vec![(1, 2), (2, OUTPUT)]);
}

#[test]
fn edit_updates_and_appends_keeping_instances() {
    let mut e = Engine::new();
    e.update(program_a()).unwrap();
    let plan = e.parse(&program_b()).unwrap();
    assert_eq!(plan.edits.len(), 1);
    assert_eq!(plan.edits[0].origin, vec![Some(0), Some(1), None]);
    assert!(plan.edits[0].removed.is_empty());
    assert_eq!(plan.edits[0].updates, vec![(0, 0)]);
    assert!(plan.deleted.is_empty());
    let fx = e.update(program_b()).unwrap();
    assert_eq!(
        fx,
        vec![
            Effect::Create { handle: 5, node: s("lpf"), params: s("2000") },
            Effect::Send { handle: 1, params: s("880") },
        ]
    );
    let idx = e.index_info(&s("a")).unwrap().clone();
    assert_eq!(idx.len(), 3);
    assert_eq!(idx[0], 1);
    assert_eq!(idx[1], 2);
    assert_eq!(e.edges, vec![(1, 2), (2, 5), (5, OUTPUT)]);
}

#[test]
fn removing_a_chain_drops_its_nodes() {
    let mut e = Engine::new();
    e.update(program_a()).unwrap();
    let plan = e.parse(&program(vec![])).unwrap();
    assert_eq!(plan.deleted, vec![0]);
    assert!(plan.edits.is_empty());
    let fx = e.update(program(vec![])).unwrap();
    assert_eq!(fx, vec![Effect::Drop(1), Effect::Drop(2)]);
    assert_eq!(e.index_info(&s("a")), None);
    assert!(e.edges.is_empty());
}

#[test]
fn resubmitting_the_same_program_changes_nothing() {
    let mut e = Engine::new();
    e.update(program_b()).unwrap();
    let index = e.index.clone();
    let edges = e.edges.clone();
    let plan = e.parse(&program_b()).unwrap();
    assert!(plan.deleted.is_empty());
    assert!(plan.edits[0].removed.is_empty());
    assert!(plan.edits[0].updates.is_empty());
    assert!(plan.edits[0].origin.iter().all(|o| o.is_some()));
    let fx = e.update(program_b()).unwrap();
    assert!(fx.is_empty());
    assert_eq!(e.index, index);
    assert_eq!(e.edges, edges);
}

#[test]
fn parameter_change_keeps_the_instance() {
    let mut e = Engine::new();
    e.update(program(vec![chain("a", &["saw", "lpf"], &["100", "300"])])).unwrap();
    let before = e.index_info(&s("a")).unwrap().clone();
    let fx = e
        .update(program(vec![chain("a", &["saw", "lpf"], &["220", "900"])]))
        .unwrap();
    assert_eq!(e.index_info(&s("a")).unwrap(), &before);
    assert_eq!(
        fx,
        vec![
            Effect::Send { handle: before[0], params: s("220") },
            Effect::Send { handle: before[1], params: s("900") },
        ]
    );
}

#[test]
fn unresolved_reference_is_rejected_atomically() {
    let mut e = Engine::new();
    e.update(program_a()).unwrap();
    let index = e.index.clone();
    let edges = e.edges.clone();
    let next = e.next_handle;
    let mut c = chain("b", &["mul"], &["~mod"]);
    c.refs = vec![s("~mod")];
    let r = e.update(program(vec![c]));
    assert_eq!(r, Err(EngineError::UnresolvedReference));
    assert_eq!(e.index, index);
    assert_eq!(e.edges, edges);
    assert_eq!(e.next_handle, next);
    assert_eq!(e.index_info(&s("a")), Some(&vec![1u64, 2]));
}

#[test]
fn resolved_reference_is_accepted() {
    let mut e = Engine::new();
    let mut c = chain("b", &["mul"], &["~mod"]);
    c.refs = vec![s("~mod")];
    let m = chain("~mod", &["sin"], &["0.2"]);
    let fx = e.update(program(vec![c, m])).unwrap();
    assert_eq!(fx.len(), 2);
    assert_eq!(e.edges, vec![(1, OUTPUT), (2, OUTPUT)]);
}

#[test]
fn malformed_programs_are_rejected() {
    let mut e = Engine::new();
    let dup = program(vec![chain("a", &["sin"], &["1"]), chain("a", &["saw"], &["2"])]);
    assert_eq!(e.update(dup), Err(EngineError::Malformed));
    let short = program(vec![chain("a", &["sin", "mul"], &["1"])]);
    assert_eq!(e.update(short), Err(EngineError::Malformed));
    assert!(e.index.is_empty());
}

#[test]
fn exhausted_handles_are_reported() {
    let mut e = Engine::new();
    e.next_handle = u64::MAX;
    let r = e.update(program_a());
    assert_eq!(r, Err(EngineError::HandlesExhausted));
    assert!(e.index.is_empty());
}

#[test]
fn removal_in_the_middle_shifts_later_slots() {
    let mut e = Engine::new();
    e.update(program(vec![chain("a", &["x", "y", "z"], &["1", "2", "3"])])).unwrap();
    let fx = e.update(program(vec![chain("a", &["y", "z"], &["2", "3"])])).unwrap();
    assert_eq!(fx, vec![Effect::Drop(1)]);
    assert_eq!(e.index_info(&s("a")), Some(&vec![2u64, 3]));
    assert_eq!(e.edges, vec![(2, 3), (3, OUTPUT)]);
}

#[test]
fn connection_shapes_by_length() {
    let mut e = Engine::new();
    let p = program(vec![
        chain("e", &[], &[]),
        chain("one", &["sin"], &["1"]),
        chain("two", &["sin", "mul"], &["1", "2"]),
        chain("three", &["sin", "mul", "lpf"], &["1", "2", "3"]),
    ]);
    e.update(p).unwrap();
    assert_eq!(
        e.edges,
        vec![(1, OUTPUT), (2, 3), (3, OUTPUT), (4, 5), (5, 6), (6, OUTPUT)]
    );
}

#[test]
fn send_msg_finds_or_reports_not_found() {
    let mut e = Engine::new();
    e.update(program_a()).unwrap();
    assert_eq!(
        e.send_msg(&s("a"), 1, s("0.9")),
        Ok(Effect::Send { handle: 2, params: s("0.9") })
    );
    assert_eq!(e.send_msg(&s("a"), 2, s("0.9")), Err(EngineError::NotFound));
    assert_eq!(e.send_msg(&s("zz"), 0, s("0.9")), Err(EngineError::NotFound));
}

#[test]
fn lcs_edit_inserts_in_the_middle() {
    let old = chain("a", &["sin", "mul"], &["1", "2"]);
    let new = chain("a", &["sin", "lpf", "mul"], &["1", "5", "3"]);
    let e = plan_chain(0, 0, &old, &new).unwrap();
    assert_eq!(e.origin, vec![Some(0), None, Some(1)]);
    assert!(e.removed.is_empty());
    assert_eq!(e.updates, vec![(1, 2)]);
}

#[test]
fn lcs_edit_replaces_a_node() {
    let old = chain("a", &["sin", "mul"], &["1", "2"]);
    let new = chain("a", &["saw", "mul"], &["1", "2"]);
    let e = plan_chain(0, 0, &old, &new).unwrap();
    assert_eq!(e.origin, vec![None, Some(1)]);
    assert_eq!(e.removed, vec![0]);
    assert!(e.updates.is_empty());
}

#[test]
fn script_that_is_no_alignment_is_refused() {
    let old = chain("a", &["sin", "mul"], &["1", "2"]);
    let new = chain("a", &["sin", "mul"], &["1", "2"]);
    let bad = vec![DiffStep::Common(Some(0), Some(0))];
    assert!(edit_from_script(0, 0, &old, &new, &bad).is_none());
    let swapped = vec![DiffStep::Common(Some(1), Some(0)), DiffStep::Common(Some(0), Some(1))];
    assert!(edit_from_script(0, 0, &old, &new, &swapped).is_none());
    let good = vec![
        DiffStep::Removed(Some(0)),
        DiffStep::Added(Some(0)),
        DiffStep::Common(Some(1), Some(1)),
    ];
    let e = edit_from_script(0, 0, &old, &new, &good).unwrap();
    assert_eq!(e.origin, vec![None, Some(1)]);
    assert_eq!(e.removed, vec![0]);
}
