use dcg::{Dcg, Formula};

#[test]
fn cell_round_trip_values() {
    let mut dcg = Dcg::new();
    for v in [0i64, -7, i64::MAX, i64::MIN] {
        let c = dcg.cell(v);
        assert_eq!(dcg.get(c), v);
    }
}

#[test]
fn set_returns_previous_values_in_turn() {
    let mut dcg = Dcg::new();
    let c = dcg.cell(3);
    assert_eq!(dcg.set(c, 4), 3);
    assert_eq!(dcg.set(c, 9), 4);
    assert_eq!(dcg.set(c, 9), 9);
    assert_eq!(dcg.get(c), 9);
}

#[test]
fn fresh_edges_clean_when_dependencies_clean() {
    let mut dcg = Dcg::new();
    let a = dcg.cell(1);
    let b = dcg.cell(2);
    let t = dcg.thunk(Formula::read(a).plus(b), &[a, b]);
    assert_eq!(dcg.edge_dirty(a, t), Some(false));
    assert_eq!(dcg.edge_dirty(b, t), Some(false));
    assert_eq!(dcg.edge_dirty(b, a), None);
}

#[test]
fn fresh_edge_from_dirty_dependency_starts_dirty() {
    let mut dcg = Dcg::new();
    let a = dcg.cell(1);
    let t = dcg.thunk(Formula::read(a), &[a]);
    dcg.set(a, 5);
    let m = dcg.memo(Formula::read(t), &[t]);
    assert_eq!(dcg.edge_dirty(t, m), Some(true));
    assert_eq!(dcg.get(m), 5);
    assert_eq!(dcg.edge_dirty(t, m), Some(false));
}

#[test]
fn memo_reused_without_mutation() {
    let mut dcg = Dcg::new();
    let a = dcg.cell(20);
    let m = dcg.memo(Formula::read(a).shifted(1), &[a]);
    assert_eq!(dcg.cached(m), None);
    assert_eq!(dcg.get(m), 21);
    assert_eq!(dcg.cached(m), Some(21));
    assert_eq!(dcg.get(m), 21);
    assert_eq!(dcg.get(m), 21);
    assert_eq!(dcg.cached(m), Some(21));
}

#[test]
fn dirtying_reaches_descendants() {
    let mut dcg = Dcg::new();
    let a = dcg.cell(1);
    let b = dcg.thunk(Formula::read(a), &[a]);
    let c = dcg.memo(Formula::read(b).shifted(10), &[b]);
    let other = dcg.cell(100);
    let d = dcg.memo(Formula::read(other), &[other]);
    assert_eq!(dcg.get(c), 11);
    assert_eq!(dcg.get(d), 100);
    assert_eq!(dcg.set(a, 2), 1);
    assert_eq!(dcg.edge_dirty(a, b), Some(true));
    assert_eq!(dcg.edge_dirty(b, c), Some(true));
    assert_eq!(dcg.edge_dirty(other, d), Some(false));
    assert_eq!(dcg.cached(c), Some(11));
    assert_eq!(dcg.get(c), 12);
    assert_eq!(dcg.cached(c), Some(12));
    assert_eq!(dcg.get(d), 100);
}

#[test]
fn recompute_clears_incoming_edges() {
    let mut dcg = Dcg::new();
    let a = dcg.cell(1);
    let b = dcg.cell(2);
    let m = dcg.memo(Formula::read(a).plus(b), &[a, b]);
    assert_eq!(dcg.get(m), 3);
    dcg.set(a, 10);
    dcg.set(b, 20);
    assert_eq!(dcg.edge_dirty(a, m), Some(true));
    assert_eq!(dcg.edge_dirty(b, m), Some(true));
    assert_eq!(dcg.get(m), 30);
    assert_eq!(dcg.edge_dirty(a, m), Some(false));
    assert_eq!(dcg.edge_dirty(b, m), Some(false));
}

#[test]
fn diamond() {
    let mut dcg = Dcg::new();
    let a = dcg.cell(1);
    let t1 = dcg.thunk(Formula::read(a), &[a]);
    let t2 = dcg.thunk(Formula::read(a), &[a]);
    let m = dcg.memo(Formula::read(t1).plus(t2), &[t1, t2]);
    assert_eq!(dcg.get(m), 2);
    assert_eq!(dcg.set(a, 5), 1);
    assert_eq!(dcg.edge_dirty(t1, m), Some(true));
    assert_eq!(dcg.edge_dirty(t2, m), Some(true));
    assert_eq!(dcg.get(m), 10);
    assert_eq!(dcg.edge_dirty(t1, m), Some(false));
    assert_eq!(dcg.edge_dirty(t2, m), Some(false));
}

#[test]
fn lone_memo_evaluated_at_construction() {
    let mut dcg = Dcg::new();
    let m = dcg.lone_memo(Formula::constant(7).shifted(35));
    assert_eq!(dcg.cached(m), Some(42));
    let a = dcg.cell(1);
    dcg.set(a, 2);
    assert_eq!(dcg.get(m), 42);
    assert_eq!(dcg.cached(m), Some(42));
    assert!(dcg.edge_weights().is_empty());
}

#[test]
fn formula_wraps_on_overflow() {
    let mut dcg = Dcg::new();
    let a = dcg.cell(i64::MAX);
    let t = dcg.thunk(Formula::read(a).shifted(1), &[a]);
    assert_eq!(dcg.get(t), i64::MIN);
    let u = dcg.thunk(Formula::read(a).plus(a), &[a]);
    assert_eq!(dcg.get(u), -2);
}

#[test]
fn thunk_recomputes_every_time() {
    let mut dcg = Dcg::new();
    let a = dcg.cell(4);
    let t = dcg.thunk(Formula::read(a).shifted(-1), &[a]);
    assert_eq!(dcg.get(t), 3);
    dcg.set(a, 8);
    assert_eq!(dcg.get(t), 7);
    assert_eq!(dcg.cached(t), None);
}

#[test]
fn edge_weights_follow_edge_order() {
    let mut dcg = Dcg::new();
    let a = dcg.cell(1);
    let b = dcg.cell(1);
    let t = dcg.thunk(Formula::read(a), &[a]);
    let _u = dcg.thunk(Formula::read(b), &[b]);
    let _v = dcg.thunk(Formula::read(t), &[t]);
    dcg.set(a, 3);
    assert_eq!(dcg.edge_weights(), vec![true, false, true]);
}

#[test]
fn contains_edge_only_for_declared_dependencies() {
    let mut dcg = Dcg::new();
    let a = dcg.cell(1);
    let b = dcg.cell(2);
    let t = dcg.thunk(Formula::read(a), &[a]);
    assert!(dcg.contains_edge(a, t));
    assert!(!dcg.contains_edge(b, t));
    assert!(!dcg.contains_edge(t, a));
    assert_eq!(dcg.node_count(), 3);
}
