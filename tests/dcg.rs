use dcg::{Dcg, Formula};

#[test]
fn create_cell() {
    let mut dcg = Dcg::new();

    let a = dcg.cell(1);

    assert_eq!(dcg.node_count(), 1);

    assert_eq!(dcg.get(a), 1);
}

#[test]
fn create_thunk() {
    let mut dcg = Dcg::new();
    let a = dcg.cell(1);

    let thunk = dcg.thunk(Formula::read(a), &[a]);

    assert_eq!(dcg.node_count(), 2);
    assert!(dcg.contains_edge(a, thunk));

    assert!(dcg.edge_weights().iter().all(|weight| !*weight));

    assert_eq!(dcg.get(thunk), 1);
}

#[test]
fn create_memo() {
    let mut dcg = Dcg::new();
    let a = dcg.cell(1);

    let memo = dcg.memo(Formula::read(a), &[a]);

    assert_eq!(dcg.node_count(), 2);
    assert!(dcg.contains_edge(a, memo));

    assert!(dcg.edge_weights().iter().all(|weight| !*weight));

    assert_eq!(dcg.get(memo), 1);
    assert_eq!(dcg.cached(memo), Some(1));
}

#[test]
fn create_lone_thunk() {
    let mut dcg = Dcg::new();
    let thunk = dcg.lone_thunk(Formula::constant(42));

    assert_eq!(dcg.node_count(), 1);

    assert_eq!(dcg.get(thunk), 42);
}

#[test]
fn create_lone_memo() {
    let mut dcg = Dcg::new();
    let memo = dcg.lone_memo(Formula::constant(42));

    assert_eq!(dcg.node_count(), 1);

    assert_eq!(dcg.get(memo), 42);
}

#[test]
fn thunk_nested() {
    let mut dcg = Dcg::new();

    let a = dcg.cell(1);

    let thunk1 = dcg.thunk(Formula::read(a), &[a]);
    let thunk2 = dcg.thunk(Formula::read(a), &[a]);

    let thunk3 = dcg.thunk(Formula::read(thunk1).plus(thunk2), &[thunk1, thunk2]);

    assert_eq!(dcg.node_count(), 4);

    assert!(dcg.contains_edge(a, thunk1));
    assert!(dcg.contains_edge(a, thunk2));
    assert!(dcg.contains_edge(thunk1, thunk3));
    assert!(dcg.contains_edge(thunk2, thunk3));

    assert!(dcg.edge_weights().iter().all(|weight| !*weight));

    assert_eq!(dcg.get(thunk1), 1);
    assert_eq!(dcg.get(thunk2), 1);
    assert_eq!(dcg.get(thunk3), 2);
}

#[test]
fn dirtying_phase() {
    let mut dcg = Dcg::new();

    let a = dcg.cell(1);

    let thunk = dcg.thunk(Formula::read(a), &[a]);

    assert_eq!(dcg.get(thunk), 1);

    assert_eq!(dcg.set(a, 2), 1);

    assert_eq!(dcg.edge_dirty(a, thunk), Some(true));

    assert_eq!(dcg.get(thunk), 2);
}
