use bf_executor::Machine;

#[test]
fn new_machine_is_blank() {
    let m = Machine::new();
    assert_eq!(m.pointer(), 0);
    assert_eq!(m.get_value(), 0);
    assert_eq!(m.cell(0), 0);
    assert_eq!(m.cell(1), 0);
    assert_eq!(m.cell(1_000_000), 0);
    assert!(m.output().is_empty());
}

#[test]
fn increment_adds_one() {
    let mut m = Machine::new();
    m.inc();
    assert_eq!(m.get_value(), 1);
    m.inc();
    assert_eq!(m.get_value(), 2);
}

#[test]
fn increment_wraps_from_255_to_0() {
    let mut m = Machine::new();
    for _ in 0..255 {
        m.inc();
    }
    assert_eq!(m.get_value(), 255);
    m.inc();
    assert_eq!(m.get_value(), 0);
}

#[test]
fn decrement_wraps_from_0_to_255() {
    let mut m = Machine::new();
    m.dec();
    assert_eq!(m.get_value(), 255);
    m.dec();
    assert_eq!(m.get_value(), 254);
}

#[test]
fn increment_undoes_decrement() {
    let mut m = Machine::new();
    m.dec();
    m.inc();
    assert_eq!(m.get_value(), 0);
}

#[test]
fn pointer_moves_up_and_down() {
    let mut m = Machine::new();
    m.next();
    m.next();
    assert_eq!(m.pointer(), 2);
    m.prev();
    assert_eq!(m.pointer(), 1);
}

#[test]
fn pointer_stays_at_zero() {
    let mut m = Machine::new();
    m.prev();
    assert_eq!(m.pointer(), 0);
    m.inc();
    m.prev();
    assert_eq!(m.pointer(), 0);
    assert_eq!(m.get_value(), 1);
}

#[test]
fn cells_keep_their_values_when_the_pointer_moves() {
    let mut m = Machine::new();
    m.inc();
    m.next();
    m.inc();
    m.inc();
    m.next();
    m.dec();
    assert_eq!(m.cell(0), 1);
    assert_eq!(m.cell(1), 2);
    assert_eq!(m.cell(2), 255);
    assert_eq!(m.cell(3), 0);
    m.prev();
    assert_eq!(m.get_value(), 2);
}

#[test]
fn input_is_read_in_order() {
    let mut m = Machine::with_input(vec![7, 9]);
    m.get();
    assert_eq!(m.get_value(), 7);
    m.next();
    m.get();
    assert_eq!(m.get_value(), 9);
    assert_eq!(m.cell(0), 7);
}

#[test]
fn end_of_input_leaves_the_cell() {
    let mut m = Machine::with_input(vec![7]);
    m.get();
    m.get();
    assert_eq!(m.get_value(), 7);
    let mut m = Machine::new();
    m.inc();
    m.get();
    assert_eq!(m.get_value(), 1);
}

#[test]
fn input_overwrites_the_cell() {
    let mut m = Machine::with_input(vec![0]);
    m.inc();
    m.get();
    assert_eq!(m.get_value(), 0);
}

#[test]
fn output_collects_one_byte_per_put() {
    let mut m = Machine::new();
    m.put();
    m.inc();
    m.put();
    m.put();
    assert_eq!(m.output(), &vec![0, 1, 1]);
    assert_eq!(m.get_value(), 1);
}
