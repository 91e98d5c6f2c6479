use driver_simulator::register::Array;
use driver_simulator::register::ArrayWrite;

#[test]
fn fresh_array_is_zeroed_and_empty() {
    let a = Array::new_with_ports(1, 1);
    assert_eq!(a.read(0), 0);
    assert_eq!(a.payload.len(), 1);
    assert_eq!(a.writes.len(), 0);
}

#[test]
fn staged_write_invisible_before_its_stamp() {
    let mut a = Array::new_with_ports(1, 1);
    a.write(0, ArrayWrite::new(150, 0, 7));
    assert_eq!(a.read(0), 0);
    a.tick(100);
    assert_eq!(a.read(0), 0);
    assert_eq!(a.writes.len(), 1);
    a.tick(149);
    assert_eq!(a.read(0), 0);
    assert_eq!(a.writes.len(), 1);
}

#[test]
fn staged_write_visible_at_its_stamp() {
    let mut a = Array::new_with_ports(1, 1);
    a.write(0, ArrayWrite::new(150, 0, 7));
    a.tick(150);
    assert_eq!(a.read(0), 7);
    assert_eq!(a.writes.len(), 0);
}

#[test]
fn staged_write_visible_after_its_stamp() {
    let mut a = Array::new_with_ports(1, 1);
    a.write(0, ArrayWrite::new(150, 0, 9));
    a.tick(10_000);
    assert_eq!(a.read(0), 9);
}

#[test]
fn greatest_stamp_wins_regardless_of_staging_order() {
    // A write staged later but scheduled earlier loses to the
    // greater-stamped write staged before it.
    let mut a = Array::new_with_ports(1, 1);
    a.write(0, ArrayWrite::new(200, 0, 1));
    a.write(0, ArrayWrite::new(150, 0, 2));
    a.tick(300);
    assert_eq!(a.read(0), 1);
    assert_eq!(a.writes.len(), 0);
}

#[test]
fn commit_order_is_by_stamp_across_tick_granularity() {
    // Ticking twice commits the earlier-stamped write first and lets the
    // later-stamped one overwrite it, agreeing with a single coarse tick.
    let mut a = Array::new_with_ports(1, 1);
    a.write(0, ArrayWrite::new(200, 0, 1));
    a.write(0, ArrayWrite::new(150, 0, 2));
    a.tick(150);
    assert_eq!(a.read(0), 2);
    assert_eq!(a.writes.len(), 1);
    a.tick(300);
    assert_eq!(a.read(0), 1);
    assert_eq!(a.writes.len(), 0);
}

#[test]
fn later_write_wins_on_tie() {
    let mut a = Array::new_with_ports(1, 1);
    a.write(0, ArrayWrite::new(150, 0, 1));
    a.write(0, ArrayWrite::new(150, 0, 2));
    a.tick(150);
    assert_eq!(a.read(0), 2);
    assert_eq!(a.writes.len(), 0);
}

#[test]
fn only_due_writes_commit() {
    let mut a = Array::new_with_ports(1, 1);
    a.write(0, ArrayWrite::new(100, 0, 1));
    a.write(0, ArrayWrite::new(200, 0, 2));
    a.tick(100);
    assert_eq!(a.read(0), 1);
    assert_eq!(a.writes.len(), 1);
    assert_eq!(a.writes[0].stamp, 200);
    a.tick(200);
    assert_eq!(a.read(0), 2);
    assert_eq!(a.writes.len(), 0);
}
