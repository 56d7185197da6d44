use clonable::bus::{Bus, BusReceiver, TryRecvError};

#[test]
fn new_receiver_has_nothing_to_read() {
    let mut bus: Bus<u32> = Bus::default();
    let rx = bus.add_rx();
    assert_eq!(rx.try_recv(&mut bus), Err(TryRecvError::Empty));
    assert_eq!(rx.try_recv(&mut bus), Err(TryRecvError::Empty));
}

#[test]
fn broadcast_reaches_every_receiver_in_order() {
    let mut bus: Bus<u32> = Bus::default();
    let a = bus.add_rx();
    let b = bus.add_rx();
    let c = bus.add_rx();
    assert!(bus.broadcast(10).is_ok());
    assert!(bus.broadcast(20).is_ok());
    assert!(bus.broadcast(30).is_ok());
    for rx in [&a, &b, &c] {
        assert_eq!(rx.try_recv(&mut bus), Ok(10));
        assert_eq!(rx.try_recv(&mut bus), Ok(20));
        assert_eq!(rx.try_recv(&mut bus), Ok(30));
        assert_eq!(rx.try_recv(&mut bus), Err(TryRecvError::Empty));
    }
}

#[test]
fn broadcast_on_an_empty_bus_is_ok() {
    let mut bus: Bus<u32> = Bus::default();
    assert!(bus.broadcast(1).is_ok());
    let late = bus.add_rx();
    assert_eq!(late.try_recv(&mut bus), Err(TryRecvError::Empty));
}

#[test]
fn receiver_added_later_sees_only_later_values() {
    let mut bus: Bus<u32> = Bus::default();
    let early = bus.add_rx();
    assert!(bus.broadcast(1).is_ok());
    let late = bus.add_rx();
    assert!(bus.broadcast(2).is_ok());
    assert_eq!(early.try_recv(&mut bus), Ok(1));
    assert_eq!(early.try_recv(&mut bus), Ok(2));
    assert_eq!(late.try_recv(&mut bus), Ok(2));
    assert_eq!(late.try_recv(&mut bus), Err(TryRecvError::Empty));
}

#[test]
fn polls_of_one_receiver_leave_the_others_alone() {
    let mut bus: Bus<u32> = Bus::default();
    let a = bus.add_rx();
    let b = bus.add_rx();
    assert!(bus.broadcast(5).is_ok());
    assert_eq!(a.try_recv(&mut bus), Ok(5));
    assert_eq!(a.try_recv(&mut bus), Err(TryRecvError::Empty));
    assert!(bus.broadcast(6).is_ok());
    assert_eq!(b.try_recv(&mut bus), Ok(5));
    assert_eq!(b.try_recv(&mut bus), Ok(6));
    assert_eq!(a.try_recv(&mut bus), Ok(6));
}

#[test]
fn branch_off_copies_the_unread_backlog() {
    let mut bus: Bus<String> = Bus::default();
    let a = bus.add_rx();
    for word in ["one", "two", "three"] {
        assert!(bus.broadcast(word.to_string()).is_ok());
    }
    assert_eq!(a.try_recv(&mut bus), Ok("one".to_string()));
    let b = bus.branch_off(&a);
    assert_eq!(b.try_recv(&mut bus), Ok("two".to_string()));
    assert_eq!(b.try_recv(&mut bus), Ok("three".to_string()));
    assert_eq!(b.try_recv(&mut bus), Err(TryRecvError::Empty));
    assert_eq!(a.try_recv(&mut bus), Ok("two".to_string()));
    assert_eq!(a.try_recv(&mut bus), Ok("three".to_string()));
    assert_eq!(a.try_recv(&mut bus), Err(TryRecvError::Empty));
}

#[test]
fn branch_off_of_an_empty_backlog_is_empty() {
    let mut bus: Bus<u32> = Bus::default();
    let a = bus.add_rx();
    assert!(bus.broadcast(1).is_ok());
    assert_eq!(a.try_recv(&mut bus), Ok(1));
    let b = bus.branch_off(&a);
    assert_eq!(b.try_recv(&mut bus), Err(TryRecvError::Empty));
    assert!(bus.broadcast(2).is_ok());
    assert_eq!(b.try_recv(&mut bus), Ok(2));
    assert_eq!(a.try_recv(&mut bus), Ok(2));
}

#[test]
fn branch_of_a_branch_reads_the_same() {
    let mut bus: Bus<u32> = Bus::default();
    let a = bus.add_rx();
    assert!(bus.broadcast(1).is_ok());
    assert!(bus.broadcast(2).is_ok());
    let b = bus.branch_off(&a);
    assert_eq!(b.try_recv(&mut bus), Ok(1));
    let c = bus.branch_off(&b);
    assert!(bus.broadcast(3).is_ok());
    assert_eq!(c.try_recv(&mut bus), Ok(2));
    assert_eq!(c.try_recv(&mut bus), Ok(3));
    assert_eq!(c.try_recv(&mut bus), Err(TryRecvError::Empty));
    assert_eq!(b.try_recv(&mut bus), Ok(2));
    assert_eq!(b.try_recv(&mut bus), Ok(3));
    assert_eq!(a.try_recv(&mut bus), Ok(1));
    assert_eq!(a.try_recv(&mut bus), Ok(2));
    assert_eq!(a.try_recv(&mut bus), Ok(3));
}

#[test]
fn broadcast_reports_each_closed_receiver_and_goes_on() {
    let mut bus: Bus<u32> = Bus::default();
    let a = bus.add_rx();
    let b = bus.add_rx();
    let c = bus.add_rx();
    let d = bus.add_rx();
    a.close(&mut bus);
    c.close(&mut bus);
    let outcome = bus.broadcast(77);
    match outcome {
        Ok(()) => panic!("two receivers were closed"),
        Err(errors) => {
            assert_eq!(errors.len(), 2);
            assert_eq!(errors[0].0, 77);
            assert_eq!(errors[1].0, 77);
        }
    }
    assert_eq!(b.try_recv(&mut bus), Ok(77));
    assert_eq!(d.try_recv(&mut bus), Ok(77));
    assert_eq!(b.try_recv(&mut bus), Err(TryRecvError::Empty));
}

#[test]
fn broadcast_to_a_closed_last_receiver_reports_it() {
    let mut bus: Bus<String> = Bus::default();
    let a = bus.add_rx();
    let b = bus.add_rx();
    b.close(&mut bus);
    match bus.broadcast("x".to_string()) {
        Ok(()) => panic!("the last receiver was closed"),
        Err(errors) => {
            assert_eq!(errors.len(), 1);
            assert_eq!(errors[0].0, "x");
        }
    }
    assert_eq!(a.try_recv(&mut bus), Ok("x".to_string()));
}

#[test]
fn broadcast_to_only_closed_receivers_reports_all() {
    let mut bus: Bus<u32> = Bus::default();
    let a = bus.add_rx();
    a.close(&mut bus);
    match bus.broadcast(3) {
        Ok(()) => panic!("the only receiver was closed"),
        Err(errors) => assert_eq!(errors.len(), 1),
    }
}

#[test]
fn closing_drops_the_backlog_and_spares_the_others() {
    let mut bus: Bus<u32> = Bus::default();
    let a = bus.add_rx();
    let b = bus.add_rx();
    assert!(bus.broadcast(1).is_ok());
    assert!(bus.broadcast(2).is_ok());
    a.close(&mut bus);
    assert_eq!(b.try_recv(&mut bus), Ok(1));
    assert!(bus.broadcast(3).is_err());
    assert_eq!(b.try_recv(&mut bus), Ok(2));
    assert_eq!(b.try_recv(&mut bus), Ok(3));
    assert_eq!(b.try_recv(&mut bus), Err(TryRecvError::Empty));
}

#[test]
fn receiver_of_another_bus_is_disconnected() {
    let mut one: Bus<u32> = Bus::default();
    let mut other: Bus<u32> = Bus::default();
    let rx = one.add_rx();
    assert!(one.broadcast(1).is_ok());
    assert_eq!(rx.try_recv(&mut other), Err(TryRecvError::Disconnected));
    assert!(!other.is_registered(&rx));
    assert!(one.is_registered(&rx));
    assert_eq!(rx.try_recv(&mut one), Ok(1));
}

#[test]
fn receiver_is_disconnected_where_its_identifier_was_closed() {
    let mut one: Bus<u32> = Bus::default();
    let mut other: Bus<u32> = Bus::default();
    let rx = one.add_rx();
    let twin = other.add_rx();
    assert!(other.broadcast(9).is_ok());
    twin.close(&mut other);
    assert!(other.is_registered(&rx));
    assert_eq!(rx.try_recv(&mut other), Err(TryRecvError::Disconnected));
}

#[test]
fn fresh_bus_has_room() {
    let mut bus: Bus<u8> = Bus::default();
    assert!(bus.has_room());
    let _rx: BusReceiver<u8> = bus.add_rx();
    assert!(bus.has_room());
    bus.well_formed();
}

#[derive(Debug, PartialEq)]
struct Marked {
    value: u32,
    clones: u32,
}

impl Clone for Marked {
    fn clone(&self) -> Self {
        Marked { value: self.value, clones: self.clones + 1 }
    }
}

#[test]
fn broadcast_clones_for_all_but_the_last_receiver() {
    let mut bus: Bus<Marked> = Bus::default();
    let a = bus.add_rx();
    let b = bus.add_rx();
    let c = bus.add_rx();
    assert!(bus.broadcast(Marked { value: 4, clones: 0 }).is_ok());
    assert_eq!(a.try_recv(&mut bus), Ok(Marked { value: 4, clones: 1 }));
    assert_eq!(b.try_recv(&mut bus), Ok(Marked { value: 4, clones: 1 }));
    assert_eq!(c.try_recv(&mut bus), Ok(Marked { value: 4, clones: 0 }));
}

#[test]
fn branch_off_clones_the_backlog_and_leaves_the_source_as_it_was() {
    let mut bus: Bus<Marked> = Bus::default();
    let a = bus.add_rx();
    assert!(bus.broadcast(Marked { value: 1, clones: 0 }).is_ok());
    assert!(bus.broadcast(Marked { value: 2, clones: 0 }).is_ok());
    let b = bus.branch_off(&a);
    assert_eq!(a.try_recv(&mut bus), Ok(Marked { value: 1, clones: 0 }));
    assert_eq!(a.try_recv(&mut bus), Ok(Marked { value: 2, clones: 0 }));
    assert_eq!(b.try_recv(&mut bus), Ok(Marked { value: 1, clones: 1 }));
    assert_eq!(b.try_recv(&mut bus), Ok(Marked { value: 2, clones: 1 }));
}

#[test]
fn errors_hold_what_could_not_be_delivered() {
    let mut bus: Bus<Marked> = Bus::default();
    let a = bus.add_rx();
    let b = bus.add_rx();
    a.close(&mut bus);
    match bus.broadcast(Marked { value: 6, clones: 0 }) {
        Ok(()) => panic!("a receiver was closed"),
        Err(errors) => {
            assert_eq!(errors.len(), 1);
            assert_eq!(errors[0].0.value, 6);
        }
    }
    assert_eq!(b.try_recv(&mut bus), Ok(Marked { value: 6, clones: 0 }));
}
