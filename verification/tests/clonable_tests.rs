use clonable::clonable_iterator::{Clonable, ClonableIteratorOwner};
use clonable::IterExt;

fn drain<I: Iterator>(
    handle: &mut Clonable<I>,
    owner: &mut ClonableIteratorOwner<I>,
) -> Vec<I::Item>
where
    I::Item: Clone,
{
    let mut out = Vec::new();
    while let Some(item) = handle.next(owner) {
        out.push(item);
    }
    out
}

struct Counted {
    left: u32,
    asked: std::rc::Rc<std::cell::Cell<u32>>,
}

impl Iterator for Counted {
    type Item = u32;

    fn next(&mut self) -> Option<u32> {
        self.asked.set(self.asked.get() + 1);
        if self.left == 0 {
            None
        } else {
            self.left -= 1;
            Some(self.left)
        }
    }
}

#[test]
fn one_two_three_with_a_fork_after_the_first() {
    let (mut owner, mut h1) = vec![1, 2, 3].into_iter().clonable();
    assert_eq!(h1.next(&mut owner), Some(1));
    let mut h2 = h1.fork(&mut owner);
    assert_eq!(h1.next(&mut owner), Some(2));
    assert_eq!(h2.next(&mut owner), Some(2));
    assert_eq!(h1.next(&mut owner), Some(3));
    assert_eq!(h2.next(&mut owner), Some(3));
    assert_eq!(h1.next(&mut owner), None);
    assert_eq!(h2.next(&mut owner), None);
}

#[test]
fn first_handle_reads_all_and_then_nothing() {
    for n in [0u32, 1, 2, 7] {
        let (mut owner, mut handle) = Clonable::new(0..n);
        for expected in 0..n {
            assert_eq!(handle.next(&mut owner), Some(expected));
        }
        assert_eq!(handle.next(&mut owner), None);
        assert_eq!(handle.next(&mut owner), None);
        assert_eq!(handle.next(&mut owner), None);
    }
}

#[test]
fn iterator_is_asked_once_for_each_value_and_once_for_each_miss() {
    let asked = std::rc::Rc::new(std::cell::Cell::new(0));
    let (mut owner, mut handle) = Clonable::new(Counted { left: 3, asked: asked.clone() });
    assert_eq!(handle.next(&mut owner), Some(2));
    assert_eq!(asked.get(), 1);
    assert_eq!(handle.next(&mut owner), Some(1));
    assert_eq!(handle.next(&mut owner), Some(0));
    assert_eq!(asked.get(), 3);
    assert_eq!(handle.next(&mut owner), None);
    assert_eq!(asked.get(), 4);
    assert_eq!(handle.next(&mut owner), None);
    assert_eq!(asked.get(), 5);
}

#[test]
fn backlog_is_read_without_asking_the_iterator() {
    let asked = std::rc::Rc::new(std::cell::Cell::new(0));
    let (mut owner, mut h1) = Clonable::new(Counted { left: 2, asked: asked.clone() });
    let mut h2 = h1.fork(&mut owner);
    assert_eq!(h1.next(&mut owner), Some(1));
    assert_eq!(h1.next(&mut owner), Some(0));
    assert_eq!(asked.get(), 2);
    assert_eq!(h2.next(&mut owner), Some(1));
    assert_eq!(h2.next(&mut owner), Some(0));
    assert_eq!(asked.get(), 2);
    assert_eq!(h2.next(&mut owner), None);
    assert_eq!(asked.get(), 3);
}

#[test]
fn fork_before_reading_gives_two_full_copies() {
    let words = vec!["a".to_string(), "b".to_string(), "c".to_string(), "d".to_string()];
    let (mut owner, mut h1) = words.clone().into_iter().clonable();
    let mut h2 = h1.fork(&mut owner);
    assert_eq!(drain(&mut h1, &mut owner), words);
    assert_eq!(drain(&mut h2, &mut owner), words);
}

#[test]
fn fork_before_reading_drained_in_the_other_order() {
    let (mut owner, mut h1) = Clonable::new(10..15);
    let mut h2 = h1.fork(&mut owner);
    assert_eq!(drain(&mut h2, &mut owner), vec![10, 11, 12, 13, 14]);
    assert_eq!(drain(&mut h1, &mut owner), vec![10, 11, 12, 13, 14]);
}

#[test]
fn fork_after_reading_sees_only_the_rest() {
    for k in 0..=6usize {
        let (mut owner, mut h1) = Clonable::new(0..6usize);
        for expected in 0..k {
            assert_eq!(h1.next(&mut owner), Some(expected));
        }
        let mut h2 = h1.fork(&mut owner);
        let rest: Vec<usize> = (k..6).collect();
        assert_eq!(drain(&mut h2, &mut owner), rest);
        assert_eq!(drain(&mut h1, &mut owner), rest);
    }
}

#[test]
fn fork_with_a_backlog_matches_under_interleaving() {
    let (mut owner, mut ahead) = Clonable::new(0..8u32);
    let mut behind = ahead.fork(&mut owner);
    for expected in 0..5 {
        assert_eq!(ahead.next(&mut owner), Some(expected));
    }
    assert_eq!(behind.next(&mut owner), Some(0));
    let mut fork = behind.fork(&mut owner);
    assert_eq!(fork.next(&mut owner), Some(1));
    assert_eq!(behind.next(&mut owner), Some(1));
    assert_eq!(behind.next(&mut owner), Some(2));
    assert_eq!(ahead.next(&mut owner), Some(5));
    assert_eq!(fork.next(&mut owner), Some(2));
    assert_eq!(fork.next(&mut owner), Some(3));
    assert_eq!(behind.next(&mut owner), Some(3));
    assert_eq!(fork.next(&mut owner), Some(4));
    assert_eq!(behind.next(&mut owner), Some(4));
    assert_eq!(drain(&mut fork, &mut owner), vec![5, 6, 7]);
    assert_eq!(drain(&mut behind, &mut owner), vec![5, 6, 7]);
    assert_eq!(drain(&mut ahead, &mut owner), vec![6, 7]);
}

#[test]
fn closing_an_undrained_fork_leaves_the_others_reading() {
    let (mut owner, mut h1) = Clonable::new(0..5u32);
    let h2 = h1.fork(&mut owner);
    let mut h3 = h1.fork(&mut owner);
    assert_eq!(h1.next(&mut owner), Some(0));
    assert_eq!(h1.next(&mut owner), Some(1));
    h2.close(&mut owner);
    assert_eq!(h1.next(&mut owner), Some(2));
    assert_eq!(h3.next(&mut owner), Some(0));
    assert_eq!(drain(&mut h1, &mut owner), vec![3, 4]);
    assert_eq!(drain(&mut h3, &mut owner), vec![1, 2, 3, 4]);
}

#[test]
fn fork_of_an_exhausted_handle_reads_nothing() {
    let (mut owner, mut h1) = Clonable::new(0..2u32);
    assert_eq!(drain(&mut h1, &mut owner), vec![0, 1]);
    let mut h2 = h1.fork(&mut owner);
    assert_eq!(h2.next(&mut owner), None);
    assert_eq!(h1.next(&mut owner), None);
}

#[test]
fn handle_of_another_owner_reads_nothing_and_cannot_fork() {
    let (mut one, mut h1) = Clonable::new(0..3u32);
    let (mut other, mut g1) = Clonable::new(0..3u32);
    let g2 = g1.fork(&mut other);
    assert!(one.can_fork(&h1));
    assert!(!one.can_fork(&g2));
    assert!(other.can_fork(&g2));
    let mut stray = g2;
    assert_eq!(stray.next(&mut one), None);
    assert_eq!(h1.next(&mut one), Some(0));
    assert_eq!(g1.next(&mut other), Some(0));
}

#[test]
fn publish_hands_a_value_to_every_handle() {
    let (mut owner, mut h1) = Clonable::new(std::iter::empty::<u32>());
    let mut h2 = h1.fork(&mut owner);
    owner.publish(Some(4));
    owner.publish(None);
    owner.publish(Some(5));
    assert_eq!(drain(&mut h1, &mut owner), vec![4, 5]);
    assert_eq!(drain(&mut h2, &mut owner), vec![4, 5]);
}

#[test]
fn produce_asks_the_iterator_once() {
    let (mut owner, mut h1) = Clonable::new(vec![8u32, 9].into_iter());
    owner.produce();
    owner.produce();
    owner.produce();
    assert_eq!(h1.next(&mut owner), Some(8));
    assert_eq!(h1.next(&mut owner), Some(9));
    assert_eq!(h1.next(&mut owner), None);
}

#[test]
fn exhaustion_is_not_latched() {
    let mut first = true;
    let source = std::iter::from_fn(move || {
        if first {
            first = false;
            None
        } else {
            Some(1u8)
        }
    });
    let (mut owner, mut handle) = Clonable::new(source);
    assert_eq!(handle.next(&mut owner), None);
    assert_eq!(handle.next(&mut owner), Some(1));
}
