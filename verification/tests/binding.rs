use kayak_core::binding::{BindingId, BindingRegistry};
use kayak_core::idset::IndexSet;
use kayak_core::index::Index;
use kayak_core::schedule::Scheduler;

fn id(slot: usize) -> Index {
    Index::from_raw_parts(slot, 0)
}

#[test]
fn a_new_binding_holds_its_initial_value() {
    let mut registry: BindingRegistry<u32> = BindingRegistry::new();
    let a = registry.create(7);
    let b = registry.create(8);
    assert_eq!(a, BindingId(0));
    assert_eq!(b, BindingId(1));
    assert_eq!(registry.get(a), Some(&7));
    assert_eq!(registry.get(b), Some(&8));
    assert_eq!(registry.get(BindingId(2)), None);
    assert_eq!(registry.subscriber_count(a), 0);
}

#[test]
fn reading_subscribes_nobody() {
    let mut registry: BindingRegistry<u32> = BindingRegistry::new();
    let a = registry.create(7);
    assert_eq!(registry.get(a), Some(&7));
    assert_eq!(registry.subscriber_count(a), 0);
    assert!(!registry.has_subscriptions(id(1)));
}

#[test]
fn binding_twice_subscribes_once() {
    let mut registry: BindingRegistry<u32> = BindingRegistry::new();
    let a = registry.create(7);
    assert!(registry.bind(id(1), a));
    assert!(registry.bind(id(1), a));
    assert_eq!(registry.subscriber_count(a), 1);
    assert!(registry.is_bound(id(1), a));
    assert!(!registry.is_bound(id(2), a));
    assert!(!registry.bind(id(1), BindingId(5)));
}

#[test]
fn a_write_marks_the_subscribers_dirty_and_keeps_them_subscribed() {
    let mut registry: BindingRegistry<u32> = BindingRegistry::new();
    let a = registry.create(7);
    let b = registry.create(1);
    registry.bind(id(3), a);
    registry.bind(id(1), a);
    registry.bind(id(2), b);
    assert!(registry.set(a, 9));
    assert_eq!(registry.get(a), Some(&9));
    assert_eq!(registry.get(b), Some(&1));
    assert!(registry.is_dirty(id(1)));
    assert!(registry.is_dirty(id(3)));
    assert!(!registry.is_dirty(id(2)));
    assert_eq!(registry.subscriber_count(a), 2);
    assert_eq!(registry.take_dirty(), vec![id(1), id(3)]);
    assert!(registry.dirty_is_empty());
    assert!(registry.is_bound(id(1), a));
}

#[test]
fn a_write_to_what_is_no_binding_changes_nothing() {
    let mut registry: BindingRegistry<u32> = BindingRegistry::new();
    let a = registry.create(7);
    registry.bind(id(1), a);
    assert!(!registry.set(BindingId(4), 9));
    assert_eq!(registry.get(a), Some(&7));
    assert!(registry.dirty_is_empty());
}

#[test]
fn unsubscribing_drops_every_subscription_of_the_widget() {
    let mut registry: BindingRegistry<u32> = BindingRegistry::new();
    let a = registry.create(7);
    let b = registry.create(8);
    registry.bind(id(1), a);
    registry.bind(id(1), b);
    registry.bind(id(2), b);
    registry.unsubscribe(id(1));
    assert!(!registry.has_subscriptions(id(1)));
    assert!(registry.has_subscriptions(id(2)));
    assert_eq!(registry.subscriber_count(a), 0);
    assert_eq!(registry.subscriber_count(b), 1);
    registry.unsubscribe_all(&vec![id(2), id(5)]);
    assert_eq!(registry.subscriber_count(b), 0);
}

#[test]
fn dirty_widgets_come_out_in_ascending_order_each_once() {
    let mut registry: BindingRegistry<u32> = BindingRegistry::new();
    registry.mark_dirty(Index::from_raw_parts(2, 1));
    registry.mark_dirty(Index::from_raw_parts(2, 0));
    registry.mark_dirty(Index::from_raw_parts(0, 5));
    registry.mark_dirty(Index::from_raw_parts(2, 1));
    assert_eq!(
        registry.take_dirty(),
        vec![
            Index::from_raw_parts(0, 5),
            Index::from_raw_parts(2, 0),
            Index::from_raw_parts(2, 1),
        ]
    );
    assert_eq!(registry.take_dirty(), vec![]);
}

#[test]
fn identifiers_are_ordered_by_slot_then_generation() {
    assert!(Index::from_raw_parts(1, 9).precedes(Index::from_raw_parts(2, 0)));
    assert!(Index::from_raw_parts(1, 1).precedes(Index::from_raw_parts(1, 2)));
    assert!(!Index::from_raw_parts(1, 1).precedes(Index::from_raw_parts(1, 1)));
    assert!(!Index::from_raw_parts(2, 0).precedes(Index::from_raw_parts(1, 9)));
    assert!(Index::from_raw_parts(1, 9) < Index::from_raw_parts(2, 0));
    assert_eq!(Index::from_raw_parts(3, 4).into_raw_parts(), (3, 4));
}

#[test]
fn an_index_set_keeps_each_element_once() {
    let mut set = IndexSet::new();
    assert!(set.is_empty());
    assert!(set.insert(id(4)));
    assert!(set.insert(id(2)));
    assert!(!set.insert(id(4)));
    assert!(set.insert(id(9)));
    assert_eq!(set.len(), 3);
    assert!(set.contains(id(2)));
    assert!(!set.contains(id(3)));
    assert_eq!(set.get(0), Some(id(2)));
    assert_eq!(set.get(2), Some(id(9)));
    assert_eq!(set.get(3), None);
    assert!(set.remove(id(4)));
    assert!(!set.remove(id(4)));
    assert_eq!(set.take(), vec![id(2), id(9)]);
    assert!(set.is_empty());
}

#[test]
fn a_scheduler_hands_out_each_widget_once() {
    let mut scheduler = Scheduler::new();
    assert!(scheduler.is_idle());
    scheduler.begin_pass(vec![id(1), id(2)]);
    assert_eq!(scheduler.next(), Some(id(1)));
    assert!(!scheduler.enqueue(id(1)));
    assert!(scheduler.enqueue(id(2)));
    assert!(scheduler.enqueue(id(3)));
    assert!(scheduler.enqueue(id(3)));
    assert_eq!(scheduler.next(), Some(id(2)));
    assert_eq!(scheduler.next(), Some(id(3)));
    assert_eq!(scheduler.next(), None);
    assert!(scheduler.is_idle());
}

#[test]
fn a_pass_starts_with_each_dirty_widget_once() {
    let mut scheduler = Scheduler::new();
    scheduler.begin_pass(vec![id(3), id(1), id(3), id(2), id(1)]);
    assert_eq!(scheduler.next(), Some(id(3)));
    assert_eq!(scheduler.next(), Some(id(1)));
    assert_eq!(scheduler.next(), Some(id(2)));
    assert_eq!(scheduler.next(), None);
    scheduler.begin_pass(vec![id(3)]);
    assert_eq!(scheduler.next(), Some(id(3)));
    assert_eq!(scheduler.next(), None);
}
