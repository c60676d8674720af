use reactive_core::todo::Todo;

#[test]
fn todo_keeps_id_and_name() {
    let t = Todo::new(3, String::from("George"));
    assert_eq!(t.id(), 3);
    assert_eq!(t.name(), "George");
    let c = t.clone();
    assert_eq!(c.id(), 3);
}

use reactive_core::rows::{remove_row, KeyCounter};

#[test]
fn key_counter_counts_up_from_start() {
    let mut k = KeyCounter::new(5);
    assert_eq!(k.next_key(), Some(5));
    assert_eq!(k.next_key(), Some(6));
}

#[test]
fn key_counter_stops_at_the_largest_key() {
    let mut k = KeyCounter::new(usize::MAX);
    assert_eq!(k.next_key(), None);
    assert_eq!(k.next_key(), None);
}

#[test]
fn remove_row_drops_only_the_keyed_row() {
    let mut rows = vec![(0, "a"), (1, "b"), (2, "c")];
    assert!(remove_row(&mut rows, 1));
    assert_eq!(rows, vec![(0, "a"), (2, "c")]);
    assert!(!remove_row(&mut rows, 7));
    assert_eq!(rows, vec![(0, "a"), (2, "c")]);
}

use reactive_core::counter::counter_label;

#[test]
fn counter_label_prompts_at_zero_then_shows_the_count() {
    assert_eq!(counter_label(0), "Click me!");
    assert_eq!(counter_label(3), "3");
    assert_eq!(counter_label(-12), "-12");
}
