use hazel::layer::{LayerId, LayerStack};

fn ids_front_to_back(stack: &LayerStack<u32>) -> Vec<usize> {
    let mut out = Vec::new();
    for i in 0..stack.len() {
        out.push(stack.id_at(i).value());
    }
    out
}

fn values_front_to_back(stack: &LayerStack<u32>) -> Vec<u32> {
    let mut out = Vec::new();
    for i in 0..stack.len() {
        out.push(*stack.get(i));
    }
    out
}

#[test]
fn ids_start_at_one_and_increase() {
    let mut stack: LayerStack<u32> = LayerStack::new();
    let a = stack.push_layer(10);
    let b = stack.push_overlay(20);
    let c = stack.push_layer(30);
    assert_eq!(a.value(), 1);
    assert_eq!(b.value(), 2);
    assert_eq!(c.value(), 3);
    assert!(a < b && b < c);
}

#[test]
fn layers_go_before_overlays() {
    let mut stack: LayerStack<u32> = LayerStack::new();
    stack.push_layer(1);
    stack.push_overlay(100);
    stack.push_layer(2);
    stack.push_overlay(200);
    assert_eq!(values_front_to_back(&stack), vec![1, 2, 100, 200]);
    assert_eq!(ids_front_to_back(&stack), vec![1, 3, 2, 4]);
    assert_eq!(stack.layer_insert(), 2);
    assert_eq!(stack.len(), 4);
}

#[test]
fn dispatch_order_visits_overlays_first() {
    let mut stack: LayerStack<&'static str> = LayerStack::new();
    let l1 = stack.push_layer("L1");
    let l2 = stack.push_layer("L2");
    let o1 = stack.push_overlay("O1");
    assert_eq!(stack.dispatch_order(), vec![o1, l2, l1]);
}

#[test]
fn dispatch_order_newest_first_within_each_region() {
    let mut stack: LayerStack<u32> = LayerStack::new();
    let o1 = stack.push_overlay(1);
    let l1 = stack.push_layer(2);
    let o2 = stack.push_overlay(3);
    let l2 = stack.push_layer(4);
    assert_eq!(stack.dispatch_order(), vec![o2, o1, l2, l1]);
}

#[test]
fn dispatch_order_of_empty_stack_is_empty() {
    let stack: LayerStack<u32> = LayerStack::new();
    assert_eq!(stack.dispatch_order(), Vec::<LayerId>::new());
    assert_eq!(stack.len(), 0);
    assert_eq!(stack.layer_insert(), 0);
}

#[test]
fn pop_layer_with_unknown_id_removes_nothing() {
    let mut stack: LayerStack<u32> = LayerStack::new();
    let a = stack.push_layer(1);
    stack.push_overlay(2);
    stack.pop_layer(a);
    assert_eq!(stack.layer_insert(), 0);
    assert_eq!(stack.pop_layer(a), None);
    assert_eq!(stack.layer_insert(), 0);
    assert_eq!(stack.len(), 1);
}

#[test]
fn pop_layer_does_not_remove_overlays() {
    let mut stack: LayerStack<u32> = LayerStack::new();
    stack.push_layer(1);
    let o = stack.push_overlay(2);
    assert_eq!(stack.pop_layer(o), None);
    assert_eq!(stack.layer_insert(), 1);
    assert_eq!(stack.len(), 2);
}

#[test]
fn pop_overlay_does_not_remove_layers() {
    let mut stack: LayerStack<u32> = LayerStack::new();
    let l = stack.push_layer(1);
    stack.push_overlay(2);
    assert_eq!(stack.pop_overlay(l), None);
    assert_eq!(stack.len(), 2);
}

#[test]
fn pop_layer_hands_back_the_entry_and_moves_the_boundary() {
    let mut stack: LayerStack<u32> = LayerStack::new();
    stack.push_layer(1);
    let b = stack.push_layer(2);
    stack.push_overlay(3);
    assert_eq!(stack.pop_layer(b), Some(2));
    assert_eq!(stack.layer_insert(), 1);
    assert_eq!(values_front_to_back(&stack), vec![1, 3]);
}

#[test]
fn pop_overlay_hands_back_the_entry_and_keeps_the_boundary() {
    let mut stack: LayerStack<u32> = LayerStack::new();
    stack.push_layer(1);
    let o = stack.push_overlay(2);
    stack.push_overlay(3);
    assert_eq!(stack.pop_overlay(o), Some(2));
    assert_eq!(stack.layer_insert(), 1);
    assert_eq!(values_front_to_back(&stack), vec![1, 3]);
}

#[test]
fn boundary_counts_layers_after_mixed_operations() {
    let mut stack: LayerStack<u32> = LayerStack::new();
    let a = stack.push_layer(1);
    let o = stack.push_overlay(2);
    let b = stack.push_layer(3);
    stack.push_layer(4);
    stack.pop_overlay(o);
    stack.pop_layer(a);
    stack.push_overlay(5);
    stack.pop_layer(b);
    assert_eq!(stack.layer_insert(), 1);
    assert_eq!(values_front_to_back(&stack), vec![4, 5]);
}

#[test]
fn popped_ids_are_never_handed_out_again() {
    let mut stack: LayerStack<u32> = LayerStack::new();
    let mut seen = Vec::new();
    for i in 0..10u32 {
        let id = if i % 3 == 0 { stack.push_overlay(i) } else { stack.push_layer(i) };
        seen.push(id.value());
        if i % 2 == 0 {
            stack.pop_layer(id);
            stack.pop_overlay(id);
        }
    }
    let mut sorted = seen.clone();
    sorted.sort();
    sorted.dedup();
    assert_eq!(sorted.len(), seen.len());
    assert_eq!(seen, (1..=10).collect::<Vec<usize>>());
}

#[test]
fn position_finds_entries_by_id() {
    let mut stack: LayerStack<u32> = LayerStack::new();
    let a = stack.push_layer(1);
    let o = stack.push_overlay(2);
    assert_eq!(stack.position(a), Some(0));
    assert_eq!(stack.position(o), Some(1));
    stack.pop_layer(a);
    assert_eq!(stack.position(a), None);
    assert!(stack.can_push());
}

#[test]
fn get_mut_writes_an_entry_in_place() {
    let mut stack: LayerStack<u32> = LayerStack::new();
    stack.push_layer(1);
    stack.push_overlay(2);
    *stack.get_mut(1) = 20;
    assert_eq!(values_front_to_back(&stack), vec![1, 20]);
    assert_eq!(stack.layer_insert(), 1);
}
