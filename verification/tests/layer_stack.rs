use miniko_renderer::layer_stack::{LayerStack, CANVAS_HEIGHT, CANVAS_WIDTH, LAYER_COUNT};

#[test]
fn draw_order_is_highest_number_first() {
    let mut s: LayerStack<&str> = LayerStack::new();
    s.set_layer(5, vec!["front"]);
    s.set_layer(38, vec!["back1", "back2"]);
    s.set_layer(17, vec!["middle"]);
    let order: Vec<(u8, Vec<&str>)> = s
        .iter_draw_order()
        .into_iter()
        .map(|(n, t)| (n, t.clone()))
        .collect();
    assert_eq!(
        order,
        vec![(38, vec!["back1", "back2"]), (17, vec!["middle"]), (5, vec!["front"])]
    );
}

#[test]
fn set_replaces_and_clear_removes() {
    let mut s: LayerStack<u32> = LayerStack::new();
    s.set_layer(3, vec![1]);
    s.set_layer(3, vec![2, 3]);
    assert_eq!(s.get_layer(3), Some(&vec![2, 3]));
    assert!(s.has_layer(3));
    s.clear_layer(3);
    assert_eq!(s.get_layer(3), None);
    assert!(!s.has_layer(3));
    s.clear_layer(9);
    assert!(s.iter_draw_order().is_empty());
}

#[test]
fn layer_numbers_each_once() {
    let mut s: LayerStack<u32> = LayerStack::new();
    s.set_layer(1, vec![]);
    s.set_layer(41, vec![7]);
    s.set_layer(1, vec![8]);
    let mut nums = s.layer_nums();
    nums.sort();
    assert_eq!(nums, vec![1, 41]);
    s.clear_all();
    assert!(s.layer_nums().is_empty());
}

#[test]
fn canvas_constants() {
    assert_eq!((CANVAS_WIDTH, CANVAS_HEIGHT), (3000, 2320));
    assert_eq!(LAYER_COUNT, 41);
}
