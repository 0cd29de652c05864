use miniko_renderer::resize::{swapchain_format_index, PendingResize};

#[test]
fn nothing_pending_at_first() {
    let mut p = PendingResize::new();
    assert_eq!(p.take((100, 100)), None);
}

#[test]
fn request_is_applied_once() {
    let mut p = PendingResize::new();
    p.request(800, 600);
    assert_eq!(p.take((100, 100)), Some((800, 600)));
    assert_eq!(p.take((100, 100)), None);
}

#[test]
fn zero_dimensions_become_one() {
    let mut p = PendingResize::new();
    p.request(0, 50);
    assert_eq!(p.take((100, 100)), Some((1, 50)));
}

#[test]
fn same_size_is_not_applied_and_later_request_wins() {
    let mut p = PendingResize::new();
    p.request(100, 100);
    assert_eq!(p.take((100, 100)), None);
    p.request(10, 20);
    p.request(30, 40);
    assert_eq!(p.take((10, 20)), Some((30, 40)));
}

#[test]
fn swapchain_prefers_the_first_non_srgb_format() {
    assert_eq!(swapchain_format_index(&[true, false, false]), 1);
    assert_eq!(swapchain_format_index(&[false, true]), 0);
    assert_eq!(swapchain_format_index(&[true, true]), 0);
}
