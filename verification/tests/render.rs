use sorting_algorithm_visualizer_rs::render::{
    draw_bars, BLACK, HEIGHT, HIGHLIGHT_COLOR, SORTED_COLOR, UNSORTED_COLOR, WIDTH,
};

fn dirty_buffer(fill: u32) -> Vec<u32> {
    vec![fill; WIDTH * HEIGHT]
}

fn px(buf: &[u32], x: usize, y: usize) -> u32 {
    buf[y * WIDTH + x]
}

#[test]
fn bars_grow_from_the_bottom_with_proportional_heights() {
    let array = vec![1u32, 2, 3, 4];
    let bw = WIDTH / 4;
    let mut buf = dirty_buffer(0xFFFFFF);
    draw_bars(&array, &mut buf, None, None, None, bw);
    // bar 0: height 1 * 1080 / 4 = 270, so rows 810..1080 are covered
    assert_eq!(px(&buf, 0, HEIGHT - 1), UNSORTED_COLOR);
    assert_eq!(px(&buf, 0, 810), UNSORTED_COLOR);
    assert_eq!(px(&buf, 0, 809), BLACK);
    assert_eq!(px(&buf, 0, 0), BLACK);
    // bar 3: full height, covered up to the top row
    assert_eq!(px(&buf, 3 * bw, 0), UNSORTED_COLOR);
    // last column of bar 3 is still inside its extent
    assert_eq!(px(&buf, 4 * bw - 1, HEIGHT - 1), UNSORTED_COLOR);
}

#[test]
fn highlight_beats_the_sorted_boundary() {
    let array = vec![4u32, 4, 4, 4];
    let bw = WIDTH / 4;
    let mut buf = dirty_buffer(0);
    // every bar is at or past the boundary, but bar 2 is highlighted
    draw_bars(&array, &mut buf, Some(2), None, Some(0), bw);
    assert_eq!(px(&buf, 2 * bw, HEIGHT - 1), HIGHLIGHT_COLOR);
    assert_eq!(px(&buf, 0, HEIGHT - 1), SORTED_COLOR);
    assert_eq!(px(&buf, 3 * bw, HEIGHT - 1), SORTED_COLOR);
}

#[test]
fn both_highlights_are_drawn() {
    let array = vec![4u32, 4, 4, 4];
    let bw = WIDTH / 4;
    let mut buf = dirty_buffer(0);
    draw_bars(&array, &mut buf, Some(0), Some(3), None, bw);
    assert_eq!(px(&buf, 0, HEIGHT - 1), HIGHLIGHT_COLOR);
    assert_eq!(px(&buf, 3 * bw, HEIGHT - 1), HIGHLIGHT_COLOR);
    assert_eq!(px(&buf, bw, HEIGHT - 1), UNSORTED_COLOR);
}

#[test]
fn sorted_boundary_splits_default_and_sorted_colors() {
    let array = vec![4u32, 4, 4, 4];
    let bw = WIDTH / 4;
    let mut buf = dirty_buffer(0);
    draw_bars(&array, &mut buf, None, None, Some(2), bw);
    assert_eq!(px(&buf, 0, HEIGHT - 1), UNSORTED_COLOR);
    assert_eq!(px(&buf, bw, HEIGHT - 1), UNSORTED_COLOR);
    assert_eq!(px(&buf, 2 * bw, HEIGHT - 1), SORTED_COLOR);
    assert_eq!(px(&buf, 3 * bw, HEIGHT - 1), SORTED_COLOR);
}

#[test]
fn redrawing_identical_arguments_gives_identical_buffers() {
    let array = vec![2u32, 1, 3];
    let bw = WIDTH / 3;
    let mut first = dirty_buffer(0xABCDEF);
    let mut second = dirty_buffer(0x123456);
    draw_bars(&array, &mut first, Some(1), None, Some(2), bw);
    draw_bars(&array, &mut second, Some(1), None, Some(2), bw);
    assert_eq!(first, second);
    // drawing again over the result changes nothing
    let snapshot = first.clone();
    draw_bars(&array, &mut first, Some(1), None, Some(2), bw);
    assert_eq!(first, snapshot);
}

#[test]
fn empty_array_clears_the_buffer() {
    let array: Vec<u32> = Vec::new();
    let mut buf = dirty_buffer(0xFFFFFF);
    draw_bars(&array, &mut buf, None, None, None, WIDTH);
    assert!(buf.iter().all(|&c| c == BLACK));
}
