use matugen::quantizer_wu::{Box, Moment, Pixel, QuantizerWu, QuantizerWuCounter};

fn whole_cube() -> Box {
    Box::new((Pixel::new(0, 0, 0), Pixel::new(32, 32, 32)))
}

#[test]
fn box_volume_counts_cells() {
    let b = Box::new((Pixel::new(1, 2, 3), Pixel::new(4, 6, 8)));
    assert_eq!(b.calculate_vol(), 3 * 4 * 5);
    assert_eq!(b.vol, 0);
}

#[test]
fn counter_fields() {
    let c = QuantizerWuCounter::new(16, 7);
    assert_eq!(c.requested_count, 16);
    assert_eq!(c.result_count, 7);
}

#[test]
fn moments_sum_over_whole_cube() {
    let pixels = vec![[255u8, 10, 20, 30], [255, 30, 40, 50], [255, 200, 100, 0]];
    let mut q = QuantizerWu::new();
    q.construct_histogram(&pixels);
    q.compute_moments();
    let whole = whole_cube();
    assert_eq!(q.volume(&whole, &Moment::Count), 3);
    assert_eq!(q.volume(&whole, &Moment::Red), 240);
    assert_eq!(q.volume(&whole, &Moment::Green), 160);
    assert_eq!(q.volume(&whole, &Moment::Blue), 80);
    let low = Box::new((Pixel::new(0, 0, 0), Pixel::new(16, 32, 32)));
    assert_eq!(q.volume(&low, &Moment::Count), 2);
}

#[test]
fn result_is_mean_of_each_box() {
    let pixels = vec![[255u8, 10, 20, 30], [255, 30, 40, 50], [255, 200, 100, 0]];
    let mut q = QuantizerWu::new();
    q.construct_histogram(&pixels);
    q.compute_moments();
    let low = Box::new((Pixel::new(0, 0, 0), Pixel::new(16, 32, 32)));
    let high = Box::new((Pixel::new(16, 0, 0), Pixel::new(32, 32, 32)));
    let empty = Box::new((Pixel::new(0, 0, 0), Pixel::new(1, 1, 1)));
    q.set_cubes(vec![low, empty, high]);
    assert_eq!(q.create_result(3), vec![[255, 20, 30, 40], [255, 200, 100, 0]]);
}
