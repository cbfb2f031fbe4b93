use pathtracer::render::{nearest_index, pixel_coords, pixel_index, TraceStep};

#[test]
fn test_trace_depth_zero_terminates() {
    // A ray with no bounce budget yields black whatever the scene holds.
    assert_eq!(TraceStep::Terminate, pathtracer::render::trace_step(0, true));
    assert_eq!(TraceStep::Terminate, pathtracer::render::trace_step(0, false));
}

#[test]
fn test_trace_miss_and_bounce() {
    assert_eq!(TraceStep::Miss, pathtracer::render::trace_step(25, false));
    assert_eq!(
        TraceStep::Bounce { remaining: 24 },
        pathtracer::render::trace_step(25, true)
    );
    assert_eq!(
        TraceStep::Bounce { remaining: 0 },
        pathtracer::render::trace_step(1, true)
    );
}

#[test]
fn test_pixel_coords_row_major() {
    assert_eq!((0, 0), pixel_coords(0, 326));
    assert_eq!((325, 0), pixel_coords(325, 326));
    assert_eq!((0, 1), pixel_coords(326, 326));
    assert_eq!((5, 2), pixel_coords(2 * 326 + 5, 326));
}

#[test]
fn test_pixel_index_inverts_coords() {
    let width = 326;
    for index in [0usize, 1, 325, 326, 999, 326 * 256 - 1] {
        let (x, y) = pixel_coords(index, width);
        assert_eq!(index, pixel_index(x, y, width));
    }
}

#[test]
fn test_nearest_index_picks_minimum() {
    assert_eq!(Some(2), nearest_index(&vec![9, 4, 1, 7]));
    assert_eq!(Some(0), nearest_index(&vec![3]));
    assert_eq!(None, nearest_index(&vec![]));
}

#[test]
fn test_nearest_index_prefers_first_on_tie() {
    assert_eq!(Some(1), nearest_index(&vec![5, 2, 2, 2]));
}

#[test]
fn test_nearest_index_orders_float_bits() {
    // Distance keys are the bit patterns of non-negative floats, whose
    // order matches the numerical order.
    let distances: Vec<u32> = vec![2.25f32, 0.5, 1.0 + 1e-6, 1.0]
        .into_iter()
        .map(f32::to_bits)
        .collect();
    assert_eq!(Some(1), nearest_index(&distances));
}
