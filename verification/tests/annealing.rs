use annealing::anneal_step;
use annealing::commit_candidate;
use annealing::get_cost;
use annealing::get_neighbor;
use annealing::get_rectangle;
use annealing::get_triangle;
use annealing::pixel_difference;
use annealing::update_cost;
use annealing::AnnealError;
use annealing::Pixel;
use annealing::PixelBuffer;

fn black() -> Pixel {
    Pixel { r: 0, g: 0, b: 0 }
}

fn white() -> Pixel {
    Pixel { r: 255, g: 255, b: 255 }
}

/// The pseudo-RMSE presentation of a cost sum: sqrt(s^2 / (w * h * 3)).
fn presented_cost(sum: u64, w: usize, h: usize) -> f64 {
    let s = sum as f64;
    ((s * s) / ((w * h * 3) as f64)).sqrt()
}

fn assert_unique(coords: &Vec<(usize, usize)>) {
    for i in 0..coords.len() {
        for j in (i + 1)..coords.len() {
            assert_ne!(coords[i], coords[j], "duplicate coordinate at {} and {}", i, j);
        }
    }
}

#[test]
fn pixel_difference_is_l1() {
    let p1 = Pixel { r: 255, g: 0, b: 10 };
    let p2 = Pixel { r: 0, g: 255, b: 20 };
    assert_eq!(pixel_difference(p1, p2), 255 + 255 + 10);
    assert_eq!(pixel_difference(p1, p1), 0);
    assert_eq!(pixel_difference(black(), white()), 765);
}

#[test]
fn zero_area_buffer_is_invalid() {
    assert_eq!(PixelBuffer::new(0, 5).unwrap_err(), AnnealError::InvalidDimensions);
    assert_eq!(PixelBuffer::new(5, 0).unwrap_err(), AnnealError::InvalidDimensions);
    assert_eq!(PixelBuffer::new(0, 0).unwrap_err(), AnnealError::InvalidDimensions);
    assert!(PixelBuffer::new(1, 1).is_ok());
}

#[test]
fn new_buffer_is_black() {
    let buf = PixelBuffer::new(3, 2).unwrap();
    for x in 0..3 {
        for y in 0..2 {
            assert_eq!(buf.get(x, y), black());
        }
    }
}

#[test]
fn set_then_get() {
    let mut buf = PixelBuffer::new(4, 4).unwrap();
    let c = Pixel { r: 1, g: 2, b: 3 };
    buf.set(2, 3, c);
    assert_eq!(buf.get(2, 3), c);
    assert_eq!(buf.get(3, 2), black());
}

#[test]
fn rectangle_coverage() {
    let coords = get_rectangle((1, 2), (4, 5));
    assert_eq!(coords.len(), 9);
    assert_unique(&coords);
    for &(x, y) in coords.iter() {
        assert!(1 <= x && x < 4);
        assert!(2 <= y && y < 5);
    }
    for x in 1..4 {
        for y in 2..5 {
            assert!(coords.contains(&(x, y)));
        }
    }
    // column-major, top to bottom, as the scan emits them
    assert_eq!(coords[0], (1, 2));
    assert_eq!(coords[1], (1, 3));
    assert_eq!(coords[2], (1, 4));
    assert_eq!(coords[3], (2, 2));
    assert_eq!(coords[8], (3, 4));
}

#[test]
fn degenerate_rectangle_is_empty() {
    assert_eq!(get_rectangle((3, 3), (3, 3)).len(), 0);
    assert_eq!(get_rectangle((2, 3), (2, 7)).len(), 0);
    assert_eq!(get_rectangle((2, 3), (7, 3)).len(), 0);
}

#[test]
fn flat_top_triangle_area() {
    // (0,0), (4,0), (0,4): a flat-top right triangle of geometric area 8
    let coords = get_triangle([(0, 0), (4, 0), (0, 4)]);
    assert_unique(&coords);
    // one span per scanline below the flat edge: 1 + 2 + 3 + 4 cells
    assert_eq!(coords.len(), 10);
    for &(x, y) in coords.iter() {
        assert!(x <= 4 && y <= 4);
    }
    for k in 1..5 {
        for x in 0..(5 - k) {
            assert!(coords.contains(&(x, k)), "missing ({}, {})", x, k);
        }
    }
    // the covered count stays within a factor of two of the area
    let area2 = 16u64; // twice the geometric area
    assert!((coords.len() as u64) * 2 >= area2 / 2);
    assert!((coords.len() as u64) * 2 <= area2 * 2);
}

#[test]
fn flat_bottom_triangle_area() {
    // (0,0), (0,3), (3,3): a flat-bottom right triangle of geometric area 4.5
    let coords = get_triangle([(0, 0), (0, 3), (3, 3)]);
    assert_unique(&coords);
    // spans walked from the apex: 1 + 2 + 3 + 4 cells
    assert_eq!(coords.len(), 10);
    // emitted top to bottom, each span left to right
    assert_eq!(coords[0], (0, 0));
    assert_eq!(coords[9], (3, 3));
    assert!(coords.contains(&(0, 0)));
    assert!(coords.contains(&(0, 3)));
    assert!(coords.contains(&(3, 3)));
    assert!(coords.contains(&(1, 2)));
}

#[test]
fn split_triangle_area() {
    // (0,0), (3,2), (1,5): all rows distinct, so the fill splits at row 2
    let coords = get_triangle([(0, 0), (3, 2), (1, 5)]);
    assert_unique(&coords);
    assert_eq!(coords.len(), 13);
    for &(x, y) in coords.iter() {
        assert!(x <= 3 && y <= 5);
    }
    // both halves share nothing: the flat-bottom half owns the split row
    assert!(coords.contains(&(0, 2)));
    assert!(coords.contains(&(3, 2)));
    assert!(coords.contains(&(1, 5)));
    // the flat-bottom half comes first, from its apex down; the flat-top
    // half follows, from its bottom apex up
    assert_eq!(coords[0], (0, 0));
    assert_eq!(coords[7], (1, 5));
    assert_eq!(coords[12], (2, 3));
    // twice the shoelace area is 13; the count is close to the area
    let count = coords.len() as u64;
    assert!(count >= 13 / 2 && count <= 2 * 13);
}

#[test]
fn cost_of_equal_buffers_is_zero() {
    let mut a = PixelBuffer::new(3, 3).unwrap();
    a.set(1, 1, Pixel { r: 9, g: 8, b: 7 });
    a.set(2, 0, Pixel { r: 100, g: 0, b: 255 });
    let mut b = PixelBuffer::new(3, 3).unwrap();
    b.set(1, 1, Pixel { r: 9, g: 8, b: 7 });
    b.set(2, 0, Pixel { r: 100, g: 0, b: 255 });
    assert_eq!(get_cost(&a, &b), 0);
}

#[test]
fn cost_formula_exact() {
    let mut reference = PixelBuffer::new(1, 2).unwrap();
    reference.set(0, 0, Pixel { r: 10, g: 20, b: 30 });
    let working = PixelBuffer::new(1, 2).unwrap();
    let sum = get_cost(&reference, &working);
    assert_eq!(sum, 60);
    let cost = presented_cost(sum, 1, 2);
    assert!((cost - (3600.0f64 / 6.0).sqrt()).abs() < 1e-12);
}

#[test]
fn two_by_two_scenario() {
    // an all-black 2x2 reference against an all-black working buffer
    let reference = PixelBuffer::new(2, 2).unwrap();
    let mut working = PixelBuffer::new(2, 2).unwrap();
    let sum0 = get_cost(&reference, &working);
    assert_eq!(sum0, 0);
    assert_eq!(presented_cost(sum0, 2, 2), 0.0);

    // paint one pixel white: the incremental update from cost 0 must match
    // the full recomputation afterwards
    let touched = vec![(0usize, 0usize)];
    let incremental = update_cost(sum0, &reference, &working, &touched, white(), None);
    commit_candidate(&mut working, &touched, white());
    let full = get_cost(&reference, &working);
    assert_eq!(incremental, full);
    assert_eq!(full, 765);
    let presented = presented_cost(full, 2, 2);
    let expected = ((765.0f64 * 765.0) / 12.0).sqrt();
    assert!((presented - expected).abs() < 1e-9);
}

#[test]
fn empty_candidate_is_noop() {
    let reference = PixelBuffer::new(2, 2).unwrap();
    let working = PixelBuffer::new(2, 2).unwrap();
    let empty: Vec<(usize, usize)> = Vec::new();
    assert_eq!(update_cost(4242, &reference, &working, &empty, white(), None), 4242);
    assert_eq!(update_cost(7, &reference, &working, &empty, white(), Some(5)), 7);
}

#[test]
fn incremental_matches_full_over_run() {
    let mut reference = PixelBuffer::new(3, 3).unwrap();
    for x in 0..3 {
        for y in 0..3 {
            reference.set(
                x,
                y,
                Pixel { r: (x * 80) as u8, g: (y * 70) as u8, b: ((x + y) * 40) as u8 },
            );
        }
    }
    let mut working = PixelBuffer::new(3, 3).unwrap();
    let mut sum = get_cost(&reference, &working);

    let candidates: Vec<(Vec<(usize, usize)>, Pixel)> = vec![
        (get_rectangle((0, 0), (2, 2)), Pixel { r: 50, g: 60, b: 70 }),
        (get_rectangle((1, 1), (3, 3)), Pixel { r: 200, g: 10, b: 0 }),
        (get_rectangle((0, 2), (3, 3)), Pixel { r: 0, g: 255, b: 128 }),
        (get_triangle([(0, 0), (2, 0), (0, 2)]), Pixel { r: 33, g: 44, b: 55 }),
    ];
    for (coords, color) in candidates.iter() {
        sum = update_cost(sum, &reference, &working, coords, *color, None);
        commit_candidate(&mut working, coords, *color);
        // the running sum never drifts from a full recomputation
        assert_eq!(sum, get_cost(&reference, &working));
    }
}

#[test]
fn sampled_update_visits_linear_spaced_subset() {
    let reference = PixelBuffer::new(5, 1).unwrap();
    let working = PixelBuffer::new(5, 1).unwrap();
    let coords: Vec<(usize, usize)> = (0..5).map(|x| (x, 0)).collect();
    // two samples out of five: indices 0 and 4
    assert_eq!(update_cost(0, &reference, &working, &coords, white(), Some(2)), 2 * 765);
    // one sample: index 0 only
    assert_eq!(update_cost(0, &reference, &working, &coords, white(), Some(1)), 765);
    // asking for at least as many samples as coordinates visits all of them
    assert_eq!(update_cost(0, &reference, &working, &coords, white(), Some(5)), 5 * 765);
    assert_eq!(update_cost(0, &reference, &working, &coords, white(), Some(99)), 5 * 765);
}

#[test]
fn sampled_update_differs_from_full_when_coarse() {
    // five touched cells, only the middle one differs from the reference,
    // and the two-point sample misses it
    let mut reference = PixelBuffer::new(5, 1).unwrap();
    reference.set(2, 0, white());
    let working = PixelBuffer::new(5, 1).unwrap();
    let coords: Vec<(usize, usize)> = (0..5).map(|x| (x, 0)).collect();
    let full = update_cost(765, &reference, &working, &coords, white(), None);
    let sampled = update_cost(765, &reference, &working, &coords, white(), Some(2));
    assert_eq!(full, 4 * 765);
    assert_eq!(sampled, 765 + 2 * 765);
}

#[test]
fn accepted_candidate_commits_and_updates_cost() {
    let mut reference = PixelBuffer::new(2, 2).unwrap();
    reference.set(0, 0, white());
    let mut working = PixelBuffer::new(2, 2).unwrap();
    let cost = get_cost(&reference, &working);
    assert_eq!(cost, 765);
    // painting the differing pixel white improves the cost: accepted
    let coords = vec![(0usize, 0usize)];
    let (new_cost, accepted) = anneal_step(&reference, &mut working, cost, &coords, white(), None, false);
    assert!(accepted);
    assert_eq!(new_cost, 0);
    assert_eq!(working.get(0, 0), white());
    assert_eq!(get_cost(&reference, &working), 0);
}

#[test]
fn rejected_candidate_leaves_buffer_unchanged() {
    let reference = PixelBuffer::new(2, 2).unwrap();
    let mut working = PixelBuffer::new(2, 2).unwrap();
    let cost = get_cost(&reference, &working);
    assert_eq!(cost, 0);
    // painting anything non-black worsens the cost: rejected without the
    // Metropolis draw
    let coords = vec![(1usize, 1usize)];
    let (new_cost, accepted) = anneal_step(&reference, &mut working, cost, &coords, white(), None, false);
    assert!(!accepted);
    assert_eq!(new_cost, 0);
    assert_eq!(working.get(1, 1), black());
}

#[test]
fn worse_candidate_committed_on_metropolis_accept() {
    let reference = PixelBuffer::new(2, 2).unwrap();
    let mut working = PixelBuffer::new(2, 2).unwrap();
    let cost = get_cost(&reference, &working);
    let coords = vec![(1usize, 1usize)];
    let (new_cost, accepted) = anneal_step(&reference, &mut working, cost, &coords, white(), None, true);
    assert!(accepted);
    assert_eq!(new_cost, 765);
    assert_eq!(working.get(1, 1), white());
    assert_eq!(get_cost(&reference, &working), 765);
}

#[test]
fn random_rectangle_candidate_is_on_canvas() {
    let image = PixelBuffer::new(7, 5).unwrap();
    for _ in 0..20 {
        let (coords, _color) = get_neighbor(&image, false);
        assert_unique(&coords);
        for &(x, y) in coords.iter() {
            assert!(x < 7 && y < 5);
        }
    }
}

#[test]
fn random_triangle_candidate_is_on_canvas() {
    let image = PixelBuffer::new(6, 6).unwrap();
    for _ in 0..20 {
        let (coords, _color) = get_neighbor(&image, true);
        assert_unique(&coords);
        for &(x, y) in coords.iter() {
            assert!(x < 6 && y < 6);
        }
    }
}
