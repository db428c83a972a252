use simplelife::arith::isqrt;
use simplelife::engine::{ConfigError, SimpleLife, ACTIVE_THRESHOLD};
use simplelife::growth::{growth_function, next_value};
use simplelife::kernel::{Kernel, MAX_RADIUS};
use simplelife::potential::compute_potential;
use simplelife::render::{cell_color, cell_gray};
use simplelife::seed::{block_at, disk_at, seed_cell_value, BLOCK_VALUE};
use simplelife::ONE;

fn engine(width: usize, height: usize, radius: usize, dt: u32) -> SimpleLife {
    SimpleLife::new(width, height, radius, dt).unwrap()
}

/// A deterministic pseudo-random fill of the grid with values in 0..=ONE.
fn fill_pattern(s: &mut SimpleLife, seed: u64) {
    let mut state = seed;
    for y in 0..s.height() {
        for x in 0..s.width() {
            state = state.wrapping_mul(6364136223846793005).wrapping_add(1442695040888963407);
            let v = ((state >> 33) % (ONE as u64 + 1)) as u32;
            s.set_cell(x, y, v);
        }
    }
}

#[test]
fn kernel_weights_are_normalized() {
    for r in 1..=15 {
        let k = Kernel::new(r);
        let side = 2 * r + 1;
        assert_eq!(k.weights.len(), side * side);
        let sum: u64 = k.weights.iter().sum();
        assert_eq!(sum, k.total);
        assert!(k.total > 0);
        let normalized: f64 = k.weights.iter().map(|&w| w as f64 / k.total as f64).sum();
        assert!((normalized - 1.0).abs() <= 1e-5);
    }
}

#[test]
fn kernel_weights_follow_linear_falloff() {
    let k = Kernel::new(2);
    let side = 5;
    // Center: distance 0 gives the full weight 2 * ONE.
    assert_eq!(k.weights[2 * side + 2], 2_000_000);
    // Distance 1 gives half the center weight.
    assert_eq!(k.weights[2 * side + 3], 1_000_000);
    // Distance sqrt(2): 2 - 1.414213 of ONE.
    assert_eq!(k.weights[3 * side + 3], 2_000_000 - 1_414_213);
    // Distance 2 and beyond: zero.
    assert_eq!(k.weights[2 * side + 4], 0);
    assert_eq!(k.weights[0], 0);
}

#[test]
fn kernel_of_radius_one_is_its_center() {
    let k = Kernel::new(1);
    assert_eq!(k.weights, vec![0, 0, 0, 0, 1_000_000, 0, 0, 0, 0]);
    assert_eq!(k.total, 1_000_000);
}

#[test]
fn kernel_is_radially_symmetric() {
    for r in 1..=9usize {
        let k = Kernel::new(r);
        let side = 2 * r + 1;
        let at = |x: usize, y: usize| k.weights[y * side + x];
        for dx in 0..=r {
            for dy in 0..=r {
                let w = at(r + dx, r + dy);
                assert_eq!(w, at(r - dx, r + dy));
                assert_eq!(w, at(r + dx, r - dy));
                assert_eq!(w, at(r - dx, r - dy));
                assert_eq!(w, at(r + dy, r + dx));
            }
        }
    }
}

#[test]
fn isqrt_brackets_its_argument() {
    assert_eq!(isqrt(0), 0);
    assert_eq!(isqrt(1), 1);
    assert_eq!(isqrt(15), 3);
    assert_eq!(isqrt(16), 4);
    assert_eq!(isqrt(2_000_000_000_000), 1_414_213);
    assert_eq!(isqrt(u64::MAX), 4_294_967_295);
}

#[test]
fn growth_at_reference_points() {
    assert_eq!(growth_function(500_000), 250_000);
    assert_eq!(growth_function(0), -200_000);
    assert_eq!(growth_function(1_000_000), -200_000);
    // 1.8 * 0.25 * 0.75 - 0.2 = 0.1375
    assert_eq!(growth_function(250_000), 137_500);
}

#[test]
fn growth_is_symmetric_about_one_half() {
    let peak = growth_function(500_000);
    for d in [0, 1, 7, 1000, 123_456, 499_999, 500_000, 2_000_000] {
        let up = growth_function(500_000 + d);
        let down = growth_function(500_000 - d);
        assert_eq!(up, down);
        assert!(up <= peak);
    }
    assert_eq!(peak, 250_000);
}

#[test]
fn next_value_clamps_to_unit_range() {
    assert_eq!(next_value(500_000, 500_000, 50_000), 512_500);
    assert_eq!(next_value(0, 0, 50_000), 0);
    assert_eq!(next_value(1_000_000, 500_000, 1_000_000), 1_000_000);
    // 0.001 - 0.05 * 0.2 is negative: clamped to zero.
    assert_eq!(next_value(1_000, 0, 50_000), 0);
}

#[test]
fn new_reports_each_error() {
    assert_eq!(SimpleLife::new(0, 10, 1, 50_000).err(), Some(ConfigError::ZeroDimension));
    assert_eq!(SimpleLife::new(10, 0, 1, 50_000).err(), Some(ConfigError::ZeroDimension));
    assert_eq!(SimpleLife::new(10, 10, 0, 50_000).err(), Some(ConfigError::ZeroKernelRadius));
    assert_eq!(SimpleLife::new(10, 10, MAX_RADIUS + 1, 50_000).err(), Some(ConfigError::KernelRadiusTooLarge));
}

#[test]
fn new_accepts_wide_grids_and_large_radii() {
    let s = engine(5000, 10, 1, 50_000);
    assert_eq!(s.width(), 5000);
    assert_eq!(s.snapshot().len(), 50_000);
    assert!(SimpleLife::new(3, 3, MAX_RADIUS, 50_000).is_ok());
    assert_eq!(MAX_RADIUS, 3000);
}

#[test]
fn new_builds_a_zero_grid() {
    let s = engine(12, 7, 3, 50_000);
    assert_eq!(s.width(), 12);
    assert_eq!(s.height(), 7);
    assert_eq!(s.kernel_radius(), 3);
    assert_eq!(s.dt(), 50_000);
    assert_eq!(s.snapshot(), vec![0; 84]);
}

#[test]
fn uniform_half_grid_steps_to_0_5125() {
    let mut s = engine(10, 10, 1, 50_000);
    for y in 0..10 {
        for x in 0..10 {
            s.set_cell(x, y, 500_000);
        }
    }
    assert_eq!(s.compute_potential(), vec![500_000; 100]);
    let extinct = s.update();
    assert!(!extinct);
    assert_eq!(s.snapshot(), vec![512_500; 100]);
}

#[test]
fn uniform_grid_with_wide_kernel_keeps_its_potential() {
    let mut s = engine(9, 11, 4, 50_000);
    for y in 0..11 {
        for x in 0..9 {
            s.set_cell(x, y, 321_000);
        }
    }
    assert_eq!(s.compute_potential(), vec![321_000; 99]);
}

#[test]
fn zero_grid_stays_zero_and_is_extinct() {
    for (r, dt) in [(1, 50_000), (3, 100_000), (5, 1_000_000)] {
        let mut s = engine(10, 10, r, dt);
        assert_eq!(s.compute_potential(), vec![0; 100]);
        assert!(s.update());
        assert_eq!(s.snapshot(), vec![0; 100]);
        assert!(s.update());
    }
}

#[test]
fn potential_lies_between_grid_extremes() {
    let mut s = engine(17, 13, 4, 50_000);
    fill_pattern(&mut s, 7);
    let grid = s.snapshot();
    let lo = *grid.iter().min().unwrap();
    let hi = *grid.iter().max().unwrap();
    for p in s.compute_potential() {
        assert!(lo <= p && p <= hi);
    }
}

#[test]
fn potential_commutes_with_shifts() {
    let (w, h) = (11usize, 8usize);
    let mut s = engine(w, h, 3, 50_000);
    fill_pattern(&mut s, 99);
    let grid = s.snapshot();
    let pot = s.compute_potential();
    for (sx, sy) in [(1usize, 0usize), (0, 1), (3, 5)] {
        let mut moved = engine(w, h, 3, 50_000);
        for y in 0..h {
            for x in 0..w {
                let from = ((y + h - sy) % h) * w + (x + w - sx) % w;
                moved.set_cell(x, y, grid[from]);
            }
        }
        let moved_pot = moved.compute_potential();
        for y in 0..h {
            for x in 0..w {
                let from = ((y + h - sy) % h) * w + (x + w - sx) % w;
                assert_eq!(moved_pot[y * w + x], pot[from]);
            }
        }
    }
}

#[test]
fn free_potential_function_matches_engine() {
    let mut s = engine(6, 5, 2, 50_000);
    fill_pattern(&mut s, 3);
    let k = Kernel::new(2);
    assert_eq!(compute_potential(&s.snapshot(), 6, 5, &k), s.compute_potential());
}

#[test]
fn step_keeps_cells_in_unit_range() {
    for (seed, dt) in [(1u64, 50_000u32), (2, 1_000_000), (3, u32::MAX)] {
        let mut s = engine(15, 15, 3, dt);
        fill_pattern(&mut s, seed);
        for _ in 0..3 {
            s.update();
            assert!(s.snapshot().iter().all(|&v| v <= ONE));
        }
    }
}

#[test]
fn update_reports_activity() {
    let mut s = engine(5, 5, 1, 50_000);
    s.set_cell(2, 2, 800_000);
    assert!(!s.update());
    assert!(s.snapshot().iter().any(|&v| v > ACTIVE_THRESHOLD));
}

#[test]
fn seed_values_follow_the_draw() {
    // Below density: r / 2 + 0.3.
    assert_eq!(seed_cell_value(100_000, 300_000), 350_000);
    // In the band above density: 0.3 r.
    assert_eq!(seed_cell_value(400_000, 300_000), 120_000);
    // Above the band: nothing.
    assert_eq!(seed_cell_value(500_000, 300_000), 0);
    assert_eq!(seed_cell_value(999_999, u32::MAX), 799_999);
}

#[test]
fn disk_and_blocks_are_located() {
    // 100 by 100, radius 0.3: disk of radius 30 around (50, 50).
    assert!(disk_at(100, 100, 300_000, 50, 50));
    assert!(disk_at(100, 100, 300_000, 79, 50));
    assert!(!disk_at(100, 100, 300_000, 80, 50));
    assert!(!disk_at(100, 100, 300_000, 72, 72));
    for i in 0..5 {
        let b = 30 + 10 * i;
        assert!(block_at(100, 100, b, b));
        assert!(block_at(100, 100, b + 1, b + 1));
        assert!(!block_at(100, 100, b + 2, b));
    }
    assert!(!block_at(50, 50, 25, 25));
}

#[test]
fn reseed_with_fixed_draws() {
    let (w, h) = (100usize, 100usize);
    let mut s = engine(w, h, 2, 50_000);
    let draws: Vec<u32> = (0..w * h).map(|i| ((i as u64 * 7919) % ONE as u64) as u32).collect();
    s.random_init_with(300_000, 300_000, &draws);
    let grid = s.snapshot();
    let mut next = 0;
    for y in 0..h {
        for x in 0..w {
            let v = grid[y * w + x];
            let dx = x as i64 - 50;
            let dy = y as i64 - 50;
            let inside = dx * dx + dy * dy < 30 * 30;
            if block_at(w, h, x, y) {
                assert_eq!(v, BLOCK_VALUE);
            } else if inside {
                assert_eq!(v, seed_cell_value(draws[next], 300_000));
            } else {
                assert_eq!(v, 0);
            }
            if inside {
                next += 1;
            }
        }
    }
    for i in 0..5 {
        let b = 30 + 10 * i;
        for (x, y) in [(b, b), (b + 1, b), (b, b + 1), (b + 1, b + 1)] {
            assert_eq!(grid[y * w + x], 900_000);
        }
    }
}

#[test]
fn reseed_takes_draws_in_disk_order() {
    // 10 by 10, radius 0.1: disk of radius 1 around (5, 5) holds one cell.
    let mut s = engine(10, 10, 1, 50_000);
    s.random_init_with(100_000, 300_000, &vec![100_000]);
    let grid = s.snapshot();
    assert_eq!(grid[5 * 10 + 5], 350_000);
    assert_eq!(grid.iter().filter(|&&v| v != 0).count(), 1);
    // Radius 0.2: the disk of radius 2 holds the center and its 8 neighbours
    // (distance at most sqrt(2)); the cells at distance 2 lie on its edge and
    // stay out. The 9 cells take draws 0..9 row by row.
    let draws: Vec<u32> = (0..9).map(|k| k * 10_000).collect();
    s.random_init_with(200_000, ONE, &draws);
    let grid = s.snapshot();
    let mut k = 0;
    for y in 4..=6 {
        for x in 4..=6 {
            assert_eq!(grid[y * 10 + x], draws[k] / 2 + 300_000);
            k += 1;
        }
    }
    assert_eq!(grid.iter().filter(|&&v| v != 0).count(), 9);
}

#[test]
fn reseed_radius_is_not_rounded_down() {
    // 10 by 10, radius 0.35: the disk has radius 3.5, so (8, 5) at distance 3 is inside.
    assert!(disk_at(10, 10, 350_000, 8, 5));
    assert!(!disk_at(10, 10, 350_000, 9, 5));
    assert!(disk_at(10, 10, 350_000, 7, 7));
    assert!(!disk_at(10, 10, 350_000, 8, 8));
}

#[test]
fn reseed_with_radius_zero_only_stamps_blocks() {
    let mut s = engine(60, 60, 1, 50_000);
    s.random_init(0, 500_000);
    let grid = s.snapshot();
    for y in 0..60 {
        for x in 0..60 {
            let expected = if block_at(60, 60, x, y) { BLOCK_VALUE } else { 0 };
            assert_eq!(grid[y * 60 + x], expected);
        }
    }
    assert_eq!(grid.iter().filter(|&&v| v == BLOCK_VALUE).count(), 20);
    let mut small = engine(10, 10, 1, 50_000);
    small.random_init_with(0, 300_000, &Vec::new());
    assert_eq!(small.snapshot(), vec![0; 100]);
}

#[test]
fn reseed_small_grid_has_no_blocks() {
    let mut s = engine(40, 40, 2, 50_000);
    let draws = vec![999_999u32; 1600];
    s.random_init_with(300_000, 300_000, &draws);
    assert_eq!(s.snapshot(), vec![0; 1600]);
}

#[test]
fn random_reseed_stays_in_the_disk() {
    let (w, h) = (60usize, 40usize);
    let mut s = engine(w, h, 2, 50_000);
    s.random_init(300_000, 300_000);
    let grid = s.snapshot();
    let mut inside_nonzero = 0;
    for y in 0..h {
        for x in 0..w {
            let v = grid[y * w + x];
            assert!(v <= ONE);
            let dx = x as i64 - 30;
            let dy = y as i64 - 20;
            if dx * dx + dy * dy >= 12 * 12 {
                assert_eq!(v, 0);
            } else if v != 0 {
                inside_nonzero += 1;
            }
        }
    }
    assert!(inside_nonzero > 0);
}

#[test]
fn colors_follow_the_ramp() {
    assert_eq!(cell_color(0), 0);
    assert_eq!(cell_color(ONE), (50 << 16) | (100 << 8) | 255);
    assert_eq!(cell_color(500_000), (6 << 16) | (25 << 8) | 127);
    assert_eq!(cell_gray(ONE), 255);
    assert_eq!(cell_gray(500_000), 127);
    assert_eq!(cell_gray(3_921), 0);
    assert_eq!(cell_gray(3_922), 1);
}

#[test]
fn buffer_packs_each_cell() {
    let mut s = engine(3, 1, 1, 50_000);
    s.set_cell(1, 0, ONE);
    s.set_cell(2, 0, 500_000);
    assert_eq!(s.create_buffer(), vec![0, 0x3264ff, (6 << 16) | (25 << 8) | 127]);
}

#[test]
fn pgm_has_header_and_pixels() {
    let mut s = engine(12, 1, 1, 50_000);
    s.set_cell(0, 0, ONE);
    s.set_cell(11, 0, 500_000);
    let bytes = s.pgm_bytes();
    let mut expected = b"P5\n12 1\n255\n".to_vec();
    expected.extend_from_slice(&[255, 0, 0, 0, 0, 0, 0, 0, 0, 0, 0, 127]);
    assert_eq!(bytes, expected);
    assert_eq!(s.gray_pixels().len(), 12);
    assert_eq!(s.cell(11, 0), 500_000);
}
