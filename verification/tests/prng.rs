use clicky::prng::Lcrng;
use std::time;

fn seed_from_time_now() -> u64 {
    time::SystemTime::now()
        .duration_since(time::UNIX_EPOCH)
        .unwrap()
        .as_secs()
}

/// The range formula in double precision, kept within the range, as a check
/// on the integer form.
fn float_draw(r: u64, start: u64, end: u64) -> u64 {
    let range = (end - start + 1) as f64;
    let v = ((r as f64 / u64::MAX as f64) * range) as u64;
    if v >= end - start + 1 {
        end
    } else {
        v + start
    }
}

#[test]
fn test_prng_percentage_chance() {
    let mut lcrng = Lcrng::new(seed_from_time_now());
    let mut dist = [0u64; 100];
    for _ in 0..=10_000_000 {
        let n = lcrng.number_in_range_inclusive(0, 99) as usize;
        dist[n] += 1;
    }
    let avg_deviation = dist
        .iter()
        .map(|it| ((*it as f32 / 100_000.0) - 1.0).abs())
        .reduce(|it, acc| it + acc)
        .expect("We should always get some average value.")
        / 100.0;
    println!("LCRNG has {:?}% average deviation", avg_deviation);
    assert!(avg_deviation < 3.0e-3);
}

#[test]
fn test_prng_idempotence() {
    let seed = seed_from_time_now();
    let mut lcrng_1 = Lcrng::new(seed);
    let mut generated_numbers_1 = [0; 10_000];
    for i in 0..10_000 {
        generated_numbers_1[i] = lcrng_1.next();
    }
    let mut lcrng_2 = Lcrng::new(seed);
    let mut generated_numbers_2 = [0; 10_000];
    for i in 0..10_000 {
        generated_numbers_2[i] = lcrng_2.next();
    }
    assert_eq!(generated_numbers_1, generated_numbers_2);
}

#[test]
fn next_follows_the_recurrence() {
    let mut g = Lcrng::new(0);
    assert_eq!(g.next(), 0x00269EC3);
    let mut g = Lcrng::new(1);
    assert_eq!(g.next(), 0x5D588B656C078965u64.wrapping_add(0x00269EC3));
    let mut g = Lcrng::new(u64::MAX);
    assert_eq!(
        g.next(),
        u64::MAX.wrapping_mul(0x5D588B656C078965).wrapping_add(0x00269EC3)
    );
}

#[test]
fn range_draws_match_double_precision_along_a_stream() {
    let ranges: [(u64, u64); 8] = [
        (0, 99),
        (1, 8),
        (0, 9),
        (0, 4),
        (1, 100),
        (1, 114_000_000),
        (5, 5),
        (0, 1 << 60),
    ];
    for &(start, end) in ranges.iter() {
        let mut g = Lcrng::new(12345);
        let mut shadow = Lcrng::new(12345);
        for _ in 0..200_000 {
            let r = shadow.next();
            let expected = float_draw(r, start, end);
            assert_eq!(g.number_in_range_inclusive(start, end), expected, "r = {r}");
        }
    }
}

#[test]
fn range_draws_match_double_precision_at_rounding_edges() {
    // States whose rounding to 53 bits goes up, down, or to an even
    // neighbour, and states next to 2^64.
    let states: [u64; 14] = [
        0,
        1,
        (1 << 53) - 1,
        1 << 53,
        (1 << 53) + 1,
        (1 << 53) + 3,
        (1 << 54) + 2,
        (1 << 54) + 6,
        u64::MAX - 1024,
        u64::MAX - 1023,
        u64::MAX - 2048,
        u64::MAX - 1,
        u64::MAX,
        0x8000_0000_0000_0400,
    ];
    let ranges: [(u64, u64); 6] = [(0, 99), (1, 8), (0, 9), (0, (1 << 53) + 1), (1, (1 << 62) + 777), (0, u64::MAX - 1)];
    for &x in states.iter() {
        for &(start, end) in ranges.iter() {
            // Find a generator state whose next state is `x`: step back by
            // the inverse of the multiplier.
            let a: u64 = 0x5D588B656C078965;
            let mut inv: u64 = 1;
            for _ in 0..6 {
                inv = inv.wrapping_mul(2u64.wrapping_sub(a.wrapping_mul(inv)));
            }
            assert_eq!(a.wrapping_mul(inv), 1);
            let prev = x.wrapping_sub(0x00269EC3).wrapping_mul(inv);
            let mut g = Lcrng::new(prev);
            let expected = float_draw(x, start, end);
            assert_eq!(g.number_in_range_inclusive(start, end), expected, "x = {x}, range = {start}..={end}");
        }
    }
}

#[test]
fn a_draw_at_the_top_of_the_state_space_is_the_range_end() {
    // 2^64 - 1024 and above round to 2^64, where the formula reaches
    // `end + 1`; the draw keeps to `end`.
    let a: u64 = 0x5D588B656C078965;
    let mut inv: u64 = 1;
    for _ in 0..6 {
        inv = inv.wrapping_mul(2u64.wrapping_sub(a.wrapping_mul(inv)));
    }
    let x = u64::MAX - 1023;
    let prev = x.wrapping_sub(0x00269EC3).wrapping_mul(inv);
    let mut g = Lcrng::new(prev);
    assert_eq!(g.number_in_range_inclusive(0, 4), 4);
    let mut g = Lcrng::new(prev);
    assert_eq!(g.number_in_range_inclusive(1, 1), 1);
    let mut g = Lcrng::new(prev);
    assert!(g._chance(1, 1));
    let mut g = Lcrng::new(prev);
    assert!(!g._chance(0, 7));
    // One state lower the formula itself stays in range.
    let below = (u64::MAX - 1024).wrapping_sub(0x00269EC3).wrapping_mul(inv);
    for &(start, end) in [(0u64, 4u64), (1, 1), (0, 99), (1, 114_000_000)].iter() {
        let mut g = Lcrng::new(below);
        let n = g.number_in_range_inclusive(start, end);
        assert!(start <= n && n <= end);
        let mut g = Lcrng::new(prev);
        assert_eq!(g.number_in_range_inclusive(start, end), end);
    }
}

#[test]
fn chance_compares_a_draw_with_the_numerator() {
    let mut g = Lcrng::new(42);
    let mut shadow = Lcrng::new(42);
    for _ in 0..1000 {
        let expected = shadow.number_in_range_inclusive(1, 3) <= 1;
        assert_eq!(g._chance(1, 3), expected);
    }
    let mut g = Lcrng::new(7);
    for _ in 0..100 {
        assert!(g._chance(10, 10));
    }
}
