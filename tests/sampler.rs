use ray_tracer::sampler::{
    conflict, first_in_disk, grid_edge, throw_darts, AreaSampler, BlueNoiseSampler, JitteredSampler, SamplePoint, Sampler,
    SamplerKind, UniformSampler, WhiteNoiseSampler, RANDOM_STEPS,
};

fn scaled(p: &SamplePoint, range: f64) -> (f64, f64) {
    (range * p.x as f64 / p.den as f64, range * p.y as f64 / p.den as f64)
}

fn drain<S: AreaSampler>(s: &mut S) -> Vec<SamplePoint> {
    let mut v = Vec::new();
    while let Some(p) = s.sample() {
        v.push(p);
    }
    v
}

#[test]
fn uniform_sampler_gives_three_by_three_grid() {
    let mut s = UniformSampler::new(9);
    let pts = drain(&mut s);
    assert_eq!(pts.len(), 9);
    let spacing = 4.0 / 3.0;
    for (k, p) in pts.iter().enumerate() {
        let (x, y) = scaled(p, 4.0);
        let col = (k % 3) as f64;
        let row = (k / 3) as f64;
        assert!((x - (spacing / 2.0 + col * spacing)).abs() < 1e-9);
        assert!((y - (spacing / 2.0 + row * spacing)).abs() < 1e-9);
    }
    let (x0, _) = scaled(&pts[0], 4.0);
    let (x1, _) = scaled(&pts[1], 4.0);
    let (_, y3) = scaled(&pts[3], 4.0);
    let (_, y0) = scaled(&pts[0], 4.0);
    assert!((x1 - x0 - spacing).abs() < 1e-9);
    assert!((y3 - y0 - spacing).abs() < 1e-9);
    assert_eq!(s.sample(), None);
}

#[test]
fn uniform_sampler_rounds_rate_down_to_square() {
    assert_eq!(drain(&mut UniformSampler::new(10)).len(), 9);
    assert_eq!(drain(&mut UniformSampler::new(16)).len(), 16);
    assert_eq!(drain(&mut UniformSampler::new(1)).len(), 1);
    assert_eq!(drain(&mut UniformSampler::new(0)).len(), 0);
    assert_eq!(drain(&mut UniformSampler::new(-4)).len(), 0);
}

#[test]
fn uniform_single_cell_is_centre() {
    let mut s = UniformSampler::new(3);
    assert_eq!(s.sample(), Some(SamplePoint { x: 1, y: 1, den: 2 }));
    assert_eq!(s.sample(), None);
}

#[test]
fn grid_edge_is_floor_square_root() {
    assert_eq!(grid_edge(0), 0);
    assert_eq!(grid_edge(1), 1);
    assert_eq!(grid_edge(8), 2);
    assert_eq!(grid_edge(9), 3);
    assert_eq!(grid_edge(10), 3);
    assert_eq!(grid_edge(-1), 0);
    assert_eq!(grid_edge(i32::MAX), 46340);
}

#[test]
fn sampler_kind_from_int() {
    assert_eq!(SamplerKind::from_int(1).unwrap(), SamplerKind::WhiteNoise);
    assert_eq!(SamplerKind::from_int(2).unwrap(), SamplerKind::Uniform);
    assert_eq!(SamplerKind::from_int(3).unwrap(), SamplerKind::Jittered);
    assert_eq!(SamplerKind::from_int(4).unwrap(), SamplerKind::BlueNoise);
    assert!(SamplerKind::from_int(0).is_err());
    assert!(SamplerKind::from_int(5).is_err());
    assert!(SamplerKind::from_int(-1).is_err());
}

#[test]
fn jittered_points_stay_in_their_cells() {
    let mut s = JitteredSampler::new(4);
    let pts = drain(&mut s);
    assert_eq!(pts.len(), 4);
    for (k, p) in pts.iter().enumerate() {
        assert_eq!(p.den, 4 * RANDOM_STEPS);
        let cx = (2 * (k as u64 % 2) + 1) * RANDOM_STEPS;
        let cy = (2 * (k as u64 / 2) + 1) * RANDOM_STEPS;
        assert!(cx <= p.x && p.x < cx + RANDOM_STEPS);
        assert!(cy <= p.y && p.y < cy + RANDOM_STEPS);
    }
}

#[test]
fn white_noise_gives_rate_points() {
    let mut s = WhiteNoiseSampler::new(5);
    let pts = drain(&mut s);
    assert_eq!(pts.len(), 5);
    for p in &pts {
        assert_eq!(p.den, RANDOM_STEPS);
        assert!(p.x < RANDOM_STEPS && p.y < RANDOM_STEPS);
    }
    let mut d = WhiteNoiseSampler::new(50);
    let mut n = 0;
    while let Some(p) = d.sample_in_disk() {
        assert!(p.is_in_disk());
        n += 1;
    }
    assert_eq!(n, 50);
}

#[test]
fn disk_test_is_exact() {
    assert!(SamplePoint { x: 1, y: 1, den: 2 }.is_in_disk());
    assert!(!SamplePoint { x: 0, y: 0, den: 2 }.is_in_disk());
    // (0.5, 0) lies on the circle: not strictly inside
    assert!(!SamplePoint { x: 2, y: 0, den: 4 }.is_in_disk());
    assert!(SamplePoint { x: 2, y: 1, den: 4 }.is_in_disk());
}

#[test]
fn uniform_disk_keeps_inner_cells() {
    let mut s = UniformSampler::new(16);
    let mut pts = Vec::new();
    while let Some(p) = s.sample_in_disk() {
        pts.push(p);
    }
    // of a 4x4 grid, the corner cells' centres lie outside the disk
    assert_eq!(pts.len(), 12);
    assert_eq!(pts[0], SamplePoint { x: 3, y: 1, den: 8 });
    assert_eq!(pts[2], SamplePoint { x: 1, y: 3, den: 8 });
}

fn dist2(a: &SamplePoint, b: &SamplePoint) -> f64 {
    let dx = a.x as f64 - b.x as f64;
    let dy = a.y as f64 - b.y as f64;
    (dx * dx + dy * dy) / (RANDOM_STEPS as f64 * RANDOM_STEPS as f64)
}

#[test]
fn blue_noise_points_keep_apart() {
    for (rate, disk) in [(10, false), (9, true)] {
        let mut s = BlueNoiseSampler::new(rate, disk);
        let pts = drain(&mut s);
        assert_eq!(pts.len(), rate as usize);
        let min_d2 = 0.55f64 * 0.55 / rate as f64;
        for i in 0..pts.len() {
            if disk {
                assert!(pts[i].is_in_disk());
            }
            for j in 0..i {
                assert!(dist2(&pts[i], &pts[j]) >= min_d2 * 0.999999);
            }
        }
    }
}

#[test]
fn blue_noise_empty_for_no_rate() {
    let mut s = BlueNoiseSampler::new(0, false);
    assert_eq!(s.sample(), None);
}

#[test]
fn conflict_uses_distance_threshold() {
    let a = SamplePoint { x: 0, y: 0, den: RANDOM_STEPS };
    // 0.55 of the side is the threshold for a rate of 1
    let far = SamplePoint { x: 9227469, y: 0, den: RANDOM_STEPS };
    let near = SamplePoint { x: RANDOM_STEPS / 2, y: 0, den: RANDOM_STEPS };
    let seq = vec![a];
    assert!(!conflict(&seq, far, 1));
    assert!(conflict(&seq, near, 1));
    assert!(!conflict(&Vec::new(), near, 1));
    assert!(!conflict(&seq, near, 4));
    let just_under = SamplePoint { x: 9227468, y: 0, den: RANDOM_STEPS };
    assert!(conflict(&seq, just_under, 1));
}

#[test]
fn any_sampler_follows_its_kind() {
    let mut u = Sampler::new(SamplerKind::Uniform, 9, true);
    assert_eq!(drain(&mut u).len(), 9);
    let mut w = Sampler::new(SamplerKind::WhiteNoise, 3, false);
    assert_eq!(drain(&mut w).len(), 3);
    let mut j = Sampler::new(SamplerKind::Jittered, 9, false);
    assert_eq!(drain(&mut j).len(), 9);
    let mut b = Sampler::new(SamplerKind::BlueNoise, 9, true);
    let pts = drain(&mut b);
    assert_eq!(pts.len(), 9);
    assert!(pts.iter().all(|p| p.is_in_disk()));
}

fn steps(x: u64, y: u64) -> SamplePoint {
    SamplePoint { x, y, den: RANDOM_STEPS }
}

#[test]
fn darts_keep_fitting_candidates() {
    let a = steps(1000, 1000);
    let b = steps(2000000, 1000);
    let c = steps(12000000, 1000);
    assert_eq!(throw_darts(&vec![a, b, c], 2, false), Some(vec![a, c]));
    assert_eq!(throw_darts(&vec![a, c, b], 2, false), Some(vec![a, c]));
}

#[test]
fn darts_give_up_after_eleven_misfits() {
    let a = steps(1000, 1000);
    let b = steps(2000000, 1000);
    let c = steps(12000000, 1000);
    let mut ten = vec![a];
    ten.extend(std::iter::repeat(b).take(10));
    ten.push(c);
    assert_eq!(throw_darts(&ten, 2, false), Some(vec![a, c]));
    let mut eleven = vec![a];
    eleven.extend(std::iter::repeat(b).take(11));
    eleven.push(c);
    assert_eq!(throw_darts(&eleven, 2, false), None);
}

#[test]
fn darts_need_enough_candidates() {
    assert_eq!(throw_darts(&vec![steps(1000, 1000)], 2, false), None);
    assert_eq!(throw_darts(&Vec::new(), 0, false), Some(Vec::new()));
    assert_eq!(throw_darts(&Vec::new(), 1, false), None);
}

#[test]
fn darts_in_disk_pass_over_outside_points() {
    let corner = steps(1000, 1000);
    let centre = steps(8000000, 8000000);
    let edge = steps(12000000, 1000);
    assert_eq!(throw_darts(&vec![corner, centre, edge], 1, true), Some(vec![centre]));
    assert_eq!(throw_darts(&vec![corner, centre, edge], 1, false), Some(vec![corner]));
}

#[test]
fn first_in_disk_picks_first_inside() {
    let corner = steps(1000, 1000);
    let centre = steps(8000000, 8000000);
    let near = steps(8000000, 9000000);
    assert_eq!(first_in_disk(&vec![corner, centre, near]), Some(centre));
    assert_eq!(first_in_disk(&vec![near, centre]), Some(near));
    assert_eq!(first_in_disk(&vec![corner, corner]), None);
    assert_eq!(first_in_disk(&Vec::new()), None);
}

#[test]
fn blue_noise_disk_draws_come_from_the_end() {
    let mut s = BlueNoiseSampler::new(6, false);
    let mut n = 0;
    while let Some(p) = s.sample_in_disk() {
        assert!(p.is_in_disk());
        n += 1;
    }
    assert!(n <= 6);
    assert_eq!(s.sample(), None);
}
