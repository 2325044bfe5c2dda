use ray_tracer::light::{choose_index, first_light_hit};

#[test]
fn first_light_in_list_order_wins() {
    let answers = [None, Some(9u32), Some(2), None];
    let probe = |i: usize| answers[i];
    assert_eq!(first_light_hit(answers.len(), &probe), Some((1, 9)));
    assert_eq!(first_light_hit(1, &probe), None);
    assert_eq!(first_light_hit(0, &probe), None);
}

#[test]
fn chosen_index_is_in_range() {
    assert_eq!(choose_index(0), None);
    assert_eq!(choose_index(1), Some(0));
    let mut seen = [false; 4];
    for _ in 0..400 {
        let i = choose_index(4).unwrap();
        assert!(i < 4);
        seen[i] = true;
    }
    assert!(seen.iter().all(|s| *s));
}

use ray_tracer::light::disk_light_sampler;
use ray_tracer::sampler::{AreaSampler, SamplerKind};

#[test]
fn disk_light_sampler_is_renewed_once_exhausted() {
    let mut s = disk_light_sampler(None, SamplerKind::Uniform);
    assert!(s.has_next());
    let mut n = 0;
    while s.sample().is_some() {
        n += 1;
    }
    assert_eq!(n, 9);
    assert!(!s.has_next());
    let mut fresh = disk_light_sampler(Some(s), SamplerKind::Uniform);
    assert!(fresh.has_next());
    fresh.sample();
    fresh.sample();
    let mut kept = disk_light_sampler(Some(fresh), SamplerKind::WhiteNoise);
    let mut left = 0;
    while kept.sample().is_some() {
        left += 1;
    }
    // the partly used grid sampler is kept, not replaced by white noise
    assert_eq!(left, 7);
}

#[test]
fn blue_noise_disk_light_sampler_stays_in_disk() {
    let mut s = disk_light_sampler(None, SamplerKind::BlueNoise);
    let mut n = 0;
    while let Some(p) = s.sample_in_disk() {
        assert!(p.is_in_disk());
        n += 1;
    }
    assert_eq!(n, 9);
}
