use ray_tracer::shader::{diffuse_lobe_depth, next_step, TraceStep};

#[test]
fn nearer_object_is_shaded() {
    assert_eq!(next_step(0, Some(10), Some(20)), TraceStep::Surface);
    assert_eq!(next_step(0, Some(10), None), TraceStep::Surface);
}

#[test]
fn nearer_or_equal_light_emits() {
    assert_eq!(next_step(3, Some(20), Some(10)), TraceStep::Emit);
    assert_eq!(next_step(3, Some(10), Some(10)), TraceStep::Emit);
}

#[test]
fn lone_light_emits_for_every_depth() {
    for d in [0, 1, 39, 40] {
        assert_eq!(next_step(d, None, Some(7)), TraceStep::Emit);
    }
}

#[test]
fn nothing_hit_is_background() {
    assert_eq!(next_step(0, None, None), TraceStep::Background);
}

#[test]
fn deep_rays_are_cut_off() {
    assert_eq!(next_step(40, Some(1), None), TraceStep::Surface);
    assert_eq!(next_step(41, Some(1), None), TraceStep::Cutoff);
    assert_eq!(next_step(41, None, Some(1)), TraceStep::Cutoff);
    assert_eq!(next_step(i32::MAX, None, None), TraceStep::Cutoff);
}

#[test]
fn diffuse_lobe_starts_deep() {
    assert_eq!(diffuse_lobe_depth(0), 35);
    assert_eq!(diffuse_lobe_depth(34), 35);
    assert_eq!(diffuse_lobe_depth(35), 36);
    assert_eq!(diffuse_lobe_depth(40), 41);
}
