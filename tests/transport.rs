use voxel_tracer::transport::{trace_plan, Blend, TracePlan};

#[test]
fn past_the_budget_is_sky() {
    assert_eq!(trace_plan(3, 2, true, true), TracePlan::Sky);
    assert_eq!(trace_plan(3, 2, false, false), TracePlan::Sky);
    assert_eq!(trace_plan(u32::MAX, u32::MAX - 1, true, false), TracePlan::Sky);
}

#[test]
fn last_level_spawns_no_rays() {
    assert_eq!(
        trace_plan(2, 2, true, true),
        TracePlan::Surface { reflect: false, refract: false, blend: Blend::ReflectiveTransparent }
    );
    assert_eq!(
        trace_plan(0, 0, true, false),
        TracePlan::Surface { reflect: false, refract: false, blend: Blend::Reflective }
    );
}

#[test]
fn earlier_levels_spawn_marked_rays() {
    assert_eq!(
        trace_plan(0, 2, true, false),
        TracePlan::Surface { reflect: true, refract: false, blend: Blend::Reflective }
    );
    assert_eq!(
        trace_plan(1, 2, false, true),
        TracePlan::Surface { reflect: true, refract: true, blend: Blend::Transparent }
    );
    assert_eq!(
        trace_plan(1, 2, true, true),
        TracePlan::Surface { reflect: true, refract: true, blend: Blend::ReflectiveTransparent }
    );
}

#[test]
fn opaque_matte_surface_is_direct_only() {
    assert_eq!(
        trace_plan(0, 2, false, false),
        TracePlan::Surface { reflect: false, refract: false, blend: Blend::Direct }
    );
}

#[test]
fn recursion_levels_are_bounded() {
    let max = 5u32;
    let mut depth = 0u32;
    let mut levels = 0;
    loop {
        levels += 1;
        match trace_plan(depth, max, true, false) {
            TracePlan::Surface { reflect: true, .. } => depth += 1,
            _ => break,
        }
    }
    assert_eq!(levels, max + 1);
}

#[test]
fn clear_surface_at_last_level_spawns_no_rays() {
    assert_eq!(
        trace_plan(2, 2, false, true),
        TracePlan::Surface { reflect: false, refract: false, blend: Blend::Transparent }
    );
}
