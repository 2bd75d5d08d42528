use glam::Vec2;
use sim_core::config::{Config, SpawnTool};

#[test]
fn default_config_has_expected_values() {
    let cfg = Config::default();

    // k-NN settings
    assert_eq!(cfg.attract_from_kn, 0);
    assert_eq!(cfg.kill_from_kn, 0);

    // Radii (held squared) and step length
    assert_eq!(cfg.influence_radius2, (60.0f32 * 60.0f32).to_bits());
    assert_eq!(cfg.kill_radius2, (30.0f32 * 30.0f32).to_bits());
    assert_eq!(cfg.step, Vec2::splat(5.0));

    // Tropism
    assert_eq!(cfg.tropism, Vec2::new(0.0, 0.0));

    // Spawn settings
    assert_eq!(cfg.spawn_tool, SpawnTool::OvalAttractors);
    assert_eq!(cfg.spawn_attractors, 100);
    assert_eq!(cfg.spawn_rect_half_extents, Vec2::new(30.0, 30.0));
    assert_eq!(cfg.spawn_oval_radii, Vec2::new(30.0, 30.0));
}

#[test]
fn spawn_tool_equality_and_copy_semantics() {
    let t1 = SpawnTool::RootNode;
    let t2 = t1; // Copy
    assert_eq!(t1, t2);

    let t3 = SpawnTool::RectAttractors;
    assert_ne!(t1, t3);
}

#[test]
fn config_is_copy_and_clone() {
    let cfg = Config::default();
    let mut cfg2 = cfg; // Copy
    cfg2.influence_radius2 = (80.0f32 * 80.0f32).to_bits();

    // The value copied from should remain unchanged.
    assert_eq!(f32::from_bits(cfg.influence_radius2), 60.0 * 60.0);
    assert_eq!(f32::from_bits(cfg2.influence_radius2), 80.0 * 80.0);

    let cfg3 = cfg2.clone();
    assert_eq!(cfg2.influence_radius2, cfg3.influence_radius2);
}

#[test]
fn influence_radius_is_not_smaller_than_kill_radius_in_default() {
    let cfg = Config::default();
    assert!(f32::from_bits(cfg.influence_radius2) >= f32::from_bits(cfg.kill_radius2));
}

#[test]
fn default_config_holds_positive_zero_and_whole_numbers_exactly() {
    let cfg = Config::default();
    assert_eq!(cfg.tropism.x.to_bits(), 0);
    assert_eq!(cfg.tropism.y.to_bits(), 0);
    assert_eq!(cfg.step.x.to_bits(), 5.0f32.to_bits());
    assert_eq!(cfg.step.y.to_bits(), 5.0f32.to_bits());
}
