use gravity_scene::engine::EntityId;
use gravity_scene::graphics::{Color, PrimitiveType, CHANNEL_MAX};
use gravity_scene::scene::bullet::fractal::FractalPattern;
use gravity_scene::scene::enemy::behaviors::shield::{count_active_shields, ShieldGeneration, ShieldOrbCoreData};
use gravity_scene::scene::enemy::behaviors::snake::{find_snake_target, SnakeChain, MAX_SNAKE_SEGMENTS};
use gravity_scene::scene::enemy::behaviors::splitter::SplitterData;
use gravity_scene::scene::large_body::body_type::LargeBodyType as ModularBodyType;
use gravity_scene::scene::large_body::spawner::BodySpawner;
use gravity_scene::scene::large_body::LargeBodyType;
use gravity_scene::ui::{HorizontalAlign, TextStyle, VerticalAlign};

#[test]
fn fractal_child_counts() {
    assert_eq!(FractalPattern::BinaryTree.child_count(), 2);
    assert_eq!(FractalPattern::SierpinskiTriangle.child_count(), 3);
    assert_eq!(FractalPattern::Octahedron3D.child_count(), 6);
    assert_eq!(FractalPattern::Cube3D.child_count(), 8);
    assert_eq!(FractalPattern::Icosahedron3D.child_count(), 12);
    assert_eq!(FractalPattern::SphereExplosion3D.child_count(), 10);
    assert_eq!(FractalPattern::from_index(7), FractalPattern::Cube3D);
    assert_eq!(FractalPattern::from_index(40), FractalPattern::SphereExplosion3D);
    for _ in 0..50 {
        let n = FractalPattern::random().child_count();
        assert!((2..=12).contains(&n));
    }
}

#[test]
fn splitter_generations() {
    let s = SplitterData::new(3);
    assert_eq!(s.current_generation, 0);
    let c = s.next_generation().next_generation().next_generation();
    assert_eq!(c.current_generation, 3);
    assert_eq!(c.max_generation, 3);
    assert!(s.splits_on_death());
    assert!(!c.splits_on_death());
}

#[test]
fn shield_core_vulnerability_threshold() {
    let ids: Vec<EntityId> = (0..10).map(EntityId).collect();
    let mut core = ShieldOrbCoreData::new(ids);
    assert!(!core.is_vulnerable);
    core.update_vulnerability(6);
    assert!(!core.is_vulnerable);
    core.update_vulnerability(5);
    assert!(core.is_vulnerable);
    let mut odd = ShieldOrbCoreData::new((0..3).map(EntityId).collect());
    odd.update_vulnerability(2);
    assert!(!odd.is_vulnerable);
    odd.update_vulnerability(1);
    assert!(odd.is_vulnerable);
    let mut bare = ShieldOrbCoreData::new(vec![]);
    bare.update_vulnerability(0);
    assert!(bare.is_vulnerable);
    let g = ShieldGeneration { current_generation: 1, max_generation: 2, core_id: EntityId(4) };
    assert!(g.spawns_on_death());
    assert!(!g.next_generation().spawns_on_death());
}

#[test]
fn snake_chain_bookkeeping() {
    let mut chain = SnakeChain::new();
    assert_eq!(chain.max_segments, MAX_SNAKE_SEGMENTS);
    assert_eq!(chain.route_damage_target(), None);
    chain.add_segment(EntityId(1));
    chain.add_segment(EntityId(2));
    chain.add_segment(EntityId(3));
    assert_eq!(chain.route_damage_target(), Some(EntityId(3)));
    chain.remove_segment(EntityId(2));
    assert_eq!(chain.segment_ids, vec![EntityId(1), EntityId(3)]);
    assert_eq!(chain.remove_last_segment(), Some(EntityId(3)));
    assert_eq!(chain.segment_count(), 1);
    assert!(chain.can_grow());
    for i in 0..29 {
        chain.add_segment(EntityId(10 + i));
    }
    assert!(!chain.can_grow());
    assert_eq!(find_snake_target(1.5f32, &[0u8; 3], EntityId(0), 7.0f32), 7.0);
}

#[test]
fn large_body_palettes() {
    assert_eq!(LargeBodyType::Planet.color(), Color::Cyan);
    assert_eq!(ModularBodyType::Planet.color(), Color::Navy);
    assert_eq!(LargeBodyType::ExoticMatter.color(), Color::Magenta);
    assert_eq!(ModularBodyType::ExoticMatter.color(), Color::Pink);
    assert_eq!(LargeBodyType::LauncherMass.primitive_type(), PrimitiveType::Icosahedron);
    assert_eq!(ModularBodyType::Star.primitive_type(), PrimitiveType::Sphere);
    assert_eq!(ModularBodyType::Star.atmosphere_color(), Color::Orange);
    assert_eq!(
        ModularBodyType::WhiteHole.atmosphere_color(),
        Color::Rgba { r: 1000, g: 1000, b: 1000, a: 100 }
    );
    match LargeBodyType::Debug.color() {
        Color::Rgba { r, g, b, a } => {
            assert_eq!(a, CHANNEL_MAX);
            assert!(r <= CHANNEL_MAX && g <= CHANNEL_MAX && b <= CHANNEL_MAX);
        }
        other => panic!("expected a random colour, got {:?}", other),
    }
}

#[test]
fn text_style_defaults_and_alignment() {
    let s = TextStyle::new(18, Color::Yellow);
    assert_eq!(s.font_size, 18);
    assert_eq!(s.align_h, HorizontalAlign::Left);
    assert_eq!(s.align_v, VerticalAlign::Top);
    let r = s.with_alignment(HorizontalAlign::Right, VerticalAlign::Bottom);
    assert_eq!(r.color, Color::Yellow);
    assert_eq!(r.align_h, HorizontalAlign::Right);
    assert_eq!(r.align_v, VerticalAlign::Bottom);
    let d = TextStyle::default();
    assert_eq!(d.font_size, 16);
    assert_eq!(d.color, Color::White);
}

#[test]
fn spawner_population_policy() {
    let mut s = BodySpawner::new();
    assert!(s.wants_body(0));
    assert!(s.wants_body(5));
    assert!(!s.wants_body(6));
    assert!(!s.wants_body(10));
    s.set_target_body_count(20);
    assert!(s.wants_body(9));
    assert!(!s.wants_body(10));
    assert_eq!(s.enabled_body_types.len(), 7);
    s.add_body_type(ModularBodyType::Planet);
    assert_eq!(s.enabled_body_types.len(), 7);
    s.add_body_type(ModularBodyType::LauncherMass);
    assert_eq!(s.enabled_body_types.len(), 8);
    s.remove_body_type(ModularBodyType::LauncherMass);
    assert!(!s.enabled_body_types.contains(&ModularBodyType::LauncherMass));
    assert_eq!(s.enabled_body_types.len(), 7);
}

#[test]
fn fractal_depth_limits_shrink_with_more_children() {
    assert_eq!(FractalPattern::BinaryTree.depth_range(), (5, 8));
    assert_eq!(FractalPattern::HelixSpiral3D.depth_range(), (5, 8));
    assert_eq!(FractalPattern::KochSnowflake.depth_range(), (4, 6));
    assert_eq!(FractalPattern::Octahedron3D.depth_range(), (3, 5));
    assert_eq!(FractalPattern::Cube3D.depth_range(), (3, 3));
    assert_eq!(FractalPattern::Icosahedron3D.depth_range(), (3, 3));
}

#[test]
fn random_fractal_depth_stays_in_its_range() {
    let mut seen_low = false;
    let mut seen_high = false;
    for _ in 0..400 {
        let d = FractalPattern::Octahedron3D.random_max_depth();
        assert!((3..=5).contains(&d));
        seen_low |= d == 3;
        seen_high |= d == 5;
        assert_eq!(FractalPattern::SphereExplosion3D.random_max_depth(), 3);
    }
    assert!(seen_low && seen_high);
}

#[test]
fn only_alive_shields_of_the_core_count() {
    let core = EntityId(1);
    let shields = vec![
        (core, true),
        (EntityId(2), true),
        (core, false),
        (core, true),
        (EntityId(1), true),
    ];
    assert_eq!(count_active_shields(&shields, core), 3);
    assert_eq!(count_active_shields(&shields, EntityId(2)), 1);
    assert_eq!(count_active_shields(&Vec::new(), core), 0);
    let mut data = ShieldOrbCoreData::new(vec![EntityId(10), EntityId(11), EntityId(12), EntityId(13)]);
    data.update_vulnerability(count_active_shields(&shields, core));
    assert!(!data.is_vulnerable);
    data.update_vulnerability(count_active_shields(&shields, EntityId(2)));
    assert!(data.is_vulnerable);
}

#[test]
fn fractal_depth_follows_the_draw() {
    assert_eq!(FractalPattern::BinaryTree.max_depth_for(0), 5);
    assert_eq!(FractalPattern::BinaryTree.max_depth_for(3), 8);
    assert_eq!(FractalPattern::Octahedron3D.max_depth_for(1), 4);
    assert_eq!(FractalPattern::Cube3D.max_depth_for(0), 3);
}
