use gravity_scene::scene::weapon::{WeaponManager, WeaponType};

#[test]
fn starts_with_basic_blaster() {
    let m = WeaponManager::new();
    assert_eq!(m.current_weapon(), WeaponType::BasicBlaster);
    assert_eq!(m.current_weapon_index(), 0);
    assert_eq!(m.available_weapons().len(), 9);
}

#[test]
fn cycling_wraps_both_ways() {
    let mut m = WeaponManager::new();
    m.cycle_weapon_backward();
    assert_eq!(m.current_weapon(), WeaponType::LargeBodyLauncher);
    m.cycle_weapon();
    assert_eq!(m.current_weapon(), WeaponType::BasicBlaster);
    m.cycle_weapon();
    assert_eq!(m.current_weapon(), WeaponType::Shotgun);
}

#[test]
fn cycle_then_back_restores_and_full_cycle_returns() {
    let mut m = WeaponManager::new();
    m.switch_weapon(WeaponType::ChainLightning);
    let start = m.current_weapon_index();
    m.cycle_weapon();
    m.cycle_weapon_backward();
    assert_eq!(m.current_weapon_index(), start);
    for _ in 0..9 {
        m.cycle_weapon();
    }
    assert_eq!(m.current_weapon(), WeaponType::ChainLightning);
}

#[test]
fn switch_selects_by_kind() {
    let mut m = WeaponManager::new();
    m.switch_weapon(WeaponType::LaserCannon);
    assert_eq!(m.current_weapon_index(), 7);
    assert_eq!(m.current_weapon(), WeaponType::LaserCannon);
}
