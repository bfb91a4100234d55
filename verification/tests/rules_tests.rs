use monster_hell::rules::{
    advance_floor, apply_pickup, begin_shot, damage_player, door_opens, hit_sound_for_roll,
    minimap_marker_shown, pick_hit_sound, pickup_key, shot_feedback, start_run, starting_loadout,
    take_decal,
    use_medkit, weapon_switch, FloorTransition, Inventory, ItemKind, MedkitOutcome,
    PlayerConsumables, PlayerLoadout, PlayerStats, ShotSpec, WeaponType,
};

#[test]
fn a_run_starts_with_the_pistol_only() {
    let l = starting_loadout();
    assert_eq!(l.weapon, WeaponType::Pistol);
    assert!(!l.shotgun_unlocked);
    assert_eq!(l.shotgun_ammo, 0);
    let mut stats = PlayerStats { hp: 12 };
    let mut cons = PlayerConsumables { medkits: 3 };
    let mut loadout = PlayerLoadout { weapon: WeaponType::Shotgun, shotgun_unlocked: true, shotgun_ammo: 9 };
    start_run(&mut stats, &mut cons, &mut loadout);
    assert_eq!(stats.hp, 100);
    assert_eq!(cons.medkits, 0);
    assert_eq!(loadout, starting_loadout());
    assert!(!Inventory::default().has_key);
    assert_eq!(PlayerConsumables::default().medkits, 0);
}

#[test]
fn shotgun_is_taken_only_once_found() {
    let mut l = starting_loadout();
    weapon_switch(&mut l, false, true);
    assert_eq!(l.weapon, WeaponType::Pistol);
    l.shotgun_unlocked = true;
    weapon_switch(&mut l, false, true);
    assert_eq!(l.weapon, WeaponType::Shotgun);
    weapon_switch(&mut l, true, false);
    assert_eq!(l.weapon, WeaponType::Pistol);
    weapon_switch(&mut l, true, true);
    assert_eq!(l.weapon, WeaponType::Shotgun);
    weapon_switch(&mut l, false, false);
    assert_eq!(l.weapon, WeaponType::Shotgun);
}

#[test]
fn weapons_fire_their_pellets() {
    let mut l = starting_loadout();
    assert_eq!(begin_shot(&mut l), Some(ShotSpec { pellets: 1, damage: 12 }));
    let mut s = PlayerLoadout { weapon: WeaponType::Shotgun, shotgun_unlocked: true, shotgun_ammo: 1 };
    assert_eq!(begin_shot(&mut s), Some(ShotSpec { pellets: 7, damage: 6 }));
    assert_eq!(s.shotgun_ammo, 0);
    assert_eq!(begin_shot(&mut s), None);
    assert_eq!(s.shotgun_ammo, 0);
}

#[test]
fn shot_feedback_matches_what_was_hit() {
    let f = shot_feedback(false, false);
    assert!(f.miss_tracer && !f.impact_sound && !f.hit_sound);
    let f = shot_feedback(false, true);
    assert!(!f.miss_tracer && f.impact_sound && !f.hit_sound);
    let f = shot_feedback(true, true);
    assert!(!f.miss_tracer && !f.impact_sound && f.hit_sound);
}

#[test]
fn a_shot_leaves_at_most_three_bullet_holes() {
    let mut budget = monster_hell::rules::DECAL_BUDGET;
    let taken = (0..7).filter(|_| take_decal(&mut budget)).count();
    assert_eq!(taken, 3);
    assert_eq!(budget, 0);
}

#[test]
fn hit_sounds_are_one_of_five() {
    assert_eq!(hit_sound_for_roll(7), 2);
    assert_eq!(hit_sound_for_roll(u32::MAX), 0);
    for _ in 0..100 {
        assert!(pick_hit_sound() < 5);
    }
}

#[test]
fn player_dies_at_zero_health_and_is_restored() {
    let mut s = PlayerStats { hp: 10 };
    assert!(!damage_player(&mut s, 3));
    assert_eq!(s.hp, 7);
    assert!(damage_player(&mut s, 7));
    assert_eq!(s.hp, 100);
    let mut s = PlayerStats { hp: 5 };
    assert!(damage_player(&mut s, 18));
    assert_eq!(s.hp, 100);
}

#[test]
fn pickups_fill_the_inventory() {
    let mut inv = Inventory::default();
    let mut cons = PlayerConsumables::default();
    let mut l = starting_loadout();
    apply_pickup(&mut inv, &mut cons, &mut l, ItemKind::Health(25));
    assert_eq!(cons.medkits, 1);
    apply_pickup(&mut inv, &mut cons, &mut l, ItemKind::AmmoShells(6));
    assert_eq!(l.shotgun_ammo, 6);
    assert!(!l.shotgun_unlocked);
    apply_pickup(&mut inv, &mut cons, &mut l, ItemKind::Shotgun { ammo: 8 });
    assert!(l.shotgun_unlocked);
    assert_eq!(l.shotgun_ammo, 14);
    assert_eq!(l.weapon, WeaponType::Pistol);
    assert!(!inv.has_key);
    apply_pickup(&mut inv, &mut cons, &mut l, ItemKind::Key);
    assert!(inv.has_key);
}

#[test]
fn shell_keys_are_taken_once() {
    let mut inv = Inventory::default();
    assert!(pickup_key(&mut inv));
    assert!(!pickup_key(&mut inv));
    assert!(inv.has_key);
}

#[test]
fn medkits_heal_up_to_full() {
    let mut s = PlayerStats { hp: 50 };
    let mut c = PlayerConsumables { medkits: 0 };
    assert_eq!(use_medkit(&mut s, &mut c), MedkitOutcome::NoMedkits);
    c.medkits = 2;
    assert_eq!(use_medkit(&mut s, &mut c), MedkitOutcome::Used);
    assert_eq!((s.hp, c.medkits), (75, 1));
    s.hp = 90;
    assert_eq!(use_medkit(&mut s, &mut c), MedkitOutcome::Used);
    assert_eq!((s.hp, c.medkits), (100, 0));
    c.medkits = 1;
    assert_eq!(use_medkit(&mut s, &mut c), MedkitOutcome::HpFull);
    assert_eq!((s.hp, c.medkits), (100, 1));
}

#[test]
fn locked_doors_need_the_key() {
    assert!(!door_opens(true, false));
    assert!(door_opens(true, true));
    assert!(door_opens(false, false));
}

#[test]
fn ten_maze_floors_then_back_to_the_menu() {
    let mut stats = PlayerStats { hp: 40 };
    let mut f = 1u32;
    for expected in 2..=10u32 {
        assert_eq!(advance_floor(&mut f, &mut stats), FloorTransition::NextMaze);
        assert_eq!(f, expected);
        assert_eq!(stats.hp, 40);
    }
    assert_eq!(advance_floor(&mut f, &mut stats), FloorTransition::RunCleared);
    assert_eq!(f, 1);
    assert_eq!(stats.hp, 100);
}

#[test]
fn minimap_shows_one_marker_per_enemy_up_to_the_pool() {
    assert!(minimap_marker_shown(0, 1));
    assert!(!minimap_marker_shown(1, 1));
    assert!(minimap_marker_shown(31, 40));
    assert!(!minimap_marker_shown(32, 40));
}

#[test]
fn weapon_labels() {
    assert_eq!(WeaponType::Pistol.label(), "Pistol");
    assert_eq!(WeaponType::Shotgun.label(), "Shotgun");
}
