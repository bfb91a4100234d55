use monster_hell::anim::{
    apply_enemy_hit, enemy_frame_rect, enemy_preview_controls, AnimOutcome, EnemyAnim,
    EnemyAnimState, EnemyPreview, EnemySpriteConfig, HitReaction,
};

#[test]
fn frame_rects_match_the_sheet() {
    assert_eq!(enemy_frame_rect(0), (172, 84, 465, 669));
    assert_eq!(enemy_frame_rect(7), (84, 1806, 557, 725));
    assert_eq!(enemy_frame_rect(11), (3092, 2310, 673, 245));
}

#[test]
fn walking_loops_over_its_frames() {
    let mut a = EnemyAnim::standard();
    assert_eq!(a.tick(false, false, false), AnimOutcome::Idle);
    let shown: Vec<AnimOutcome> = (0..5).map(|_| a.tick(true, false, false)).collect();
    let frames: Vec<u32> = shown
        .iter()
        .map(|o| match o {
            AnimOutcome::Advanced { frame, start_hold: false } => *frame,
            _ => panic!("a walking enemy advances"),
        })
        .collect();
    assert_eq!(frames, vec![1, 2, 3, 0, 1]);
}

#[test]
fn a_hit_plays_then_returns_to_walking() {
    let mut a = EnemyAnim::standard();
    let mut hp = 30;
    assert_eq!(apply_enemy_hit(&mut hp, &mut a, 12), HitReaction::Staggered);
    assert_eq!(hp, 18);
    assert_eq!(a.state, EnemyAnimState::Hit);
    assert_eq!(a.tick(true, false, false), AnimOutcome::Advanced { frame: 5, start_hold: false });
    assert_eq!(a.tick(true, true, false), AnimOutcome::Advanced { frame: 6, start_hold: false });
    assert_eq!(a.state, EnemyAnimState::Walk);
    assert_eq!(a.frame_i, 0);
}

#[test]
fn death_plays_once_then_holds() {
    let mut a = EnemyAnim::standard();
    let mut hp = 10;
    assert_eq!(apply_enemy_hit(&mut hp, &mut a, 12), HitReaction::Killed);
    assert_eq!(hp, 0);
    assert_eq!(a.state, EnemyAnimState::Die);
    assert_eq!(a.tick(true, false, false), AnimOutcome::Advanced { frame: 8, start_hold: false });
    assert_eq!(a.tick(true, false, false), AnimOutcome::Advanced { frame: 9, start_hold: false });
    assert_eq!(a.tick(true, false, false), AnimOutcome::Advanced { frame: 10, start_hold: true });
    assert_eq!(a.tick(true, false, false), AnimOutcome::Holding { frame: 10, despawn: false });
    assert_eq!(a.tick(false, false, true), AnimOutcome::Holding { frame: 10, despawn: true });
    // a dead enemy hit again stays dead
    assert_eq!(apply_enemy_hit(&mut hp, &mut a, 6), HitReaction::AlreadyDying);
    assert_eq!(hp, -6);
    assert_eq!(a.state, EnemyAnimState::Die);
}

#[test]
fn empty_sequences_show_nothing() {
    let mut a = EnemyAnim {
        walk_seq: vec![],
        hit_seq: vec![],
        die_seq: vec![],
        state: EnemyAnimState::Hit,
        frame_i: 0,
    };
    assert_eq!(a.tick(true, false, false), AnimOutcome::Idle);
    assert_eq!(a.state, EnemyAnimState::Walk);
    a.state = EnemyAnimState::Die;
    assert_eq!(a.tick(true, false, true), AnimOutcome::Idle);
    assert!(!a.holding_last_frame());
}

#[test]
fn preview_keys_step_within_the_sheet() {
    let mut p = EnemyPreview { enabled: false, frame: 0 };
    let mut cfg = EnemySpriteConfig { v_flip: true };
    enemy_preview_controls(&mut p, &mut cfg, false, false, false, true);
    assert_eq!(p.frame, 0);
    enemy_preview_controls(&mut p, &mut cfg, true, true, false, true);
    assert!(p.enabled);
    assert!(!cfg.v_flip);
    assert_eq!(p.frame, 1);
    enemy_preview_controls(&mut p, &mut cfg, false, false, true, false);
    enemy_preview_controls(&mut p, &mut cfg, false, false, true, false);
    assert_eq!(p.frame, 0);
    for _ in 0..20 {
        enemy_preview_controls(&mut p, &mut cfg, false, false, false, true);
    }
    assert_eq!(p.frame, 11);
}
