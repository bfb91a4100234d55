use monster_hell::gate::{
    decimal_text, gate_level_plan, GateFailure, HarnessError, LevelPlan, Piece, Vec3Bits,
};

fn v(x: f32, y: f32, z: f32) -> Vec3Bits {
    Vec3Bits { x: x.to_bits(), y: y.to_bits(), z: z.to_bits() }
}

fn floor() -> Piece {
    Piece::Floor { pos: v(0.0, 0.0, 0.0), size: v(60.0, 0.2, 60.0) }
}

fn plan(pieces: Vec<Piece>) -> LevelPlan {
    LevelPlan { seed: 1, pieces, player_start: v(0.0, 1.0, 6.0) }
}

fn failure(p: &LevelPlan) -> Option<GateFailure> {
    match gate_level_plan(p) {
        Ok(()) => None,
        Err(HarnessError::Gate(f)) => Some(f),
        Err(_) => panic!("validation only reports its own failures"),
    }
}

#[test]
fn a_sound_plan_passes() {
    let p = plan(vec![
        floor(),
        Piece::Wall { pos: v(-30.0, 1.0, 0.0), size: v(0.3, 2.5, 60.0) },
        Piece::Door { pos: v(0.0, 1.0, -5.0), size: v(2.0, 2.2, 0.25), locked: true },
        Piece::Key { pos: v(1.0, 0.5, 1.0) },
        Piece::Light { pos: v(0.0, 4.0, 0.0), intensity: 20_000.0f32.to_bits(), range: 18.0f32.to_bits() },
    ]);
    assert!(gate_level_plan(&p).is_ok());
}

#[test]
fn empty_plan_is_refused() {
    assert_eq!(failure(&plan(vec![])), Some(GateFailure::NoPieces));
}

#[test]
fn more_than_two_thousand_pieces_are_refused() {
    let mut pieces = vec![floor(); 2000];
    assert_eq!(failure(&plan(pieces.clone())), None);
    pieces.push(floor());
    assert_eq!(failure(&plan(pieces)), Some(GateFailure::TooManyPieces));
}

#[test]
fn a_floor_is_required() {
    let p = plan(vec![Piece::Key { pos: v(0.0, 0.0, 0.0) }]);
    assert_eq!(failure(&p), Some(GateFailure::NoFloor));
}

#[test]
fn a_locked_door_needs_a_key() {
    let door = Piece::Door { pos: v(0.0, 1.0, 0.0), size: v(1.0, 2.0, 0.2), locked: true };
    assert_eq!(failure(&plan(vec![floor(), door])), Some(GateFailure::LockedDoorWithoutKey));
    let open_door = Piece::Door { pos: v(0.0, 1.0, 0.0), size: v(1.0, 2.0, 0.2), locked: false };
    assert_eq!(failure(&plan(vec![floor(), open_door])), None);
}

#[test]
fn player_start_must_be_finite_and_in_range() {
    let mut p = plan(vec![floor()]);
    p.player_start = v(0.0, f32::NAN, 0.0);
    assert_eq!(failure(&p), Some(GateFailure::PlayerStartOutOfRange));
    p.player_start = v(10_000.0, -10_000.0, 0.0);
    assert_eq!(failure(&p), None);
    p.player_start = v(10_000.001, 0.0, 0.0);
    assert_eq!(failure(&p), Some(GateFailure::PlayerStartOutOfRange));
    p.player_start = v(f32::INFINITY, 0.0, 0.0);
    assert_eq!(failure(&p), Some(GateFailure::PlayerStartOutOfRange));
}

#[test]
fn piece_positions_and_sizes_are_checked_in_order() {
    let bad_pos = Piece::Wall { pos: v(20_000.0, 0.0, 0.0), size: v(1.0, 1.0, 1.0) };
    assert_eq!(failure(&plan(vec![floor(), bad_pos])), Some(GateFailure::PiecePos(1)));
    let bad_size = Piece::Wall { pos: v(0.0, 0.0, 0.0), size: v(1.0, 0.0, 1.0) };
    assert_eq!(failure(&plan(vec![floor(), bad_size])), Some(GateFailure::PieceSize(1)));
    let negative = Piece::Floor { pos: v(0.0, 0.0, 0.0), size: v(1.0, 1.0, -1.0) };
    assert_eq!(failure(&plan(vec![negative, floor()])), Some(GateFailure::PieceSize(0)));
    let huge = Piece::Floor { pos: v(0.0, 0.0, 0.0), size: v(5000.5, 1.0, 1.0) };
    assert_eq!(failure(&plan(vec![huge])), Some(GateFailure::PieceSize(0)));
    let edge = Piece::Floor { pos: v(0.0, 0.0, 0.0), size: v(5000.0, 1.0, 1.0) };
    assert_eq!(failure(&plan(vec![edge])), None);
    // the first bad piece is reported
    let p = plan(vec![floor(), bad_size, bad_pos]);
    assert_eq!(failure(&p), Some(GateFailure::PieceSize(1)));
}

#[test]
fn key_positions_are_checked() {
    let key = Piece::Key { pos: v(0.0, f32::NEG_INFINITY, 0.0) };
    assert_eq!(failure(&plan(vec![floor(), key])), Some(GateFailure::KeyPos(1)));
}

#[test]
fn lights_are_checked() {
    let light = |pos: Vec3Bits, intensity: f32, range: f32| Piece::Light {
        pos,
        intensity: intensity.to_bits(),
        range: range.to_bits(),
    };
    let far = light(v(0.0, -10_001.0, 0.0), 10.0, 10.0);
    assert_eq!(failure(&plan(vec![floor(), far])), Some(GateFailure::LightPos(1)));
    let dark = light(v(0.0, 0.0, 0.0), 0.0, 10.0);
    assert_eq!(failure(&plan(vec![floor(), dark])), Some(GateFailure::LightIntensity(1)));
    let blinding = light(v(0.0, 0.0, 0.0), 200_001.0, 10.0);
    assert_eq!(failure(&plan(vec![floor(), blinding])), Some(GateFailure::LightIntensity(1)));
    let strongest = light(v(0.0, 0.0, 0.0), 200_000.0, 10.0);
    assert_eq!(failure(&plan(vec![floor(), strongest])), None);
    let no_range = light(v(0.0, 0.0, 0.0), 10.0, -0.0);
    assert_eq!(failure(&plan(vec![floor(), no_range])), Some(GateFailure::LightRange(1)));
    let nan_range = light(v(0.0, 0.0, 0.0), 10.0, f32::NAN);
    assert_eq!(failure(&plan(vec![floor(), nan_range])), Some(GateFailure::LightRange(1)));
}

#[test]
fn gate_messages_match_the_level_designer_texts() {
    assert_eq!(GateFailure::NoPieces.message(), "pieces 不能为空");
    assert_eq!(
        GateFailure::TooManyPieces.message(),
        "pieces 过多（>2000），灰盒 demo 请先控制规模"
    );
    assert_eq!(GateFailure::NoFloor.message(), "必须至少包含一个 Floor");
    assert_eq!(GateFailure::LockedDoorWithoutKey.message(), "存在 locked door 但没有 Key");
    assert_eq!(
        GateFailure::PlayerStartOutOfRange.message(),
        "player_start 超出允许范围或包含 NaN"
    );
    assert_eq!(GateFailure::PiecePos(3).message(), "piece[3] pos 非法");
    assert_eq!(GateFailure::PieceSize(12).message(), "piece[12] size 非法");
    assert_eq!(GateFailure::KeyPos(0).message(), "piece[0] key pos 非法");
    assert_eq!(GateFailure::LightPos(7).message(), "piece[7] light pos 非法");
    assert_eq!(GateFailure::LightIntensity(8).message(), "piece[8] light intensity 非法");
    assert_eq!(GateFailure::LightRange(9).message(), "piece[9] light range 非法");
}

#[test]
fn limits_are_the_bit_patterns_of_the_documented_values() {
    assert_eq!(monster_hell::gate::POS_LIMIT_BITS, 10_000.0f32.to_bits());
    assert_eq!(monster_hell::gate::SIZE_LIMIT_BITS, 5_000.0f32.to_bits());
    assert_eq!(monster_hell::gate::INTENSITY_LIMIT_BITS, 200_000.0f32.to_bits());
}

#[test]
fn decimal_text_writes_the_digits() {
    assert_eq!(decimal_text(0), "0");
    assert_eq!(decimal_text(7), "7");
    assert_eq!(decimal_text(10), "10");
    assert_eq!(decimal_text(2000), "2000");
    assert_eq!(decimal_text(usize::MAX), usize::MAX.to_string());
}
