use vstd::prelude::*;
use vstd::string::StringExecFns;

verus! {

// Coordinates, sizes and light settings of a level plan are `f32` values.
// The library holds each as its IEEE-754 bit pattern (`f32::to_bits`), and
// states every check on that pattern: for finite values of one sign the
// order of the patterns is the order of the numbers, and every pattern above
// that of infinity is a NaN.

/// Bit pattern of `10_000.0f32`, the largest coordinate magnitude accepted.
pub const POS_LIMIT_BITS: u32 = 0x461C_4000;

/// Bit pattern of `5_000.0f32`, the largest piece size or light range.
pub const SIZE_LIMIT_BITS: u32 = 0x459C_4000;

/// Bit pattern of `200_000.0f32`, the largest light intensity.
pub const INTENSITY_LIMIT_BITS: u32 = 0x4843_5000;

/// Largest number of pieces a level plan may hold.
pub const MAX_PIECES: usize = 2000;

/// A point or extent in 3D, each coordinate the bit pattern of an `f32`.
#[derive(Debug, Clone, Copy, PartialEq, Eq, Structural)]
pub struct Vec3Bits {
    pub x: u32,
    pub y: u32,
    pub z: u32,
}

/// One building block of the level shell, with its `f32` values as bit
/// patterns.
#[derive(Debug, Clone, Copy, PartialEq, Eq, Structural)]
pub enum Piece {
    Floor { pos: Vec3Bits, size: Vec3Bits },
    Wall { pos: Vec3Bits, size: Vec3Bits },
    Door { pos: Vec3Bits, size: Vec3Bits, locked: bool },
    Key { pos: Vec3Bits },
    Light { pos: Vec3Bits, intensity: u32, range: u32 },
}

/// The level plan read at start-up: generator seed, shell pieces and the
/// preferred player start, with its `f32` values as bit patterns.
#[derive(Debug, Clone)]
pub struct LevelPlan {
    pub seed: u64,
    pub pieces: Vec<Piece>,
    pub player_start: Vec3Bits,
}

/// Why validation refused a level plan; an index is the place of the offending
/// piece in `pieces`.
#[derive(Debug, Clone, Copy, PartialEq, Eq, Structural)]
pub enum GateFailure {
    NoPieces,
    TooManyPieces,
    NoFloor,
    LockedDoorWithoutKey,
    PlayerStartOutOfRange,
    PiecePos(usize),
    PieceSize(usize),
    KeyPos(usize),
    LightPos(usize),
    LightIntensity(usize),
    LightRange(usize),
}

/// Errors of loading a level plan: the YAML parser's or the reader's message,
/// or the reason validation refused the plan.
#[derive(Debug, Clone)]
pub enum HarnessError {
    Parse(String),
    Gate(GateFailure),
    Io(String),
}

/// Magnitude of the `f32` with bit pattern `b`: the pattern without its sign bit.
pub open spec fn magnitude_bits(b: u32) -> int {
    if b >= 0x8000_0000 {
        b - 0x8000_0000
    } else {
        b as int
    }
}

/// The `f32` with pattern `b` is finite and at most `limit` in magnitude.
pub open spec fn within_bits(b: u32, limit: u32) -> bool {
    magnitude_bits(b) <= limit
}

/// The `f32` with pattern `b` is greater than zero and at most `limit`
/// (finite, positive and not above the limit).
pub open spec fn positive_at_most(b: u32, limit: u32) -> bool {
    1 <= b <= limit
}

/// Every coordinate of `v` is finite and at most 10 000 in magnitude.
pub open spec fn pos_ok(v: Vec3Bits) -> bool {
    within_bits(v.x, POS_LIMIT_BITS) && within_bits(v.y, POS_LIMIT_BITS) && within_bits(
        v.z,
        POS_LIMIT_BITS,
    )
}

/// Every extent of `v` is greater than zero and at most 5 000.
pub open spec fn size_ok(v: Vec3Bits) -> bool {
    positive_at_most(v.x, SIZE_LIMIT_BITS) && positive_at_most(v.y, SIZE_LIMIT_BITS)
        && positive_at_most(v.z, SIZE_LIMIT_BITS)
}

/// The validation verdict on piece `p` at index `i`.
pub open spec fn piece_failure(p: Piece, i: usize) -> Option<GateFailure> {
    match p {
        Piece::Floor { pos, size } | Piece::Wall { pos, size } | Piece::Door { pos, size, .. } => {
            if !pos_ok(pos) {
                Some(GateFailure::PiecePos(i))
            } else if !size_ok(size) {
                Some(GateFailure::PieceSize(i))
            } else {
                None
            }
        },
        Piece::Key { pos } => {
            if !pos_ok(pos) {
                Some(GateFailure::KeyPos(i))
            } else {
                None
            }
        },
        Piece::Light { pos, intensity, range } => {
            if !pos_ok(pos) {
                Some(GateFailure::LightPos(i))
            } else if !positive_at_most(intensity, INTENSITY_LIMIT_BITS) {
                Some(GateFailure::LightIntensity(i))
            } else if !positive_at_most(range, SIZE_LIMIT_BITS) {
                Some(GateFailure::LightRange(i))
            } else {
                None
            }
        },
    }
}

/// The verdict on the first offending piece at index `i` or later.
pub open spec fn pieces_failure_from(pieces: Seq<Piece>, i: int) -> Option<GateFailure>
    decreases pieces.len() - i,
{
    if i < 0 || i >= pieces.len() {
        None
    } else {
        match piece_failure(pieces[i], i as usize) {
            Some(f) => Some(f),
            None => pieces_failure_from(pieces, i + 1),
        }
    }
}

pub open spec fn has_floor(pieces: Seq<Piece>) -> bool {
    exists|i: int| 0 <= i < pieces.len() && #[trigger] pieces[i] is Floor
}

pub open spec fn has_key(pieces: Seq<Piece>) -> bool {
    exists|i: int| 0 <= i < pieces.len() && #[trigger] pieces[i] is Key
}

pub open spec fn has_locked_door(pieces: Seq<Piece>) -> bool {
    exists|i: int| 0 <= i < pieces.len() && #[trigger] pieces[i] matches Piece::Door { locked: true, .. }
}

/// The validation verdict on a plan: the first rule that fails, in the order
/// piece count, floor, key for a locked door, player start, then each piece
/// in turn; `None` when the plan passes.
pub open spec fn gate_failure(pieces: Seq<Piece>, player_start: Vec3Bits) -> Option<GateFailure> {
    if pieces.len() == 0 {
        Some(GateFailure::NoPieces)
    } else if pieces.len() > MAX_PIECES {
        Some(GateFailure::TooManyPieces)
    } else if !has_floor(pieces) {
        Some(GateFailure::NoFloor)
    } else if has_locked_door(pieces) && !has_key(pieces) {
        Some(GateFailure::LockedDoorWithoutKey)
    } else if !pos_ok(player_start) {
        Some(GateFailure::PlayerStartOutOfRange)
    } else {
        pieces_failure_from(pieces, 0)
    }
}

fn magnitude(b: u32) -> (m: u32)
    ensures
        m == magnitude_bits(b),
{
    if b >= 0x8000_0000 {
        b - 0x8000_0000
    } else {
        b
    }
}

fn vec3_within(v: &Vec3Bits, limit: u32) -> (r: bool)
    ensures
        r == (within_bits(v.x, limit) && within_bits(v.y, limit) && within_bits(v.z, limit)),
{
    magnitude(v.x) <= limit && magnitude(v.y) <= limit && magnitude(v.z) <= limit
}

fn in_positive_range(b: u32, limit: u32) -> (r: bool)
    ensures
        r == positive_at_most(b, limit),
{
    1 <= b && b <= limit
}

fn vec3_size_ok(v: &Vec3Bits) -> (r: bool)
    ensures
        r == size_ok(*v),
{
    in_positive_range(v.x, SIZE_LIMIT_BITS) && in_positive_range(v.y, SIZE_LIMIT_BITS)
        && in_positive_range(v.z, SIZE_LIMIT_BITS)
}

/// The validation verdict on one piece at index `i`.
pub fn check_piece(p: &Piece, i: usize) -> (r: Option<GateFailure>)
    ensures
        r == piece_failure(*p, i),
{
    match p {
        Piece::Floor { pos, size } | Piece::Wall { pos, size } | Piece::Door { pos, size, .. } => {
            if !vec3_within(pos, POS_LIMIT_BITS) {
                Some(GateFailure::PiecePos(i))
            } else if !vec3_size_ok(size) {
                Some(GateFailure::PieceSize(i))
            } else {
                None
            }
        },
        Piece::Key { pos } => {
            if !vec3_within(pos, POS_LIMIT_BITS) {
                Some(GateFailure::KeyPos(i))
            } else {
                None
            }
        },
        Piece::Light { pos, intensity, range } => {
            if !vec3_within(pos, POS_LIMIT_BITS) {
                Some(GateFailure::LightPos(i))
            } else if !in_positive_range(*intensity, INTENSITY_LIMIT_BITS) {
                Some(GateFailure::LightIntensity(i))
            } else if !in_positive_range(*range, SIZE_LIMIT_BITS) {
                Some(GateFailure::LightRange(i))
            } else {
                None
            }
        },
    }
}

fn any_floor(pieces: &Vec<Piece>) -> (r: bool)
    ensures
        r == has_floor(pieces@),
{
    let mut i: usize = 0;
    while i < pieces.len()
        invariant
            i <= pieces.len(),
            forall|j: int| 0 <= j < i ==> !(#[trigger] pieces@[j] is Floor),
        decreases pieces.len() - i,
    {
        if let Piece::Floor { .. } = pieces[i] {
            assert(pieces@[i as int] is Floor);
            return true;
        }
        i = i + 1;
    }
    false
}

fn any_key(pieces: &Vec<Piece>) -> (r: bool)
    ensures
        r == has_key(pieces@),
{
    let mut i: usize = 0;
    while i < pieces.len()
        invariant
            i <= pieces.len(),
            forall|j: int| 0 <= j < i ==> !(#[trigger] pieces@[j] is Key),
        decreases pieces.len() - i,
    {
        if let Piece::Key { .. } = pieces[i] {
            assert(pieces@[i as int] is Key);
            return true;
        }
        i = i + 1;
    }
    false
}

fn any_locked_door(pieces: &Vec<Piece>) -> (r: bool)
    ensures
        r == has_locked_door(pieces@),
{
    let mut i: usize = 0;
    while i < pieces.len()
        invariant
            i <= pieces.len(),
            forall|j: int|
                0 <= j < i ==> !(#[trigger] pieces@[j] matches Piece::Door { locked: true, .. }),
        decreases pieces.len() - i,
    {
        if let Piece::Door { locked: true, .. } = pieces[i] {
            assert(pieces@[i as int] matches Piece::Door { locked: true, .. });
            return true;
        }
        i = i + 1;
    }
    false
}

/// Checks a level plan before the game uses it: at least one and at most
/// 2000 pieces, at least one floor, a key wherever a door is locked, a
/// player start within 10 000 of the origin on each axis, and, piece by
/// piece, positions within 10 000, sizes and light ranges in `(0, 5000]` and
/// light intensities in `(0, 200000]` (NaN and infinities refused). The
/// error names the first check that fails.
pub fn gate_level_plan(plan: &LevelPlan) -> (r: Result<(), HarnessError>)
    ensures
        match gate_failure(plan.pieces@, plan.player_start) {
            None => r is Ok,
            Some(f) => r matches Err(HarnessError::Gate(g)) && g == f,
        },
{
    let pieces = &plan.pieces;
    if pieces.len() == 0 {
        return Err(HarnessError::Gate(GateFailure::NoPieces));
    }
    if pieces.len() > MAX_PIECES {
        return Err(HarnessError::Gate(GateFailure::TooManyPieces));
    }
    if !any_floor(pieces) {
        return Err(HarnessError::Gate(GateFailure::NoFloor));
    }
    let key = any_key(pieces);
    let locked = any_locked_door(pieces);
    if locked && !key {
        return Err(HarnessError::Gate(GateFailure::LockedDoorWithoutKey));
    }
    if !vec3_within(&plan.player_start, POS_LIMIT_BITS) {
        return Err(HarnessError::Gate(GateFailure::PlayerStartOutOfRange));
    }
    let mut i: usize = 0;
    while i < pieces.len()
        invariant
            i <= pieces.len(),
            pieces == &plan.pieces,
            gate_failure(pieces@, plan.player_start) == pieces_failure_from(pieces@, 0),
            pieces_failure_from(pieces@, 0) == pieces_failure_from(pieces@, i as int),
        decreases pieces.len() - i,
    {
        let f = check_piece(&pieces[i], i);
        if let Some(g) = f {
            return Err(HarnessError::Gate(g));
        }
        i = i + 1;
    }
    Ok(())
}

/// A light whose position and intensity pass is refused for its range
/// exactly when the range is not in `(0, 5000]` (bit pattern `0x459C_4000`
/// is 5000.0; positive finite `f32` patterns order as their values), and
/// accepted otherwise.
pub proof fn lemma_light_range_verdict(p: Piece, i: usize)
    requires
        p matches Piece::Light { pos, intensity, .. } && pos_ok(pos) && 1 <= intensity <= 0x4843_5000,
    ensures
        p matches Piece::Light { range, .. } && (piece_failure(p, i) == Some(GateFailure::LightRange(i))
            <==> !(1 <= range <= 0x459C_4000)),
        p matches Piece::Light { range, .. } && (piece_failure(p, i) is None <==> 1 <= range <= 0x459C_4000),
{
}

/// Every piece of an accepted plan lies within 10 000 of the origin (bit
/// pattern `0x461C_4000`), every floor, wall and door extends more than 0
/// and at most 5000 on each axis, and every light has an intensity in
/// `(0, 200 000]` (`0x4843_5000`) and a range in `(0, 5000]`.
pub proof fn lemma_accepted_plan_limits(pieces: Seq<Piece>, player_start: Vec3Bits, i: int)
    requires
        gate_failure(pieces, player_start) is None,
        0 <= i < pieces.len(),
    ensures
        pieces[i] matches Piece::Light { intensity, range, .. } ==> 1 <= intensity <= 0x4843_5000 && 1
            <= range <= 0x459C_4000,
        pieces[i] matches Piece::Floor { size, .. } ==> 1 <= size.x <= 0x459C_4000 && 1 <= size.y
            <= 0x459C_4000 && 1 <= size.z <= 0x459C_4000,
        pieces[i] matches Piece::Wall { size, .. } ==> 1 <= size.x <= 0x459C_4000 && 1 <= size.y
            <= 0x459C_4000 && 1 <= size.z <= 0x459C_4000,
        pieces[i] matches Piece::Door { size, .. } ==> 1 <= size.x <= 0x459C_4000 && 1 <= size.y
            <= 0x459C_4000 && 1 <= size.z <= 0x459C_4000,
{
    lemma_accepted_plan_is_playable(pieces, player_start);
    assert(piece_failure(pieces[i], i as usize) is None);
}

/// A plan that passes validation can be played: it has between one and 2000
/// pieces, a floor, a key whenever some door is locked, a player start
/// within range, and every piece passes its own checks.
pub proof fn lemma_accepted_plan_is_playable(pieces: Seq<Piece>, player_start: Vec3Bits)
    requires
        gate_failure(pieces, player_start) is None,
    ensures
        1 <= pieces.len() <= MAX_PIECES,
        has_floor(pieces),
        has_locked_door(pieces) ==> has_key(pieces),
        pos_ok(player_start),
        forall|i: int| 0 <= i < pieces.len() ==> piece_failure(#[trigger] pieces[i], i as usize) is None,
{
    assert forall|i: int| 0 <= i < pieces.len() implies piece_failure(
        #[trigger] pieces[i],
        i as usize,
    ) is None by {
        lemma_no_failure_from(pieces, 0, i);
    }
}

proof fn lemma_no_failure_from(pieces: Seq<Piece>, k: int, i: int)
    requires
        0 <= k <= i < pieces.len(),
        pieces_failure_from(pieces, k) is None,
    ensures
        piece_failure(pieces[i], i as usize) is None,
    decreases i - k,
{
    if k < i {
        lemma_no_failure_from(pieces, k + 1, i);
    }
}

impl GateFailure {
    /// The message for this failure, as the level designer reads it.
    pub fn message(&self) -> (s: String)
        ensures
            match *self {
                GateFailure::NoPieces => s@ == "pieces 不能为空"@,
                GateFailure::TooManyPieces => s@ == "pieces 过多（>2000），灰盒 demo 请先控制规模"@,
                GateFailure::NoFloor => s@ == "必须至少包含一个 Floor"@,
                GateFailure::LockedDoorWithoutKey => s@ == "存在 locked door 但没有 Key"@,
                GateFailure::PlayerStartOutOfRange => s@ == "player_start 超出允许范围或包含 NaN"@,
                GateFailure::PiecePos(i) => indexed_message(s@, i, " pos 非法"@),
                GateFailure::PieceSize(i) => indexed_message(s@, i, " size 非法"@),
                GateFailure::KeyPos(i) => indexed_message(s@, i, " key pos 非法"@),
                GateFailure::LightPos(i) => indexed_message(s@, i, " light pos 非法"@),
                GateFailure::LightIntensity(i) => indexed_message(s@, i, " light intensity 非法"@),
                GateFailure::LightRange(i) => indexed_message(s@, i, " light range 非法"@),
            },
    {
        match *self {
            GateFailure::NoPieces => String::from_str("pieces 不能为空"),
            GateFailure::TooManyPieces => String::from_str("pieces 过多（>2000），灰盒 demo 请先控制规模"),
            GateFailure::NoFloor => String::from_str("必须至少包含一个 Floor"),
            GateFailure::LockedDoorWithoutKey => String::from_str("存在 locked door 但没有 Key"),
            GateFailure::PlayerStartOutOfRange => String::from_str("player_start 超出允许范围或包含 NaN"),
            GateFailure::PiecePos(i) => piece_message(i, " pos 非法"),
            GateFailure::PieceSize(i) => piece_message(i, " size 非法"),
            GateFailure::KeyPos(i) => piece_message(i, " key pos 非法"),
            GateFailure::LightPos(i) => piece_message(i, " light pos 非法"),
            GateFailure::LightIntensity(i) => piece_message(i, " light intensity 非法"),
            GateFailure::LightRange(i) => piece_message(i, " light range 非法"),
        }
    }
}

/// `s` reads `piece[`, the decimal text of `i`, `]`, then `what`.
pub open spec fn indexed_message(s: Seq<char>, i: usize, what: Seq<char>) -> bool {
    s == "piece["@ + decimal(i as nat) + "]"@ + what
}

/// The decimal digit `d` (below ten) as a character.
pub open spec fn digit_char(d: nat) -> char {
    if d == 0 {
        '0'
    } else if d == 1 {
        '1'
    } else if d == 2 {
        '2'
    } else if d == 3 {
        '3'
    } else if d == 4 {
        '4'
    } else if d == 5 {
        '5'
    } else if d == 6 {
        '6'
    } else if d == 7 {
        '7'
    } else if d == 8 {
        '8'
    } else {
        '9'
    }
}

/// The decimal text of `n`, most significant digit first, without leading
/// zeros.
pub open spec fn decimal(n: nat) -> Seq<char>
    decreases n,
{
    if n < 10 {
        seq![digit_char(n)]
    } else {
        decimal(n / 10).push(digit_char(n % 10))
    }
}

fn digit_str(d: usize) -> (s: &'static str)
    requires
        d < 10,
    ensures
        s@ == seq![digit_char(d as nat)],
{
    proof {
        reveal_strlit("0");
        reveal_strlit("1");
        reveal_strlit("2");
        reveal_strlit("3");
        reveal_strlit("4");
        reveal_strlit("5");
        reveal_strlit("6");
        reveal_strlit("7");
        reveal_strlit("8");
        reveal_strlit("9");
    }
    if d == 0 {
        "0"
    } else if d == 1 {
        "1"
    } else if d == 2 {
        "2"
    } else if d == 3 {
        "3"
    } else if d == 4 {
        "4"
    } else if d == 5 {
        "5"
    } else if d == 6 {
        "6"
    } else if d == 7 {
        "7"
    } else if d == 8 {
        "8"
    } else {
        "9"
    }
}

/// The decimal text of `n`.
pub fn decimal_text(n: usize) -> (s: String)
    ensures
        s@ == decimal(n as nat),
    decreases n,
{
    if n < 10 {
        String::from_str(digit_str(n))
    } else {
        let mut s = decimal_text(n / 10);
        s.append(digit_str(n % 10));
        s
    }
}

fn piece_message(i: usize, what: &str) -> (s: String)
    ensures
        indexed_message(s@, i, what@),
{
    let t = decimal_text(i);
    let mut s = String::from_str("piece[");
    s.append(t.as_str());
    s.append("]");
    s.append(what);
    s
}

} // verus!
