use vstd::prelude::*;

verus! {

/// Full health of the player.
pub const MAX_HP: i32 = 100;

/// Health a medkit gives back.
pub const MEDKIT_HEAL: i32 = 25;

/// Health of a maze enemy.
pub const ENEMY_HP: i32 = 30;

/// Damage of an enemy's melee attack.
pub const ENEMY_DAMAGE: i32 = 3;

/// The last floor: reaching its exit clears the run.
pub const LAST_FLOOR: u32 = 10;

/// Most bullet holes one shot leaves on the level geometry.
pub const DECAL_BUDGET: u32 = 3;

/// Number of enemy markers the minimap keeps.
pub const MAX_ENEMY_MARKERS: usize = 32;

#[derive(Debug, Clone, Copy, PartialEq, Eq, Structural)]
pub enum WeaponType {
    Pistol,
    Shotgun,
}

/// The player's weapons: the one in hand, whether the shotgun has been
/// found, and the shotgun shells left.
#[derive(Debug, Clone, Copy, PartialEq, Eq, Structural)]
pub struct PlayerLoadout {
    pub weapon: WeaponType,
    pub shotgun_unlocked: bool,
    pub shotgun_ammo: i32,
}

#[derive(Debug, Clone, Copy, PartialEq, Eq, Structural)]
pub struct Inventory {
    pub has_key: bool,
}

#[derive(Debug, Clone, Copy, PartialEq, Eq, Structural)]
pub struct PlayerStats {
    pub hp: i32,
}

#[derive(Debug, Clone, Copy, PartialEq, Eq, Structural)]
pub struct PlayerConsumables {
    pub medkits: i32,
}

/// Something lying on the floor that the player can pick up.
#[derive(Debug, Clone, Copy, PartialEq, Eq, Structural)]
pub enum ItemKind {
    Key,
    Health(i32),
    Shotgun { ammo: i32 },
    AmmoShells(i32),
}

impl Default for Inventory {
    fn default() -> (r: Inventory)
        ensures
            !r.has_key,
    {
        Inventory { has_key: false }
    }
}

impl Default for PlayerConsumables {
    fn default() -> (r: PlayerConsumables)
        ensures
            r.medkits == 0,
    {
        PlayerConsumables { medkits: 0 }
    }
}

impl WeaponType {
    /// The weapon's name on the HUD.
    pub fn label(&self) -> (s: &'static str)
        ensures
            *self == WeaponType::Pistol ==> s@ == "Pistol"@,
            *self == WeaponType::Shotgun ==> s@ == "Shotgun"@,
    {
        match self {
            WeaponType::Pistol => "Pistol",
            WeaponType::Shotgun => "Shotgun",
        }
    }
}

/// The weapons a run starts with: the pistol in hand, no shotgun, no shells.
pub fn starting_loadout() -> (l: PlayerLoadout)
    ensures
        l == (PlayerLoadout { weapon: WeaponType::Pistol, shotgun_unlocked: false, shotgun_ammo: 0 }),
{
    PlayerLoadout { weapon: WeaponType::Pistol, shotgun_unlocked: false, shotgun_ammo: 0 }
}

/// The shotgun is in hand only once it has been found, and shells never go
/// below zero.
pub open spec fn loadout_ok(l: PlayerLoadout) -> bool {
    &&& l.weapon == WeaponType::Shotgun ==> l.shotgun_unlocked
    &&& l.shotgun_ammo >= 0
}

/// Resets what a run starts with on entering the game: full health, no
/// medkits, the starting weapons. The key, if any, is kept.
pub fn start_run(stats: &mut PlayerStats, cons: &mut PlayerConsumables, loadout: &mut PlayerLoadout)
    ensures
        final(stats).hp == MAX_HP,
        final(cons).medkits == 0,
        *final(loadout) == starting_loadout_spec(),
{
    stats.hp = MAX_HP;
    *cons = PlayerConsumables::default();
    *loadout = starting_loadout();
}

pub open spec fn starting_loadout_spec() -> PlayerLoadout {
    PlayerLoadout { weapon: WeaponType::Pistol, shotgun_unlocked: false, shotgun_ammo: 0 }
}

/// The loadout after the weapon keys pressed this frame: 1 takes the
/// pistol, 2 the shotgun once it has been found (2 wins when both are
/// pressed).
pub open spec fn switched(l: PlayerLoadout, key_1: bool, key_2: bool) -> PlayerLoadout {
    PlayerLoadout {
        weapon: if key_2 && l.shotgun_unlocked {
            WeaponType::Shotgun
        } else if key_1 {
            WeaponType::Pistol
        } else {
            l.weapon
        },
        ..l
    }
}

/// Applies the weapon keys pressed this frame (see `switched`).
pub fn weapon_switch(loadout: &mut PlayerLoadout, key_1: bool, key_2: bool)
    ensures
        *final(loadout) == switched(*old(loadout), key_1, key_2),
{
    if key_1 {
        loadout.weapon = WeaponType::Pistol;
    }
    if key_2 && loadout.shotgun_unlocked {
        loadout.weapon = WeaponType::Shotgun;
    }
}

/// The rays one trigger pull casts and the damage each deals.
#[derive(Debug, Clone, Copy, PartialEq, Eq, Structural)]
pub struct ShotSpec {
    pub pellets: u32,
    pub damage: i32,
}

/// What a trigger pull fires: the pistol one ray of 12 damage; the shotgun
/// seven rays of 6 damage each while a shell is left, nothing otherwise.
pub open spec fn shot_of(l: PlayerLoadout) -> Option<ShotSpec> {
    match l.weapon {
        WeaponType::Pistol => Some(ShotSpec { pellets: 1, damage: 12 }),
        WeaponType::Shotgun => if l.shotgun_ammo <= 0 {
            None
        } else {
            Some(ShotSpec { pellets: 7, damage: 6 })
        },
    }
}

/// The loadout after a trigger pull: a shotgun shot uses one shell.
pub open spec fn after_shot(l: PlayerLoadout) -> PlayerLoadout {
    if l.weapon == WeaponType::Shotgun && l.shotgun_ammo > 0 {
        PlayerLoadout { shotgun_ammo: (l.shotgun_ammo - 1) as i32, ..l }
    } else {
        l
    }
}

/// What a trigger pull does with each weapon: a loaded shotgun fires seven
/// pellets of 6 damage and uses exactly one shell; an empty shotgun does
/// not fire; the pistol fires one bullet of 12 damage and uses nothing. The
/// weapon in hand and whether the shotgun is unlocked never change.
pub proof fn lemma_shot_uses_one_shell(l: PlayerLoadout)
    ensures
        after_shot(l).weapon == l.weapon,
        after_shot(l).shotgun_unlocked == l.shotgun_unlocked,
        l.weapon == WeaponType::Shotgun && l.shotgun_ammo > 0 ==> shot_of(l) == Some(
            ShotSpec { pellets: 7, damage: 6 },
        ) && after_shot(l).shotgun_ammo == l.shotgun_ammo - 1,
        l.weapon == WeaponType::Shotgun && l.shotgun_ammo <= 0 ==> shot_of(l) is None && after_shot(l)
            == l,
        l.weapon == WeaponType::Pistol ==> shot_of(l) == Some(ShotSpec { pellets: 1, damage: 12 })
            && after_shot(l) == l,
{
}

/// Pulls the trigger of the weapon in hand (see `shot_of`, `after_shot`).
pub fn begin_shot(loadout: &mut PlayerLoadout) -> (r: Option<ShotSpec>)
    ensures
        r == shot_of(*old(loadout)),
        *final(loadout) == after_shot(*old(loadout)),
{
    match loadout.weapon {
        WeaponType::Pistol => Some(ShotSpec { pellets: 1, damage: 12 }),
        WeaponType::Shotgun => {
            if loadout.shotgun_ammo <= 0 {
                None
            } else {
                loadout.shotgun_ammo = loadout.shotgun_ammo - 1;
                Some(ShotSpec { pellets: 7, damage: 6 })
            }
        },
    }
}

/// Feedback after all rays of a shot: a fixed-length tracer when nothing was
/// hit, the impact sound when only the level was hit, a hit sound when an
/// enemy was hit.
#[derive(Debug, Clone, Copy, PartialEq, Eq, Structural)]
pub struct ShotFeedback {
    pub miss_tracer: bool,
    pub impact_sound: bool,
    pub hit_sound: bool,
}

pub fn shot_feedback(did_hit: bool, did_world_impact: bool) -> (f: ShotFeedback)
    ensures
        f.miss_tracer == (!did_hit && !did_world_impact),
        f.impact_sound == (did_world_impact && !did_hit),
        f.hit_sound == did_hit,
{
    ShotFeedback {
        miss_tracer: !did_hit && !did_world_impact,
        impact_sound: did_world_impact && !did_hit,
        hit_sound: did_hit,
    }
}

/// Uses one bullet hole of the shot's budget: `true` (and one less left)
/// while some is left.
pub fn take_decal(budget: &mut u32) -> (r: bool)
    ensures
        r == (*old(budget) > 0),
        *final(budget) == if *old(budget) > 0 { *old(budget) - 1 } else { 0 },
{
    if *budget > 0 {
        *budget = *budget - 1;
        true
    } else {
        false
    }
}

/// `rand::random::<u32>()`: a value from the thread's generator; any value
/// is possible.
#[verifier::external_body]
fn random_u32() -> u32 {
    rand::random::<u32>()
}

/// Which of the five hit sounds to play for a roll.
pub fn hit_sound_for_roll(roll: u32) -> (i: usize)
    ensures
        i == roll % 5,
        i < 5,
{
    (roll % 5) as usize
}

/// Draws which of the five hit sounds to play.
pub fn pick_hit_sound() -> (i: usize)
    ensures
        i < 5,
{
    hit_sound_for_roll(random_u32())
}

/// Health after taking `damage`: what is left, or full health again when
/// nothing is left (the player died).
pub open spec fn hp_after_damage(hp: i32, damage: i32) -> i32 {
    if hp - damage <= 0 {
        MAX_HP
    } else {
        (hp - damage) as i32
    }
}

/// Takes `damage` off the player. When health is gone the player dies:
/// health is restored to full and the game goes back to the menu (`true`).
pub fn damage_player(stats: &mut PlayerStats, damage: i32) -> (died: bool)
    requires
        i32::MIN <= old(stats).hp - damage <= i32::MAX,
    ensures
        died == (old(stats).hp - damage <= 0),
        final(stats).hp == hp_after_damage(old(stats).hp, damage),
{
    stats.hp = stats.hp - damage;
    if stats.hp <= 0 {
        stats.hp = MAX_HP;
        true
    } else {
        false
    }
}

/// Health stays between 1 and full: taking non-negative damage and using a
/// medkit keep it there.
pub proof fn lemma_health_stays_in_range(hp: i32, damage: i32, medkits: i32)
    requires
        1 <= hp <= MAX_HP,
        0 <= damage,
    ensures
        1 <= hp_after_damage(hp, damage) <= MAX_HP,
        medkit_outcome(hp, medkits) == MedkitOutcome::Used ==> 1 <= healed_hp(hp) <= MAX_HP,
{
}

/// Shells an item adds.
pub open spec fn shells_of(kind: ItemKind) -> int {
    match kind {
        ItemKind::Shotgun { ammo } => ammo as int,
        ItemKind::AmmoShells(v) => v as int,
        _ => 0,
    }
}

/// The loadout after picking up `kind`: a shotgun unlocks the shotgun, a
/// shotgun or shells add their shells.
pub open spec fn loadout_after_pickup(l: PlayerLoadout, kind: ItemKind) -> PlayerLoadout {
    PlayerLoadout {
        weapon: l.weapon,
        shotgun_unlocked: l.shotgun_unlocked || kind is Shotgun,
        shotgun_ammo: (l.shotgun_ammo + shells_of(kind)) as i32,
    }
}

/// Picks up an item: a key goes to the inventory, a medkit to the stock, a
/// shotgun unlocks the shotgun and adds its shells, shells are added.
pub fn apply_pickup(
    inv: &mut Inventory,
    cons: &mut PlayerConsumables,
    loadout: &mut PlayerLoadout,
    kind: ItemKind,
)
    requires
        kind is Health ==> old(cons).medkits < i32::MAX,
        i32::MIN <= old(loadout).shotgun_ammo + shells_of(kind) <= i32::MAX,
    ensures
        final(inv).has_key == (old(inv).has_key || kind is Key),
        final(cons).medkits == old(cons).medkits + if kind is Health { 1int } else { 0 },
        *final(loadout) == loadout_after_pickup(*old(loadout), kind),
{
    match kind {
        ItemKind::Key => {
            inv.has_key = true;
        },
        ItemKind::Health(_) => {
            cons.medkits = cons.medkits + 1;
        },
        ItemKind::Shotgun { ammo } => {
            loadout.shotgun_unlocked = true;
            loadout.shotgun_ammo = loadout.shotgun_ammo + ammo;
        },
        ItemKind::AmmoShells(v) => {
            loadout.shotgun_ammo = loadout.shotgun_ammo + v;
        },
    }
}

/// Picks up a key of the level shell: only when none is held yet (`true`
/// then).
pub fn pickup_key(inv: &mut Inventory) -> (taken: bool)
    ensures
        taken == !old(inv).has_key,
        final(inv).has_key,
{
    if inv.has_key {
        false
    } else {
        inv.has_key = true;
        true
    }
}

/// What pressing the medkit key did.
#[derive(Debug, Clone, Copy, PartialEq, Eq, Structural)]
pub enum MedkitOutcome {
    NoMedkits,
    HpFull,
    Used,
}

/// The outcome of the medkit key: refused with none in stock, then refused
/// at full health, used otherwise.
pub open spec fn medkit_outcome(hp: i32, medkits: i32) -> MedkitOutcome {
    if medkits <= 0 {
        MedkitOutcome::NoMedkits
    } else if hp >= MAX_HP {
        MedkitOutcome::HpFull
    } else {
        MedkitOutcome::Used
    }
}

/// Health after a medkit is used: 25 more, up to full health.
pub open spec fn healed_hp(hp: i32) -> i32 {
    if hp + MEDKIT_HEAL < MAX_HP {
        (hp + MEDKIT_HEAL) as i32
    } else {
        MAX_HP
    }
}

/// Uses a medkit when one is in stock and health is not full: one medkit
/// fewer and health as `healed_hp`; otherwise nothing changes.
pub fn use_medkit(stats: &mut PlayerStats, cons: &mut PlayerConsumables) -> (r: MedkitOutcome)
    ensures
        r == medkit_outcome(old(stats).hp, old(cons).medkits),
        r == MedkitOutcome::Used ==> final(cons).medkits == old(cons).medkits - 1
            && final(stats).hp == healed_hp(old(stats).hp),
        r != MedkitOutcome::Used ==> *final(stats) == *old(stats) && *final(cons) == *old(cons),
{
    if cons.medkits <= 0 {
        return MedkitOutcome::NoMedkits;
    }
    if stats.hp >= MAX_HP {
        return MedkitOutcome::HpFull;
    }
    cons.medkits = cons.medkits - 1;
    let healed = stats.hp + MEDKIT_HEAL;
    stats.hp = if healed < MAX_HP {
        healed
    } else {
        MAX_HP
    };
    MedkitOutcome::Used
}

/// A medkit never takes health above full, and only helps: health after
/// one is used is above what it was and at most full.
pub proof fn lemma_medkit_heals_up_to_full(hp: i32, medkits: i32)
    requires
        medkit_outcome(hp, medkits) == MedkitOutcome::Used,
    ensures
        hp < healed_hp(hp) <= MAX_HP,
        medkits - 1 >= 0,
{
}

/// Whether a door in reach opens: a locked door only with the key.
pub fn door_opens(locked: bool, has_key: bool) -> (r: bool)
    ensures
        r == (!locked || has_key),
{
    !(locked && !has_key)
}

/// What reaching the exit of a floor leads to.
#[derive(Debug, Clone, Copy, PartialEq, Eq, Structural)]
pub enum FloorTransition {
    /// The next floor is a new maze.
    NextMaze,
    /// The last floor is cleared: back to floor 1, full health, main menu.
    RunCleared,
}

/// Reaching the exit: below the last floor the player goes one floor down,
/// into a new maze; on the last floor the run is cleared, the floor count
/// starts again at 1 with full health, and play returns to the main menu.
pub fn advance_floor(floor: &mut u32, stats: &mut PlayerStats) -> (t: FloorTransition)
    ensures
        *old(floor) < LAST_FLOOR ==> {
            &&& t == FloorTransition::NextMaze
            &&& *final(floor) == *old(floor) + 1
            &&& *final(stats) == *old(stats)
        },
        *old(floor) >= LAST_FLOOR ==> {
            &&& t == FloorTransition::RunCleared
            &&& *final(floor) == 1
            &&& final(stats).hp == MAX_HP
        },
{
    if *floor < LAST_FLOOR {
        *floor = *floor + 1;
        FloorTransition::NextMaze
    } else {
        *floor = 1;
        stats.hp = MAX_HP;
        FloorTransition::RunCleared
    }
}

/// Whether the minimap shows enemy marker `j` when `enemy_count` enemies
/// are alive: the first markers of the fixed pool follow the enemies, the
/// rest are hidden.
pub fn minimap_marker_shown(j: usize, enemy_count: usize) -> (r: bool)
    ensures
        r == (j < enemy_count && j < MAX_ENEMY_MARKERS),
{
    j < enemy_count && j < MAX_ENEMY_MARKERS
}

/// Every step of play keeps the loadout sound (shotgun in hand only once
/// found, shells never negative): the starting loadout, a weapon switch, a
/// trigger pull, and a pickup of an item whose shells are not negative.
pub proof fn lemma_loadout_stays_ok(l: PlayerLoadout, key_1: bool, key_2: bool, kind: ItemKind)
    requires
        loadout_ok(l),
        shells_of(kind) >= 0,
        l.shotgun_ammo + shells_of(kind) <= i32::MAX,
    ensures
        loadout_ok(starting_loadout_spec()),
        loadout_ok(switched(l, key_1, key_2)),
        loadout_ok(after_shot(l)),
        loadout_ok(loadout_after_pickup(l, kind)),
{
}

} // verus!
