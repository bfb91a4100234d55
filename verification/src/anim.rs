use vstd::prelude::*;

verus! {

/// Number of frames cut out of the enemy sprite sheet.
pub const ENEMY_FRAME_COUNT: u32 = 12;

/// Width of the enemy sprite sheet in pixels.
pub const SHEET_W: u32 = 3888;

/// Height of the enemy sprite sheet in pixels.
pub const SHEET_H: u32 = 2656;

/// Pixel rectangle `(x, y, w, h)` of frame `i` of the enemy sprite sheet,
/// frames sorted by `y`, then by `x`.
pub open spec fn frame_rect(i: int) -> (u32, u32, u32, u32) {
    if i == 0 {
        (172, 84, 465, 669)
    } else if i == 1 {
        (728, 84, 453, 641)
    } else if i == 2 {
        (1272, 92, 469, 649)
    } else if i == 3 {
        (1836, 116, 481, 637)
    } else if i == 4 {
        (164, 978, 489, 665)
    } else if i == 5 {
        (788, 978, 489, 681)
    } else if i == 6 {
        (1396, 1010, 493, 669)
    } else if i == 7 {
        (84, 1806, 557, 725)
    } else if i == 8 {
        (820, 1834, 569, 661)
    } else if i == 9 {
        (1632, 1966, 601, 545)
    } else if i == 10 {
        (2396, 2062, 633, 473)
    } else {
        (3092, 2310, 673, 245)
    }
}

/// Pixel rectangle of frame `i` of the enemy sprite sheet.
pub fn enemy_frame_rect(i: u32) -> (r: (u32, u32, u32, u32))
    requires
        i < ENEMY_FRAME_COUNT,
    ensures
        r == frame_rect(i as int),
        r.0 + r.2 <= SHEET_W,
        r.1 + r.3 <= SHEET_H,
{
    let table: [(u32, u32, u32, u32); 12] = [
        (172, 84, 465, 669),
        (728, 84, 453, 641),
        (1272, 92, 469, 649),
        (1836, 116, 481, 637),
        (164, 978, 489, 665),
        (788, 978, 489, 681),
        (1396, 1010, 493, 669),
        (84, 1806, 557, 725),
        (820, 1834, 569, 661),
        (1632, 1966, 601, 545),
        (2396, 2062, 633, 473),
        (3092, 2310, 673, 245),
    ];
    let r = table[i as usize];
    assert(r == frame_rect(i as int));
    r
}

/// Walk cycle: frames 0 to 3.
pub fn enemy_walk_seq() -> (v: Vec<u32>)
    ensures
        v@ == seq![0u32, 1, 2, 3],
{
    vec![0, 1, 2, 3]
}

/// Hit reaction: frames 4 to 6.
pub fn enemy_hit_seq() -> (v: Vec<u32>)
    ensures
        v@ == seq![4u32, 5, 6],
{
    vec![4, 5, 6]
}

/// Death: frames 7 to 10 (the last frame of the sheet, a pool of blood,
/// reads badly on an upright billboard and is left out).
pub fn enemy_die_seq() -> (v: Vec<u32>)
    ensures
        v@ == seq![7u32, 8, 9, 10],
{
    vec![7, 8, 9, 10]
}

#[derive(Debug, Clone, Copy, PartialEq, Eq, Structural)]
pub enum EnemyAnimState {
    Walk,
    Hit,
    Die,
}

/// The frame-sequence state of an enemy's sprite animation. Its timers
/// (time since the last frame, time left in the hit reaction and on the last
/// death frame) are kept by the caller, which reports them to `tick`.
pub struct EnemyAnim {
    pub walk_seq: Vec<u32>,
    pub hit_seq: Vec<u32>,
    pub die_seq: Vec<u32>,
    pub state: EnemyAnimState,
    pub frame_i: usize,
}

/// What one animation tick asks the caller to do.
#[derive(Debug, Clone, Copy, PartialEq, Eq, Structural)]
pub enum AnimOutcome {
    /// Nothing: no frame is due, or the sequence to play is empty.
    Idle,
    /// The enemy is dead and rests on frame `frame`; `despawn` once its hold
    /// time is over.
    Holding { frame: u32, despawn: bool },
    /// One frame time was used up and `frame` is shown; `start_hold` when the
    /// death sequence has just reached its last frame.
    Advanced { frame: u32, start_hold: bool },
}

impl EnemyAnim {
    /// A walking enemy with the standard walk, hit and death sequences.
    pub fn standard() -> (a: EnemyAnim)
        ensures
            a.walk_seq@ == seq![0u32, 1, 2, 3],
            a.hit_seq@ == seq![4u32, 5, 6],
            a.die_seq@ == seq![7u32, 8, 9, 10],
            a.state == EnemyAnimState::Walk,
            a.frame_i == 0,
    {
        EnemyAnim {
            walk_seq: enemy_walk_seq(),
            hit_seq: enemy_hit_seq(),
            die_seq: enemy_die_seq(),
            state: EnemyAnimState::Walk,
            frame_i: 0,
        }
    }

    /// The enemy is dead and its death sequence has reached its last frame.
    pub open spec fn spec_holding(&self) -> bool {
        &&& self.state == EnemyAnimState::Die
        &&& self.die_seq@.len() > 0
        &&& self.frame_i >= self.die_seq@.len() - 1
    }

    /// Whether the enemy rests on the last frame of its death sequence; the
    /// caller counts the hold time down only then.
    pub fn holding_last_frame(&self) -> (r: bool)
        ensures
            r == self.spec_holding(),
    {
        self.state == EnemyAnimState::Die && self.die_seq.len() > 0 && self.frame_i
            >= self.die_seq.len() - 1
    }

    /// The sequence played in state `s`.
    pub open spec fn seq_of(&self, s: EnemyAnimState) -> Seq<u32> {
        match s {
            EnemyAnimState::Walk => self.walk_seq@,
            EnemyAnimState::Hit => self.hit_seq@,
            EnemyAnimState::Die => self.die_seq@,
        }
    }

    /// One animation tick. `frame_due`: a frame time has gone by since the
    /// last frame; `hit_over`: the hit reaction's time is used up (read only
    /// in state `Hit`); `hold_over`: the hold time on the last death frame is
    /// used up (read only while holding).
    ///
    /// A dying enemy advances through its death sequence one frame per due
    /// frame and then rests on its last frame until the hold is over. A
    /// walking or hit enemy loops through its sequence; a hit reaction ends
    /// (back to walking, from the first frame) at the first frame shown after
    /// its time is up, or at once when there is no hit sequence.
    pub fn tick(&mut self, frame_due: bool, hit_over: bool, hold_over: bool) -> (r: AnimOutcome)
        requires
            old(self).state == EnemyAnimState::Die || old(self).frame_i < usize::MAX,
        ensures
            final(self).walk_seq@ == old(self).walk_seq@,
            final(self).hit_seq@ == old(self).hit_seq@,
            final(self).die_seq@ == old(self).die_seq@,
            tick_relation(*old(self), *final(self), frame_due, hit_over, hold_over, r),
    {
        if self.state == EnemyAnimState::Die {
            let n = self.die_seq.len();
            if n == 0 {
                return AnimOutcome::Idle;
            }
            if self.frame_i >= n - 1 {
                return AnimOutcome::Holding { frame: self.die_seq[n - 1], despawn: hold_over };
            }
            if !frame_due {
                return AnimOutcome::Idle;
            }
            self.frame_i = self.frame_i + 1;
            let shown = if self.frame_i < n - 1 {
                self.frame_i
            } else {
                n - 1
            };
            let frame = self.die_seq[shown];
            return AnimOutcome::Advanced { frame, start_hold: self.frame_i >= n - 1 };
        }
        if self.state == EnemyAnimState::Hit && self.hit_seq.len() == 0 {
            self.state = EnemyAnimState::Walk;
        }
        let len = match self.state {
            EnemyAnimState::Walk => self.walk_seq.len(),
            _ => self.hit_seq.len(),
        };
        if len == 0 {
            return AnimOutcome::Idle;
        }
        if !frame_due {
            return AnimOutcome::Idle;
        }
        self.frame_i = (self.frame_i + 1) % len;
        let frame = match self.state {
            EnemyAnimState::Walk => self.walk_seq[self.frame_i],
            _ => self.hit_seq[self.frame_i],
        };
        if self.state == EnemyAnimState::Hit && hit_over {
            self.state = EnemyAnimState::Walk;
            self.frame_i = 0;
        }
        AnimOutcome::Advanced { frame, start_hold: false }
    }
}

/// Every frame of `s` is one of the sprite sheet's frames.
pub open spec fn frames_on_sheet(s: Seq<u32>) -> bool {
    forall|i: int| 0 <= i < s.len() ==> #[trigger] s[i] < ENEMY_FRAME_COUNT
}

/// An animation whose sequences only name frames of the sheet only ever
/// shows frames of the sheet.
pub proof fn lemma_tick_shows_sheet_frames(
    a: EnemyAnim,
    b: EnemyAnim,
    frame_due: bool,
    hit_over: bool,
    hold_over: bool,
    r: AnimOutcome,
)
    requires
        frames_on_sheet(a.walk_seq@),
        frames_on_sheet(a.hit_seq@),
        frames_on_sheet(a.die_seq@),
        b.walk_seq@ == a.walk_seq@,
        b.hit_seq@ == a.hit_seq@,
        b.die_seq@ == a.die_seq@,
        tick_relation(a, b, frame_due, hit_over, hold_over, r),
    ensures
        r matches AnimOutcome::Holding { frame, .. } ==> frame < ENEMY_FRAME_COUNT,
        r matches AnimOutcome::Advanced { frame, .. } ==> frame < ENEMY_FRAME_COUNT,
{
    if a.state == EnemyAnimState::Die && a.die_seq@.len() > 0 {
        let _ = a.die_seq@[a.die_seq@.len() - 1];
        if a.frame_i < a.die_seq@.len() - 1 {
            let _ = a.die_seq@[a.frame_i + 1];
        }
    } else if a.state != EnemyAnimState::Die {
        let s = if a.state == EnemyAnimState::Hit && a.hit_seq@.len() == 0 {
            EnemyAnimState::Walk
        } else {
            a.state
        };
        let sq = a.seq_of(s);
        if sq.len() > 0 {
            let next_i = (a.frame_i + 1) % (sq.len() as int);
            let _ = sq[next_i];
        }
    }
}

/// The effect of `tick` as stated in its contract: `b` and `r` are what a
/// tick of `a` with these reports gives.
pub open spec fn tick_relation(
    a: EnemyAnim,
    b: EnemyAnim,
    frame_due: bool,
    hit_over: bool,
    hold_over: bool,
    r: AnimOutcome,
) -> bool {
    let die = a.die_seq@;
    if a.state == EnemyAnimState::Die {
        &&& b.state == EnemyAnimState::Die
        &&& if die.len() == 0 {
            r == AnimOutcome::Idle && b.frame_i == a.frame_i
        } else if a.frame_i >= die.len() - 1 {
            r == (AnimOutcome::Holding { frame: die.last(), despawn: hold_over }) && b.frame_i
                == a.frame_i
        } else if !frame_due {
            r == AnimOutcome::Idle && b.frame_i == a.frame_i
        } else {
            &&& b.frame_i == a.frame_i + 1
            &&& r == (AnimOutcome::Advanced {
                frame: die[b.frame_i as int],
                start_hold: b.frame_i >= die.len() - 1,
            })
        }
    } else {
        let s = if a.state == EnemyAnimState::Hit && a.hit_seq@.len() == 0 {
            EnemyAnimState::Walk
        } else {
            a.state
        };
        let sq = a.seq_of(s);
        if sq.len() == 0 {
            r == AnimOutcome::Idle && b.state == s && b.frame_i == a.frame_i
        } else if !frame_due {
            r == AnimOutcome::Idle && b.state == s && b.frame_i == a.frame_i
        } else {
            let next_i = (a.frame_i + 1) % (sq.len() as int);
            &&& r == (AnimOutcome::Advanced { frame: sq[next_i], start_hold: false })
            &&& if s == EnemyAnimState::Hit && hit_over {
                b.state == EnemyAnimState::Walk && b.frame_i == 0
            } else {
                b.state == s && b.frame_i == next_i
            }
        }
    }
}

/// A dying animation only moves forward: while its index lies within the
/// death sequence, every tick keeps it dying, moves the index by at most one
/// frame and keeps it within the sequence, and once on the last frame it
/// stays there and only reports holding. Starting from a hit that killed
/// (index 0), this holds over any number of ticks.
pub proof fn lemma_dying_frames_advance(
    a: EnemyAnim,
    b: EnemyAnim,
    frame_due: bool,
    hit_over: bool,
    hold_over: bool,
    r: AnimOutcome,
)
    requires
        a.state == EnemyAnimState::Die,
        a.die_seq@.len() > 0,
        a.frame_i < a.die_seq@.len(),
        b.die_seq@ == a.die_seq@,
        tick_relation(a, b, frame_due, hit_over, hold_over, r),
    ensures
        b.state == EnemyAnimState::Die,
        a.frame_i <= b.frame_i <= a.frame_i + 1,
        b.frame_i < b.die_seq@.len(),
        a.frame_i == a.die_seq@.len() - 1 ==> b.frame_i == a.frame_i && r is Holding,
{
}

/// How an enemy reacts to a hit.
#[derive(Debug, Clone, Copy, PartialEq, Eq, Structural)]
pub enum HitReaction {
    /// Already dying: only its health went down.
    AlreadyDying,
    /// The hit killed it: health set to zero, death sequence from its start.
    Killed,
    /// It survived: hit reaction from its first frame.
    Staggered,
}

/// Applies a hit of `damage` to an enemy with health `hp`: health goes down
/// by `damage`; an enemy that is not yet dying starts dying (health clamped
/// to zero) when its health is gone, and starts its hit reaction otherwise.
pub fn apply_enemy_hit(hp: &mut i32, anim: &mut EnemyAnim, damage: i32) -> (r: HitReaction)
    requires
        i32::MIN <= *old(hp) - damage <= i32::MAX,
    ensures
        final(anim).walk_seq@ == old(anim).walk_seq@,
        final(anim).hit_seq@ == old(anim).hit_seq@,
        final(anim).die_seq@ == old(anim).die_seq@,
        old(anim).state == EnemyAnimState::Die ==> {
            &&& r == HitReaction::AlreadyDying
            &&& *final(hp) == *old(hp) - damage
            &&& final(anim).state == EnemyAnimState::Die
            &&& final(anim).frame_i == old(anim).frame_i
        },
        old(anim).state != EnemyAnimState::Die && *old(hp) - damage <= 0 ==> {
            &&& r == HitReaction::Killed
            &&& *final(hp) == 0
            &&& final(anim).state == EnemyAnimState::Die
            &&& final(anim).frame_i == 0
        },
        old(anim).state != EnemyAnimState::Die && *old(hp) - damage > 0 ==> {
            &&& r == HitReaction::Staggered
            &&& *final(hp) == *old(hp) - damage
            &&& final(anim).state == EnemyAnimState::Hit
            &&& final(anim).frame_i == 0
        },
{
    *hp = *hp - damage;
    if anim.state == EnemyAnimState::Die {
        return HitReaction::AlreadyDying;
    }
    if *hp <= 0 {
        *hp = 0;
        anim.state = EnemyAnimState::Die;
        anim.frame_i = 0;
        HitReaction::Killed
    } else {
        anim.state = EnemyAnimState::Hit;
        anim.frame_i = 0;
        HitReaction::Staggered
    }
}

/// The sprite-sheet preview used to line frames up: shown or not, and the
/// frame on display.
pub struct EnemyPreview {
    pub enabled: bool,
    pub frame: u32,
}

/// Whether the sprite sheet is drawn flipped vertically.
pub struct EnemySpriteConfig {
    pub v_flip: bool,
}

/// The preview's debug keys, pressed this frame: F1 toggles the preview, F2
/// toggles the vertical flip, and while the preview is on `[` steps back one
/// frame (not below 0) and `]` steps forward one frame (not above 11).
pub fn enemy_preview_controls(
    p: &mut EnemyPreview,
    cfg: &mut EnemySpriteConfig,
    f1: bool,
    f2: bool,
    bracket_left: bool,
    bracket_right: bool,
)
    requires
        old(p).frame < u32::MAX,
    ensures
        final(p).enabled == (old(p).enabled != f1),
        final(cfg).v_flip == (old(cfg).v_flip != f2),
        ({
            let f0 = old(p).frame as int;
            let f1v = if final(p).enabled && bracket_left {
                if f0 > 0 { f0 - 1 } else { 0 }
            } else {
                f0
            };
            let f2v = if final(p).enabled && bracket_right {
                if f1v + 1 < 11 { f1v + 1 } else { 11 }
            } else {
                f1v
            };
            final(p).frame == f2v
        }),
{
    if f1 {
        p.enabled = !p.enabled;
    }
    if f2 {
        cfg.v_flip = !cfg.v_flip;
    }
    if !p.enabled {
        return;
    }
    if bracket_left {
        p.frame = p.frame.saturating_sub(1);
    }
    if bracket_right {
        let next = p.frame + 1;
        p.frame = if next < 11 {
            next
        } else {
            11
        };
    }
}

} // verus!
