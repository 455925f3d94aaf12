//! Combat: the damage of an attack, rolled with the attack and defense
//! stats.
use vstd::prelude::*;

use rand::rngs::StdRng;

use crate::rl::mapgen::random_below;

verus! {

/// The most damage one attack roll deals.
pub const MAX_ATTACK_DAMAGE: i32 = 3;

/// The chance in percent that an attack die hits, by attack stat (the
/// last entry for higher stats).
pub open spec fn prob_a(i: int) -> int {
    if i <= 0 {
        0
    } else if i == 1 {
        35
    } else if i == 2 {
        44
    } else if i == 3 {
        52
    } else if i == 4 {
        59
    } else if i == 5 {
        66
    } else if i == 6 {
        72
    } else if i == 7 {
        78
    } else if i == 8 {
        84
    } else if i == 9 {
        90
    } else if i == 10 {
        95
    } else {
        100
    }
}

/// The chance in percent that a defense die blocks, by defense stat (the
/// last entry for higher stats).
pub open spec fn prob_d(i: int) -> int {
    if i <= 0 {
        0
    } else if i == 1 {
        29
    } else if i == 2 {
        42
    } else if i == 3 {
        53
    } else if i == 4 {
        62
    } else if i == 5 {
        70
    } else if i == 6 {
        76
    } else if i == 7 {
        81
    } else if i == 8 {
        86
    } else {
        90
    }
}

/// `prob_a` for a table index.
fn prob_attack(i: usize) -> (p: i32)
    requires
        i <= 11,
    ensures
        p == prob_a(i as int),
{
    match i {
        0 => 0,
        1 => 35,
        2 => 44,
        3 => 52,
        4 => 59,
        5 => 66,
        6 => 72,
        7 => 78,
        8 => 84,
        9 => 90,
        10 => 95,
        _ => 100,
    }
}

/// `prob_d` for a table index.
fn prob_defense(i: usize) -> (p: i32)
    requires
        i <= 9,
    ensures
        p == prob_d(i as int),
{
    match i {
        0 => 0,
        1 => 29,
        2 => 42,
        3 => 53,
        4 => 62,
        5 => 70,
        6 => 76,
        7 => 81,
        8 => 86,
        _ => 90,
    }
}

/// The damage of an attack: a roll below 5 of 100 misses; otherwise each
/// of three attack dice adds one when it rolls below the attack chance,
/// then each of up to two defense dice (no more than the damage) takes one
/// away when it rolls below the defense chance; the result is kept
/// between zero and the attack stat. A negative defense stat counts as the
/// highest. The rolls depend on the generator, so only the bounds are
/// stated.
pub fn compute_damage(rng: &mut StdRng, attack: i32, defense: i32) -> (dmg: i32)
    requires
        attack >= 0,
    ensures
        0 <= dmg <= attack,
        dmg <= MAX_ATTACK_DAMAGE,
{
    if random_below(rng, 100) < 5 {
        return 0;
    }
    let atk_idx: usize = if attack as usize > 11 { 11 } else { attack as usize };
    let def_idx: usize = if defense < 0 || defense as usize > 9 { 9 } else { defense as usize };
    let pa = prob_attack(atk_idx);
    let pd = prob_defense(def_idx);
    let mut dmg: i32 = 0;
    let mut k: i32 = 0;
    while k < MAX_ATTACK_DAMAGE
        invariant
            0 <= k <= MAX_ATTACK_DAMAGE,
            0 <= dmg <= k,
        decreases MAX_ATTACK_DAMAGE - k,
    {
        if (random_below(rng, 100) as i32) < pa {
            dmg = dmg + 1;
        }
        k = k + 1;
    }
    let def_rolls: i32 = if dmg < 2 { dmg } else { 2 };
    let mut r: i32 = 0;
    while r < def_rolls
        invariant
            0 <= r <= def_rolls,
            0 <= def_rolls <= 2,
            dmg <= MAX_ATTACK_DAMAGE,
            dmg >= def_rolls - r,
        decreases def_rolls - r,
    {
        if (random_below(rng, 100) as i32) < pd {
            dmg = dmg - 1;
        }
        r = r + 1;
    }
    if dmg < 0 {
        0
    } else if dmg > attack {
        attack
    } else {
        dmg
    }
}

} // verus!
