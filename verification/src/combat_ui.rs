//! The trans meter's readout on the combat bar.

use vstd::prelude::*;
use crate::text::{decimal, push_decimal};

verus! {

/// `trans` clamped to the meter's `0..=100`.
pub open spec fn clamp_trans(trans: int) -> int {
    if trans < 0 {
        0
    } else if trans > 100 {
        100
    } else {
        trans
    }
}

/// DESIGN §10 band for a (clamped) trans value.
pub open spec fn band_of(t: int) -> &'static str {
    if t <= 19 {
        "Human"
    } else if t <= 39 {
        "Silver"
    } else if t <= 59 {
        "Edge"
    } else if t <= 79 {
        "Demon"
    } else if t <= 99 {
        "Breaking"
    } else {
        "Awake"
    }
}

/// ASCII upper case of a character sequence.
pub open spec fn ascii_upper(s: Seq<char>) -> Seq<char> {
    s.map_values(|c: char| if 'a' <= c <= 'z' { (c as int - 32) as char } else { c })
}

/// The meter label: `BAR <t> <BAND>` with `t` the clamped trans.
pub open spec fn meter_label(trans: int) -> Seq<char> {
    let t = clamp_trans(trans);
    "BAR "@ + decimal(t as nat) + " "@ + ascii_upper(band_of(t)@)
}

/// DESIGN §10 band short name for the combat HUD (open the bar, not power-up).
pub fn trans_band(trans: i32) -> (b: &'static str)
    ensures
        b == band_of(clamp_trans(trans as int)),
{
    let t = if trans < 0 {
        0
    } else if trans > 100 {
        100
    } else {
        trans
    };
    if t <= 19 {
        "Human"
    } else if t <= 39 {
        "Silver"
    } else if t <= 59 {
        "Edge"
    } else if t <= 79 {
        "Demon"
    } else if t <= 99 {
        "Breaking"
    } else {
        "Awake"
    }
}

/// The band name in capitals.
fn band_upper(t: i32) -> (b: &'static str)
    requires
        0 <= t <= 100,
    ensures
        b@ == ascii_upper(band_of(t as int)@),
{
    proof {
        reveal_strlit("Human");
        reveal_strlit("HUMAN");
        reveal_strlit("Silver");
        reveal_strlit("SILVER");
        reveal_strlit("Edge");
        reveal_strlit("EDGE");
        reveal_strlit("Demon");
        reveal_strlit("DEMON");
        reveal_strlit("Breaking");
        reveal_strlit("BREAKING");
        reveal_strlit("Awake");
        reveal_strlit("AWAKE");
    }
    if t <= 19 {
        assert("HUMAN"@ == ascii_upper("Human"@));
        "HUMAN"
    } else if t <= 39 {
        assert("SILVER"@ == ascii_upper("Silver"@));
        "SILVER"
    } else if t <= 59 {
        assert("EDGE"@ == ascii_upper("Edge"@));
        "EDGE"
    } else if t <= 79 {
        assert("DEMON"@ == ascii_upper("Demon"@));
        "DEMON"
    } else if t <= 99 {
        assert("BREAKING"@ == ascii_upper("Breaking"@));
        "BREAKING"
    } else {
        assert("AWAKE"@ == ascii_upper("Awake"@));
        "AWAKE"
    }
}

/// e.g. `BAR 23 SILVER` — reads as the yoki meter, not a second HP bar.
pub fn trans_meter_label(trans: i32) -> (s: String)
    ensures
        s@ == meter_label(trans as int),
{
    let t = if trans < 0 {
        0
    } else if trans > 100 {
        100
    } else {
        trans
    };
    let mut s = String::from_str("BAR ");
    push_decimal(&mut s, t as u32);
    s.append(" ");
    s.append(band_upper(t));
    s
}

/// Skill slot plate lights when unit trans meets the skill's gate (Flash ≥40).
pub fn skill_slot_ready(unit_trans: i32, skill_trans: i32) -> (r: bool)
    ensures
        r == (unit_trans >= skill_trans),
{
    unit_trans >= skill_trans
}

} // verus!
