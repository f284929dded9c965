//! Island state that the rules read: location status, the ledger, and the
//! fog-of-war bit grid.

use vstd::prelude::*;
use crate::text::{contains_text, occurs, str_eq};

verus! {

#[derive(Clone, Copy, Debug, PartialEq, Eq, Structural)]
pub enum WorldStatus {
    Quiet,
    Beacon,
    Dead,
    Cleared,
    Locked,
}

#[derive(Clone, Copy, Debug, PartialEq, Eq, Structural)]
pub struct Ledger {
    pub demons: i32,
    pub awakened: i32,
    pub missions: i32,
}

/// Fog-of-war grid columns (map space 0..1).
pub const EXPLORED_W: usize = 64;

/// Fog-of-war grid rows.
pub const EXPLORED_H: usize = 48;

/// Bit `c` of `x`.
pub open spec fn bit(x: u64, c: int) -> bool {
    (x >> (c as u64)) & 1 == 1
}

/// Cell `(col, row)` of the bit rows is revealed.
pub open spec fn explored_at(rows: Seq<u64>, col: int, row: int) -> bool {
    0 <= row < rows.len() && 0 <= col < 64 && bit(rows[row], col)
}

/// A fully shrouded grid: `EXPLORED_H` rows of zero bits.
pub fn empty_explored() -> (rows: Vec<u64>)
    ensures
        rows@.len() == EXPLORED_H,
        forall|i: int| 0 <= i < rows@.len() ==> #[trigger] rows@[i] == 0,
{
    let mut rows: Vec<u64> = Vec::new();
    let mut i: usize = 0;
    while i < EXPLORED_H
        invariant
            0 <= i <= EXPLORED_H,
            rows@.len() == i,
            forall|k: int| 0 <= k < rows@.len() ==> #[trigger] rows@[k] == 0,
        decreases EXPLORED_H - i,
    {
        rows.push(0u64);
        i = i + 1;
    }
    rows
}

/// Bit rows: `explored[row] & (1 << col)` means the cell is revealed; rows
/// past the end read as shrouded.
pub fn is_explored(explored: &[u64], col: usize, row: usize) -> (b: bool)
    requires
        col < 64 || row >= explored@.len(),
    ensures
        b == explored_at(explored@, col as int, row as int),
{
    if row < explored.len() {
        let bits = explored[row];
        let b = bits & (1u64 << (col as u64)) != 0;
        assert(b == ((bits >> (col as u64)) & 1 == 1)) by (bit_vector)
            requires
                col < 64,
                b == (bits & (1u64 << (col as u64)) != 0),
        ;
        b
    } else {
        false
    }
}

/// Reveals cell `(col, row)` (rows past the end are left alone).
pub fn reveal_cell(explored: &mut Vec<u64>, col: usize, row: usize)
    requires
        col < 64 || row >= old(explored)@.len(),
    ensures
        final(explored)@.len() == old(explored)@.len(),
        row < old(explored)@.len() ==> explored_at(final(explored)@, col as int, row as int),
        forall|c: int, r: int|
            0 <= c < 64 && !(c == col && r == row) ==> (explored_at(final(explored)@, c, r)
                == explored_at(old(explored)@, c, r)),
{
    if row < explored.len() {
        let bits = explored[row];
        let nb = bits | (1u64 << (col as u64));
        explored.set(row, nb);
        proof {
            assert((nb >> (col as u64)) & 1 == 1) by (bit_vector)
                requires
                    col < 64,
                    nb == bits | (1u64 << (col as u64)),
            ;
            assert forall|c: int| 0 <= c < 64 && c != col implies #[trigger] bit(nb, c) == bit(bits, c) by {
                let cc = c as u64;
                assert(((nb >> cc) & 1 == 1) == ((bits >> cc) & 1 == 1)) by (bit_vector)
                    requires
                        cc < 64,
                        col < 64,
                        cc != col as u64,
                        nb == bits | (1u64 << (col as u64)),
                ;
            }
        }
    }
}

/// The ledger after winning the hunt `encounter_id`: one more mission;
/// one more awakened beast for a ripple or worm hunt, else three yoma for
/// a nest and two for any other hunt.
pub open spec fn ledger_after(l: Ledger, encounter_id: Seq<char>) -> (int, int, int) {
    let awakened = occurs(encounter_id, "ripple"@) || occurs(encounter_id, "worm"@);
    let demons = if awakened {
        l.demons as int
    } else if occurs(encounter_id, "nest"@) {
        l.demons + 3
    } else {
        l.demons + 2
    };
    (demons, if awakened { l.awakened + 1 } else { l.awakened as int }, l.missions + 1)
}

/// Records a won hunt in the ledger.
pub fn record_victory(ledger: &mut Ledger, encounter_id: &str)
    requires
        ledger_after(*old(ledger), encounter_id@).0 <= i32::MAX,
        ledger_after(*old(ledger), encounter_id@).1 <= i32::MAX,
        ledger_after(*old(ledger), encounter_id@).2 <= i32::MAX,
    ensures
        final(ledger).demons == ledger_after(*old(ledger), encounter_id@).0,
        final(ledger).awakened == ledger_after(*old(ledger), encounter_id@).1,
        final(ledger).missions == ledger_after(*old(ledger), encounter_id@).2,
{
    ledger.missions = ledger.missions + 1;
    if contains_text(encounter_id, "ripple") || contains_text(encounter_id, "worm") {
        ledger.awakened = ledger.awakened + 1;
    } else {
        ledger.demons = ledger.demons + if contains_text(encounter_id, "nest") {
            3
        } else {
            2
        };
    }
}

/// A catalog location as the victory rules read it: its id and the hunt
/// fought there.
#[derive(Clone, Copy, Debug)]
pub struct LocRef {
    pub id: &'static str,
    pub encounter: Option<&'static str>,
}

/// The hunt `encounter_id` is fought at `l` (Doga's nest counts as Doga's).
pub open spec fn fought_at(l: LocRef, encounter_id: Seq<char>) -> bool {
    ||| (l.encounter matches Some(e) && e@ == encounter_id)
    ||| (encounter_id == "doga-nest"@ && l.id@ == "doga"@)
}

/// Index of the first location where the hunt is fought.
pub open spec fn cleared_of(locs: Seq<LocRef>, encounter_id: Seq<char>) -> Option<int>
    decreases locs.len(),
{
    if locs.len() == 0 {
        None
    } else if fought_at(locs[0], encounter_id) {
        Some(0)
    } else {
        match cleared_of(locs.drop_first(), encounter_id) {
            Some(k) => Some(k + 1),
            None => None,
        }
    }
}

proof fn lemma_cleared_of(locs: Seq<LocRef>, encounter_id: Seq<char>)
    ensures
        cleared_of(locs, encounter_id) matches Some(k) ==> 0 <= k < locs.len() && fought_at(
            locs[k],
            encounter_id,
        ) && forall|j: int| 0 <= j < k ==> !fought_at(#[trigger] locs[j], encounter_id),
        cleared_of(locs, encounter_id) is None ==> forall|j: int|
            0 <= j < locs.len() ==> !fought_at(#[trigger] locs[j], encounter_id),
    decreases locs.len(),
{
    if locs.len() > 0 {
        lemma_cleared_of(locs.drop_first(), encounter_id);
        assert forall|j: int| 1 <= j < locs.len() implies locs[j] == locs.drop_first()[j - 1] by {}
    }
}

/// The location a won hunt clears: the first catalog location where it is
/// fought.
pub fn cleared_location(locs: &[LocRef], encounter_id: &str) -> (k: Option<usize>)
    ensures
        k matches Some(i) ==> cleared_of(locs@, encounter_id@) == Some(i as int),
        k is None ==> cleared_of(locs@, encounter_id@) is None,
{
    proof {
        lemma_cleared_of(locs@, encounter_id@);
        reveal_strlit("doga-nest");
        reveal_strlit("doga");
    }
    let nest = str_eq(encounter_id, "doga-nest");
    let mut i: usize = 0;
    while i < locs.len()
        invariant
            0 <= i <= locs@.len(),
            nest == (encounter_id@ == "doga-nest"@),
            forall|j: int| 0 <= j < i ==> !fought_at(#[trigger] locs@[j], encounter_id@),
            cleared_of(locs@, encounter_id@) matches Some(k) ==> 0 <= k < locs@.len() && fought_at(
                locs@[k],
                encounter_id@,
            ) && forall|j: int| 0 <= j < k ==> !fought_at(#[trigger] locs@[j], encounter_id@),
            cleared_of(locs@, encounter_id@) is None ==> forall|j: int|
                0 <= j < locs@.len() ==> !fought_at(#[trigger] locs@[j], encounter_id@),
        decreases locs.len() - i,
    {
        let l = locs[i];
        let here = match l.encounter {
            Some(e) => str_eq(e, encounter_id),
            None => false,
        };
        if here || (nest && str_eq(l.id, "doga")) {
            return Some(i);
        }
        i = i + 1;
    }
    None
}

/// Karma and rank after a won hunt: karma gains the hunt's karma; rank
/// moves by the hunt's rank change, never below 1.
pub fn fame_after(karma: i32, rank: i32, hunt_karma: i32, hunt_rank: i32) -> (r: (i32, i32))
    requires
        crate::hex::fits(karma + hunt_karma),
        crate::hex::fits(rank + hunt_rank),
    ensures
        r.0 == karma + hunt_karma,
        r.1 == if rank + hunt_rank < 1 {
            1
        } else {
            rank + hunt_rank
        },
{
    let r = rank + hunt_rank;
    (karma + hunt_karma, if r < 1 {
        1
    } else {
        r
    })
}

/// The road north: each locked location, the flag that opens it, and the
/// hours its beacon then has: Paburo after Doga (72), Gonal after Paburo
/// (90), Pieta after Gonal (110).
pub fn unlock_chain() -> (c: Vec<(&'static str, &'static str, i32)>)
    ensures
        c@.len() == 3,
        c@[0].0@ == "paburo"@ && c@[0].1@ == "doga-cleared"@ && c@[0].2 == 72,
        c@[1].0@ == "gonal"@ && c@[1].1@ == "paburo-cleared"@ && c@[1].2 == 90,
        c@[2].0@ == "pieta"@ && c@[2].1@ == "gonal-cleared"@ && c@[2].2 == 110,
{
    vec![("paburo", "doga-cleared", 72), ("gonal", "paburo-cleared", 90), ("pieta", "gonal-cleared", 110)]
}

/// A location opened by the chain: a locked location whose flag is set
/// becomes a beacon with the chain's hours; anything else stays as it is.
pub fn opened(status: WorldStatus, flag_set: bool, hours: i32) -> (r: Option<(WorldStatus, i32)>)
    ensures
        r == if flag_set && status == WorldStatus::Locked {
            Some((WorldStatus::Beacon, hours))
        } else {
            None
        },
{
    if flag_set && status == WorldStatus::Locked {
        Some((WorldStatus::Beacon, hours))
    } else {
        None
    }
}

/// The hunt a location offers: its own, except that a dead Doga beacon has
/// become the Doga nest. `loc` is the catalog entry (none for an unknown
/// id) and `status` the location's current status, if tracked.
pub fn hunt_for(loc: Option<&LocRef>, status: Option<WorldStatus>) -> (h: Option<&'static str>)
    ensures
        match loc {
            None => h is None,
            Some(l) => if status == Some(WorldStatus::Dead) && l.id@ == "doga"@ {
                h matches Some(s) && s@ == "doga-nest"@
            } else {
                h == l.encounter
            },
        },
{
    let l = match loc {
        Some(l) => l,
        None => return None,
    };
    let dead = match status {
        Some(s) => s == WorldStatus::Dead,
        None => false,
    };
    if dead && str_eq(l.id, "doga") {
        Some("doga-nest")
    } else {
        l.encounter
    }
}

} // verus!
