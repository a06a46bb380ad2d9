//! Czochralski pull governor, puller side.
//!
//! The pull map is solved off-machine once per crucible charge; the puller
//! consumes a provenance image (see [`image`]) and serves
//! `(pull-rate tier, heater tier)` commands at band entry. The map is indexed
//! by ingot length band, interface-gradient band and accumulated-damage band.
//! There is no floating point anywhere: validation is integer hashing and the
//! map holds `u8` action indices.
use vstd::prelude::*;

pub mod image;

use crate::image::TABLE_LEN;

verus! {

/// Length bands crossed to grow the ingot body.
pub const LEN_BANDS: usize = 12;

/// Interface-gradient bands (aligned 1:1 with the pull-rate tiers).
pub const GRAD_BANDS: usize = 6;

/// Accumulated-damage bands over the declared planning guard.
pub const DMG_BANDS: usize = 18;

/// Pull-rate tiers the action index decodes into.
pub const PULL_TIERS: usize = 6;

/// Heater tiers the action index decodes into.
pub const HEATER_TIERS: usize = 3;

/// Reserved map entry meaning no certifiable command exists: decline.
///
/// A pull that has banked too much damage this early cannot finish the body
/// without slipping; the map records that explicitly so the puller stops
/// rather than improvising.
pub const DECLINE: u8 = 0xFF;

/// The executable pull map: one action index per
/// (length band x gradient band x damage band).
#[derive(Debug, Clone, Copy, PartialEq, Eq)]
pub struct PullMap {
    pub actions: [u8; TABLE_LEN],
}

/// A decoded puller command.
#[derive(Debug, Clone, Copy, PartialEq, Eq, Structural)]
pub struct Command {
    /// Pull-rate tier index, below `PULL_TIERS` for a map whose tiers are in range.
    pub pull_tier: u8,
    /// Heater-power tier index, below `HEATER_TIERS`.
    pub heater_tier: u8,
}

/// Position in the map of the cell (length band, gradient band, damage band).
pub open spec fn cell_index(lb: int, gb: int, db: int) -> int {
    (lb * GRAD_BANDS + gb) * DMG_BANDS + db
}

/// What one action index means: `None` for `DECLINE`, otherwise the
/// pull-rate tier is the quotient and the heater tier the remainder of the
/// index divided by `HEATER_TIERS`.
pub open spec fn decode_action(a: u8) -> Option<Command> {
    if a == DECLINE {
        None
    } else {
        Some(Command { pull_tier: (a / (HEATER_TIERS as u8)) as u8, heater_tier: (a % (HEATER_TIERS as u8)) as u8 })
    }
}

/// An action index is either `DECLINE` or decodes to a real tier pair.
pub open spec fn action_in_range(a: u8) -> bool {
    a == DECLINE || a < PULL_TIERS * HEATER_TIERS
}

/// Every entry of the table is `DECLINE` or a real tier pair.
pub open spec fn tiers_valid(actions: Seq<u8>) -> bool {
    forall|i: int| 0 <= i < actions.len() ==> action_in_range(#[trigger] actions[i])
}

/// The cell (length band, gradient band, damage band) of the table declines.
pub open spec fn cell_declines(actions: Seq<u8>, lb: int, gb: int, db: int) -> bool {
    actions[cell_index(lb, gb, db)] == DECLINE
}

/// Along the damage axis of the (length, gradient) cell, once the map
/// declines at some damage band it declines at every higher one.
pub open spec fn cell_declines_monotone(actions: Seq<u8>, lb: int, gb: int) -> bool {
    forall|d1: int, d2: int|
        #![trigger cell_declines(actions, lb, gb, d1), cell_declines(actions, lb, gb, d2)]
        0 <= d1 <= d2 < DMG_BANDS && cell_declines(actions, lb, gb, d1) ==> cell_declines(
            actions,
            lb,
            gb,
            d2,
        )
}

/// Decline monotonicity holds in every (length, gradient) cell of the table.
pub open spec fn declines_monotone(actions: Seq<u8>) -> bool {
    forall|lb: int, gb: int|
        0 <= lb < LEN_BANDS && 0 <= gb < GRAD_BANDS ==> #[trigger] cell_declines_monotone(
            actions,
            lb,
            gb,
        )
}

impl PullMap {
    /// The runtime of the whole product: one array lookup at band entry,
    /// indexed by ingot length, interface gradient and the damage the pull
    /// has already accumulated. `None` means the map declines the state.
    pub fn command(&self, length_band: usize, grad_band: usize, damage_band: usize) -> (r: Option<Command>)
        requires
            cell_index(length_band as int, grad_band as int, damage_band as int) < TABLE_LEN,
        ensures
            r == decode_action(self.actions@[cell_index(length_band as int, grad_band as int, damage_band as int)]),
    {
        let a = self.actions[(length_band * GRAD_BANDS + grad_band) * DMG_BANDS + damage_band];
        if a == DECLINE {
            return None;
        }
        Some(Command { pull_tier: a / HEATER_TIERS as u8, heater_tier: a % HEATER_TIERS as u8 })
    }

    /// Every entry must be either `DECLINE` or decode to a real tier pair. A
    /// map that indexes off the end of the actuator ladder is a corrupt map
    /// that passed the CRC, so this is checked before the map is trusted.
    pub fn tiers_in_range(&self) -> (r: bool)
        ensures
            r == tiers_valid(self.actions@),
    {
        let mut i: usize = 0;
        while i < TABLE_LEN
            invariant
                i <= TABLE_LEN,
                self.actions@.len() == TABLE_LEN,
                forall|j: int| 0 <= j < i ==> action_in_range(#[trigger] self.actions@[j]),
            decreases TABLE_LEN - i,
        {
            let a = self.actions[i];
            if a != DECLINE && a as usize >= PULL_TIERS * HEATER_TIERS {
                assert(!action_in_range(self.actions@[i as int]));
                return false;
            }
            i += 1;
        }
        true
    }

    /// Decline monotonicity: once the map declines at some accumulated-damage
    /// band it must decline at every higher one. The slip gate makes this
    /// hold by construction (`top(db) + delta > guard`, with `top`
    /// increasing), so a map that un-declines is corrupt or mis-packed and
    /// must not be trusted on a puller.
    pub fn declines_are_monotone(&self) -> (r: bool)
        ensures
            r == declines_monotone(self.actions@),
    {
        let ghost s = self.actions@;
        let mut lb: usize = 0;
        while lb < LEN_BANDS
            invariant
                lb <= LEN_BANDS,
                s == self.actions@,
                s.len() == TABLE_LEN,
                forall|l: int, g: int|
                    0 <= l < lb && 0 <= g < GRAD_BANDS ==> #[trigger] cell_declines_monotone(s, l, g),
            decreases LEN_BANDS - lb,
        {
            let mut gb: usize = 0;
            while gb < GRAD_BANDS
                invariant
                    lb < LEN_BANDS,
                    gb <= GRAD_BANDS,
                    s == self.actions@,
                    s.len() == TABLE_LEN,
                    forall|l: int, g: int|
                        0 <= l < lb && 0 <= g < GRAD_BANDS ==> #[trigger] cell_declines_monotone(s, l, g),
                    forall|g: int| 0 <= g < gb ==> #[trigger] cell_declines_monotone(s, lb as int, g),
                decreases GRAD_BANDS - gb,
            {
                let mut declined = false;
                let mut db: usize = 0;
                while db < DMG_BANDS
                    invariant
                        lb < LEN_BANDS,
                        gb < GRAD_BANDS,
                        db <= DMG_BANDS,
                        s == self.actions@,
                        s.len() == TABLE_LEN,
                        forall|l: int, g: int|
                            0 <= l < lb && 0 <= g < GRAD_BANDS ==> #[trigger] cell_declines_monotone(s, l, g),
                        forall|g: int| 0 <= g < gb ==> #[trigger] cell_declines_monotone(s, lb as int, g),
                        declined == (exists|d: int| 0 <= d < db && #[trigger] cell_declines(s, lb as int, gb as int, d)),
                        forall|d1: int, d2: int|
                            #![trigger cell_declines(s, lb as int, gb as int, d1), cell_declines(s, lb as int, gb as int, d2)]
                            0 <= d1 <= d2 < db && cell_declines(s, lb as int, gb as int, d1)
                                ==> cell_declines(s, lb as int, gb as int, d2),
                    decreases DMG_BANDS - db,
                {
                    let idx = (lb * GRAD_BANDS + gb) * DMG_BANDS + db;
                    assert(idx as int == cell_index(lb as int, gb as int, db as int));
                    let a = self.actions[idx];
                    if a == DECLINE {
                        declined = true;
                        assert(cell_declines(s, lb as int, gb as int, db as int));
                    } else if declined {
                        let ghost d1 = choose|d: int| 0 <= d < db && #[trigger] cell_declines(s, lb as int, gb as int, d);
                        assert(!cell_declines(s, lb as int, gb as int, db as int));
                        assert(!cell_declines_monotone(s, lb as int, gb as int));
                        return false;
                    } else {
                        assert(!cell_declines(s, lb as int, gb as int, db as int));
                    }
                    db += 1;
                }
                assert(cell_declines_monotone(s, lb as int, gb as int));
                gb += 1;
            }
            lb += 1;
        }
        true
    }

    /// The map's fingerprint, as recorded in an image header.
    pub fn fingerprint(&self) -> (r: u64)
        ensures
            r == image::spec_fingerprint(self.actions@),
    {
        image::fingerprint(&self.actions)
    }
}

/// How a puller re-encodes a served command as an action index: the
/// pull-rate tier times `HEATER_TIERS` plus the heater tier, or `DECLINE`.
pub open spec fn encode_command(c: Option<Command>) -> u8 {
    match c {
        Some(cmd) => (cmd.pull_tier * HEATER_TIERS + cmd.heater_tier) as u8,
        None => DECLINE,
    }
}

/// The command surface of a table: every cell's served command, re-encoded,
/// in the order length band, then gradient band, then damage band.
pub open spec fn command_surface(actions: Seq<u8>) -> Seq<u8> {
    Seq::new(actions.len(), |i: int| encode_command(decode_action(actions[i])))
}

/// Decoding splits an action index into quotient and remainder by
/// `HEATER_TIERS`, so re-encoding gives the index back; an index below
/// `PULL_TIERS * HEATER_TIERS` decodes into real tiers.
pub proof fn lemma_action_roundtrip(a: u8)
    ensures
        encode_command(decode_action(a)) == a,
        a < PULL_TIERS * HEATER_TIERS ==> (decode_action(a) matches Some(c) && c.pull_tier
            < PULL_TIERS && c.heater_tier < HEATER_TIERS),
{
    assert((a / 3u8) as int * 3 + (a % 3u8) as int == a as int && (a % 3u8) < 3) by (nonlinear_arith);
    assert(a < 18 ==> (a / 3u8) < 6) by (nonlinear_arith);
}

/// The (length band, gradient band, damage band) cell of table entry `i`.
pub open spec fn entry_cell(i: int) -> (int, int, int) {
    let per_length: int = GRAD_BANDS * DMG_BANDS;
    let per_gradient: int = DMG_BANDS as int;
    (i / per_length, (i / per_gradient) % (GRAD_BANDS as int), i % per_gradient)
}

/// The cells in range and the table entries are in one-to-one
/// correspondence: a cell in range lies in the table, every entry is the
/// entry of its cell, and no other cell in range shares the entry.
pub proof fn lemma_cells_cover_table(lb: int, gb: int, db: int, i: int)
    requires
        0 <= lb < LEN_BANDS,
        0 <= gb < GRAD_BANDS,
        0 <= db < DMG_BANDS,
        0 <= i < TABLE_LEN,
    ensures
        0 <= cell_index(lb, gb, db) < TABLE_LEN,
        0 <= entry_cell(i).0 < LEN_BANDS,
        0 <= entry_cell(i).1 < GRAD_BANDS,
        0 <= entry_cell(i).2 < DMG_BANDS,
        cell_index(entry_cell(i).0, entry_cell(i).1, entry_cell(i).2) == i,
        cell_index(lb, gb, db) == i ==> entry_cell(i) == (lb, gb, db),
{
    assert(0 <= i / 108 < 12 && 0 <= (i / 18) % 6 < 6 && 0 <= i % 18 < 18 && (i / 108) * 108 + ((i
        / 18) % 6) * 18 + i % 18 == i) by (nonlinear_arith)
        requires
            0 <= i < 1296,
    ;
    if cell_index(lb, gb, db) == i {
        assert(lb == i / 108 && gb == (i / 18) % 6 && db == i % 18) by (nonlinear_arith)
            requires
                0 <= lb < 12,
                0 <= gb < 6,
                0 <= db < 18,
                i == (lb * 6 + gb) * 18 + db,
        ;
    }
}

/// Serving a command and re-encoding it gives back the action index: the
/// command surface of any table is the table itself, so its fingerprint is
/// the map fingerprint.
pub proof fn lemma_command_surface_is_table(actions: Seq<u8>)
    ensures
        command_surface(actions) == actions,
        image::spec_fingerprint(command_surface(actions)) == image::spec_fingerprint(actions),
{
    assert forall|i: int| 0 <= i < actions.len() implies command_surface(actions)[i] == actions[i] by {
        lemma_action_roundtrip(actions[i]);
    }
    assert(command_surface(actions) =~= actions);
}

/// In a table whose tiers are in range, every served command names a real
/// pull-rate tier and a real heater tier.
pub proof fn lemma_commands_in_range(actions: Seq<u8>, lb: int, gb: int, db: int)
    requires
        actions.len() == TABLE_LEN,
        tiers_valid(actions),
        0 <= lb < LEN_BANDS,
        0 <= gb < GRAD_BANDS,
        0 <= db < DMG_BANDS,
    ensures
        decode_action(actions[cell_index(lb, gb, db)]) matches Some(c) ==> c.pull_tier < PULL_TIERS
            && c.heater_tier < HEATER_TIERS,
{
    let a = actions[cell_index(lb, gb, db)];
    assert(action_in_range(a));
    lemma_action_roundtrip(a);
}

/// In a table whose declines are monotone, a (length, gradient) cell that
/// declines at some damage band declines at every higher damage band.
pub proof fn lemma_decline_persists(actions: Seq<u8>, lb: int, gb: int, d1: int, d2: int)
    requires
        declines_monotone(actions),
        0 <= lb < LEN_BANDS,
        0 <= gb < GRAD_BANDS,
        0 <= d1 <= d2 < DMG_BANDS,
        decode_action(actions[cell_index(lb, gb, d1)]) is None,
    ensures
        decode_action(actions[cell_index(lb, gb, d2)]) is None,
{
    assert(cell_declines_monotone(actions, lb, gb));
    assert(cell_declines(actions, lb, gb, d1));
    assert(cell_declines(actions, lb, gb, d2));
}

proof fn lemma_block_of_cell(l: int, g: int, d1: int, d2: int)
    requires
        0 <= l < LEN_BANDS,
        0 <= g < GRAD_BANDS,
        0 <= d1 <= d2 < DMG_BANDS,
    ensures
        cell_index(l, g, d1) <= cell_index(l, g, d2) < TABLE_LEN,
        0 <= cell_index(l, g, d1),
        cell_index(l, g, d1) / (DMG_BANDS as int) == cell_index(l, g, d2) / (DMG_BANDS as int),
{
    let q = l * 6 + g;
    assert((q * 18 + d1) / 18 == q && (q * 18 + d2) / 18 == q) by (nonlinear_arith)
        requires
            0 <= d1 < 18,
            0 <= d2 < 18,
            0 <= q,
    ;
}

proof fn lemma_cell_of_entries(i1: int, i2: int)
    requires
        0 <= i1 <= i2 < TABLE_LEN,
        i1 / (DMG_BANDS as int) == i2 / (DMG_BANDS as int),
    ensures
        entry_cell(i1).0 == entry_cell(i2).0,
        entry_cell(i1).1 == entry_cell(i2).1,
        entry_cell(i1).2 <= entry_cell(i2).2,
{
    assert(i1 / 108 == i2 / 108 && i1 % 18 <= i2 % 18) by (nonlinear_arith)
        requires
            0 <= i1 <= i2,
            i1 / 18 == i2 / 18,
    ;
}

/// Decline monotonicity, read off the table itself: the table is split into
/// runs of `DMG_BANDS` consecutive entries, one run per (length, gradient)
/// cell, and the check holds exactly when no entry after a `DECLINE` within a
/// run is anything but `DECLINE`.
pub proof fn lemma_declines_monotone_by_entries(actions: Seq<u8>)
    ensures
        declines_monotone(actions) <==> (forall|i1: int, i2: int|
            #![trigger actions[i1], actions[i2]]
            0 <= i1 <= i2 < TABLE_LEN && i1 / (DMG_BANDS as int) == i2 / (DMG_BANDS as int)
                && actions[i1] == 0xFFu8 ==> actions[i2] == 0xFFu8),
{
    if declines_monotone(actions) {
        assert forall|i1: int, i2: int|
            0 <= i1 <= i2 < TABLE_LEN && i1 / (DMG_BANDS as int) == i2 / (DMG_BANDS as int)
                && #[trigger] actions[i1] == 0xFFu8 implies #[trigger] actions[i2] == 0xFFu8 by {
            lemma_cell_of_entries(i1, i2);
            let (l, g, d1) = entry_cell(i1);
            let d2 = entry_cell(i2).2;
            lemma_cells_cover_table(0, 0, 0, i1);
            lemma_cells_cover_table(0, 0, 0, i2);
            assert(cell_declines_monotone(actions, l, g));
            assert(cell_declines(actions, l, g, d1));
            assert(cell_declines(actions, l, g, d2));
        }
    }
    if forall|i1: int, i2: int|
        #![trigger actions[i1], actions[i2]]
        0 <= i1 <= i2 < TABLE_LEN && i1 / (DMG_BANDS as int) == i2 / (DMG_BANDS as int)
            && actions[i1] == 0xFFu8 ==> actions[i2] == 0xFFu8 {
        assert forall|l: int, g: int|
            0 <= l < LEN_BANDS && 0 <= g < GRAD_BANDS implies #[trigger] cell_declines_monotone(actions, l, g) by {
            assert forall|d1: int, d2: int|
                0 <= d1 <= d2 < DMG_BANDS && #[trigger] cell_declines(actions, l, g, d1) implies #[trigger] cell_declines(actions, l, g, d2) by {
                lemma_block_of_cell(l, g, d1, d2);
                let i1 = cell_index(l, g, d1);
                let i2 = cell_index(l, g, d2);
                assert(actions[i1] == 0xFFu8);
            }
        }
    }
}

/// Tier range, read off the table itself: the check holds exactly when every
/// entry is `0xFF` or below `PULL_TIERS * HEATER_TIERS`.
pub proof fn lemma_tiers_valid_by_entries(actions: Seq<u8>)
    ensures
        tiers_valid(actions) <==> (forall|i: int| 0 <= i < actions.len() ==> (#[trigger] actions[i] == 0xFFu8
            || actions[i] < PULL_TIERS * HEATER_TIERS)),
{
}

/// What a command means, entry by entry: `0xFF` is a decline, and any other
/// entry `a` is served as the pull-rate tier `p` and heater tier `h` with
/// `a == p * HEATER_TIERS + h` and `h < HEATER_TIERS`.
pub proof fn lemma_decode_by_division(a: u8)
    ensures
        a == 0xFFu8 <==> decode_action(a) is None,
        decode_action(a) matches Some(c) ==> c.pull_tier as int * HEATER_TIERS + c.heater_tier as int
            == a as int && c.heater_tier < HEATER_TIERS,
{
    lemma_action_roundtrip(a);
    assert((a / 3u8) as int * 3 + (a % 3u8) as int == a as int && (a % 3u8) < 3) by (nonlinear_arith);
}

/// The cell layout of the table: cell (0, 0, 0) is entry 0, the next damage
/// band is the next entry, the next gradient band is `DMG_BANDS` entries on,
/// and the next length band is `GRAD_BANDS * DMG_BANDS` entries on.
pub proof fn lemma_cell_layout(lb: int, gb: int, db: int)
    ensures
        cell_index(0, 0, 0) == 0,
        cell_index(lb, gb, db + 1) == cell_index(lb, gb, db) + 1,
        cell_index(lb, gb + 1, db) == cell_index(lb, gb, db) + DMG_BANDS,
        cell_index(lb + 1, gb, db) == cell_index(lb, gb, db) + GRAD_BANDS * DMG_BANDS,
{
}

} // verus!
