//! Projection of the upgrade path that the recognized money can buy, starting
//! from the recognized attack level.
use vstd::prelude::*;

verus! {

/// An attack reading scoring above this is not trusted.
pub const ATTACK_PASSING_SCORE: u32 = 100;

/// Number of rows of the price table.
pub const LEVEL_COUNT: usize = 29;

/// The price table: each attack level with the cost of upgrading from it to the
/// next row's level; a cost of 0 marks the last level. Level 0, an unknown or
/// distrusted reading, has no row, so nothing is projected from it.
pub open spec fn level_table() -> Seq<(u16, u32)> {
    seq![
        (25u16, 500u32), (50, 600), (75, 800), (100, 1000), (125, 1200),
        (150, 1500), (175, 1800), (200, 2100), (225, 2500), (250, 2900), (275, 3300),
        (300, 3800), (325, 4300), (350, 4800), (375, 5400), (400, 6000), (425, 6600),
        (450, 7400), (475, 8200), (500, 9200), (550, 10200), (600, 11400), (650, 12600),
        (700, 15000), (750, 19800), (800, 39800), (1000, 59800), (1200, 79800), (1500, 0),
    ]
}

fn level_data() -> (r: Vec<(u16, u32)>)
    ensures
        r@ == level_table(),
{
    let r = vec![
        (25u16, 500u32), (50, 600), (75, 800), (100, 1000), (125, 1200),
        (150, 1500), (175, 1800), (200, 2100), (225, 2500), (250, 2900), (275, 3300),
        (300, 3800), (325, 4300), (350, 4800), (375, 5400), (400, 6000), (425, 6600),
        (450, 7400), (475, 8200), (500, 9200), (550, 10200), (600, 11400), (650, 12600),
        (700, 15000), (750, 19800), (800, 39800), (1000, 59800), (1200, 79800), (1500, 0),
    ];
    assert(r@ =~= level_table());
    r
}

/// The attack reading after the confidence gate: distrusted readings become 0.
pub open spec fn gated_attack(attack: u16, score: u32) -> u16 {
    if score <= ATTACK_PASSING_SCORE {
        attack
    } else {
        0
    }
}

/// Whether `attack` is a level of the price table.
pub open spec fn is_listed(attack: u16) -> bool {
    exists|i: int| 0 <= i < LEVEL_COUNT && #[trigger] level_table()[i].0 == attack
}

/// The row of the price table that holds `attack`, for a listed level.
pub open spec fn level_row(attack: u16) -> int {
    choose|i: int| 0 <= i < LEVEL_COUNT && #[trigger] level_table()[i].0 == attack
}

/// Buying upgrades from row `row` (at level `attack`) while the money lasts:
/// stops at the last row, at a cost of 0, or at a cost above what remains.
pub open spec fn climb(money: u32, row: int, attack: u16) -> (u32, u16)
    decreases LEVEL_COUNT - row,
{
    if row < 0 || row + 1 >= LEVEL_COUNT {
        (money, attack)
    } else {
        let cost = level_table()[row].1;
        if cost == 0 || money < cost {
            (money, attack)
        } else {
            climb((money - cost) as u32, row + 1, level_table()[row + 1].0)
        }
    }
}

/// What remains of `money` and the level reached; an unlisted level is passed
/// through unchanged.
pub open spec fn projection(money: u32, attack: u16) -> (u32, u16) {
    if is_listed(attack) {
        climb(money, level_row(attack), attack)
    } else {
        (money, attack)
    }
}

/// Simulates spending the recognized money up the price table.
pub struct Processor {
    last_money: u32,
    last_attack: u16,
}

impl Processor {
    fn process_money(&self, reading: (u32, u32)) -> (r: Option<u32>)
        ensures
            r == Some(reading.0),
    {
        Some(reading.0)
    }

    fn process_attack(&self, reading: (u16, u32)) -> (r: Option<u16>)
        ensures
            r == Some(gated_attack(reading.0, reading.1)),
    {
        if reading.1 <= ATTACK_PASSING_SCORE {
            Some(reading.0)
        } else {
            Some(0)
        }
    }

    /// The money of the last projection.
    pub closed spec fn last_money_spec(&self) -> u32 {
        self.last_money
    }

    /// The attack level of the last projection.
    pub closed spec fn last_attack_spec(&self) -> u16 {
        self.last_attack
    }

    pub fn new() -> (r: Self)
        ensures
            r.last_money_spec() == 0 && r.last_attack_spec() == 0,
    {
        Self { last_money: 0, last_attack: 0 }
    }

    /// From a `(value, score)` money reading and a `(value, score)` attack
    /// reading, the money left and the attack level reached after buying every
    /// upgrade that the money affords.
    pub fn process(&self, money: (u32, u32), attack: (u16, u32)) -> (r: (u32, u16))
        ensures
            r == projection(money.0, gated_attack(attack.0, attack.1)),
            attack.1 > ATTACK_PASSING_SCORE ==> r == (money.0, 0u16),
            gated_attack(attack.0, attack.1) == 0 ==> r == (money.0, 0u16),
    {
        proof {
            lemma_no_level_zero();
        }
        let money = self.process_money(money).unwrap();
        let attack = self.process_attack(attack).unwrap();
        let table = level_data();

        let mut row: usize = 0;
        while row < LEVEL_COUNT && table[row].0 != attack
            invariant
                row <= LEVEL_COUNT,
                table@ == level_table(),
                forall|i: int| 0 <= i < row ==> level_table()[i].0 != attack,
            decreases LEVEL_COUNT - row,
        {
            row = row + 1;
        }
        if row == LEVEL_COUNT {
            return (money, attack);
        }
        proof {
            assert(level_table()[row as int].0 == attack);
            lemma_level_rows_distinct();
        }

        let mut remaining_money = money;
        let mut final_attack = attack;
        let mut i: usize = row + 1;
        while i < LEVEL_COUNT
            invariant_except_break
                row + 1 <= i <= LEVEL_COUNT,
                table@ == level_table(),
                climb(remaining_money, i - 1, final_attack) == climb(money, row as int, attack),
            ensures
                (remaining_money, final_attack) == climb(money, row as int, attack),
            decreases LEVEL_COUNT - i,
        {
            let cost = table[i - 1].1;
            if cost == 0 || remaining_money < cost {
                break;
            }
            remaining_money = remaining_money - cost;
            final_attack = table[i].0;
            i = i + 1;
        }
        (remaining_money, final_attack)
    }
}

/// No row of the price table holds level 0.
proof fn lemma_no_level_zero()
    ensures
        !is_listed(0),
{
    assert forall|i: int| 0 <= i < LEVEL_COUNT implies #[trigger] level_table()[i].0 != 0 by {
        reveal_with_fuel(level_table, 1);
    }
}

/// Each level stands in exactly one row of the price table.
proof fn lemma_level_rows_distinct()
    ensures
        forall|i: int, j: int|
            0 <= i < j < LEVEL_COUNT ==> level_table()[i].0 < level_table()[j].0,
{
    let t = level_table();
    assert forall|i: int, j: int| 0 <= i < j < LEVEL_COUNT implies t[i].0 < t[j].0 by {
        assert forall|k: int| 0 <= k < LEVEL_COUNT - 1 implies #[trigger] t[k].0 < t[k + 1].0 by {
            reveal_with_fuel(level_table, 1);
        }
        lemma_ascending_from_steps(t, i, j);
    }
}

proof fn lemma_ascending_from_steps(t: Seq<(u16, u32)>, i: int, j: int)
    requires
        0 <= i < j < t.len(),
        forall|k: int| 0 <= k < t.len() - 1 ==> #[trigger] t[k].0 < t[k + 1].0,
    ensures
        t[i].0 < t[j].0,
    decreases j - i,
{
    if j > i + 1 {
        lemma_ascending_from_steps(t, i, j - 1);
    }
}

} // verus!
