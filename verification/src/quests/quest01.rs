//! Quest 1: potions for battles.
//!
//! The notes are a row of symbols, one for each enemy, read in battles of
//! one, two or three places, by the part of the quest. Each kind of enemy
//! takes a number of potions of its own, and each enemy takes one more for
//! every other enemy in its battle. A symbol that names no enemy leaves its
//! place in the battle empty.

use vstd::arithmetic::div_mod::{lemma_fundamental_div_mod, lemma_fundamental_div_mod_converse};
use vstd::prelude::*;
use vstd::std_specs::convert::TryFromSpecImpl;

use crate::common::{Part, QuestError};
use crate::sums::{lemma_sum_at_most, lemma_sum_prefix, sum_below};
use crate::text::{decimal, decimal_string};

verus! {

/// The symbol `A`, which names the ancient ant.
pub const ANT: u8 = 65;

/// The symbol `B`, which names the badass beetle.
pub const BEETLE: u8 = 66;

/// The symbol `C`, which names the creepy cockroach.
pub const COCKROACH: u8 = 67;

/// The symbol `D`, which names the diabolical dragonfly.
pub const DRAGONFLY: u8 = 68;

/// A kind of enemy.
#[derive(Clone, Copy, Debug, PartialEq, Eq, Structural)]
pub enum Enemy {
    AncientAnt,
    BadassBeetle,
    CreepyCockroach,
    DiabolicalDragonfly,
}

/// A symbol that names no enemy.
#[derive(Clone, Copy, Debug, PartialEq, Eq, Structural)]
pub struct UnknownEnemy;

/// Enemies that are fought together.
pub struct Battle {
    enemies: Vec<Enemy>,
}

impl View for Battle {
    type V = Seq<Enemy>;

    closed spec fn view(&self) -> Seq<Enemy> {
        self.enemies@
    }
}

impl Enemy {
    /// The enemy that a symbol of the notes names: `A`, `B`, `C` and `D`
    /// name the four kinds, in order.
    pub open spec fn named(symbol: u8) -> Option<Enemy> {
        if symbol == ANT {
            Some(Enemy::AncientAnt)
        } else if symbol == BEETLE {
            Some(Enemy::BadassBeetle)
        } else if symbol == COCKROACH {
            Some(Enemy::CreepyCockroach)
        } else if symbol == DRAGONFLY {
            Some(Enemy::DiabolicalDragonfly)
        } else {
            None
        }
    }

    /// The potions that an enemy of this kind takes when fought alone.
    pub open spec fn potions(self) -> nat {
        match self {
            Enemy::AncientAnt => 0,
            Enemy::BadassBeetle => 1,
            Enemy::CreepyCockroach => 3,
            Enemy::DiabolicalDragonfly => 5,
        }
    }

    /// The potions that an enemy of this kind takes when fought alone.
    pub fn potions_needed(&self) -> (potions: usize)
        ensures
            potions == self.potions(),
    {
        match self {
            Self::AncientAnt => 0,
            Self::BadassBeetle => 1,
            Self::CreepyCockroach => 3,
            Self::DiabolicalDragonfly => 5,
        }
    }
}

impl TryFrom<u8> for Enemy {
    type Error = UnknownEnemy;

    fn try_from(value: u8) -> (enemy: Result<Enemy, UnknownEnemy>) {
        if value == ANT {
            Ok(Self::AncientAnt)
        } else if value == BEETLE {
            Ok(Self::BadassBeetle)
        } else if value == COCKROACH {
            Ok(Self::CreepyCockroach)
        } else if value == DRAGONFLY {
            Ok(Self::DiabolicalDragonfly)
        } else {
            Err(UnknownEnemy)
        }
    }
}

impl TryFromSpecImpl<u8> for Enemy {
    open spec fn obeys_try_from_spec() -> bool {
        true
    }

    open spec fn try_from_spec(value: u8) -> Result<Enemy, UnknownEnemy> {
        match Enemy::named(value) {
            Some(enemy) => Ok(enemy),
            None => Err(UnknownEnemy),
        }
    }
}

/// The enemies that a run of symbols names, in order; a symbol that names
/// none is passed over.
pub open spec fn enemies_of(symbols: Seq<u8>) -> Seq<Enemy>
    decreases symbols.len(),
{
    if symbols.len() == 0 {
        Seq::empty()
    } else {
        match Enemy::named(symbols.last()) {
            Some(enemy) => enemies_of(symbols.drop_last()).push(enemy),
            None => enemies_of(symbols.drop_last()),
        }
    }
}

/// The potions of the enemy at index `i`, as a function of `i`.
pub open spec fn potions_at(enemies: Seq<Enemy>) -> spec_fn(int) -> nat {
    |i: int| enemies[i].potions()
}

/// The potions that a battle against `enemies` takes: those of each enemy
/// alone, and for each enemy one more for every other enemy in the battle.
pub open spec fn battle_potions(enemies: Seq<Enemy>) -> nat {
    let alone = sum_below(enemies.len() as int, potions_at(enemies));
    if enemies.len() < 2 {
        alone
    } else {
        alone + enemies.len() * (enemies.len() - 1) as nat
    }
}

/// The battles that the notes `text` hold when read in chunks of `chunk`
/// symbols: one battle for each whole chunk. Symbols left over at the end,
/// fewer than a chunk, belong to no battle.
pub open spec fn battles_of(text: Seq<u8>, chunk: nat) -> Seq<Seq<Enemy>> {
    Seq::new(
        text.len() / chunk,
        |i: int| enemies_of(text.subrange(i * chunk, i * chunk + chunk)),
    )
}

/// The potions of the battle at index `i`, as a function of `i`.
pub open spec fn battle_potions_at(battles: Seq<Seq<Enemy>>) -> spec_fn(int) -> nat {
    |i: int| battle_potions(battles[i])
}

/// The potions that all the battles take together.
pub open spec fn total_potions(battles: Seq<Seq<Enemy>>) -> nat {
    sum_below(battles.len() as int, battle_potions_at(battles))
}

/// The enemies of each battle.
pub open spec fn enemies_in(battles: Seq<Battle>) -> Seq<Seq<Enemy>> {
    Seq::new(battles.len(), |i: int| battles[i]@)
}

/// A battle against at most `limit` enemies takes at most five potions for
/// each of `limit` enemies alone, and `limit - 1` more for each of them.
pub proof fn lemma_battle_potions_bounded(enemies: Seq<Enemy>, limit: nat)
    requires
        enemies.len() <= limit,
    ensures
        battle_potions(enemies) <= 5 * limit + limit * (limit - 1),
{
    let n = enemies.len();
    lemma_sum_at_most(n as int, potions_at(enemies), 5);
    if n >= 2 {
        assert(n * (n - 1) <= limit * (limit - 1)) by (nonlinear_arith)
            requires
                2 <= n <= limit,
        ;
    } else {
        assert(0 <= limit * (limit - 1)) by (nonlinear_arith);
    }
}

/// Each of the `length / chunk` whole chunks lies within the `length`
/// symbols.
pub proof fn lemma_chunk_within(length: nat, chunk: nat, i: int)
    requires
        chunk > 0,
        0 <= i < length / chunk,
    ensures
        0 <= i * chunk,
        i * chunk + chunk <= length,
{
    lemma_fundamental_div_mod(length as int, chunk as int);
    let whole = length as int / chunk as int;
    assert(0 <= i * chunk && i * chunk + chunk <= chunk * whole) by (nonlinear_arith)
        requires
            0 <= i < whole,
            chunk > 0,
    ;
}

/// A run of symbols names at most as many enemies as it has symbols.
pub proof fn lemma_enemies_of_len(symbols: Seq<u8>)
    ensures
        enemies_of(symbols).len() <= symbols.len(),
    decreases symbols.len(),
{
    if symbols.len() > 0 {
        lemma_enemies_of_len(symbols.drop_last());
    }
}

/// The answer to a part of the quest: the potions that all the battles of
/// the notes take, read in chunks of as many symbols as the part's number
/// says. The number of potions must fit in a `usize`.
pub open spec fn answer(part: Part, text: Seq<u8>) -> Result<nat, QuestError> {
    let potions = total_potions(battles_of(text, part.number()));
    if potions <= usize::MAX {
        Ok(potions)
    } else {
        Err(QuestError::Overflow)
    }
}

/// An answer is owed for notes of every length that occurs: the battles take
/// at most seven potions for each symbol of the notes, so the quest has an
/// answer wherever seven times the length of the notes fits in a `usize`.
pub proof fn lemma_answer_owed(part: Part, text: Seq<u8>)
    requires
        7 * text.len() <= usize::MAX,
    ensures
        total_potions(battles_of(text, part.number())) <= 7 * text.len(),
        answer(part, text) is Ok,
{
    let chunk = part.number();
    let battles = battles_of(text, chunk);
    let count = battles.len();
    assert forall|i: int| 0 <= i < count implies #[trigger] battle_potions_at(battles)(i) <= 7
        * chunk by {
        lemma_chunk_within(text.len(), chunk, i);
        lemma_enemies_of_len(text.subrange(i * chunk, i * chunk + chunk));
        lemma_battle_potions_bounded(battles[i], chunk);
        assert(5 * chunk + chunk * (chunk - 1) <= 7 * chunk) by (nonlinear_arith)
            requires
                1 <= chunk <= 3,
        ;
    }
    lemma_sum_at_most(count as int, battle_potions_at(battles), 7 * chunk);
    lemma_fundamental_div_mod(text.len() as int, chunk as int);
    assert(count * (7 * chunk) <= 7 * text.len()) by (nonlinear_arith)
        requires
            count == text.len() as int / chunk as int,
            text.len() == chunk * (text.len() as int / chunk as int) + text.len() as int
                % chunk as int,
            0 <= text.len() as int % chunk as int,
            chunk > 0,
    ;
}

/// Solves a part of the quest: reads the battles from the notes, in chunks
/// of one symbol in part one, two in part two and three in part three, and
/// writes the potions that they take together in decimal.
///
/// The answer is an error only where the number of potions does not fit in
/// a `usize`.
pub fn solve(part: Part, input: &[u8]) -> (answer: Result<String, QuestError>)
    ensures
        match self::answer(part, input@) {
            Ok(potions) => answer is Ok && answer.unwrap()@ == decimal(potions),
            Err(error) => answer == Err::<String, QuestError>(error),
        },
{
    let chunk_size = usize::from(part);
    let battles = parse_battles(input, chunk_size);
    proof {
        assert forall|i: int| 0 <= i < battles@.len() implies battle_potions(
            #[trigger] battles@[i]@,
        ) <= usize::MAX by {
            assert(battles@[i]@ == enemies_in(battles@)[i]);
            lemma_chunk_within(input@.len(), chunk_size as nat, i);
            lemma_enemies_of_len(input@.subrange(i * chunk_size, i * chunk_size + chunk_size));
            lemma_battle_potions_bounded(battles@[i]@, 3);
        }
    }
    match count_potions(&battles) {
        Some(potions) => Ok(decimal_string(potions)),
        None => Err(QuestError::Overflow),
    }
}

/// The potions that all the battles take together, or `None` if that number
/// does not fit in a `usize`.
fn count_potions(battles: &Vec<Battle>) -> (potions: Option<usize>)
    requires
        forall|i: int|
            0 <= i < battles@.len() ==> battle_potions(#[trigger] battles@[i]@) <= usize::MAX,
    ensures
        match potions {
            Some(p) => p == total_potions(enemies_in(battles@)),
            None => total_potions(enemies_in(battles@)) > usize::MAX,
        },
{
    let ghost each = battle_potions_at(enemies_in(battles@));
    let mut total: usize = 0;
    let mut i: usize = 0;
    while i < battles.len()
        invariant
            0 <= i <= battles@.len(),
            each == battle_potions_at(enemies_in(battles@)),
            total == sum_below(i as int, each),
            forall|j: int|
                0 <= j < battles@.len() ==> battle_potions(#[trigger] battles@[j]@) <= usize::MAX,
        decreases battles@.len() - i,
    {
        match total.checked_add(battles[i].potions_needed()) {
            Some(sum) => {
                total = sum;
            },
            None => {
                proof {
                    lemma_sum_prefix(i as int + 1, battles@.len() as int, each);
                }
                return None;
            },
        }
        i += 1;
    }
    Some(total)
}

/// The battles that the notes hold when read in chunks of `chunk_size`
/// symbols. Each whole chunk is a battle, also where none of its symbols
/// names an enemy; symbols left over at the end belong to no battle.
fn parse_battles(input: &[u8], chunk_size: usize) -> (battles: Vec<Battle>)
    requires
        chunk_size > 0,
    ensures
        enemies_in(battles@) == battles_of(input@, chunk_size as nat),
{
    let length = input.len();
    let mut battles: Vec<Battle> = Vec::new();
    let mut start: usize = 0;
    assert(0 * chunk_size == 0) by (nonlinear_arith);
    while length - start >= chunk_size
        invariant
            chunk_size > 0,
            length == input@.len(),
            0 <= start <= length,
            start == battles@.len() * chunk_size,
            forall|i: int|
                0 <= i < battles@.len() ==> (#[trigger] battles@[i])@ == enemies_of(
                    input@.subrange(i * chunk_size, i * chunk_size + chunk_size),
                ),
        decreases length - start,
    {
        let end = start + chunk_size;
        let mut enemies: Vec<Enemy> = Vec::new();
        let mut at: usize = start;
        while at < end
            invariant
                start <= at <= end <= length,
                length == input@.len(),
                enemies@ == enemies_of(input@.subrange(start as int, at as int)),
            decreases end - at,
        {
            proof {
                let longer = input@.subrange(start as int, at + 1);
                assert(longer.drop_last() =~= input@.subrange(start as int, at as int));
            }
            match Enemy::try_from(input[at]) {
                Ok(enemy) => {
                    enemies.push(enemy);
                },
                Err(_) => {},
            }
            at += 1;
        }
        proof {
            let count = battles@.len();
            assert((count + 1) * chunk_size == count * chunk_size + chunk_size)
                by (nonlinear_arith);
        }
        battles.push(Battle::new(enemies));
        start = end;
    }
    proof {
        let count = battles@.len() as int;
        lemma_fundamental_div_mod_converse(
            length as int,
            chunk_size as int,
            count,
            length - start,
        );
    }
    battles
}

impl Battle {
    /// A battle against the given enemies.
    pub fn new(enemies: Vec<Enemy>) -> (battle: Self)
        ensures
            battle@ == enemies@,
    {
        Self { enemies }
    }

    /// The potions that the battle takes: those of each enemy alone, and
    /// for each enemy one more for every other enemy in the battle. The
    /// number must fit in a `usize`.
    pub fn potions_needed(&self) -> (potions: usize)
        requires
            battle_potions(self@) <= usize::MAX,
        ensures
            potions == battle_potions(self@),
    {
        let num_enemies = self.enemies.len();
        let mut base_potions_needed: usize = 0;
        let mut i: usize = 0;
        while i < num_enemies
            invariant
                0 <= i <= num_enemies,
                num_enemies == self@.len(),
                base_potions_needed == sum_below(i as int, potions_at(self@)),
                sum_below(num_enemies as int, potions_at(self@)) <= usize::MAX,
            decreases num_enemies - i,
        {
            proof {
                lemma_sum_prefix(i as int + 1, num_enemies as int, potions_at(self@));
            }
            base_potions_needed = base_potions_needed + self.enemies[i].potions_needed();
            i += 1;
        }
        if num_enemies < 2 {
            base_potions_needed
        } else {
            assert(num_enemies * (num_enemies - 1) <= usize::MAX) by {
                assert(num_enemies * (num_enemies - 1) >= 0) by (nonlinear_arith)
                    requires
                        num_enemies >= 2,
                ;
            }
            base_potions_needed + num_enemies * (num_enemies - 1)
        }
    }
}

} // verus!
