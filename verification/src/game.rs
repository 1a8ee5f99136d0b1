//! The game engine: a small state machine over rooms, driven by one line of
//! player input per visit and by a uniformly random room draw. Each visit to a
//! non-terminal state is one `step`; the caller performs the announced
//! `Outcome` (printing) and loops until the state is terminal.

use vstd::prelude::*;
use crate::inventory::{Item, coin_total, spec_has_key, non_coins, get_coin_count, has_key};
use crate::text::{trimmed, trim, B_ONE, B_TWO, B_THREE, B_UPPER_L, B_LOWER_Y, B_LOWER_E,
    B_LOWER_S, B_LOWER_N, B_LOWER_O};
use rand::Rng;

verus! {

/// The states of the game. `Win` and `GameOver` are terminal.
#[derive(Clone, Copy, Debug, PartialEq, Eq, Structural)]
pub enum GameState {
    Start,
    Room1,
    Room2,
    Room3,
    Win,
    GameOver,
    Purchase,
}

/// What happened during a step, for the caller to report to the player.
#[derive(Clone, Copy, Debug, PartialEq, Eq, Structural)]
pub enum Outcome {
    /// A door was chosen at the start and entered.
    DoorOpened,
    /// The start input was not a door; the game is over.
    Stumbled,
    /// A key unlocked the first room's door; the game is won.
    KeyUsed,
    /// No key; the search goes on in a random room.
    Searched,
    /// The key and the coin on the table were taken.
    PickedUp,
    /// The key and the coin were left on the table.
    LeftItems,
    /// The second room's question was not answered; the game is over.
    RoomReacted,
    /// The third room is a dead end; back to a random room.
    SpiderBlocked,
    /// A key was bought; the coins were collapsed to a single stack of 3.
    BoughtKey,
    /// Too few coins to buy the key.
    NotEnoughForKey,
    /// The loophole was bought; the game is won.
    LoopholeWin,
    /// Too few coins to buy the loophole.
    NotEnoughForLoophole,
    /// The shop was left for a random room.
    WentBack,
    /// The shop choice was not recognized.
    ShopConfused,
}

/// The player's answer to the save prompt after a terminal state.
#[derive(Clone, Copy, Debug, PartialEq, Eq, Structural)]
pub enum SaveChoice {
    /// "yes": write the save file.
    SaveGame,
    /// "no": end without saving.
    Farewell,
    /// Anything else: end without saving, with an indifferent word.
    Indifferent,
}

pub open spec fn is_room(s: GameState) -> bool {
    s is Room1 || s is Room2 || s is Room3
}

pub open spec fn is_terminal(s: GameState) -> bool {
    s is Win || s is GameOver
}

/// A trimmed input that chooses a door at the start: "1", "2" or "3".
pub open spec fn is_door_choice(t: Seq<u8>) -> bool {
    t.len() == 1 && (t[0] == B_ONE || t[0] == B_TWO || t[0] == B_THREE)
}

/// The trimmed input "yes".
pub open spec fn is_yes(t: Seq<u8>) -> bool {
    t.len() == 3 && t[0] == B_LOWER_Y && t[1] == B_LOWER_E && t[2] == B_LOWER_S
}

/// The trimmed input "no".
pub open spec fn is_no(t: Seq<u8>) -> bool {
    t.len() == 2 && t[0] == B_LOWER_N && t[1] == B_LOWER_O
}

/// The trimmed input "1": buy a key in the shop.
pub open spec fn is_buy_key(t: Seq<u8>) -> bool {
    t.len() == 1 && t[0] == B_ONE
}

/// The trimmed input "2": leave the shop.
pub open spec fn is_go_back(t: Seq<u8>) -> bool {
    t.len() == 1 && t[0] == B_TWO
}

/// The trimmed input "L": buy the loophole.
pub open spec fn is_loophole(t: Seq<u8>) -> bool {
    t.len() == 1 && t[0] == B_UPPER_L
}

/// What one visit to a non-terminal state does, as told to the player.
pub open spec fn spec_outcome(state: GameState, input: Seq<u8>, inv: Seq<Item>) -> Outcome
    recommends
        !is_terminal(state),
{
    let t = trimmed(input);
    match state {
        GameState::Start => if is_door_choice(t) {
            Outcome::DoorOpened
        } else {
            Outcome::Stumbled
        },
        GameState::Room1 => if spec_has_key(inv) {
            Outcome::KeyUsed
        } else {
            Outcome::Searched
        },
        GameState::Room2 => if is_yes(t) {
            Outcome::PickedUp
        } else if is_no(t) {
            Outcome::LeftItems
        } else {
            Outcome::RoomReacted
        },
        GameState::Room3 => Outcome::SpiderBlocked,
        GameState::Purchase => if is_buy_key(t) {
            if coin_total(inv) >= 3 {
                Outcome::BoughtKey
            } else {
                Outcome::NotEnoughForKey
            }
        } else if is_loophole(t) {
            if coin_total(inv) >= 5 {
                Outcome::LoopholeWin
            } else {
                Outcome::NotEnoughForLoophole
            }
        } else if is_go_back(t) {
            Outcome::WentBack
        } else {
            Outcome::ShopConfused
        },
        GameState::Win => Outcome::KeyUsed,
        GameState::GameOver => Outcome::Stumbled,
    }
}

/// The state after one visit, given the room `room` that the random draw
/// picked for every branch that moves to a random room.
pub open spec fn spec_next_state(
    state: GameState,
    input: Seq<u8>,
    inv: Seq<Item>,
    room: GameState,
) -> GameState
    recommends
        !is_terminal(state),
        is_room(room),
{
    let t = trimmed(input);
    match state {
        GameState::Start => if is_door_choice(t) {
            room
        } else {
            GameState::GameOver
        },
        GameState::Room1 => if spec_has_key(inv) {
            GameState::Win
        } else {
            room
        },
        GameState::Room2 => if is_yes(t) || is_no(t) {
            room
        } else {
            GameState::GameOver
        },
        GameState::Room3 => room,
        GameState::Purchase => if is_loophole(t) && coin_total(inv) >= 5 {
            GameState::Win
        } else {
            room
        },
        GameState::Win => GameState::Win,
        GameState::GameOver => GameState::GameOver,
    }
}

/// The inventory after one visit: Room2 "yes" adds a key and one coin; the
/// shop's "1" with at least 3 coins adds a key and collapses all coin stacks
/// into a single stack of 3. Nothing else changes the inventory.
pub open spec fn spec_next_inv(state: GameState, input: Seq<u8>, inv: Seq<Item>) -> Seq<Item>
    recommends
        !is_terminal(state),
{
    let t = trimmed(input);
    match state {
        GameState::Room2 => if is_yes(t) {
            inv.push(Item::Key).push(Item::Coin(1))
        } else {
            inv
        },
        GameState::Purchase => if is_buy_key(t) && coin_total(inv) >= 3 {
            non_coins(inv).push(Item::Key).push(Item::Coin(3))
        } else {
            inv
        },
        _ => inv,
    }
}

/// The player's answer to the save prompt: "yes" saves, "no" declines,
/// anything else is met with indifference.
pub open spec fn spec_terminal_choice(input: Seq<u8>) -> SaveChoice {
    let t = trimmed(input);
    if is_yes(t) {
        SaveChoice::SaveGame
    } else if is_no(t) {
        SaveChoice::Farewell
    } else {
        SaveChoice::Indifferent
    }
}

/// Relies on `rand::thread_rng` and `rand::Rng::gen_range`: a sample from the
/// non-empty inclusive range `lo..=hi` lies within that range. Nothing more is
/// claimed of the draw.
#[verifier::external_body]
fn random_in_range(lo: u32, hi: u32) -> (r: u32)
    requires
        lo <= hi,
    ensures
        lo <= r <= hi,
{
    rand::thread_rng().gen_range(lo..=hi)
}

/// Draws the room that a random transition moves to: one of the three rooms,
/// uniformly, never a terminal state.
pub fn random_game_state() -> (s: GameState)
    ensures
        is_room(s),
{
    match random_in_range(0, 2) {
        0 => GameState::Room1,
        1 => GameState::Room2,
        _ => GameState::Room3,
    }
}

/// Draws a fresh key code for a save file: at most six decimal digits.
pub fn generate_key_code() -> (code: u32)
    ensures
        code <= 999999,
{
    random_in_range(0, 999999)
}

/// Removes every coin stack from the inventory, keeping keys in order.
fn remove_coins(inventory: &mut Vec<Item>)
    ensures
        final(inventory)@ == non_coins(old(inventory)@),
{
    let mut kept: Vec<Item> = Vec::new();
    let mut i: usize = 0;
    while i < inventory.len()
        invariant
            i <= inventory.len(),
            kept@ == non_coins(inventory@.take(i as int)),
        decreases inventory.len() - i,
    {
        proof {
            assert(inventory@.take(i + 1).drop_last() =~= inventory@.take(i as int));
            assert(inventory@.take(i + 1).last() == inventory@[i as int]);
        }
        match inventory[i] {
            Item::Key => {
                kept.push(Item::Key);
            },
            Item::Coin(_) => {},
        }
        i = i + 1;
    }
    proof {
        assert(inventory@.take(inventory@.len() as int) =~= inventory@);
    }
    *inventory = kept;
}

/// One visit to a non-terminal state. `input` is the raw line the player
/// typed (ignored by Room1 and Room3), `room` the room a random draw picked
/// for the branches that move to a random room. Returns the next state and
/// the outcome to report.
pub fn step(state: GameState, input: &Vec<u8>, room: GameState, inventory: &mut Vec<Item>) -> (r: (
    GameState,
    Outcome,
))
    requires
        !is_terminal(state),
        is_room(room),
        coin_total(old(inventory)@) <= u32::MAX,
    ensures
        r.0 == spec_next_state(state, input@, old(inventory)@, room),
        r.1 == spec_outcome(state, input@, old(inventory)@),
        final(inventory)@ == spec_next_inv(state, input@, old(inventory)@),
{
    let t = trim(input);
    match state {
        GameState::Start => {
            if t.len() == 1 && (t[0] == B_ONE || t[0] == B_TWO || t[0] == B_THREE) {
                (room, Outcome::DoorOpened)
            } else {
                (GameState::GameOver, Outcome::Stumbled)
            }
        },
        GameState::Room1 => {
            if has_key(inventory) {
                (GameState::Win, Outcome::KeyUsed)
            } else {
                (room, Outcome::Searched)
            }
        },
        GameState::Room2 => {
            if t.len() == 3 && t[0] == B_LOWER_Y && t[1] == B_LOWER_E && t[2] == B_LOWER_S {
                inventory.push(Item::Key);
                inventory.push(Item::Coin(1));
                (room, Outcome::PickedUp)
            } else if t.len() == 2 && t[0] == B_LOWER_N && t[1] == B_LOWER_O {
                (room, Outcome::LeftItems)
            } else {
                (GameState::GameOver, Outcome::RoomReacted)
            }
        },
        GameState::Room3 => (room, Outcome::SpiderBlocked),
        GameState::Purchase => {
            let coin_count = get_coin_count(inventory);
            if t.len() == 1 && t[0] == B_ONE {
                if coin_count >= 3 {
                    remove_coins(inventory);
                    inventory.push(Item::Key);
                    inventory.push(Item::Coin(3));
                    (room, Outcome::BoughtKey)
                } else {
                    (room, Outcome::NotEnoughForKey)
                }
            } else if t.len() == 1 && t[0] == B_UPPER_L {
                if coin_count >= 5 {
                    (GameState::Win, Outcome::LoopholeWin)
                } else {
                    (room, Outcome::NotEnoughForLoophole)
                }
            } else if t.len() == 1 && t[0] == B_TWO {
                (room, Outcome::WentBack)
            } else {
                (room, Outcome::ShopConfused)
            }
        },
        GameState::Win | GameState::GameOver => {
            proof {
                assert(false);
            }
            (GameState::GameOver, Outcome::Stumbled)
        },
    }
}

/// One visit to a non-terminal state, drawing the random room itself. The
/// outcome and the new inventory never depend on the draw; the next state is
/// pinned down exactly wherever the draw does not decide it.
pub fn step_random(state: GameState, input: &Vec<u8>, inventory: &mut Vec<Item>) -> (r: (
    GameState,
    Outcome,
))
    requires
        !is_terminal(state),
        coin_total(old(inventory)@) <= u32::MAX,
    ensures
        r.1 == spec_outcome(state, input@, old(inventory)@),
        final(inventory)@ == spec_next_inv(state, input@, old(inventory)@),
        exists|room: GameState|
            is_room(room) && r.0 == spec_next_state(state, input@, old(inventory)@, room),
        state is Start ==> (if is_door_choice(trimmed(input@)) {
            is_room(r.0)
        } else {
            r.0 is GameOver
        }),
        state is Room1 ==> (if spec_has_key(old(inventory)@) {
            r.0 is Win
        } else {
            is_room(r.0)
        }),
        state is Room2 ==> (if is_yes(trimmed(input@)) || is_no(trimmed(input@)) {
            is_room(r.0)
        } else {
            r.0 is GameOver
        }),
        state is Room3 ==> is_room(r.0),
        state is Purchase ==> (if is_loophole(trimmed(input@)) && coin_total(old(inventory)@)
            >= 5 {
            r.0 is Win
        } else {
            is_room(r.0)
        }),
{
    let room = random_game_state();
    let r = step(state, input, room, inventory);
    proof {
        assert(is_room(room) && r.0 == spec_next_state(state, input@, old(inventory)@, room));
    }
    r
}

/// Reads the player's answer to the save prompt that follows a terminal
/// state.
pub fn terminal_choice(input: &Vec<u8>) -> (c: SaveChoice)
    ensures
        c == spec_terminal_choice(input@),
{
    let t = trim(input);
    if t.len() == 3 && t[0] == B_LOWER_Y && t[1] == B_LOWER_E && t[2] == B_LOWER_S {
        SaveChoice::SaveGame
    } else if t.len() == 2 && t[0] == B_LOWER_N && t[1] == B_LOWER_O {
        SaveChoice::Farewell
    } else {
        SaveChoice::Indifferent
    }
}

} // verus!
