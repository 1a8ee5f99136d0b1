use adventure::game::{
    generate_key_code, random_game_state, step, step_random, terminal_choice,
};
use adventure::{GameState, Item, Outcome, SaveChoice};

fn is_room(s: GameState) -> bool {
    matches!(s, GameState::Room1 | GameState::Room2 | GameState::Room3)
}

#[test]
fn start_with_a_door_choice_enters_a_room() {
    for door in [b"1".to_vec(), b"2".to_vec(), b"3".to_vec()] {
        let mut inv: Vec<Item> = Vec::new();
        let (next, outcome) = step(GameState::Start, &door, GameState::Room1, &mut inv);
        assert_eq!(next, GameState::Room1);
        assert_eq!(outcome, Outcome::DoorOpened);
        assert!(inv.is_empty());
    }
}

#[test]
fn start_with_anything_else_is_game_over() {
    for junk in [b"4".to_vec(), b"open".to_vec(), b"".to_vec(), b"12".to_vec()] {
        let mut inv: Vec<Item> = Vec::new();
        let (next, outcome) = step_random(GameState::Start, &junk, &mut inv);
        assert_eq!(next, GameState::GameOver);
        assert_eq!(outcome, Outcome::Stumbled);
    }
}

#[test]
fn start_trims_the_input_line() {
    let mut inv: Vec<Item> = Vec::new();
    let (next, outcome) = step(GameState::Start, &b" 1 \n".to_vec(), GameState::Room3, &mut inv);
    assert_eq!(next, GameState::Room3);
    assert_eq!(outcome, Outcome::DoorOpened);
}

#[test]
fn room1_with_a_key_wins() {
    let mut inv = vec![Item::Coin(2), Item::Key];
    let (next, outcome) = step_random(GameState::Room1, &Vec::new(), &mut inv);
    assert_eq!(next, GameState::Win);
    assert_eq!(outcome, Outcome::KeyUsed);
    assert_eq!(inv, vec![Item::Coin(2), Item::Key]);
}

#[test]
fn room1_without_a_key_never_wins() {
    for _ in 0..50 {
        let mut inv = vec![Item::Coin(9)];
        let (next, outcome) = step_random(GameState::Room1, &Vec::new(), &mut inv);
        assert!(is_room(next));
        assert_eq!(outcome, Outcome::Searched);
    }
}

#[test]
fn room2_yes_takes_key_and_coin() {
    let mut inv = vec![Item::Coin(2)];
    let (next, outcome) = step(GameState::Room2, &b"yes\n".to_vec(), GameState::Room2, &mut inv);
    assert_eq!(next, GameState::Room2);
    assert_eq!(outcome, Outcome::PickedUp);
    assert_eq!(inv, vec![Item::Coin(2), Item::Key, Item::Coin(1)]);
}

#[test]
fn room2_no_leaves_the_table_alone() {
    let mut inv = vec![Item::Coin(2)];
    let (next, outcome) = step(GameState::Room2, &b"no".to_vec(), GameState::Room3, &mut inv);
    assert_eq!(next, GameState::Room3);
    assert_eq!(outcome, Outcome::LeftItems);
    assert_eq!(inv, vec![Item::Coin(2)]);
}

#[test]
fn room2_with_anything_else_is_game_over() {
    let mut inv = vec![Item::Coin(2)];
    let (next, outcome) = step_random(GameState::Room2, &b"maybe".to_vec(), &mut inv);
    assert_eq!(next, GameState::GameOver);
    assert_eq!(outcome, Outcome::RoomReacted);
    assert_eq!(inv, vec![Item::Coin(2)]);
}

#[test]
fn room3_is_a_dead_end() {
    let mut inv: Vec<Item> = Vec::new();
    let (next, outcome) = step_random(GameState::Room3, &Vec::new(), &mut inv);
    assert!(is_room(next));
    assert_eq!(outcome, Outcome::SpiderBlocked);
}

#[test]
fn purchase_buying_a_key_resets_coins_to_three() {
    let mut inv = vec![Item::Coin(3)];
    let (next, outcome) = step(GameState::Purchase, &b"1".to_vec(), GameState::Room1, &mut inv);
    assert_eq!(next, GameState::Room1);
    assert_eq!(outcome, Outcome::BoughtKey);
    // the reset-to-3 behavior: not a subtraction
    assert_eq!(inv, vec![Item::Key, Item::Coin(3)]);
}

#[test]
fn purchase_buying_collapses_many_stacks() {
    let mut inv = vec![Item::Coin(4), Item::Key, Item::Coin(4)];
    let (_, outcome) = step(GameState::Purchase, &b"1".to_vec(), GameState::Room1, &mut inv);
    assert_eq!(outcome, Outcome::BoughtKey);
    assert_eq!(inv, vec![Item::Key, Item::Key, Item::Coin(3)]);
}

#[test]
fn purchase_with_too_few_coins_keeps_the_inventory() {
    let mut inv = vec![Item::Coin(2)];
    let (next, outcome) = step_random(GameState::Purchase, &b"1".to_vec(), &mut inv);
    assert!(is_room(next));
    assert_eq!(outcome, Outcome::NotEnoughForKey);
    assert_eq!(inv, vec![Item::Coin(2)]);
}

#[test]
fn purchase_loophole_with_five_coins_wins() {
    let mut inv = vec![Item::Coin(5)];
    let (next, outcome) = step_random(GameState::Purchase, &b"L".to_vec(), &mut inv);
    assert_eq!(next, GameState::Win);
    assert_eq!(outcome, Outcome::LoopholeWin);
    assert_eq!(inv, vec![Item::Coin(5)]);
}

#[test]
fn purchase_loophole_under_five_coins_never_wins() {
    for _ in 0..50 {
        let mut inv = vec![Item::Coin(4)];
        let (next, outcome) = step_random(GameState::Purchase, &b"L".to_vec(), &mut inv);
        assert!(is_room(next));
        assert_eq!(outcome, Outcome::NotEnoughForLoophole);
    }
}

#[test]
fn purchase_back_and_unknown_choices() {
    let mut inv = vec![Item::Coin(5)];
    let (next, outcome) = step_random(GameState::Purchase, &b"2".to_vec(), &mut inv);
    assert!(is_room(next));
    assert_eq!(outcome, Outcome::WentBack);
    let (next, outcome) = step_random(GameState::Purchase, &b"buy".to_vec(), &mut inv);
    assert!(is_room(next));
    assert_eq!(outcome, Outcome::ShopConfused);
    assert_eq!(inv, vec![Item::Coin(5)]);
}

#[test]
fn terminal_choice_reads_the_answer() {
    assert_eq!(terminal_choice(&b"yes\n".to_vec()), SaveChoice::SaveGame);
    assert_eq!(terminal_choice(&b"no".to_vec()), SaveChoice::Farewell);
    assert_eq!(terminal_choice(&b"perhaps".to_vec()), SaveChoice::Indifferent);
    assert_eq!(terminal_choice(&b"".to_vec()), SaveChoice::Indifferent);
}

#[test]
fn random_rooms_stay_in_the_rooms() {
    for _ in 0..100 {
        assert!(is_room(random_game_state()));
    }
}

#[test]
fn key_codes_have_at_most_six_digits() {
    for _ in 0..100 {
        assert!(generate_key_code() <= 999999);
    }
}
