use adventure::codec::{load_game, parse_line, save_game_with_key};
use adventure::inventory::get_coin_count;
use adventure::Item;

#[test]
fn save_writes_the_exact_format() {
    let inv = vec![Item::Key, Item::Coin(5), Item::Coin(2)];
    let content = save_game_with_key(&inv, 123);
    assert_eq!(content, b"Key Code: 000123\nKey\nCoin 5\nCoin 2\n".to_vec());
}

#[test]
fn save_pads_the_key_code_to_six_digits() {
    let content = save_game_with_key(&Vec::new(), 0);
    assert_eq!(content, b"Key Code: 000000\n".to_vec());
    let content = save_game_with_key(&Vec::new(), 999999);
    assert_eq!(content, b"Key Code: 999999\n".to_vec());
}

#[test]
fn save_writes_large_coin_amounts() {
    let inv = vec![Item::Coin(0), Item::Coin(4294967295)];
    let content = save_game_with_key(&inv, 7);
    assert_eq!(content, b"Key Code: 000007\nCoin 0\nCoin 4294967295\n".to_vec());
}

#[test]
fn load_of_the_documented_file() {
    let content = b"Key Code: 000123\nKey\nCoin 5\nCoin 2".to_vec();
    let inv = load_game(&content);
    assert_eq!(inv, vec![Item::Key, Item::Coin(5), Item::Coin(2)]);
    assert_eq!(get_coin_count(&inv), 7);
}

#[test]
fn load_of_empty_content_is_empty() {
    let inv = load_game(&Vec::new());
    assert!(inv.is_empty());
}

#[test]
fn load_skips_the_key_code_line_only() {
    // a file holding nothing but the key-code line
    let inv = load_game(&b"Key Code: 123456\n".to_vec());
    assert!(inv.is_empty());
    // without a trailing newline as well
    let inv = load_game(&b"Key Code: 123456".to_vec());
    assert!(inv.is_empty());
}

#[test]
fn load_accepts_carriage_returns() {
    let content = b"Key Code: 000001\r\nKey\r\nCoin 9\r\n".to_vec();
    let inv = load_game(&content);
    assert_eq!(inv, vec![Item::Key, Item::Coin(9)]);
}

#[test]
fn round_trip_reproduces_the_inventory() {
    let inv = vec![
        Item::Coin(3),
        Item::Key,
        Item::Coin(0),
        Item::Key,
        Item::Coin(4294967295),
    ];
    let loaded = load_game(&save_game_with_key(&inv, 424242));
    assert_eq!(loaded, inv);
}

#[test]
fn round_trip_of_an_empty_inventory() {
    let inv: Vec<Item> = Vec::new();
    let loaded = load_game(&save_game_with_key(&inv, 1));
    assert_eq!(loaded, inv);
}

#[test]
fn malformed_lines_load_as_zero_coins() {
    let content = b"Key Code: 000123\nGarbage\nCoin x\nCoin -1\nCoin \n Key\nkey\nCoin  7\n"
        .to_vec();
    let inv = load_game(&content);
    assert_eq!(
        inv,
        vec![
            Item::Coin(0),
            Item::Coin(0),
            Item::Coin(0),
            Item::Coin(0),
            Item::Coin(0),
            Item::Coin(0),
            Item::Coin(0),
        ]
    );
}

#[test]
fn overflowing_coin_amount_loads_as_zero() {
    let inv = load_game(&b"Key Code: 000123\nCoin 99999999999999999999\n".to_vec());
    assert_eq!(inv, vec![Item::Coin(0)]);
    // one past u32::MAX
    let inv = load_game(&b"Key Code: 000123\nCoin 4294967296\n".to_vec());
    assert_eq!(inv, vec![Item::Coin(0)]);
    // u32::MAX itself still fits
    let inv = load_game(&b"Key Code: 000123\nCoin 4294967295\n".to_vec());
    assert_eq!(inv, vec![Item::Coin(4294967295)]);
}

#[test]
fn empty_lines_load_as_zero_coins() {
    let inv = load_game(&b"Key Code: 000123\n\nKey\n\n".to_vec());
    assert_eq!(inv, vec![Item::Coin(0), Item::Key, Item::Coin(0)]);
}

#[test]
fn first_line_is_skipped_whatever_it_holds() {
    let inv = load_game(&b"not a key code line\nKey\n".to_vec());
    assert_eq!(inv, vec![Item::Key]);
    // even a first line that looks like an item is the key-code line
    let inv = load_game(&b"Key\nCoin 2\n".to_vec());
    assert_eq!(inv, vec![Item::Coin(2)]);
}

#[test]
fn parse_line_reads_each_kind() {
    assert_eq!(parse_line(&b"Key".to_vec()), Item::Key);
    assert_eq!(parse_line(&b"Coin 41".to_vec()), Item::Coin(41));
    assert_eq!(parse_line(&b"Coin 007".to_vec()), Item::Coin(7));
    assert_eq!(parse_line(&b"Coin".to_vec()), Item::Coin(0));
    assert_eq!(parse_line(&b"Coin ".to_vec()), Item::Coin(0));
    assert_eq!(parse_line(&b"Key ".to_vec()), Item::Coin(0));
    assert_eq!(parse_line(&b"".to_vec()), Item::Coin(0));
}
