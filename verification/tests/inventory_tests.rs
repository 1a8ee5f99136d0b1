use adventure::inventory::{coin_total_fits, get_coin_count, has_key};
use adventure::Item;

#[test]
fn coin_count_of_mixed_inventory() {
    let inv = vec![Item::Key, Item::Coin(5), Item::Coin(2)];
    assert_eq!(get_coin_count(&inv), 7);
}

#[test]
fn coin_count_of_empty_inventory() {
    let inv: Vec<Item> = Vec::new();
    assert_eq!(get_coin_count(&inv), 0);
}

#[test]
fn coin_count_ignores_order_and_keys() {
    let a = vec![Item::Coin(1), Item::Key, Item::Coin(4), Item::Coin(2)];
    let b = vec![Item::Coin(2), Item::Coin(4), Item::Coin(1), Item::Key, Item::Key];
    // same coin stacks in another order, an extra key changes nothing
    assert_eq!(get_coin_count(&a), 7);
    assert_eq!(get_coin_count(&b), 7);
}

#[test]
fn coin_count_with_duplicate_stacks() {
    let inv = vec![Item::Coin(3), Item::Coin(3), Item::Coin(0)];
    assert_eq!(get_coin_count(&inv), 6);
}

#[test]
fn coin_total_fits_detects_overflow() {
    let inv = vec![Item::Coin(u32::MAX), Item::Coin(1)];
    assert!(!coin_total_fits(&inv));
    let inv2 = vec![Item::Coin(u32::MAX)];
    assert!(coin_total_fits(&inv2));
    assert_eq!(get_coin_count(&inv2), u32::MAX);
}

#[test]
fn has_key_finds_a_key() {
    assert!(!has_key(&vec![Item::Coin(5)]));
    assert!(has_key(&vec![Item::Coin(5), Item::Key]));
    assert!(!has_key(&Vec::new()));
}
