//! The inventory: a sequence of items, each a key or a stack of coins.
//! The coin total of an inventory is the sum of the amounts of all its
//! coin stacks; keys contribute nothing, and order never matters to it.

use vstd::prelude::*;

verus! {

/// One item held by the player: a key, or a stack of coins of a given amount.
#[derive(Clone, Copy, Debug, PartialEq, Eq, Structural)]
pub enum Item {
    Key,
    Coin(u32),
}

/// The amount an item contributes to the coin total: a coin stack counts its
/// amount, a key counts nothing.
pub open spec fn coin_value(item: Item) -> nat {
    match item {
        Item::Key => 0,
        Item::Coin(amount) => amount as nat,
    }
}

/// The coin total of an inventory: the sum of the amounts of all coin stacks.
pub open spec fn coin_total(inv: Seq<Item>) -> nat
    decreases inv.len(),
{
    if inv.len() == 0 {
        0
    } else {
        coin_total(inv.drop_last()) + coin_value(inv.last())
    }
}

/// Whether the inventory holds at least one key.
pub open spec fn spec_has_key(inv: Seq<Item>) -> bool {
    exists|i: int| 0 <= i < inv.len() && inv[i] is Key
}

/// The inventory with every coin stack removed, keys kept in order.
pub open spec fn non_coins(inv: Seq<Item>) -> Seq<Item>
    decreases inv.len(),
{
    if inv.len() == 0 {
        Seq::empty()
    } else if inv.last() is Coin {
        non_coins(inv.drop_last())
    } else {
        non_coins(inv.drop_last()).push(inv.last())
    }
}

/// Sums the amounts of all coin stacks, in one left-to-right pass.
pub fn get_coin_count(inventory: &Vec<Item>) -> (total: u32)
    requires
        coin_total(inventory@) <= u32::MAX,
    ensures
        total == coin_total(inventory@),
{
    let mut total: u32 = 0;
    let mut i: usize = 0;
    while i < inventory.len()
        invariant
            i <= inventory.len(),
            total == coin_total(inventory@.take(i as int)),
            coin_total(inventory@) <= u32::MAX,
        decreases inventory.len() - i,
    {
        proof {
            lemma_coin_total_take_step(inventory@, i as int);
            lemma_coin_total_take_bound(inventory@, i + 1);
        }
        match inventory[i] {
            Item::Key => {},
            Item::Coin(amount) => {
                total = total + amount;
            },
        }
        i = i + 1;
    }
    proof {
        assert(inventory@.take(inventory@.len() as int) =~= inventory@);
    }
    total
}

/// Whether the coin total fits a `u32`, decided without overflowing.
pub fn coin_total_fits(inventory: &Vec<Item>) -> (fits: bool)
    ensures
        fits == (coin_total(inventory@) <= u32::MAX),
{
    let mut total: u64 = 0;
    let mut i: usize = 0;
    let mut fits: bool = true;
    while i < inventory.len()
        invariant
            i <= inventory.len(),
            fits ==> total == coin_total(inventory@.take(i as int)) && total <= u32::MAX,
            !fits ==> coin_total(inventory@.take(i as int)) > u32::MAX,
        decreases inventory.len() - i,
    {
        proof {
            lemma_coin_total_take_step(inventory@, i as int);
            if !fits {
                lemma_coin_total_take_monotonic(inventory@, i as int, i + 1);
            }
        }
        if fits {
            match inventory[i] {
                Item::Key => {},
                Item::Coin(amount) => {
                    total = total + amount as u64;
                    if total > u32::MAX as u64 {
                        fits = false;
                    }
                },
            }
        }
        i = i + 1;
    }
    proof {
        assert(inventory@.take(inventory@.len() as int) =~= inventory@);
    }
    fits
}

/// Whether the inventory holds at least one key.
pub fn has_key(inventory: &Vec<Item>) -> (found: bool)
    ensures
        found == spec_has_key(inventory@),
{
    let mut i: usize = 0;
    while i < inventory.len()
        invariant
            i <= inventory.len(),
            forall|j: int| 0 <= j < i ==> !(inventory@[j] is Key),
        decreases inventory.len() - i,
    {
        if matches!(inventory[i], Item::Key) {
            return true;
        }
        i = i + 1;
    }
    false
}

/// Taking one more element adds that element's coin value to the total of the
/// prefix.
proof fn lemma_coin_total_take_step(inv: Seq<Item>, i: int)
    requires
        0 <= i < inv.len(),
    ensures
        coin_total(inv.take(i + 1)) == coin_total(inv.take(i)) + coin_value(inv[i]),
{
    assert(inv.take(i + 1).drop_last() =~= inv.take(i));
    assert(inv.take(i + 1).last() == inv[i]);
}

/// A prefix never has a larger coin total than the whole.
proof fn lemma_coin_total_take_bound(inv: Seq<Item>, i: int)
    requires
        0 <= i <= inv.len(),
    ensures
        coin_total(inv.take(i)) <= coin_total(inv),
    decreases inv.len() - i,
{
    if i < inv.len() {
        lemma_coin_total_take_step(inv, i);
        lemma_coin_total_take_bound(inv, i + 1);
    } else {
        assert(inv.take(i) =~= inv);
    }
}

/// Removing one item takes exactly that item's coin value off the total.
pub proof fn lemma_coin_total_remove(inv: Seq<Item>, i: int)
    requires
        0 <= i < inv.len(),
    ensures
        coin_total(inv) == coin_total(inv.remove(i)) + coin_value(inv[i]),
    decreases inv.len(),
{
    if i == inv.len() - 1 {
        assert(inv.remove(i) =~= inv.drop_last());
    } else {
        lemma_coin_total_remove(inv.drop_last(), i);
        assert(inv.remove(i).drop_last() =~= inv.drop_last().remove(i));
        assert(inv.remove(i).last() == inv.last());
        assert(inv.drop_last()[i] == inv[i]);
    }
}

/// Law: the coin total does not depend on order — two inventories with the
/// same multiset of items, however arranged or interleaved, have the same
/// coin total.
pub proof fn lemma_coin_total_permutation(inv1: Seq<Item>, inv2: Seq<Item>)
    requires
        inv1.to_multiset() == inv2.to_multiset(),
    ensures
        coin_total(inv1) == coin_total(inv2),
    decreases inv1.len(),
{
    broadcast use vstd::seq_lib::group_to_multiset_ensures;

    if inv1.len() == 0 {
        assert(inv1.to_multiset().len() == 0);
        assert(inv2.to_multiset().len() == 0);
        assert(inv2.len() == 0);
    } else {
        let x = inv1.last();
        assert(inv1.contains(x));
        assert(inv1.to_multiset().count(x) > 0);
        assert(inv2.to_multiset().count(x) > 0);
        assert(inv2.contains(x));
        let j = choose|j: int| 0 <= j < inv2.len() && inv2[j] == x;
        assert(inv1.drop_last() =~= inv1.remove(inv1.len() - 1));
        assert(inv1.remove(inv1.len() - 1).to_multiset() == inv1.to_multiset().remove(x));
        assert(inv2.remove(j).to_multiset() == inv2.to_multiset().remove(x));
        lemma_coin_total_permutation(inv1.drop_last(), inv2.remove(j));
        lemma_coin_total_remove(inv2, j);
    }
}

/// Law: keys never change the coin total — removing any key from an
/// inventory leaves its coin total as it was.
pub proof fn lemma_coin_total_ignores_keys(inv: Seq<Item>, i: int)
    requires
        0 <= i < inv.len(),
        inv[i] is Key,
    ensures
        coin_total(inv.remove(i)) == coin_total(inv),
{
    lemma_coin_total_remove(inv, i);
}

/// A longer prefix never has a smaller coin total.
proof fn lemma_coin_total_take_monotonic(inv: Seq<Item>, i: int, j: int)
    requires
        0 <= i <= j <= inv.len(),
    ensures
        coin_total(inv.take(i)) <= coin_total(inv.take(j)),
    decreases j - i,
{
    if i < j {
        lemma_coin_total_take_step(inv, i);
        lemma_coin_total_take_monotonic(inv, i + 1, j);
    }
}

} // verus!
