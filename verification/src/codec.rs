//! The save-file codec. A save file is line-oriented text: a first line
//! `Key Code: <six zero-padded digits>`, then one line per inventory item,
//! `Key` for a key and `Coin <amount>` for a coin stack. Loading skips the
//! key-code line and reads every further line independently; a line that is
//! neither `Key` nor a well-formed coin line counts as `Coin 0`.

use vstd::prelude::*;
use crate::inventory::Item;
use crate::text::{B_NL, B_CR, B_SPACE, B_ZERO, B_NINE, B_COLON, B_UPPER_C, B_UPPER_K,
    B_LOWER_D, B_LOWER_E, B_LOWER_I, B_LOWER_N, B_LOWER_O, B_LOWER_Y, all_digits, digit_val,
    digits_value, decimal_digits, is_digit, lemma_digits_value_step,
    lemma_digits_value_prefix_bound, lemma_decimal_digits, push_decimal};

verus! {

/// The bytes of `"Key Code: "`, the first line's fixed prefix.
pub open spec fn key_code_prefix() -> Seq<u8> {
    seq![
        B_UPPER_K,
        B_LOWER_E,
        B_LOWER_Y,
        B_SPACE,
        B_UPPER_C,
        B_LOWER_O,
        B_LOWER_D,
        B_LOWER_E,
        B_COLON,
        B_SPACE,
    ]
}

/// The key code as exactly six decimal digits, zero padded.
pub open spec fn padded_code(code: nat) -> Seq<u8> {
    seq![
        (B_ZERO + (code / 100000) % 10) as u8,
        (B_ZERO + (code / 10000) % 10) as u8,
        (B_ZERO + (code / 1000) % 10) as u8,
        (B_ZERO + (code / 100) % 10) as u8,
        (B_ZERO + (code / 10) % 10) as u8,
        (B_ZERO + code % 10) as u8,
    ]
}

/// The bytes of `"Key"`, the line for a key item.
pub open spec fn key_line() -> Seq<u8> {
    seq![B_UPPER_K, B_LOWER_E, B_LOWER_Y]
}

/// The bytes of `"Coin "`, the prefix of a coin line.
pub open spec fn coin_prefix() -> Seq<u8> {
    seq![B_UPPER_C, B_LOWER_O, B_LOWER_I, B_LOWER_N, B_SPACE]
}

/// The line written for one item, without its newline.
pub open spec fn item_line(item: Item) -> Seq<u8> {
    match item {
        Item::Key => key_line(),
        Item::Coin(amount) => coin_prefix() + decimal_digits(amount as nat),
    }
}

/// The item lines of the whole inventory, in order, each ended by a newline.
pub open spec fn save_body(inv: Seq<Item>) -> Seq<u8>
    decreases inv.len(),
{
    if inv.len() == 0 {
        Seq::empty()
    } else {
        save_body(inv.drop_last()) + item_line(inv.last()) + seq![B_NL]
    }
}

/// The whole save file for an inventory and a key code.
pub open spec fn spec_save(inv: Seq<Item>, code: nat) -> Seq<u8> {
    key_code_prefix() + padded_code(code) + seq![B_NL] + save_body(inv)
}

/// The index of the first newline, or the length if there is none.
pub open spec fn first_newline(s: Seq<u8>) -> nat
    decreases s.len(),
{
    if s.len() == 0 {
        0
    } else if s[0] == B_NL {
        0
    } else {
        1 + first_newline(s.drop_first())
    }
}

/// A line as `str::lines` hands it out: one trailing carriage return, if
/// any, is removed.
pub open spec fn strip_cr(l: Seq<u8>) -> Seq<u8> {
    if l.len() > 0 && l.last() == B_CR {
        l.drop_last()
    } else {
        l
    }
}

/// The lines of a byte text, as `str::lines` reads them: split at each
/// newline, a trailing carriage return removed from each line, and no final
/// empty line when the text ends with a newline.
pub open spec fn lines_of(s: Seq<u8>) -> Seq<Seq<u8>>
    decreases s.len(),
{
    if s.len() == 0 {
        Seq::empty()
    } else {
        let i = first_newline(s);
        if i >= s.len() {
            seq![strip_cr(s)]
        } else {
            seq![strip_cr(s.take(i as int))] + lines_of(s.skip(i as int + 1))
        }
    }
}

/// A well-formed coin line: the prefix `"Coin "` followed by at least one
/// digit, denoting an amount that fits a `u32`.
pub open spec fn is_coin_line(l: Seq<u8>) -> bool {
    l.len() > 5 && l.take(5) == coin_prefix() && all_digits(l.skip(5)) && digits_value(l.skip(5))
        <= u32::MAX
}

/// What one line of the save file's body yields: a key for `"Key"`, the
/// amount of a well-formed coin line, and `Coin 0` for anything else.
pub open spec fn spec_parse_line(l: Seq<u8>) -> Item {
    if l == key_line() {
        Item::Key
    } else if is_coin_line(l) {
        Item::Coin(digits_value(l.skip(5)) as u32)
    } else {
        Item::Coin(0)
    }
}

/// Each line parsed in order.
pub open spec fn parsed_lines(ls: Seq<Seq<u8>>) -> Seq<Item>
    decreases ls.len(),
{
    if ls.len() == 0 {
        Seq::empty()
    } else {
        parsed_lines(ls.drop_last()).push(spec_parse_line(ls.last()))
    }
}

/// The inventory read from a save file: every line but the first, parsed
/// independently. An empty file has no lines at all, hence an empty
/// inventory.
pub open spec fn spec_load(content: Seq<u8>) -> Seq<Item> {
    let ls = lines_of(content);
    if ls.len() == 0 {
        Seq::empty()
    } else {
        parsed_lines(ls.skip(1))
    }
}

/// `parsed_lines` parses element by element.
pub proof fn lemma_parsed_lines_index(ls: Seq<Seq<u8>>)
    ensures
        parsed_lines(ls).len() == ls.len(),
        forall|i: int| 0 <= i < ls.len() ==> parsed_lines(ls)[i] == spec_parse_line(ls[i]),
    decreases ls.len(),
{
    if ls.len() > 0 {
        lemma_parsed_lines_index(ls.drop_last());
        assert(forall|i: int|
            0 <= i < ls.len() - 1 ==> parsed_lines(ls)[i] == parsed_lines(ls.drop_last())[i]);
        assert(forall|i: int| 0 <= i < ls.len() - 1 ==> ls.drop_last()[i] == ls[i]);
    }
}

/// The index of the first newline is where the first newline stands: before
/// `k` none, and at `k` either the end or a newline.
proof fn lemma_first_newline_at(s: Seq<u8>, k: int)
    requires
        0 <= k <= s.len(),
        forall|j: int| 0 <= j < k ==> s[j] != B_NL,
        k == s.len() || s[k] == B_NL,
    ensures
        first_newline(s) == k,
    decreases k,
{
    if k == 0 {
    } else {
        let rest = s.drop_first();
        assert(forall|j: int| 0 <= j < k - 1 ==> rest[j] == s[j + 1]);
        lemma_first_newline_at(rest, k - 1);
    }
}

/// Splitting off a complete first line: the text `line + newline + rest` has
/// the stripped `line` as its first line, and the lines of `rest` after it.
proof fn lemma_lines_of_concat(line: Seq<u8>, rest: Seq<u8>)
    requires
        forall|j: int| 0 <= j < line.len() ==> line[j] != B_NL,
    ensures
        lines_of(line + seq![B_NL] + rest) == seq![strip_cr(line)] + lines_of(rest),
{
    let s = line + seq![B_NL] + rest;
    assert(forall|j: int| 0 <= j < line.len() ==> s[j] == line[j]);
    assert(s[line.len() as int] == B_NL);
    lemma_first_newline_at(s, line.len() as int);
    assert(s.take(line.len() as int) =~= line);
    assert(s.skip(line.len() as int + 1) =~= rest);
}

/// A non-empty text without a newline is one line.
proof fn lemma_lines_of_single(line: Seq<u8>)
    requires
        line.len() > 0,
        forall|j: int| 0 <= j < line.len() ==> line[j] != B_NL,
    ensures
        lines_of(line) == seq![strip_cr(line)],
{
    lemma_first_newline_at(line, line.len() as int);
}

/// Writes the save file for an inventory and a key code of at most six
/// digits.
pub fn save_game_with_key(inventory: &Vec<Item>, key_code: u32) -> (content: Vec<u8>)
    requires
        key_code <= 999999,
    ensures
        content@ == spec_save(inventory@, key_code as nat),
{
    let mut content: Vec<u8> = Vec::new();
    content.push(B_UPPER_K);
    content.push(B_LOWER_E);
    content.push(B_LOWER_Y);
    content.push(B_SPACE);
    content.push(B_UPPER_C);
    content.push(B_LOWER_O);
    content.push(B_LOWER_D);
    content.push(B_LOWER_E);
    content.push(B_COLON);
    content.push(B_SPACE);
    content.push(B_ZERO + ((key_code / 100000) % 10) as u8);
    content.push(B_ZERO + ((key_code / 10000) % 10) as u8);
    content.push(B_ZERO + ((key_code / 1000) % 10) as u8);
    content.push(B_ZERO + ((key_code / 100) % 10) as u8);
    content.push(B_ZERO + ((key_code / 10) % 10) as u8);
    content.push(B_ZERO + (key_code % 10) as u8);
    content.push(B_NL);
    let ghost header = key_code_prefix() + padded_code(key_code as nat) + seq![B_NL];
    proof {
        assert(content@ =~= header);
    }
    let mut i: usize = 0;
    while i < inventory.len()
        invariant
            i <= inventory.len(),
            content@ == header + save_body(inventory@.take(i as int)),
        decreases inventory.len() - i,
    {
        proof {
            assert(inventory@.take(i + 1).drop_last() =~= inventory@.take(i as int));
            assert(inventory@.take(i + 1).last() == inventory@[i as int]);
        }
        match inventory[i] {
            Item::Key => {
                content.push(B_UPPER_K);
                content.push(B_LOWER_E);
                content.push(B_LOWER_Y);
                content.push(B_NL);
            },
            Item::Coin(amount) => {
                content.push(B_UPPER_C);
                content.push(B_LOWER_O);
                content.push(B_LOWER_I);
                content.push(B_LOWER_N);
                content.push(B_SPACE);
                push_decimal(&mut content, amount);
                content.push(B_NL);
            },
        }
        proof {
            assert(content@ =~= header + save_body(inventory@.take(i + 1)));
        }
        i = i + 1;
    }
    proof {
        assert(inventory@.take(inventory@.len() as int) =~= inventory@);
        assert(header + save_body(inventory@) =~= spec_save(inventory@, key_code as nat));
    }
    content
}

/// Reads the digits of `line` from position `from` on: their value, if they
/// are at least one digit, all digits, and fit a `u32`.
fn parse_digits(line: &Vec<u8>, from: usize) -> (r: Option<u32>)
    requires
        from <= line.len(),
    ensures
        ({
            let rest = line@.skip(from as int);
            &&& (r is Some) == (rest.len() > 0 && all_digits(rest) && digits_value(rest)
                <= u32::MAX)
            &&& (r matches Some(v) ==> v == digits_value(rest))
        }),
{
    let ghost rest = line@.skip(from as int);
    if from == line.len() {
        return None;
    }
    let mut acc: u64 = 0;
    let mut i: usize = from;
    while i < line.len()
        invariant
            from <= i <= line.len(),
            rest == line@.skip(from as int),
            all_digits(rest.take(i - from)),
            acc == digits_value(rest.take(i - from)),
            acc <= u32::MAX,
        decreases line.len() - i,
    {
        let b = line[i];
        proof {
            assert(rest[i - from] == line@[i as int]);
        }
        if b < B_ZERO || b > B_NINE {
            proof {
                assert(!is_digit(rest[i - from]));
            }
            return None;
        }
        proof {
            lemma_digits_value_step(rest, i - from);
            assert(all_digits(rest.take(i - from + 1))) by {
                assert(forall|j: int|
                    0 <= j < i - from ==> #[trigger] rest.take(i - from + 1)[j] == rest.take(
                        i - from,
                    )[j]);
                assert(rest.take(i - from + 1)[i - from] == rest[i - from]);
            }
        }
        acc = acc * 10 + (b - B_ZERO) as u64;
        if acc > u32::MAX as u64 {
            proof {
                if all_digits(rest) {
                    lemma_digits_value_prefix_bound(rest, i - from + 1);
                }
            }
            return None;
        }
        i = i + 1;
    }
    proof {
        assert(rest.take(line@.len() - from) =~= rest);
    }
    Some(acc as u32)
}

/// Reads one line of the save file's body, already split and stripped.
pub fn parse_line(line: &Vec<u8>) -> (item: Item)
    ensures
        item == spec_parse_line(line@),
{
    if line.len() == 3 && line[0] == B_UPPER_K && line[1] == B_LOWER_E && line[2] == B_LOWER_Y {
        proof {
            assert(line@ =~= key_line());
        }
        return Item::Key;
    }
    proof {
        if line@ == key_line() {
            assert(line@.len() == 3);
            assert(line@[0] == B_UPPER_K && line@[1] == B_LOWER_E && line@[2] == B_LOWER_Y);
            assert(false);
        }
    }
    if line.len() > 5 && line[0] == B_UPPER_C && line[1] == B_LOWER_O && line[2] == B_LOWER_I
        && line[3] == B_LOWER_N && line[4] == B_SPACE {
        match parse_digits(line, 5) {
            Some(amount) => {
                proof {
                    assert(line@.take(5) =~= coin_prefix());
                }
                Item::Coin(amount)
            },
            None => {
                proof {
                    assert(line@.take(5) =~= coin_prefix());
                }
                Item::Coin(0)
            },
        }
    } else {
        proof {
            if is_coin_line(line@) {
                assert(line@.take(5)[0] == line@[0]);
                assert(line@.take(5)[1] == line@[1]);
                assert(line@.take(5)[2] == line@[2]);
                assert(line@.take(5)[3] == line@[3]);
                assert(line@.take(5)[4] == line@[4]);
                assert(false);
            }
        }
        Item::Coin(0)
    }
}

/// Pops one trailing carriage return, as `str::lines` would.
fn strip_cr_in_place(line: &mut Vec<u8>)
    ensures
        final(line)@ == strip_cr(old(line)@),
{
    if line.len() > 0 && line[line.len() - 1] == B_CR {
        line.pop();
    }
}

/// Reads a whole save file: skips the key-code line and parses every further
/// line. An absent file is the caller's affair; an empty one yields an empty
/// inventory.
pub fn load_game(content: &Vec<u8>) -> (inventory: Vec<Item>)
    ensures
        inventory@ == spec_load(content@),
{
    let mut items: Vec<Item> = Vec::new();
    let mut line: Vec<u8> = Vec::new();
    let mut seen_first: bool = false;
    let mut i: usize = 0;
    let ghost mut done: Seq<Seq<u8>> = Seq::empty();
    proof {
        assert(content@.skip(0) =~= content@);
        assert(lines_of(content@) =~= Seq::<Seq<u8>>::empty() + lines_of(content@.skip(0)));
    }
    while i < content.len()
        invariant
            i <= content.len(),
            line@.len() <= i,
            line@ == content@.subrange(i - line@.len(), i as int),
            forall|k: int| 0 <= k < line@.len() ==> line@[k] != B_NL,
            lines_of(content@) == done + lines_of(content@.skip(i - line@.len())),
            seen_first == (done.len() > 0),
            items@ == (if done.len() == 0 {
                Seq::<Item>::empty()
            } else {
                parsed_lines(done.skip(1))
            }),
        decreases content.len() - i,
    {
        let b = content[i];
        if b == B_NL {
            let ghost raw = line@;
            proof {
                lemma_lines_of_concat(raw, content@.skip(i + 1));
                assert(content@.skip(i - raw.len()) =~= raw + seq![B_NL] + content@.skip(i + 1));
                assert(done + lines_of(content@.skip(i - raw.len())) =~= done.push(strip_cr(raw))
                    + lines_of(content@.skip(i + 1)));
            }
            strip_cr_in_place(&mut line);
            if seen_first {
                let item = parse_line(&line);
                items.push(item);
            } else {
                seen_first = true;
            }
            proof {
                let prev = done;
                done = done.push(strip_cr(raw));
                if prev.len() > 0 {
                    assert(done.skip(1) =~= prev.skip(1).push(strip_cr(raw)));
                    assert(done.skip(1).drop_last() =~= prev.skip(1));
                } else {
                    assert(done.skip(1) =~= Seq::<Seq<u8>>::empty());
                }
            }
            line = Vec::new();
        } else {
            line.push(b);
            proof {
                assert(line@ =~= content@.subrange(i + 1 - line@.len(), i + 1));
            }
        }
        i = i + 1;
    }
    let ghost raw = line@;
    if line.len() > 0 {
        proof {
            lemma_lines_of_single(raw);
            assert(content@.skip(content@.len() - raw.len()) =~= raw);
            assert(done + lines_of(raw) =~= done.push(strip_cr(raw)));
        }
        strip_cr_in_place(&mut line);
        if seen_first {
            let item = parse_line(&line);
            items.push(item);
        }
        proof {
            let prev = done;
            done = done.push(strip_cr(raw));
            if prev.len() > 0 {
                assert(done.skip(1) =~= prev.skip(1).push(strip_cr(raw)));
                assert(done.skip(1).drop_last() =~= prev.skip(1));
            } else {
                assert(done.skip(1) =~= Seq::<Seq<u8>>::empty());
            }
        }
    } else {
        proof {
            assert(content@.skip(content@.len() as int) =~= Seq::<u8>::empty());
            assert(lines_of(Seq::<u8>::empty()) =~= Seq::<Seq<u8>>::empty());
            assert(done + Seq::<Seq<u8>>::empty() =~= done);
        }
    }
    proof {
        assert(lines_of(content@) == done);
    }
    items
}

/// Law: any line that is not exactly `Key` and not a well-formed coin line
/// yields `Coin 0`, never an error.
pub proof fn lemma_malformed_line_is_zero_coin(l: Seq<u8>)
    requires
        l != key_line(),
        !is_coin_line(l),
    ensures
        spec_parse_line(l) == Item::Coin(0),
{
}

/// The body's first line split off: the body of a non-empty inventory is the
/// first item's line, a newline, and the body of the rest.
proof fn lemma_save_body_first(inv: Seq<Item>)
    requires
        inv.len() > 0,
    ensures
        save_body(inv) == item_line(inv[0]) + seq![B_NL] + save_body(inv.drop_first()),
    decreases inv.len(),
{
    if inv.len() == 1 {
        assert(inv.drop_last() =~= Seq::<Item>::empty());
        assert(inv.drop_first() =~= Seq::<Item>::empty());
        assert(save_body(inv) =~= item_line(inv[0]) + seq![B_NL] + save_body(inv.drop_first()));
    } else {
        lemma_save_body_first(inv.drop_last());
        assert(inv.drop_last()[0] == inv[0]);
        assert(inv.drop_last().drop_first() =~= inv.drop_first().drop_last());
        assert(inv.drop_first().last() == inv.last());
        assert(save_body(inv) =~= item_line(inv[0]) + seq![B_NL] + save_body(inv.drop_first()));
    }
}

/// An item's line is non-empty and free of newlines and of a trailing
/// carriage return.
proof fn lemma_item_line_clean(item: Item)
    ensures
        item_line(item).len() > 0,
        forall|j: int| 0 <= j < item_line(item).len() ==> item_line(item)[j] != B_NL,
        strip_cr(item_line(item)) == item_line(item),
{
    let l = item_line(item);
    match item {
        Item::Key => {
            assert forall|j: int| 0 <= j < l.len() implies l[j] != B_NL by {
                assert(l[0] == B_UPPER_K && l[1] == B_LOWER_E && l[2] == B_LOWER_Y);
            }
        },
        Item::Coin(amount) => {
            lemma_decimal_digits(amount as nat);
            let digits = decimal_digits(amount as nat);
            assert forall|j: int| 0 <= j < l.len() implies l[j] != B_NL by {
                if j < 5 {
                    assert(l[j] == coin_prefix()[j]);
                } else {
                    assert(l[j] == digits[j - 5]);
                    assert(is_digit(digits[j - 5]));
                }
            }
            assert(l.last() == digits[digits.len() - 1]);
            assert(is_digit(digits[digits.len() - 1]));
        },
    }
}

/// Parsing an item's own line gives the item back.
proof fn lemma_parse_item_line(item: Item)
    ensures
        spec_parse_line(item_line(item)) == item,
{
    match item {
        Item::Key => {
        },
        Item::Coin(amount) => {
            let l = item_line(item);
            lemma_decimal_digits(amount as nat);
            assert(l.len() >= 6);
            assert(l != key_line());
            assert(l.take(5) =~= coin_prefix());
            assert(l.skip(5) =~= decimal_digits(amount as nat));
            assert(is_coin_line(l));
        },
    }
}

/// The lines of a save body are exactly the item lines, in order.
proof fn lemma_lines_of_save_body(inv: Seq<Item>)
    ensures
        lines_of(save_body(inv)).len() == inv.len(),
        forall|i: int|
            0 <= i < inv.len() ==> lines_of(save_body(inv))[i] == item_line(#[trigger] inv[i]),
    decreases inv.len(),
{
    if inv.len() == 0 {
    } else {
        lemma_save_body_first(inv);
        lemma_item_line_clean(inv[0]);
        lemma_lines_of_concat(item_line(inv[0]), save_body(inv.drop_first()));
        lemma_lines_of_save_body(inv.drop_first());
        let tail = lines_of(save_body(inv.drop_first()));
        assert(lines_of(save_body(inv)) == seq![item_line(inv[0])] + tail);
        assert forall|i: int|
            0 <= i < inv.len() implies lines_of(save_body(inv))[i] == item_line(
            #[trigger] inv[i],
        ) by {
            if i == 0 {
                assert((seq![item_line(inv[0])] + tail)[0] == item_line(inv[0]));
            } else {
                assert((seq![item_line(inv[0])] + tail)[i] == tail[i - 1]);
                assert(tail[i - 1] == item_line(inv.drop_first()[i - 1]));
                assert(inv.drop_first()[i - 1] == inv[i]);
            }
        }
    }
}

/// Law: loading a saved inventory reproduces it exactly — the same entries in
/// the same order, and so the same multiset of keys and coin stacks.
pub proof fn lemma_save_load_round_trip(inv: Seq<Item>, code: nat)
    requires
        code <= 999999,
    ensures
        spec_load(spec_save(inv, code)) == inv,
        spec_load(spec_save(inv, code)).to_multiset() == inv.to_multiset(),
{
    let header = key_code_prefix() + padded_code(code);
    assert forall|j: int| 0 <= j < header.len() implies header[j] != B_NL by {
        if j < 10 {
            assert(header[j] == key_code_prefix()[j]);
        } else {
            assert(header[j] == padded_code(code)[j - 10]);
            assert(B_ZERO <= padded_code(code)[j - 10] <= B_NINE);
        }
    }
    lemma_lines_of_concat(header, save_body(inv));
    assert(spec_save(inv, code) =~= header + seq![B_NL] + save_body(inv));
    lemma_lines_of_save_body(inv);
    let ls = lines_of(spec_save(inv, code));
    assert(ls == seq![strip_cr(header)] + lines_of(save_body(inv)));
    assert(ls.skip(1) =~= lines_of(save_body(inv)));
    lemma_parsed_lines_index(ls.skip(1));
    assert forall|i: int| 0 <= i < inv.len() implies parsed_lines(ls.skip(1))[i] == inv[i] by {
        lemma_parse_item_line(inv[i]);
    }
    assert(spec_load(spec_save(inv, code)) =~= inv);
}

} // verus!
