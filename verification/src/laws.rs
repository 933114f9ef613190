//! What holds of reading and writing dumps, whatever the input.

use crate::address_map::{words_in_order, AddressValueMap, WORD_SIZE};
use crate::ascending::{ascending, lemma_ascending, lemma_ascending_insert_greatest, strictly_ascending};
use crate::error::DumpError;
use crate::parser::{
    entries_upto, group_number, insert_all, line_entries, line_result, map_outcome, parsed,
    parsed_lines, WORDS_PER_LINE,
};
use crate::serializer::{dumped, highest_address, SENTINEL};
use vstd::prelude::*;

verus! {

/// A data line gives entries exactly where its address and its four words
/// are 32-bit hexadecimal numbers and the last word's address fits in 32
/// bits; the entries are then the four words, at a stride of `WORD_SIZE`
/// from the line's address on.
pub proof fn lemma_data_line_entries(groups: Seq<Option<Seq<char>>>)
    ensures
        line_entries(groups) is Ok <==> {
            &&& group_number(groups, 1) is Some
            &&& forall|k: int|
                0 <= k < WORDS_PER_LINE ==> (#[trigger] group_number(groups, k + 2)) is Some
            &&& group_number(groups, 1)->0 + WORD_SIZE * (WORDS_PER_LINE - 1) <= u32::MAX
        },
        line_entries(groups) matches Ok(entries) ==> {
            &&& entries.len() == WORDS_PER_LINE
            &&& forall|k: int|
                0 <= k < WORDS_PER_LINE ==> #[trigger] entries[k] == (
                    (group_number(groups, 1)->0 + WORD_SIZE * k) as u32,
                    group_number(groups, k + 2)->0,
                )
        },
{
    reveal_with_fuel(entries_upto, 5);
    if group_number(groups, 1) is Some {
        let base = group_number(groups, 1)->0;
        if forall|k: int|
            0 <= k < WORDS_PER_LINE ==> (#[trigger] group_number(groups, k + 2)) is Some {
            assert(group_number(groups, 0int + 2) is Some);
            assert(group_number(groups, 1int + 2) is Some);
            assert(group_number(groups, 2int + 2) is Some);
            assert(group_number(groups, 3int + 2) is Some);
        }
        assert(entries_upto(groups, base, 1) is Ok ==> group_number(groups, 0int + 2) is Some);
        assert(entries_upto(groups, base, 2) is Ok ==> group_number(groups, 1int + 2) is Some);
        assert(entries_upto(groups, base, 3) is Ok ==> group_number(groups, 2int + 2) is Some);
        assert(entries_upto(groups, base, 4) is Ok ==> group_number(groups, 3int + 2) is Some);
    }
}

/// Whether some entry of `entries` stands at `address`.
pub open spec fn writes_to(entries: Seq<(u32, u32)>, address: u32) -> bool {
    exists|k: int| 0 <= k < entries.len() && (#[trigger] entries[k]).0 == address
}

/// Entries that are inserted leave every address alone at which none of
/// them stands.
pub proof fn lemma_other_addresses_keep(m: Map<u32, u32>, entries: Seq<(u32, u32)>, address: u32)
    requires
        !writes_to(entries, address),
    ensures
        insert_all(m, entries).contains_key(address) == m.contains_key(address),
        insert_all(m, entries)[address] == m[address],
    decreases entries.len(),
{
    if entries.len() > 0 {
        let front = entries.drop_last();
        assert(entries[entries.len() - 1].0 != address);
        assert(!writes_to(front, address)) by {
            if writes_to(front, address) {
                let k = choose|k: int| 0 <= k < front.len() && (#[trigger] front[k]).0 == address;
                assert(entries[k].0 == address);
            }
        }
        lemma_other_addresses_keep(m, front, address);
    }
}

/// Last write wins: of the entries inserted one by one, the last one at an
/// address decides the word that the map holds there.
pub proof fn lemma_last_write_wins(m: Map<u32, u32>, entries: Seq<(u32, u32)>, i: int)
    requires
        0 <= i < entries.len(),
        forall|j: int| i < j < entries.len() ==> (#[trigger] entries[j]).0 != entries[i].0,
    ensures
        insert_all(m, entries).contains_key(entries[i].0),
        insert_all(m, entries)[entries[i].0] == entries[i].1,
    decreases entries.len(),
{
    if i < entries.len() - 1 {
        let front = entries.drop_last();
        assert(entries[entries.len() - 1].0 != entries[i].0);
        assert forall|j: int| i < j < front.len() implies (#[trigger] front[j]).0 != front[i].0 by {
            assert(entries[j].0 != entries[i].0);
        }
        lemma_last_write_wins(m, front, i);
    }
}

/// Where the first `n` lines are read without error, so is every shorter
/// prefix of them, and each of those lines has entries of its own.
pub proof fn lemma_read_lines_are_sound(lines: Seq<Seq<char>>, n: nat, i: int)
    requires
        parsed_lines(lines, n) is Ok,
        0 <= i <= n,
    ensures
        parsed_lines(lines, i as nat) is Ok,
        i < n ==> line_result(lines[i]) is Ok,
    decreases n,
{
    if i < n {
        lemma_read_lines_are_sound(lines, (n - 1) as nat, if i < n - 1 {
            i
        } else {
            n - 1
        });
    }
}

/// Last write wins across lines: where entry `k` of line `i` is the last
/// entry at its address, on that line and on all the lines after it, the map
/// read from the lines holds that entry's word at the address.
pub proof fn lemma_later_line_wins(lines: Seq<Seq<char>>, n: nat, i: int, k: int)
    requires
        parsed_lines(lines, n) is Ok,
        0 <= i < n,
        0 <= k < line_result(lines[i])->Ok_0.len(),
        forall|l: int|
            k < l < line_result(lines[i])->Ok_0.len() ==> (#[trigger] line_result(
                lines[i],
            )->Ok_0[l]).0 != line_result(lines[i])->Ok_0[k].0,
        forall|j: int|
            i < j < n ==> !writes_to(
                #[trigger] line_result(lines[j])->Ok_0,
                line_result(lines[i])->Ok_0[k].0,
            ),
    ensures
        parsed_lines(lines, n)->Ok_0.contains_key(line_result(lines[i])->Ok_0[k].0),
        parsed_lines(lines, n)->Ok_0[line_result(lines[i])->Ok_0[k].0] == line_result(
            lines[i],
        )->Ok_0[k].1,
    decreases n,
{
    let before = parsed_lines(lines, (n - 1) as nat)->Ok_0;
    let last = line_result(lines[n - 1])->Ok_0;
    let address = line_result(lines[i])->Ok_0[k].0;
    lemma_read_lines_are_sound(lines, n, n - 1);
    assert(parsed_lines(lines, n)->Ok_0 == insert_all(before, last));
    if i == n - 1 {
        lemma_last_write_wins(before, last, k);
    } else {
        assert(!writes_to(line_result(lines[n - 1])->Ok_0, address));
        lemma_other_addresses_keep(before, last, address);
        lemma_later_line_wins(lines, (n - 1) as nat, i, k);
    }
}

/// Reading is repeatable: whatever two readings of one text return, they
/// agree, in the map or in the error.
pub proof fn lemma_reading_is_repeatable(
    text: Seq<char>,
    first: Result<AddressValueMap, DumpError>,
    second: Result<AddressValueMap, DumpError>,
)
    requires
        map_outcome(first, parsed(text)),
        map_outcome(second, parsed(text)),
    ensures
        match (first, second) {
            (Ok(a), Ok(b)) => a@ == b@,
            (Err(a), Err(b)) => a == b,
            _ => false,
        },
{
}

/// The index of the last entry that stands at `address`.
pub proof fn lemma_last_writer(entries: Seq<(u32, u32)>, address: u32) -> (i: int)
    requires
        writes_to(entries, address),
    ensures
        0 <= i < entries.len(),
        entries[i].0 == address,
        forall|j: int| i < j < entries.len() ==> (#[trigger] entries[j]).0 != address,
    decreases entries.len(),
{
    if entries.last().0 == address {
        entries.len() - 1
    } else {
        let front = entries.drop_last();
        let k = choose|k: int| 0 <= k < entries.len() && (#[trigger] entries[k]).0 == address;
        assert(front[k].0 == address);
        let i = lemma_last_writer(front, address);
        assert forall|j: int| i < j < entries.len() implies (#[trigger] entries[j]).0
            != address by {
            if j < front.len() {
                assert(front[j].0 != address);
            }
        }
        i
    }
}

/// Input order does not matter between entries at different addresses: two
/// runs of entries that share no address give the same map whichever run is
/// inserted first.
pub proof fn lemma_disjoint_entries_commute(
    m: Map<u32, u32>,
    first: Seq<(u32, u32)>,
    second: Seq<(u32, u32)>,
)
    requires
        forall|a: u32| !(writes_to(first, a) && writes_to(second, a)),
    ensures
        insert_all(insert_all(m, first), second) == insert_all(insert_all(m, second), first),
{
    let one = insert_all(insert_all(m, first), second);
    let other = insert_all(insert_all(m, second), first);
    assert forall|a: u32|
        #![trigger one.dom().contains(a)]
        #![trigger other.dom().contains(a)]
        #![trigger one[a]]
        #![trigger other[a]]
        one.dom().contains(a) == other.dom().contains(a) && one[a] == other[a] by {
        if writes_to(second, a) {
            let i = lemma_last_writer(second, a);
            lemma_last_write_wins(insert_all(m, first), second, i);
            lemma_last_write_wins(m, second, i);
            lemma_other_addresses_keep(insert_all(m, second), first, a);
        } else if writes_to(first, a) {
            let i = lemma_last_writer(first, a);
            lemma_last_write_wins(insert_all(m, second), first, i);
            lemma_last_write_wins(m, first, i);
            lemma_other_addresses_keep(insert_all(m, first), second, a);
        } else {
            lemma_other_addresses_keep(m, first, a);
            lemma_other_addresses_keep(m, second, a);
            lemma_other_addresses_keep(insert_all(m, first), second, a);
            lemma_other_addresses_keep(insert_all(m, second), first, a);
        }
    }
    assert(one =~= other);
}

/// The order of two lines does not matter where they share no address: a
/// dump of the two reads as the same map, and so is written out alike,
/// whichever line comes first.
pub proof fn lemma_line_order_is_irrelevant(upper: Seq<char>, lower: Seq<char>, to_json: bool)
    requires
        line_result(upper) is Ok,
        line_result(lower) is Ok,
        forall|a: u32|
            !(writes_to(line_result(upper)->Ok_0, a) && writes_to(line_result(lower)->Ok_0, a)),
    ensures
        parsed_lines(seq![upper, lower], 2) is Ok,
        parsed_lines(seq![upper, lower], 2) == parsed_lines(seq![lower, upper], 2),
        dumped(parsed_lines(seq![upper, lower], 2)->Ok_0, to_json) == dumped(
            parsed_lines(seq![lower, upper], 2)->Ok_0,
            to_json,
        ),
{
    let down = seq![upper, lower];
    let up = seq![lower, upper];
    reveal_with_fuel(parsed_lines, 3);
    assert(down[0] == upper && down[1] == lower);
    assert(up[0] == lower && up[1] == upper);
    lemma_disjoint_entries_commute(
        Map::empty(),
        line_result(upper)->Ok_0,
        line_result(lower)->Ok_0,
    );
}

/// Output is in address order: the words are written in strictly ascending
/// order of their addresses, each address of the map once.
pub proof fn lemma_words_follow_addresses(m: Map<u32, u32>)
    ensures
        strictly_ascending(ascending(m.dom())),
        forall|a: u32| ascending(m.dom()).contains(a) <==> m.contains_key(a),
        words_in_order(m).len() == ascending(m.dom()).len(),
        forall|i: int|
            0 <= i < ascending(m.dom()).len() ==> words_in_order(m)[i] == m[ascending(
                m.dom(),
            )[i]],
{
    lemma_ascending(m.dom());
}

/// The JSON array lists the map as the dump leaves it: the sentinel, entered
/// past the highest address, is the last word in address order.
pub proof fn lemma_json_lists_final_map(m: Map<u32, u32>)
    requires
        m.dom().finite(),
        dumped(m, true) is Ok,
    ensures
        words_in_order(dumped(m, true)->Ok_0.1) == words_in_order(m).push(SENTINEL),
{
    let top = (highest_address(m) + WORD_SIZE) as u32;
    let after = m.insert(top, SENTINEL);
    let keys = ascending(m.dom());
    lemma_ascending(m.dom());
    crate::ascending::lemma_ascending_len(m.dom());
    assert forall|a: u32| m.dom().contains(a) implies a < top by {
        assert(keys.contains(a));
        let i = choose|i: int| 0 <= i < keys.len() && keys[i] == a;
        if i < keys.len() - 1 {
            assert(keys[i] < keys[keys.len() - 1]);
        }
    }
    lemma_ascending_insert_greatest(m.dom(), top);
    assert(after.dom() =~= m.dom().insert(top));
    assert(!m.dom().contains(top));
    assert forall|i: int| 0 <= i < keys.len() implies after[keys[i]] == m[keys[i]] by {
        assert(keys.contains(keys[i]));
    }
    assert(words_in_order(after) =~= words_in_order(m).push(SENTINEL));
}

} // verus!
