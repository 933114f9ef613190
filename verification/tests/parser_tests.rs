use compile_to_rout::address_map::AddressValueMap;
use compile_to_rout::error::DumpError;
use compile_to_rout::parser::{
    entries_of_captures, entries_of_line, insert_entries, parse_dump, DATA_LINE_PATTERN,
};

fn parse(text: &str) -> AddressValueMap {
    parse_dump(text).expect("the dump should parse")
}

fn groups_of<'a>(fields: [&'a str; 5]) -> Vec<Option<&'a str>> {
    let mut groups = vec![Some("whole match")];
    for field in fields {
        groups.push(Some(field));
    }
    groups
}

#[test]
fn data_line_yields_four_consecutive_words() {
    let map = parse("1000 AABBCCDD 11223344 55667788 99AABBCC");
    assert_eq!(map.len(), 4);
    assert_eq!(map.get(0x1000), Some(0xAABBCCDD));
    assert_eq!(map.get(0x1004), Some(0x11223344));
    assert_eq!(map.get(0x1008), Some(0x55667788));
    assert_eq!(map.get(0x100C), Some(0x99AABBCC));
}

#[test]
fn header_line_is_ignored() {
    assert!(parse("this is a header").is_empty());
}

#[test]
fn line_with_three_words_is_ignored() {
    assert!(parse("1000 AABBCCDD 11223344 55667788").is_empty());
}

#[test]
fn blank_and_empty_input_give_an_empty_map() {
    assert!(parse("").is_empty());
    assert!(parse("\n\n\r\n").is_empty());
}

#[test]
fn word_of_seven_digits_does_not_match() {
    assert!(parse("1000 AABBCCD 11223344 55667788 99AABBCC").is_empty());
}

#[test]
fn word_of_nine_digits_in_the_middle_does_not_match() {
    assert!(parse("1000 AABBCCDD1 11223344 55667788 99AABBCC").is_empty());
}

#[test]
fn fields_parted_by_two_blanks_do_not_match() {
    assert!(parse("1000  AABBCCDD 11223344 55667788 99AABBCC").is_empty());
}

#[test]
fn tab_parts_fields_as_well() {
    let map = parse("20\t00000001\t00000002\t00000003\t00000004");
    assert_eq!(map.entries(), vec![(0x20, 1), (0x24, 2), (0x28, 3), (0x2C, 4)]);
}

#[test]
fn digits_are_read_in_either_case() {
    let map = parse("aB00 deadBEEF 0000000a 0000000A 000000fF");
    assert_eq!(
        map.entries(),
        vec![(0xAB00, 0xDEADBEEF), (0xAB04, 10), (0xAB08, 10), (0xAB0C, 255)]
    );
}

#[test]
fn data_line_is_found_inside_other_text() {
    let map = parse("  > 10 00000001 00000002 00000003 00000004 ; note");
    assert_eq!(map.entries(), vec![(0x10, 1), (0x14, 2), (0x18, 3), (0x1C, 4)]);
}

#[test]
fn fields_on_different_lines_do_not_join() {
    assert!(parse("1000 AABBCCDD 11223344\n55667788 99AABBCC").is_empty());
}

#[test]
fn carriage_return_line_ends_are_read() {
    let map = parse("header\r\n0 00000001 00000002 00000003 00000004\r\n");
    assert_eq!(map.entries(), vec![(0, 1), (4, 2), (8, 3), (12, 4)]);
}

#[test]
fn later_line_overwrites_earlier_one() {
    let map = parse(
        "1000 00000001 00000002 00000003 00000004\n\
         1008 0000000A 0000000B 0000000C 0000000D",
    );
    assert_eq!(
        map.entries(),
        vec![(0x1000, 1), (0x1004, 2), (0x1008, 10), (0x100C, 11), (0x1010, 12), (0x1014, 13)]
    );
}

#[test]
fn same_address_twice_keeps_the_later_words() {
    let map = parse(
        "40 00000001 00000002 00000003 00000004\n\
         40 00000005 00000006 00000007 00000008",
    );
    assert_eq!(map.entries(), vec![(0x40, 5), (0x44, 6), (0x48, 7), (0x4C, 8)]);
}

#[test]
fn descending_lines_read_as_the_same_map_as_ascending_ones() {
    let down = parse(
        "2000 00000005 00000006 00000007 00000008\n\
         1000 00000001 00000002 00000003 00000004",
    );
    let up = parse(
        "1000 00000001 00000002 00000003 00000004\n\
         2000 00000005 00000006 00000007 00000008",
    );
    assert_eq!(down.entries(), up.entries());
    assert_eq!(down.addresses(), vec![0x1000, 0x1004, 0x1008, 0x100C, 0x2000, 0x2004, 0x2008, 0x200C]);
}

#[test]
fn parsing_twice_gives_the_same_map() {
    let text = "junk\n1000 AABBCCDD 11223344 55667788 99AABBCC\n8 00000001 00000002 00000003 00000004\n";
    let first = parse(text);
    let second = parse(text);
    assert_eq!(first.entries(), second.entries());
    assert_eq!(first.len(), 8);
}

#[test]
fn long_dump_is_read_line_by_line() {
    let mut text = String::from("Disassembly of section .text:\n\n");
    for line in 0..2000u32 {
        let base = 0x8000_0000 + 16 * line;
        text.push_str(&format!(
            "{:x} {:08X} {:08x} {:08X} {:08x}\n",
            base,
            4 * line,
            4 * line + 1,
            4 * line + 2,
            4 * line + 3
        ));
        text.push_str("\t...\n");
    }
    let map = parse(&text);
    assert_eq!(map.len(), 8000);
    let entries = map.entries();
    for (i, &(address, word)) in entries.iter().enumerate() {
        assert_eq!(address, 0x8000_0000 + 4 * i as u32);
        assert_eq!(word, i as u32);
    }
}

#[test]
fn address_wider_than_32_bits_is_malformed() {
    let r = parse_dump("100000000 AABBCCDD 11223344 55667788 99AABBCC");
    assert_eq!(r.unwrap_err(), DumpError::MalformedField);
}

#[test]
fn one_faulty_line_fails_the_whole_dump() {
    let r = parse_dump(
        "0 00000001 00000002 00000003 00000004\n\
         FFFFFFFFF 00000001 00000002 00000003 00000004\n\
         10 00000001 00000002 00000003 00000004",
    );
    assert_eq!(r.unwrap_err(), DumpError::MalformedField);
}

#[test]
fn greatest_base_address_with_room_is_read() {
    let map = parse("FFFFFFF0 00000001 00000002 00000003 00000004");
    assert_eq!(
        map.entries(),
        vec![(0xFFFFFFF0, 1), (0xFFFFFFF4, 2), (0xFFFFFFF8, 3), (0xFFFFFFFC, 4)]
    );
}

#[test]
fn word_address_past_32_bits_overflows() {
    let r = parse_dump("FFFFFFF4 00000001 00000002 00000003 00000004");
    assert_eq!(r.unwrap_err(), DumpError::AddressOverflow);
}

#[test]
fn leading_zeros_in_the_address_are_allowed() {
    let map = parse("0000000000001000 00000001 00000002 00000003 00000004");
    assert_eq!(map.addresses(), vec![0x1000, 0x1004, 0x1008, 0x100C]);
}

#[test]
fn entries_of_one_line() {
    assert_eq!(
        entries_of_line("1000 AABBCCDD 11223344 55667788 99AABBCC"),
        Ok(vec![
            (0x1000, 0xAABBCCDD),
            (0x1004, 0x11223344),
            (0x1008, 0x55667788),
            (0x100C, 0x99AABBCC)
        ])
    );
    assert_eq!(entries_of_line("this is a header"), Ok(vec![]));
    assert_eq!(entries_of_line(""), Ok(vec![]));
    assert_eq!(
        entries_of_line("123456789 AABBCCDD 11223344 55667788 99AABBCC"),
        Err(DumpError::MalformedField)
    );
}

#[test]
fn pattern_has_five_groups() {
    assert_eq!(DATA_LINE_PATTERN.matches('(').count(), 5);
    assert_eq!(DATA_LINE_PATTERN.matches("{8}").count(), 4);
}

#[test]
fn captures_give_entries_at_a_stride_of_four() {
    let groups = groups_of(["1000", "AABBCCDD", "11223344", "55667788", "99AABBCC"]);
    assert_eq!(
        entries_of_captures(&groups),
        Ok(vec![
            (0x1000, 0xAABBCCDD),
            (0x1004, 0x11223344),
            (0x1008, 0x55667788),
            (0x100C, 0x99AABBCC)
        ])
    );
}

#[test]
fn captures_with_wide_address_are_malformed() {
    let groups = groups_of(["100000000", "AABBCCDD", "11223344", "55667788", "99AABBCC"]);
    assert_eq!(entries_of_captures(&groups), Err(DumpError::MalformedField));
}

#[test]
fn captures_with_a_word_that_is_no_number_are_malformed() {
    let groups = groups_of(["1000", "AABBCCDD", "1122334G", "55667788", "99AABBCC"]);
    assert_eq!(entries_of_captures(&groups), Err(DumpError::MalformedField));
    let groups = groups_of(["1000", "AABBCCDD", "", "55667788", "99AABBCC"]);
    assert_eq!(entries_of_captures(&groups), Err(DumpError::MalformedField));
    let groups = groups_of(["1000", "AABBCCDD", "11223344", "55667788", "1FFFFFFFF"]);
    assert_eq!(entries_of_captures(&groups), Err(DumpError::MalformedField));
}

#[test]
fn captures_with_a_missing_group_are_malformed() {
    let short = vec![Some("x"), Some("1000"), Some("AABBCCDD")];
    assert_eq!(entries_of_captures(&short), Err(DumpError::MalformedField));
    let absent = vec![Some("x"), Some("1000"), Some("AABBCCDD"), None, Some("1"), Some("2")];
    assert_eq!(entries_of_captures(&absent), Err(DumpError::MalformedField));
    let no_groups: Vec<Option<&str>> = vec![];
    assert_eq!(entries_of_captures(&no_groups), Err(DumpError::MalformedField));
}

#[test]
fn first_fault_from_the_left_is_reported() {
    // The third word's address overflows before the faulty fourth word is read.
    let groups = groups_of(["FFFFFFF8", "00000001", "00000002", "00000003", "zz"]);
    assert_eq!(entries_of_captures(&groups), Err(DumpError::AddressOverflow));
    // The faulty second word is read before the third word's address overflows.
    let groups = groups_of(["FFFFFFF8", "00000001", "zz", "00000003", "00000004"]);
    assert_eq!(entries_of_captures(&groups), Err(DumpError::MalformedField));
}

#[test]
fn inserting_entries_keeps_the_last_word_per_address() {
    let mut map = AddressValueMap::new();
    map.insert(8, 80);
    insert_entries(&mut map, &vec![(0, 1), (4, 2), (0, 3), (8, 4), (4, 5)]);
    assert_eq!(map.entries(), vec![(0, 3), (4, 5), (8, 4)]);
}

#[test]
fn last_entry_at_an_address_wins_over_all_earlier_ones() {
    let entries = vec![(16, 1), (20, 2), (16, 3), (24, 4), (16, 5), (20, 6)];
    let mut map = AddressValueMap::new();
    insert_entries(&mut map, &entries);
    for (i, &(address, word)) in entries.iter().enumerate() {
        let is_last = entries[i + 1..].iter().all(|&(later, _)| later != address);
        if is_last {
            assert_eq!(map.get(address), Some(word));
        }
    }
    assert_eq!(map.entries(), vec![(16, 5), (20, 6), (24, 4)]);
}

#[test]
fn entries_at_other_addresses_leave_a_word_alone() {
    let mut map = AddressValueMap::new();
    map.insert(100, 7);
    insert_entries(&mut map, &vec![(96, 1), (104, 2)]);
    assert_eq!(map.get(100), Some(7));
    assert_eq!(map.len(), 3);
}

#[test]
fn runs_of_entries_without_common_address_commute() {
    let first = vec![(0, 1), (4, 2), (0, 3)];
    let second = vec![(8, 4), (12, 5), (8, 6)];
    let mut one = AddressValueMap::new();
    insert_entries(&mut one, &first);
    insert_entries(&mut one, &second);
    let mut other = AddressValueMap::new();
    insert_entries(&mut other, &second);
    insert_entries(&mut other, &first);
    assert_eq!(one.entries(), other.entries());
    assert_eq!(one.entries(), vec![(0, 3), (4, 2), (8, 6), (12, 5)]);
}

#[test]
fn overlapping_lines_do_not_commute() {
    let one = parse(
        "0 00000001 00000002 00000003 00000004\n\
         8 00000005 00000006 00000007 00000008",
    );
    let other = parse(
        "8 00000005 00000006 00000007 00000008\n\
         0 00000001 00000002 00000003 00000004",
    );
    assert_eq!(one.get(8), Some(5));
    assert_eq!(other.get(8), Some(3));
}

#[test]
fn only_the_leftmost_match_of_a_line_counts() {
    let map = parse(
        "10 00000001 00000002 00000003 00000004 20 00000005 00000006 00000007 00000008",
    );
    assert_eq!(map.entries(), vec![(0x10, 1), (0x14, 2), (0x18, 3), (0x1C, 4)]);
}

#[test]
fn longer_last_word_gives_its_first_eight_digits() {
    let map = parse("10 00000001 00000002 00000003 0000000412");
    assert_eq!(map.get(0x1C), Some(4));
}

#[test]
fn address_begins_where_a_match_first_becomes_possible() {
    let map = parse("xyz1f0 00000001 00000002 00000003 00000004");
    assert_eq!(map.addresses(), vec![0x1F0, 0x1F4, 0x1F8, 0x1FC]);
}

#[test]
fn reading_error_is_the_same_every_time() {
    let text = "0 00000001 00000002 00000003 00000004\nFFFFFFFC 00000001 00000002 00000003 00000004";
    assert_eq!(parse_dump(text).unwrap_err(), DumpError::AddressOverflow);
    assert_eq!(parse_dump(text).unwrap_err(), DumpError::AddressOverflow);
}
