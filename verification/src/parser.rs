//! Reading a dump: from text to an address map.

use crate::address_map::{AddressValueMap, WORD_SIZE};
use crate::digits::{hex_u32, parse_hex_u32};
use crate::error::DumpError;
use crate::lines::{lines_of, split_lines, texts};
use crate::matcher::{group_texts, regex_captures, search};
use vstd::prelude::*;

verus! {

/// The pattern of a data line: an address of one or more hexadecimal digits,
/// then four words of eight hexadecimal digits each, every field parted from
/// the next by one whitespace character.
pub const DATA_LINE_PATTERN: &'static str =
    r"([0-9a-fA-F]+)\s([0-9a-fA-F]{8})\s([0-9a-fA-F]{8})\s([0-9a-fA-F]{8})\s([0-9a-fA-F]{8})";

/// The number of words on a data line.
pub const WORDS_PER_LINE: usize = 4;

/// The number in capture group `i`, where there is such a group and it holds
/// a 32-bit hexadecimal number.
pub open spec fn group_number(groups: Seq<Option<Seq<char>>>, i: int) -> Option<u32> {
    if 0 <= i < groups.len() && groups[i] is Some {
        hex_u32(groups[i]->0)
    } else {
        None
    }
}

/// The first `n` entries of a data line whose address is `base`. Word `k`
/// stands in group `k + 2` and belongs to address `base + WORD_SIZE * k`.
/// The first thing that goes wrong, reading from the left, is the error.
pub open spec fn entries_upto(groups: Seq<Option<Seq<char>>>, base: u32, n: nat) -> Result<
    Seq<(u32, u32)>,
    DumpError,
>
    decreases n,
{
    if n == 0 {
        Ok(Seq::empty())
    } else {
        match entries_upto(groups, base, (n - 1) as nat) {
            Err(e) => Err(e),
            Ok(entries) => if base + WORD_SIZE * (n - 1) > u32::MAX {
                Err(DumpError::AddressOverflow)
            } else {
                match group_number(groups, (n + 1) as int) {
                    None => Err(DumpError::MalformedField),
                    Some(word) => Ok(entries.push(((base + WORD_SIZE * (n - 1)) as u32, word))),
                }
            },
        }
    }
}

/// The four entries that the capture groups of a data line denote.
pub open spec fn line_entries(groups: Seq<Option<Seq<char>>>) -> Result<
    Seq<(u32, u32)>,
    DumpError,
> {
    match group_number(groups, 1) {
        None => Err(DumpError::MalformedField),
        Some(base) => entries_upto(groups, base, WORDS_PER_LINE as nat),
    }
}

/// Computes the entries of a data line from its capture groups.
pub fn entries_of_captures(groups: &Vec<Option<&str>>) -> (r: Result<Vec<(u32, u32)>, DumpError>)
    ensures
        entries_outcome(r, line_entries(group_texts(groups@))),
{
    let base: u32 = match read_group(groups, 1) {
        Some(base) => base,
        None => {
            return Err(DumpError::MalformedField);
        },
    };
    let mut entries: Vec<(u32, u32)> = Vec::new();
    let mut k: usize = 0;
    while k < WORDS_PER_LINE
        invariant
            k <= WORDS_PER_LINE,
            group_number(group_texts(groups@), 1) == Some(base),
            entries_upto(group_texts(groups@), base, k as nat) == Ok::<_, DumpError>(entries@),
        decreases WORDS_PER_LINE - k,
    {
        let offset: u32 = WORD_SIZE * (k as u32);
        if base > u32::MAX - offset {
            assert(entries_upto(group_texts(groups@), base, (k + 1) as nat) is Err);
            proof {
                lemma_entries_error_stays(
                    group_texts(groups@),
                    base,
                    (k + 1) as nat,
                    WORDS_PER_LINE as nat,
                );
            }
            return Err(DumpError::AddressOverflow);
        }
        match read_group(groups, k + 2) {
            Some(word) => {
                entries.push((base + offset, word));
            },
            None => {
                proof {
                    lemma_entries_error_stays(
                    group_texts(groups@),
                    base,
                    (k + 1) as nat,
                    WORDS_PER_LINE as nat,
                );
                }
                return Err(DumpError::MalformedField);
            },
        }
        k = k + 1;
    }
    Ok(entries)
}

/// Once a prefix of the entries fails, every longer prefix fails alike.
proof fn lemma_entries_error_stays(groups: Seq<Option<Seq<char>>>, base: u32, n: nat, m: nat)
    requires
        n <= m,
        entries_upto(groups, base, n) is Err,
    ensures
        entries_upto(groups, base, m) == entries_upto(groups, base, n),
    decreases m - n,
{
    if n < m {
        lemma_entries_error_stays(groups, base, n, (m - 1) as nat);
    }
}

/// Reads the number in capture group `i`.
fn read_group(groups: &Vec<Option<&str>>, i: usize) -> (r: Option<u32>)
    ensures
        r == group_number(group_texts(groups@), i as int),
{
    if i < groups.len() {
        match groups[i] {
            Some(text) => parse_hex_u32(text),
            None => None,
        }
    } else {
        None
    }
}

/// The map `m` after the entries were inserted one by one, first to last.
pub open spec fn insert_all(m: Map<u32, u32>, entries: Seq<(u32, u32)>) -> Map<u32, u32>
    decreases entries.len(),
{
    if entries.len() == 0 {
        m
    } else {
        insert_all(m, entries.drop_last()).insert(entries.last().0, entries.last().1)
    }
}

/// What one line of a dump contributes: nothing where the data line pattern
/// is not found in it, else the entries of the leftmost match.
pub open spec fn line_result(line: Seq<char>) -> Result<Seq<(u32, u32)>, DumpError> {
    match regex_captures(DATA_LINE_PATTERN@, line) {
        None => Err(DumpError::Pattern),
        Some(None) => Ok(Seq::empty()),
        Some(Some(groups)) => line_entries(groups),
    }
}

/// The map that the first `n` of `lines` denote, or the error of the first
/// line among them that has one.
pub open spec fn parsed_lines(lines: Seq<Seq<char>>, n: nat) -> Result<Map<u32, u32>, DumpError>
    decreases n,
{
    if n == 0 {
        Ok(Map::empty())
    } else {
        match parsed_lines(lines, (n - 1) as nat) {
            Err(e) => Err(e),
            Ok(m) => match line_result(lines[n - 1]) {
                Err(e) => Err(e),
                Ok(entries) => Ok(insert_all(m, entries)),
            },
        }
    }
}

/// The map that a dump denotes, or the error of its first faulty line.
pub open spec fn parsed(text: Seq<char>) -> Result<Map<u32, u32>, DumpError> {
    parsed_lines(lines_of(text), lines_of(text).len())
}

/// Whether `r` is the executable form of the outcome `expected`.
pub open spec fn map_outcome(
    r: Result<AddressValueMap, DumpError>,
    expected: Result<Map<u32, u32>, DumpError>,
) -> bool {
    match r {
        Ok(m) => expected == Ok::<_, DumpError>(m@),
        Err(e) => expected == Err::<Map<u32, u32>, _>(e),
    }
}

/// Whether `r` is the executable form of the outcome `expected`.
pub open spec fn entries_outcome(
    r: Result<Vec<(u32, u32)>, DumpError>,
    expected: Result<Seq<(u32, u32)>, DumpError>,
) -> bool {
    match r {
        Ok(entries) => expected == Ok::<_, DumpError>(entries@),
        Err(e) => expected == Err::<Seq<(u32, u32)>, _>(e),
    }
}

/// The entries that one line contributes.
pub fn entries_of_line(line: &str) -> (r: Result<Vec<(u32, u32)>, DumpError>)
    ensures
        entries_outcome(r, line_result(line@)),
{
    match search(DATA_LINE_PATTERN, line) {
        Ok(Some(groups)) => entries_of_captures(&groups),
        Ok(None) => Ok(Vec::new()),
        Err(_) => Err(DumpError::Pattern),
    }
}

/// Reads a whole dump: every data line enters its four words into the map,
/// in the order of the lines, and all other lines are passed over.
pub fn parse_dump(contents: &str) -> (r: Result<AddressValueMap, DumpError>)
    ensures
        map_outcome(r, parsed(contents@)),
{
    let lines = split_lines(contents);
    let mut map = AddressValueMap::new();
    let mut n: usize = 0;
    while n < lines.len()
        invariant
            n <= lines.len(),
            texts(lines@) == lines_of(contents@),
            parsed_lines(lines_of(contents@), n as nat) == Ok::<_, DumpError>(map@),
        decreases lines.len() - n,
    {
        assert(texts(lines@)[n as int] == lines@[n as int]@);
        match entries_of_line(lines[n].as_str()) {
            Ok(entries) => {
                insert_entries(&mut map, &entries);
            },
            Err(e) => {
                proof {
                    lemma_parse_error_stays(
                        lines_of(contents@),
                        (n + 1) as nat,
                        lines.len() as nat,
                    );
                }
                return Err(e);
            },
        }
        n = n + 1;
    }
    Ok(map)
}

/// Once a prefix of the lines fails, every longer prefix fails alike.
proof fn lemma_parse_error_stays(lines: Seq<Seq<char>>, n: nat, m: nat)
    requires
        n <= m,
        parsed_lines(lines, n) is Err,
    ensures
        parsed_lines(lines, m) == parsed_lines(lines, n),
    decreases m - n,
{
    if n < m {
        lemma_parse_error_stays(lines, n, (m - 1) as nat);
    }
}

/// Inserts the entries into the map, first to last.
pub fn insert_entries(map: &mut AddressValueMap, entries: &Vec<(u32, u32)>)
    ensures
        final(map)@ == insert_all(old(map)@, entries@),
{
    let mut k: usize = 0;
    while k < entries.len()
        invariant
            k <= entries.len(),
            map@ == insert_all(old(map)@, entries@.take(k as int)),
        decreases entries.len() - k,
    {
        assert(entries@.take(k + 1).drop_last() == entries@.take(k as int));
        let (address, word) = entries[k];
        map.insert(address, word);
        k = k + 1;
    }
    assert(entries@.take(entries.len() as int) == entries@);
}

} // verus!
