//! Writing an address map out: a plain word list or a JSON array.

use crate::address_map::{entries_in_order, words_in_order, AddressValueMap, WORD_SIZE};
use crate::ascending::{ascending, lemma_ascending_len};
use crate::digits::{decimal, push_decimal};
use crate::error::DumpError;
use vstd::prelude::*;
use vstd::string::StringExecFns;

verus! {

/// The word that ends every JSON array.
pub const SENTINEL: u32 = 0xDEAD_BEEF;

/// The first `n` of `words`, each as a decimal numeral on a line of its own.
pub open spec fn plain_lines(words: Seq<u32>, n: nat) -> Seq<char>
    decreases n,
{
    if n == 0 {
        Seq::empty()
    } else {
        plain_lines(words, (n - 1) as nat) + decimal(words[n - 1] as nat) + seq!['\n']
    }
}

/// The plain format: the number of words on the first line, then one word
/// per line.
pub open spec fn plain_text(words: Seq<u32>) -> Seq<char> {
    decimal(words.len()) + seq!['\n'] + plain_lines(words, words.len())
}

/// The first `n` elements of the JSON array of `words`, one per line, each
/// but the last of the array followed by a comma.
pub open spec fn json_lines(words: Seq<u32>, n: nat) -> Seq<char>
    decreases n,
{
    if n == 0 {
        Seq::empty()
    } else {
        json_lines(words, (n - 1) as nat) + decimal(words[n - 1] as nat) + (if n == words.len() {
            seq!['\n']
        } else {
            seq![',', '\n']
        })
    }
}

/// The JSON format: an opening bracket on the first line, one element per
/// line, and a closing bracket with no line feed after it.
pub open spec fn json_text(words: Seq<u32>) -> Seq<char> {
    seq!['[', '\n'] + json_lines(words, words.len()) + seq![']']
}

/// Writes `words` in the plain format.
pub fn render_plain(words: &Vec<u32>) -> (text: String)
    ensures
        text@ == plain_text(words@),
{
    let mut text = String::new();
    proof {
        reveal_strlit("\n");
    }
    push_decimal(&mut text, words.len() as u64);
    text.append("\n");
    let mut i: usize = 0;
    while i < words.len()
        invariant
            i <= words.len(),
            "\n"@ == seq!['\n'],
            text@ == decimal(words@.len()) + seq!['\n'] + plain_lines(words@, i as nat),
        decreases words.len() - i,
    {
        push_decimal(&mut text, words[i] as u64);
        text.append("\n");
        i = i + 1;
    }
    text
}

/// Writes `words` as a JSON array.
pub fn render_json(words: &Vec<u32>) -> (text: String)
    ensures
        text@ == json_text(words@),
{
    let mut text = String::new();
    proof {
        reveal_strlit("[\n");
        reveal_strlit(",\n");
        reveal_strlit("\n");
        reveal_strlit("]");
    }
    text.append("[\n");
    assert(text@ == seq!['[', '\n']);
    let mut i: usize = 0;
    while i < words.len()
        invariant
            i <= words.len(),
            "\n"@ == seq!['\n'],
            ",\n"@ == seq![',', '\n'],
            text@ == seq!['[', '\n'] + json_lines(words@, i as nat),
        decreases words.len() - i,
    {
        push_decimal(&mut text, words[i] as u64);
        if i + 1 == words.len() {
            text.append("\n");
        } else {
            text.append(",\n");
        }
        i = i + 1;
    }
    text.append("]");
    text
}

/// The greatest address of a map that has one.
pub open spec fn highest_address(m: Map<u32, u32>) -> u32 {
    ascending(m.dom()).last()
}

/// What dumping the map `m` gives: the text, and the map as it is left
/// behind. The plain format lists the words in address order and leaves the
/// map alone. The JSON format first enters the sentinel one word past the
/// highest address, which needs a highest address and room past it.
pub open spec fn dumped(m: Map<u32, u32>, to_json: bool) -> Result<
    (Seq<char>, Map<u32, u32>),
    DumpError,
> {
    if !to_json {
        Ok((plain_text(words_in_order(m)), m))
    } else if m.dom().len() == 0 {
        Err(DumpError::EmptyInput)
    } else if highest_address(m) + WORD_SIZE > u32::MAX {
        Err(DumpError::AddressOverflow)
    } else {
        Ok(
            (
                json_text(words_in_order(m).push(SENTINEL)),
                m.insert((highest_address(m) + WORD_SIZE) as u32, SENTINEL),
            ),
        )
    }
}

/// Writes the map out, as a JSON array if `to_json` is set, else in the
/// plain format. Writing JSON enters the sentinel into the map; where that
/// cannot be done the map is left as it was.
pub fn dump(code_map: &mut AddressValueMap, to_json: bool) -> (r: Result<String, DumpError>)
    ensures
        match r {
            Ok(text) => dumped(old(code_map)@, to_json) == Ok::<_, DumpError>(
                (text@, final(code_map)@),
            ),
            Err(e) => dumped(old(code_map)@, to_json) == Err::<(Seq<char>, Map<u32, u32>), _>(e)
                && final(code_map)@ == old(code_map)@,
        },
{
    let entries = code_map.entries();
    let mut words: Vec<u32> = Vec::new();
    let mut i: usize = 0;
    while i < entries.len()
        invariant
            i <= entries.len(),
            entries@ == entries_in_order(code_map@),
            words@ == words_in_order(code_map@).take(i as int),
        decreases entries.len() - i,
    {
        assert(words_in_order(code_map@).take(i + 1) == words_in_order(code_map@).take(
            i as int,
        ).push(entries@[i as int].1));
        words.push(entries[i].1);
        i = i + 1;
    }
    assert(words_in_order(code_map@).take(entries.len() as int) == words_in_order(code_map@));
    if !to_json {
        return Ok(render_plain(&words));
    }
    proof {
        code_map.lemma_finite();
        lemma_ascending_len(code_map@.dom());
    }
    if entries.len() == 0 {
        return Err(DumpError::EmptyInput);
    }
    let highest: u32 = entries[entries.len() - 1].0;
    if highest > u32::MAX - WORD_SIZE {
        return Err(DumpError::AddressOverflow);
    }
    code_map.insert(highest + WORD_SIZE, SENTINEL);
    words.push(SENTINEL);
    Ok(render_json(&words))
}

} // verus!
