use vstd::prelude::*;
use rand::SeedableRng;
use rand::seq::SliceRandom;
use crate::histogram::all_words;
use crate::word::{Word, is_word, parse_upper, str_to_word, upper_of};

verus! {

/// The word whose letters are the first five of `s`.
pub open spec fn word_of(s: Seq<char>) -> Word {
    [s[0], s[1], s[2], s[3], s[4]]
}

/// The words that the lines of a word list hold, in order: a line counts
/// when its upper-case form has exactly five letters; any other line is
/// skipped.
pub open spec fn parsed_words(lines: Seq<Seq<char>>) -> Seq<Word>
    decreases lines.len(),
{
    if lines.len() == 0 {
        Seq::empty()
    } else {
        let rest = parsed_words(lines.drop_last());
        match parse_upper(upper_of(lines.last())) {
            Some(w) => rest.push(word_of(w)),
            None => rest,
        }
    }
}

/// The text of each line.
pub open spec fn line_texts(lines: Seq<String>) -> Seq<Seq<char>> {
    lines.map_values(|l: String| l@)
}

/// Relies on rand's `SliceRandom::shuffle`, driven by a `StdRng` seeded with
/// `seed_from_u64`: it only swaps elements, so it permutes the list.
#[verifier::external_body]
fn shuffle_seeded(words: &mut Vec<Word>, seed: u64)
    ensures
        final(words)@.to_multiset() == old(words)@.to_multiset(),
{
    let mut rng = rand::rngs::StdRng::seed_from_u64(seed);
    words.shuffle(&mut rng);
}

/// Reads the words of a word list, one per line, in order; lines that are
/// not words are skipped.
pub fn parse_word_list(lines: &Vec<String>) -> (r: Vec<Word>)
    ensures
        r@ == parsed_words(line_texts(lines@)),
        all_words(r@),
{
    let ghost texts = line_texts(lines@);
    let mut out: Vec<Word> = Vec::new();
    let mut i: usize = 0;
    while i < lines.len()
        invariant
            i <= lines@.len(),
            texts == line_texts(lines@),
            out@ == parsed_words(texts.take(i as int)),
            all_words(out@),
        decreases lines@.len() - i,
    {
        let parsed = str_to_word(lines[i].as_str());
        assert(texts.take(i as int + 1).drop_last() =~= texts.take(i as int));
        assert(texts.take(i as int + 1).last() == lines@[i as int]@);
        match parsed {
            Some(w) => {
                assert(w =~= word_of(w@));
                out.push(w);
            },
            None => {},
        }
        i = i + 1;
    }
    assert(texts.take(lines@.len() as int) =~= texts);
    out
}

/// Reads the words of a word list and shuffles them with a generator
/// seeded by `seed`: the result holds the same words as
/// [`parse_word_list`], each as often, in some order.
pub fn load_words(lines: &Vec<String>, seed: u64) -> (r: Vec<Word>)
    ensures
        r@.to_multiset() == parsed_words(line_texts(lines@)).to_multiset(),
        r@.len() == parsed_words(line_texts(lines@)).len(),
        all_words(r@),
{
    let mut words = parse_word_list(lines);
    let ghost before = words@;
    shuffle_seeded(&mut words, seed);
    proof {
        words@.to_multiset_ensures();
        before.to_multiset_ensures();
        assert forall|i: int| 0 <= i < words@.len() implies is_word(#[trigger] words@[i]) by {
            assert(words@.contains(words@[i]));
            assert(words@.to_multiset().count(words@[i]) > 0);
            assert(before.contains(words@[i]));
        }
    }
    words
}

} // verus!
