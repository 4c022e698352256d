//! Variants of the string exercises that refuse degenerate input: where an
//! argument is empty or does not fit the text, the result is empty.
use crate::chapter01::answer::{even_chars, holds, letter_count, mixed, odd_chars, prefix};
use crate::ordered::TextMap;
use crate::text::{chars_of, split_whitespace, string_of_range, texts, words};
use vstd::prelude::*;

verus! {

/// Returns the characters of `original` in reverse order.
pub fn reverse_str(original: &str) -> (reversed: String)
    ensures
        reversed@ == original@.reverse(),
{
    crate::chapter01::answer::reverse_str(original)
}

/// Keeps the first, third, fifth, ... character of `original`.
pub fn odd_idx_str(original: &str) -> (picked: String)
    ensures
        picked@ == odd_chars(original@),
{
    crate::chapter01::answer::odd_idx_str(original)
}

/// What `mix_two_str` returns: the two texts interleaved where both hold at
/// least one character, and the empty text otherwise.
pub open spec fn mixed_nonempty(a: Seq<char>, b: Seq<char>) -> Seq<char> {
    if a.len() > 0 && b.len() > 0 {
        mixed(a, b)
    } else {
        Seq::empty()
    }
}

/// Interleaves the characters of the two strings, starting with the first;
/// where one is longer, its remaining characters follow at the end. Where
/// one of the two is empty, the result is empty.
pub fn mix_two_str(first_str: &str, second_str: &str) -> (mixed_str: String)
    ensures
        mixed_str@ == mixed_nonempty(first_str@, second_str@),
{
    if first_str.is_empty() || second_str.is_empty() {
        return String::new();
    }
    crate::chapter01::answer::mix_two_str(first_str, second_str)
}

/// Taking a text apart into its odd and even places and interleaving the two
/// parts gives the text back, unless the text is a single character: its
/// even part is empty, and so is then the result.
pub proof fn lemma_mix_of_split(s: Seq<char>)
    requires
        s.len() != 1,
    ensures
        mixed_nonempty(odd_chars(s), even_chars(s)) == s,
{
    crate::chapter01::answer::lemma_mix_of_split(s);
    if s.len() == 0 {
        assert(s =~= Seq::<char>::empty());
    }
}

/// For each word of `original`, in order, the number of its alphabetic
/// characters.
pub fn pi(original: &str) -> (lengths: Vec<usize>)
    ensures
        lengths@.len() == words(original@).len(),
        forall|i: int|
            0 <= i < lengths@.len() ==> lengths@[i] as nat == letter_count(
                #[trigger] words(original@)[i],
            ),
{
    crate::chapter01::answer::pi(original)
}

/// Whether the list of places fits a sentence of `word_count` words: it is
/// not empty, and its last place is none beyond the last word.
pub open spec fn places_fit(ones: Seq<usize>, word_count: nat) -> bool {
    ones.len() > 0 && ones[ones.len() - 1] <= word_count
}

/// The table built from the first `n` words: each word's symbol mapped to
/// the word's 1-based place. The symbol is the first character where the
/// place is listed in `ones`, and the first two characters otherwise; a word
/// too short for its symbol adds nothing. Where two words give the same
/// symbol, the later word's place stays.
pub open spec fn checked_symbols_of(ws: Seq<Seq<char>>, ones: Seq<usize>, n: nat) -> Map<
    Seq<char>,
    usize,
>
    decreases n,
{
    if n == 0 {
        Map::empty()
    } else {
        let before = checked_symbols_of(ws, ones, (n - 1) as nat);
        let w = ws[n - 1];
        let want: int = if ones.contains(n as usize) {
            1
        } else {
            2
        };
        if w.len() >= want {
            before.insert(prefix(w, want), n as usize)
        } else {
            before
        }
    }
}

/// Maps the symbol of each word of `sentence` to the word's 1-based place,
/// provided that `idx_one_symbols` fits the sentence; the table is empty
/// where it does not.
pub fn chemical_symbols(sentence: &str, idx_one_symbols: Vec<usize>) -> (symbols: TextMap<usize>)
    ensures
        symbols.wf(),
        symbols@ == (if places_fit(idx_one_symbols@, words(sentence@).len()) {
            checked_symbols_of(words(sentence@), idx_one_symbols@, words(sentence@).len())
        } else {
            Map::empty()
        }),
{
    let ws = split_whitespace(sentence);
    let mut symbols: TextMap<usize> = TextMap::new();
    if idx_one_symbols.len() == 0 {
        return symbols;
    }
    let last = idx_one_symbols[idx_one_symbols.len() - 1];
    if ws.len() < last {
        return symbols;
    }
    let mut i: usize = 0;
    while i < ws.len()
        invariant
            i <= ws.len(),
            texts(ws@) == words(sentence@),
            symbols.wf(),
            symbols@ == checked_symbols_of(words(sentence@), idx_one_symbols@, i as nat),
        decreases ws.len() - i,
    {
        let idx: usize = i + 1;
        let w = chars_of(ws[i].as_str());
        assert(w@ == words(sentence@)[i as int]) by {
            assert(texts(ws@)[i as int] == ws@[i as int]@);
        }
        let want: usize = if holds(&idx_one_symbols, idx) {
            1
        } else {
            2
        };
        if w.len() >= want {
            let symbol = string_of_range(&w, 0, want);
            assert(symbol@ == prefix(w@, want as int)) by {
                assert(w@.subrange(0, want as int) == w@.take(want as int));
            }
            symbols.insert(symbol, idx);
        }
        i = i + 1;
    }
    symbols
}

/// What is wrong with the arguments of `chemical_symbols`, or with a word.
#[derive(Clone, Copy, Debug, PartialEq, Eq, Structural)]
pub enum SymbolFault {
    /// The list of places is empty.
    NoPlaces,
    /// The sentence has fewer words than the last place of the list asks
    /// for.
    TooFewWords { words: usize, last: usize },
    /// The word at this 1-based place is too short for its symbol.
    ShortWord { place: usize },
}

/// The words among the first `n` that are too short for their symbol, by
/// their places.
pub open spec fn short_words(ws: Seq<Seq<char>>, ones: Seq<usize>, n: nat) -> Seq<SymbolFault>
    decreases n,
{
    if n == 0 {
        Seq::empty()
    } else {
        let before = short_words(ws, ones, (n - 1) as nat);
        let want: int = if ones.contains(n as usize) {
            1
        } else {
            2
        };
        if ws[n - 1].len() >= want {
            before
        } else {
            before.push(SymbolFault::ShortWord { place: n as usize })
        }
    }
}

/// Everything that `chemical_symbols` passes over in silence: that the list
/// of places is empty or does not fit the sentence, in which case the table
/// is empty; otherwise each word that is too short and adds nothing.
pub open spec fn symbol_faults_of(ws: Seq<Seq<char>>, ones: Seq<usize>) -> Seq<SymbolFault> {
    if ones.len() == 0 {
        seq![SymbolFault::NoPlaces]
    } else if ws.len() < ones[ones.len() - 1] {
        seq![SymbolFault::TooFewWords { words: ws.len() as usize, last: ones[ones.len() - 1] }]
    } else {
        short_words(ws, ones, ws.len())
    }
}

/// What is wrong with a sentence and a list of places, in the order in
/// which `chemical_symbols` meets it: for a caller that wants to report
/// what the table leaves out.
pub fn symbol_faults(sentence: &str, idx_one_symbols: &Vec<usize>) -> (faults: Vec<SymbolFault>)
    ensures
        faults@ == symbol_faults_of(words(sentence@), idx_one_symbols@),
{
    let ws = split_whitespace(sentence);
    let mut faults: Vec<SymbolFault> = Vec::new();
    if idx_one_symbols.len() == 0 {
        faults.push(SymbolFault::NoPlaces);
        assert(faults@ =~= seq![SymbolFault::NoPlaces]);
        return faults;
    }
    let last = idx_one_symbols[idx_one_symbols.len() - 1];
    if ws.len() < last {
        faults.push(SymbolFault::TooFewWords { words: ws.len(), last });
        assert(faults@ =~= seq![SymbolFault::TooFewWords { words: ws.len(), last }]);
        return faults;
    }
    let mut i: usize = 0;
    while i < ws.len()
        invariant
            i <= ws.len(),
            texts(ws@) == words(sentence@),
            faults@ == short_words(words(sentence@), idx_one_symbols@, i as nat),
        decreases ws.len() - i,
    {
        let idx: usize = i + 1;
        let w = chars_of(ws[i].as_str());
        assert(w@ == words(sentence@)[i as int]) by {
            assert(texts(ws@)[i as int] == ws@[i as int]@);
        }
        let want: usize = if holds(idx_one_symbols, idx) {
            1
        } else {
            2
        };
        if w.len() < want {
            faults.push(SymbolFault::ShortWord { place: idx });
        }
        i = i + 1;
    }
    faults
}

// ---------------------------------------------------------------------------
// N-grams
// ---------------------------------------------------------------------------

/// The word n-grams of this variant: it makes none, whatever the text and
/// whatever `n`.
pub fn word_ngram(text: &str, n: i32) -> (grams: Vec<String>)
    ensures
        grams@.len() == 0,
{
    Vec::new()
}

/// The character n-grams of this variant: it makes none, whatever the text
/// and whatever `n`.
pub fn char_ngram(text: &str, n: i32) -> (grams: Vec<String>)
    ensures
        grams@.len() == 0,
{
    Vec::new()
}

} // verus!
