//! String exercises: reversal, interleaving, word lengths, n-grams and a
//! simple substitution cipher.
use crate::ordered::{set_of, TextMap, TextSet};
use crate::text::{
    char_is_alphabetic, chars_of, join, joined, split_whitespace, string_of, string_of_range,
    texts, words,
};
use vstd::prelude::*;
use vstd::utf8::encode_utf8;

verus! {

// ---------------------------------------------------------------------------
// Reversal
// ---------------------------------------------------------------------------

/// Returns the characters of `original` in reverse order.
pub fn reverse_str(original: &str) -> (reversed: String)
    ensures
        reversed@ == original@.reverse(),
{
    let v = chars_of(original);
    let mut r: Vec<char> = Vec::new();
    let mut i: usize = v.len();
    while i > 0
        invariant
            i <= v.len(),
            r@.len() == v.len() - i,
            forall|k: int| 0 <= k < r@.len() ==> r@[k] == v@[v@.len() - 1 - k],
        decreases i,
    {
        i = i - 1;
        r.push(v[i]);
    }
    assert(r@ =~= v@.reverse());
    string_of(&r)
}

/// Reversing a text twice gives the text back.
pub proof fn lemma_reverse_twice(s: Seq<char>)
    ensures
        s.reverse().reverse() == s,
{
    assert(s.reverse().reverse() =~= s);
}

// ---------------------------------------------------------------------------
// Every other character, and interleaving
// ---------------------------------------------------------------------------

/// The characters of `s` at the first, third, fifth, ... place.
pub open spec fn odd_chars(s: Seq<char>) -> Seq<char> {
    Seq::new(((s.len() + 1) / 2) as nat, |i: int| s[2 * i])
}

/// The characters of `s` at the second, fourth, sixth, ... place.
pub open spec fn even_chars(s: Seq<char>) -> Seq<char> {
    Seq::new((s.len() / 2) as nat, |i: int| s[2 * i + 1])
}

/// `a` and `b` interleaved character by character, starting with `a`; once
/// the shorter one is used up, the rest of the longer one follows.
pub open spec fn mixed(a: Seq<char>, b: Seq<char>) -> Seq<char> {
    let m = if a.len() <= b.len() {
        a.len() as int
    } else {
        b.len() as int
    };
    Seq::new(
        a.len() + b.len(),
        |i: int|
            if i < 2 * m {
                if i % 2 == 0 {
                    a[i / 2]
                } else {
                    b[i / 2]
                }
            } else if a.len() > b.len() {
                a[i - m]
            } else {
                b[i - m]
            },
    )
}

/// Keeps the first, third, fifth, ... character of `original`.
pub fn odd_idx_str(original: &str) -> (picked: String)
    ensures
        picked@ == odd_chars(original@),
{
    let v = chars_of(original);
    let count: usize = v.len() / 2 + v.len() % 2;
    let mut r: Vec<char> = Vec::new();
    let mut k: usize = 0;
    while k < count
        invariant
            k <= count,
            count == (v.len() + 1) / 2,
            r@.len() == k,
            forall|j: int| 0 <= j < k ==> r@[j] == v@[2 * j],
        decreases count - k,
    {
        r.push(v[2 * k]);
        k = k + 1;
    }
    assert(r@ =~= odd_chars(v@));
    string_of(&r)
}

/// Interleaves the characters of the two strings, starting with the first;
/// where one is longer, its remaining characters follow at the end.
pub fn mix_two_str(first_str: &str, second_str: &str) -> (mixed_str: String)
    ensures
        mixed_str@ == mixed(first_str@, second_str@),
{
    let a = chars_of(first_str);
    let b = chars_of(second_str);
    let m: usize = if a.len() <= b.len() {
        a.len()
    } else {
        b.len()
    };
    let ghost want = mixed(a@, b@);
    let mut r: Vec<char> = Vec::new();
    let mut i: usize = 0;
    while i < m
        invariant
            i <= m,
            m <= a.len(),
            m <= b.len(),
            r@.len() == 2 * i,
            want == mixed(a@, b@),
            m == (if a.len() <= b.len() { a.len() } else { b.len() }),
            forall|k: int| 0 <= k < r@.len() ==> r@[k] == want[k],
        decreases m - i,
    {
        r.push(a[i]);
        r.push(b[i]);
        i = i + 1;
    }
    while i < a.len()
        invariant
            m <= i <= a.len() || (i == m && a.len() <= m),
            m <= a.len(),
            m <= b.len(),
            r@.len() == m + i,
            want == mixed(a@, b@),
            m == (if a.len() <= b.len() { a.len() } else { b.len() }),
            forall|k: int| 0 <= k < r@.len() ==> r@[k] == want[k],
        decreases a.len() - i,
    {
        r.push(a[i]);
        i = i + 1;
    }
    let mut j: usize = m;
    while j < b.len()
        invariant
            m <= j <= b.len(),
            m <= a.len(),
            m <= b.len(),
            r@.len() == a.len() + j,
            want == mixed(a@, b@),
            m == (if a.len() <= b.len() { a.len() } else { b.len() }),
            forall|k: int| 0 <= k < r@.len() ==> r@[k] == want[k],
        decreases b.len() - j,
    {
        r.push(b[j]);
        j = j + 1;
    }
    assert(r@ =~= want);
    string_of(&r)
}

/// Taking a text apart into its odd and even places and interleaving the two
/// parts gives the text back, whatever its length.
pub proof fn lemma_mix_of_split(s: Seq<char>)
    ensures
        mixed(odd_chars(s), even_chars(s)) == s,
{
    assert(mixed(odd_chars(s), even_chars(s)) =~= s);
}

/// Interleaving two texts of equal length and taking the result apart into
/// its odd and even places gives the two texts back.
pub proof fn lemma_split_of_mix(a: Seq<char>, b: Seq<char>)
    requires
        a.len() == b.len(),
    ensures
        odd_chars(mixed(a, b)) == a,
        even_chars(mixed(a, b)) == b,
{
    assert(odd_chars(mixed(a, b)) =~= a);
    assert(even_chars(mixed(a, b)) =~= b);
}

// ---------------------------------------------------------------------------
// Word lengths
// ---------------------------------------------------------------------------

/// The number of alphabetic characters in `w`.
pub open spec fn letter_count(w: Seq<char>) -> nat {
    w.filter(|c: char| char_is_alphabetic(c)).len()
}

/// For each word of `original`, in order, the number of its alphabetic
/// characters: punctuation and digits are not counted.
pub fn pi(original: &str) -> (lengths: Vec<usize>)
    ensures
        lengths@.len() == words(original@).len(),
        forall|i: int|
            0 <= i < lengths@.len() ==> lengths@[i] as nat == letter_count(
                #[trigger] words(original@)[i],
            ),
{
    let ws = split_whitespace(original);
    let mut out: Vec<usize> = Vec::new();
    let mut i: usize = 0;
    while i < ws.len()
        invariant
            i <= ws.len(),
            texts(ws@) == words(original@),
            out@.len() == i,
            forall|k: int|
                0 <= k < i ==> out@[k] as nat == letter_count(#[trigger] words(original@)[k]),
        decreases ws.len() - i,
    {
        let w = chars_of(ws[i].as_str());
        assert(w@ == words(original@)[i as int]) by {
            assert(texts(ws@)[i as int] == ws@[i as int]@);
        }
        let n = count_letters(&w);
        out.push(n);
        i = i + 1;
    }
    out
}

/// Counts the alphabetic characters of `w`.
fn count_letters(w: &Vec<char>) -> (n: usize)
    ensures
        n as nat == letter_count(w@),
{
    let ghost is_letter = |c: char| char_is_alphabetic(c);
    let mut n: usize = 0;
    let mut i: usize = 0;
    while i < w.len()
        invariant
            i <= w.len(),
            n <= i,
            is_letter == (|c: char| char_is_alphabetic(c)),
            n as nat == w@.take(i as int).filter(is_letter).len(),
        decreases w.len() - i,
    {
        proof {
            let head = w@.take(i as int);
            assert(w@.take(i as int + 1) == head.push(w@[i as int]));
            Seq::lemma_filter_push(head, w@[i as int], is_letter);
        }
        if w[i].is_alphabetic() {
            n = n + 1;
        }
        i = i + 1;
    }
    assert(w@.take(w@.len() as int) == w@);
    n
}

// ---------------------------------------------------------------------------
// N-grams
// ---------------------------------------------------------------------------

/// All runs of `n` neighbouring items of `s`, from left to right. There is
/// none where `s` has fewer than `n` items.
pub open spec fn windows<T>(s: Seq<T>, n: nat) -> Seq<Seq<T>> {
    Seq::new(
        if s.len() >= n {
            (s.len() - n + 1) as nat
        } else {
            0
        },
        |i: int| s.subrange(i, i + n),
    )
}

/// The word n-grams of `text`: every run of `n` neighbouring words.
pub fn word_ngram(text: &str, n: usize) -> (grams: Vec<Vec<String>>)
    requires
        n > 0,
    ensures
        grams@.len() == windows(words(text@), n as nat).len(),
        forall|i: int|
            0 <= i < grams@.len() ==> texts(#[trigger] grams@[i]@) == windows(
                words(text@),
                n as nat,
            )[i],
{
    let ws = split_whitespace(text);
    let mut out: Vec<Vec<String>> = Vec::new();
    if ws.len() < n {
        return out;
    }
    let count: usize = ws.len() - n + 1;
    let mut i: usize = 0;
    while i < count
        invariant
            i <= count,
            n > 0,
            count == ws.len() - n + 1,
            texts(ws@) == words(text@),
            out@.len() == i,
            forall|k: int|
                0 <= k < i ==> texts(#[trigger] out@[k]@) == words(text@).subrange(
                    k,
                    k + n,
                ),
        decreases count - i,
    {
        let mut gram: Vec<String> = Vec::new();
        let mut j: usize = 0;
        while j < n
            invariant
                j <= n,
                i + n <= ws.len(),
                gram@.len() == j,
                forall|k: int| 0 <= k < j ==> (#[trigger] gram@[k])@ == ws@[i + k]@,
            decreases n - j,
        {
            gram.push(ws[i + j].clone());
            j = j + 1;
        }
        assert(texts(gram@) =~= words(text@).subrange(i as int, i + n)) by {
            assert forall|k: int| 0 <= k < n implies texts(gram@)[k] == words(text@).subrange(
                i as int,
                i + n,
            )[k] by {
                assert(texts(ws@)[i + k] == ws@[i + k]@);
            }
        }
        out.push(gram);
        i = i + 1;
    }
    out
}

/// The character n-grams of `text`: every run of `n` neighbouring
/// characters, whitespace included.
pub fn char_ngram(text: &str, n: usize) -> (grams: Vec<String>)
    requires
        n > 0,
    ensures
        texts(grams@) == windows(text@, n as nat),
{
    let v = chars_of(text);
    let mut out: Vec<String> = Vec::new();
    if v.len() < n {
        assert(texts(out@) =~= windows(text@, n as nat));
        return out;
    }
    let count: usize = v.len() - n + 1;
    let mut i: usize = 0;
    while i < count
        invariant
            i <= count,
            count == v.len() - n + 1,
            n > 0,
            v@ == text@,
            out@.len() == i,
            forall|k: int| 0 <= k < i ==> (#[trigger] out@[k])@ == v@.subrange(k, k + n),
        decreases count - i,
    {
        let g = string_of_range(&v, i, i + n);
        out.push(g);
        i = i + 1;
    }
    assert(texts(out@) =~= windows(text@, n as nat));
    out
}

// ---------------------------------------------------------------------------
// Cipher
// ---------------------------------------------------------------------------

/// A lower-case ASCII letter is mirrored within the alphabet (`a` becomes
/// `z`, `b` becomes `y`, ...): its code `c` becomes `219 - c`. Every other
/// character stays as it is.
pub open spec fn cipher_char(c: char) -> char {
    if 'a' <= c <= 'z' {
        (219 - (c as int)) as char
    } else {
        c
    }
}

/// `cipher_char` applied to every character of `s`.
pub open spec fn ciphered(s: Seq<char>) -> Seq<char> {
    Seq::new(s.len(), |i: int| cipher_char(s[i]))
}

/// Enciphers `text`: mirrors each lower-case ASCII letter within the
/// alphabet and leaves every other character alone.
pub fn cipher(text: &str) -> (out: String)
    ensures
        out@ == ciphered(text@),
{
    let v = chars_of(text);
    let mut r: Vec<char> = Vec::new();
    let mut i: usize = 0;
    while i < v.len()
        invariant
            i <= v.len(),
            r@.len() == i,
            forall|k: int| 0 <= k < i ==> r@[k] == cipher_char(v@[k]),
        decreases v.len() - i,
    {
        let c = v[i];
        if 'a' <= c && c <= 'z' {
            let code: u8 = c as u8;
            let mirrored: u8 = 219 - code;
            r.push(mirrored as char);
        } else {
            r.push(c);
        }
        i = i + 1;
    }
    assert(r@ =~= ciphered(v@));
    string_of(&r)
}

/// The cipher is its own inverse.
pub proof fn lemma_cipher_twice(s: Seq<char>)
    ensures
        ciphered(ciphered(s)) == s,
{
    assert forall|i: int| 0 <= i < s.len() implies cipher_char(cipher_char(s[i])) == s[i] by {
        let c = s[i];
        if 'a' <= c <= 'z' {
            let d = (219 - (c as int)) as char;
            assert(97 <= c as int <= 122);
            assert(d as int == 219 - (c as int));
        }
    }
    assert(ciphered(ciphered(s)) =~= s);
}

// ---------------------------------------------------------------------------
// Chemical symbols
// ---------------------------------------------------------------------------

/// The first `k` characters of `w`, or all of `w` where it has fewer.
pub open spec fn prefix(w: Seq<char>, k: int) -> Seq<char> {
    if k <= w.len() {
        w.take(k)
    } else {
        w
    }
}

/// The symbol taken from the word at the 1-based place `idx`: its first
/// character where `idx` is listed in `ones`, its first two otherwise.
pub open spec fn symbol_of(w: Seq<char>, idx: usize, ones: Seq<usize>) -> Seq<char> {
    if ones.contains(idx) {
        prefix(w, 1)
    } else {
        prefix(w, 2)
    }
}

/// The table built from the first `n` words: each symbol mapped to the
/// 1-based place of its word. Where two words give the same symbol, the
/// later word's place stays.
pub open spec fn symbols_of(ws: Seq<Seq<char>>, ones: Seq<usize>, n: nat) -> Map<
    Seq<char>,
    usize,
>
    decreases n,
{
    if n == 0 {
        Map::empty()
    } else {
        symbols_of(ws, ones, (n - 1) as nat).insert(
            symbol_of(ws[n - 1], n as usize, ones),
            n as usize,
        )
    }
}

/// Whether `v` holds `x`.
pub(crate) fn holds(v: &Vec<usize>, x: usize) -> (b: bool)
    ensures
        b == v@.contains(x),
{
    let mut i: usize = 0;
    while i < v.len()
        invariant
            i <= v.len(),
            forall|k: int| 0 <= k < i ==> v@[k] != x,
        decreases v.len() - i,
    {
        if v[i] == x {
            return true;
        }
        i = i + 1;
    }
    false
}

/// Maps the symbol of each word of `sentence` to the word's 1-based place.
/// The symbol is the word's first character where the place is listed in
/// `idx_one_symbols`, and its first two characters otherwise.
pub fn chemical_symbols(sentence: &str, idx_one_symbols: Vec<usize>) -> (symbols: TextMap<usize>)
    ensures
        symbols.wf(),
        symbols@ == symbols_of(words(sentence@), idx_one_symbols@, words(sentence@).len()),
{
    let ws = split_whitespace(sentence);
    let mut symbols: TextMap<usize> = TextMap::new();
    let mut i: usize = 0;
    while i < ws.len()
        invariant
            i <= ws.len(),
            texts(ws@) == words(sentence@),
            symbols.wf(),
            symbols@ == symbols_of(words(sentence@), idx_one_symbols@, i as nat),
        decreases ws.len() - i,
    {
        let idx: usize = i + 1;
        let w = chars_of(ws[i].as_str());
        assert(w@ == words(sentence@)[i as int]) by {
            assert(texts(ws@)[i as int] == ws@[i as int]@);
        }
        let want: usize = if holds(&idx_one_symbols, idx) {
            1
        } else {
            2
        };
        let k: usize = if want <= w.len() {
            want
        } else {
            w.len()
        };
        let symbol = string_of_range(&w, 0, k);
        assert(symbol@ == symbol_of(w@, idx, idx_one_symbols@)) by {
            assert(w@.subrange(0, k as int) == w@.take(k as int));
            assert(w@.take(w@.len() as int) == w@);
        }
        symbols.insert(symbol, idx);
        i = i + 1;
    }
    symbols
}

// ---------------------------------------------------------------------------
// Sets of n-grams
// ---------------------------------------------------------------------------

/// The set of the character n-grams of `text`.
pub fn char_ngram_set(text: &str, n: usize) -> (set: TextSet)
    requires
        n > 0,
    ensures
        set.wf(),
        set@ == windows(text@, n as nat).to_set(),
{
    let grams = char_ngram(text, n);
    set_of(&grams)
}

/// The texts that are in `source_set`, in `target_set`, or in both.
pub fn union_ngram_sets(source_set: TextSet, target_set: &TextSet) -> (all: TextSet)
    requires
        source_set.wf(),
        target_set.wf(),
    ensures
        all.wf(),
        all@ == source_set@.union(target_set@),
{
    let mut all = source_set;
    let n = target_set.len();
    let mut i: usize = 0;
    while i < n
        invariant
            i <= n,
            n == target_set.items().len(),
            all.wf(),
            forall|x: Seq<char>|
                all@.contains(x) <==> source_set@.contains(x) || exists|k: int|
                    0 <= k < i && target_set.items()[k] == x,
        decreases n - i,
    {
        let item = target_set.item_at(i);
        all.insert(item.clone());
        i = i + 1;
    }
    assert(all@ =~= source_set@.union(target_set@)) by {
        assert forall|x: Seq<char>| all@.contains(x) <==> source_set@.union(target_set@).contains(
            x,
        ) by {
            if target_set@.contains(x) {
                let k = choose|k: int| 0 <= k < target_set.items().len() && target_set.items()[k] == x;
                assert(target_set.items()[k] == x);
            }
        }
    }
    all
}

/// The members of `source_set` that pass `keep_common`: those that are in
/// `target_set` as well where it is true, those that are not where it is
/// false.
fn select(source_set: &TextSet, target_set: &TextSet, keep_common: bool) -> (out: TextSet)
    requires
        source_set.wf(),
        target_set.wf(),
    ensures
        out.wf(),
        forall|x: Seq<char>|
            out@.contains(x) <==> source_set@.contains(x) && (target_set@.contains(x)
                == keep_common),
{
    let mut out = TextSet::new();
    let n = source_set.len();
    let mut i: usize = 0;
    while i < n
        invariant
            i <= n,
            n == source_set.items().len(),
            source_set.wf(),
            target_set.wf(),
            out.wf(),
            forall|x: Seq<char>|
                out@.contains(x) <==> (exists|k: int| 0 <= k < i && source_set.items()[k] == x)
                    && (target_set@.contains(x) == keep_common),
        decreases n - i,
    {
        let item = source_set.item_at(i);
        if target_set.contains(item.as_str()) == keep_common {
            out.insert(item.clone());
        }
        i = i + 1;
    }
    assert forall|x: Seq<char>|
        out@.contains(x) <==> source_set@.contains(x) && (target_set@.contains(x)
            == keep_common) by {
        if source_set@.contains(x) {
            let k = choose|k: int| 0 <= k < source_set.items().len() && source_set.items()[k] == x;
            assert(source_set.items()[k] == x);
        }
    }
    out
}

/// The texts that are in both sets.
pub fn intersection_ngram_sets(source_set: TextSet, target_set: &TextSet) -> (common: TextSet)
    requires
        source_set.wf(),
        target_set.wf(),
    ensures
        common.wf(),
        common@ == source_set@.intersect(target_set@),
{
    let common = select(&source_set, target_set, true);
    assert(common@ =~= source_set@.intersect(target_set@));
    common
}

/// The texts that are in `source_set` and not in `target_set`.
pub fn difference_ngram_sets(source_set: TextSet, target_set: &TextSet) -> (rest: TextSet)
    requires
        source_set.wf(),
        target_set.wf(),
    ensures
        rest.wf(),
        rest@ == source_set@.difference(target_set@),
{
    let rest = select(&source_set, target_set, false);
    assert(rest@ =~= source_set@.difference(target_set@));
    rest
}

// ---------------------------------------------------------------------------
// Scrambled words
// ---------------------------------------------------------------------------

/// Trusted: `rand::seq::SliceRandom::shuffle`, with the generator that
/// `rand::thread_rng` hands out, reorders the items in place by swapping
/// them. Which order comes out is left open: only that the same items are
/// there afterwards.
#[verifier::external_body]
fn shuffle(items: &mut Vec<char>)
    ensures
        final(items)@.to_multiset() == old(items)@.to_multiset(),
{
    let mut rng = rand::thread_rng();
    rand::seq::SliceRandom::shuffle(items.as_mut_slice(), &mut rng);
}

/// Whether a word is short enough to be left alone: it takes at most four
/// bytes in UTF-8.
pub open spec fn kept_whole(w: Seq<char>) -> bool {
    encode_utf8(w).len() <= 4
}

/// A word of fewer than two characters takes at most four bytes.
pub proof fn lemma_one_char_is_short(w: Seq<char>)
    requires
        w.len() < 2,
    ensures
        kept_whole(w),
{
    reveal_with_fuel(encode_utf8, 2);
    if w.len() == 1 {
        assert(w.drop_first().len() == 0);
        assert(encode_utf8(w) == vstd::utf8::encode_scalar(w[0] as u32) + encode_utf8(
            w.drop_first(),
        ));
    }
}

/// Whether `t` is an admissible scrambling of the word `w`: a short word is
/// unchanged; a longer one keeps its first and its last character where they
/// are, and the characters in between are those of `w` in some order.
pub open spec fn scrambling_of(w: Seq<char>, t: Seq<char>) -> bool {
    if kept_whole(w) {
        t == w
    } else {
        &&& t.len() == w.len()
        &&& t[0] == w[0]
        &&& t[t.len() - 1] == w[w.len() - 1]
        &&& t.subrange(1, t.len() - 1).to_multiset() == w.subrange(1, w.len() - 1).to_multiset()
    }
}

/// Puts a word together from its first character, its inner characters and
/// its last character.
pub fn rebuild_word(first: char, inner: &Vec<char>, last: char) -> (word: String)
    ensures
        word@ == seq![first] + inner@ + seq![last],
{
    let mut word = String::new();
    word.push(first);
    crate::text::push_chars(&mut word, inner);
    word.push(last);
    assert(word@ =~= seq![first] + inner@ + seq![last]);
    word
}

/// Scrambles one word: a short word comes back as it is, a longer one with
/// its inner characters shuffled.
pub fn scramble_word(word: &str) -> (out: String)
    ensures
        scrambling_of(word@, out@),
{
    let chars = chars_of(word);
    if word.as_bytes().len() <= 4 {
        return string_of(&chars);
    }
    proof {
        if chars@.len() < 2 {
            lemma_one_char_is_short(chars@);
        }
    }
    let first = chars[0];
    let last = chars[chars.len() - 1];
    let mut inner: Vec<char> = Vec::new();
    let mut i: usize = 1;
    while i < chars.len() - 1
        invariant
            1 <= i <= chars.len() - 1,
            inner@ == chars@.subrange(1, i as int),
        decreases chars.len() - i,
    {
        inner.push(chars[i]);
        i = i + 1;
    }
    shuffle(&mut inner);
    let out = rebuild_word(first, &inner, last);
    proof {
        inner@.to_multiset_ensures();
        chars@.subrange(1, chars@.len() - 1).to_multiset_ensures();
        assert(inner@.len() == chars@.len() - 2);
        assert(out@.subrange(1, out@.len() - 1) == inner@);
    }
    out
}

/// Scrambles every word of `text` and joins the results with single spaces.
/// Each word of the result is an admissible scrambling of the word at the
/// same place in `text`; which one is left to chance.
pub fn typoglycemia(text: &str) -> (out: String)
    ensures
        exists|scrambled: Seq<Seq<char>>|
            {
                &&& scrambled.len() == words(text@).len()
                &&& forall|i: int|
                    0 <= i < scrambled.len() ==> scrambling_of(
                        words(text@)[i],
                        #[trigger] scrambled[i],
                    )
                &&& out@ == joined(scrambled, " "@)
            },
{
    let ws = split_whitespace(text);
    let mut parts: Vec<String> = Vec::new();
    let mut i: usize = 0;
    while i < ws.len()
        invariant
            i <= ws.len(),
            texts(ws@) == words(text@),
            parts@.len() == i,
            forall|k: int|
                0 <= k < i ==> scrambling_of(words(text@)[k], (#[trigger] parts@[k])@),
        decreases ws.len() - i,
    {
        assert(texts(ws@)[i as int] == ws@[i as int]@);
        let t = scramble_word(ws[i].as_str());
        parts.push(t);
        i = i + 1;
    }
    let out = join(&parts, " ");
    proof {
        let scrambled = texts(parts@);
        assert(scrambled.len() == words(text@).len());
        assert forall|k: int| 0 <= k < scrambled.len() implies scrambling_of(
            words(text@)[k],
            #[trigger] scrambled[k],
        ) by {
            assert(scrambled[k] == parts@[k]@);
        }
    }
    out
}

} // verus!
