//! Character-level text utilities shared by all chapters.
//!
//! A string is modelled by its view, the sequence of its characters. The
//! functions here move between `&str`/`String` and `Vec<char>`, cut a text
//! into words, pieces and trimmed parts, and put pieces back together.
use vstd::prelude::*;

verus! {

/// Trusted: `String::push` appends the given character to the end of the
/// string and changes nothing else.
pub assume_specification[ String::push ](s: &mut String, c: char)
    ensures
        final(s)@ == old(s)@.push(c),
;

/// Whether `c` has the Unicode property White_Space: the controls from tab
/// to carriage return, the space, the next-line control, the no-break
/// space, the Ogham space mark, the spaces from en quad to hair space, the
/// line and the paragraph separator, the narrow no-break space, the medium
/// mathematical space and the ideographic space.
pub open spec fn char_is_whitespace(c: char) -> bool {
    ||| '\u{9}' <= c <= '\u{d}'
    ||| c == ' '
    ||| c == '\u{85}'
    ||| c == '\u{a0}'
    ||| c == '\u{1680}'
    ||| '\u{2000}' <= c <= '\u{200a}'
    ||| c == '\u{2028}'
    ||| c == '\u{2029}'
    ||| c == '\u{202f}'
    ||| c == '\u{205f}'
    ||| c == '\u{3000}'
}

/// Trusted: `char::is_whitespace` tells whether the character has the
/// Unicode property White_Space.
pub assume_specification[ char::is_whitespace ](c: char) -> (b: bool)
    ensures
        b == char_is_whitespace(c),
;

/// What `char::is_alphabetic` answers for `c`: whether `c` has the Unicode
/// property Alphabetic.
pub uninterp spec fn char_is_alphabetic(c: char) -> bool;

/// Trusted: `char::is_alphabetic` depends on the character alone.
pub assume_specification[ char::is_alphabetic ](c: char) -> (b: bool)
    ensures
        b == char_is_alphabetic(c),
;

/// The characters of `s`, one vector element per character.
pub fn chars_of(s: &str) -> (v: Vec<char>)
    ensures
        v@ == s@,
{
    let mut v: Vec<char> = Vec::new();
    for c in it: s.chars()
        invariant
            it.seq() == s@,
            v@ == it.seq().take(it.index() as int),
    {
        v.push(c);
    }
    v
}

/// The string made of the characters `v[from..to]`.
pub fn string_of_range(v: &Vec<char>, from: usize, to: usize) -> (s: String)
    requires
        from <= to <= v.len(),
    ensures
        s@ == v@.subrange(from as int, to as int),
{
    let mut s = String::new();
    let mut i: usize = from;
    while i < to
        invariant
            from <= i <= to <= v.len(),
            s@ == v@.subrange(from as int, i as int),
        decreases to - i,
    {
        s.push(v[i]);
        i = i + 1;
    }
    s
}

/// The string made of all characters of `v`.
pub fn string_of(v: &Vec<char>) -> (s: String)
    ensures
        s@ == v@,
{
    let s = string_of_range(v, 0, v.len());
    assert(v@.subrange(0, v@.len() as int) == v@);
    s
}

/// Appends the characters of `tail` to `s`.
pub fn push_chars(s: &mut String, tail: &Vec<char>)
    ensures
        final(s)@ == old(s)@ + tail@,
{
    let mut i: usize = 0;
    while i < tail.len()
        invariant
            i <= tail.len(),
            s@ == old(s)@ + tail@.take(i as int),
        decreases tail.len() - i,
    {
        s.push(tail[i]);
        i = i + 1;
    }
    assert(tail@.take(tail@.len() as int) == tail@);
}

/// The views of a sequence of strings.
pub open spec fn texts(v: Seq<String>) -> Seq<Seq<char>> {
    Seq::new(v.len(), |i: int| v[i]@)
}

/// The view of an optional string.
pub open spec fn option_text(r: Option<String>) -> Option<Seq<char>> {
    match r {
        Some(s) => Some(s@),
        None => None,
    }
}

/// The views of an optional list of strings.
pub open spec fn option_texts(r: Option<Vec<String>>) -> Option<Seq<Seq<char>>> {
    match r {
        Some(v) => Some(texts(v@)),
        None => None,
    }
}

/// The first `n` items of `s`, or all of `s` where it has fewer.
pub open spec fn top<A>(s: Seq<A>, n: nat) -> Seq<A> {
    if n <= s.len() {
        s.take(n as int)
    } else {
        s
    }
}

// ---------------------------------------------------------------------------
// Words: maximal runs of characters that are not whitespace.
// ---------------------------------------------------------------------------

/// The first position at or after `i` that holds whitespace, or the length
/// of `s` where there is none.
pub open spec fn word_end(s: Seq<char>, i: int) -> int
    decreases s.len() - i,
{
    if i < 0 || i >= s.len() || char_is_whitespace(s[i]) {
        i
    } else {
        word_end(s, i + 1)
    }
}

/// The words of `s` that start at or after position `i`.
pub open spec fn words_from(s: Seq<char>, i: int) -> Seq<Seq<char>>
    decreases s.len() - i,
{
    if i < 0 || i >= s.len() {
        Seq::empty()
    } else if char_is_whitespace(s[i]) {
        words_from(s, i + 1)
    } else {
        let e = word_end(s, i);
        if i < e <= s.len() {
            seq![s.subrange(i, e)] + words_from(s, e)
        } else {
            Seq::empty()
        }
    }
}

/// The words of `s`: its maximal runs of non-whitespace characters, in
/// order. Leading, trailing and repeated whitespace yields no empty word.
pub open spec fn words(s: Seq<char>) -> Seq<Seq<char>> {
    words_from(s, 0)
}

/// `word_end` lies after a non-whitespace start and within the text.
pub proof fn lemma_word_end_bounds(s: Seq<char>, i: int)
    requires
        0 <= i < s.len(),
        !char_is_whitespace(s[i]),
    ensures
        i < word_end(s, i) <= s.len(),
        forall|k: int| i <= k < word_end(s, i) ==> !char_is_whitespace(#[trigger] s[k]),
        word_end(s, i) < s.len() ==> char_is_whitespace(s[word_end(s, i)]),
    decreases s.len() - i,
{
    assert(word_end(s, i) == word_end(s, i + 1));
    if i + 1 < s.len() && !char_is_whitespace(s[i + 1]) {
        lemma_word_end_bounds(s, i + 1);
    } else {
        assert(word_end(s, i + 1) == i + 1);
    }
}

/// Every word is non-empty and free of whitespace.
pub proof fn lemma_words_from_shape(s: Seq<char>, i: int)
    ensures
        forall|k: int|
            0 <= k < words_from(s, i).len() ==> (#[trigger] words_from(s, i)[k]).len() > 0,
        forall|k: int, j: int|
            0 <= k < words_from(s, i).len() && 0 <= j < words_from(s, i)[k].len()
                ==> !char_is_whitespace(#[trigger] words_from(s, i)[k][j]),
    decreases s.len() - i,
{
    if i < 0 || i >= s.len() {
    } else if char_is_whitespace(s[i]) {
        lemma_words_from_shape(s, i + 1);
        assert(words_from(s, i) == words_from(s, i + 1));
    } else {
        lemma_word_end_bounds(s, i);
        let e = word_end(s, i);
        lemma_words_from_shape(s, e);
        let rest = words_from(s, e);
        let all = words_from(s, i);
        assert(all == seq![s.subrange(i, e)] + rest);
        assert forall|k: int| 0 <= k < all.len() implies (#[trigger] all[k]).len() > 0 by {
            if k > 0 {
                assert(all[k] == rest[k - 1]);
            }
        }
        assert forall|k: int, j: int|
            0 <= k < all.len() && 0 <= j < all[k].len() implies !char_is_whitespace(
            #[trigger] all[k][j],
        ) by {
            if k > 0 {
                assert(all[k] == rest[k - 1]);
            } else {
                assert(all[0][j] == s[i + j]);
            }
        }
    }
}

/// Cuts `s` into its words, as `str::split_whitespace` does.
pub fn split_whitespace(s: &str) -> (r: Vec<String>)
    ensures
        texts(r@) == words(s@),
{
    let v = chars_of(s);
    let mut out: Vec<String> = Vec::new();
    let mut i: usize = 0;
    while i < v.len()
        invariant
            i <= v.len(),
            texts(out@) + words_from(v@, i as int) == words(v@),
        decreases v.len() - i,
    {
        if v[i].is_whitespace() {
            i = i + 1;
        } else {
            let mut j: usize = i + 1;
            while j < v.len() && !v[j].is_whitespace()
                invariant
                    i < j <= v.len(),
                    !char_is_whitespace(v@[i as int]),
                    word_end(v@, j as int) == word_end(v@, i as int),
                decreases v.len() - j,
            {
                j = j + 1;
            }
            proof {
                lemma_word_end_bounds(v@, i as int);
            }
            let w = string_of_range(&v, i, j);
            proof {
                let before = texts(out@);
                assert(texts(out@.push(w)) == before + seq![w@]);
                assert(words_from(v@, i as int) == seq![w@] + words_from(v@, j as int));
                assert((before + seq![w@]) + words_from(v@, j as int) == before + (seq![w@]
                    + words_from(v@, j as int)));
            }
            out.push(w);
            i = j;
        }
    }
    assert(texts(out@) + Seq::<Seq<char>>::empty() == texts(out@));
    out
}

// ---------------------------------------------------------------------------
// Joining
// ---------------------------------------------------------------------------

/// The texts of `parts` in order, with `sep` between each two neighbours.
pub open spec fn joined(parts: Seq<Seq<char>>, sep: Seq<char>) -> Seq<char>
    decreases parts.len(),
{
    if parts.len() == 0 {
        Seq::empty()
    } else if parts.len() == 1 {
        parts[0]
    } else {
        joined(parts.drop_last(), sep) + sep + parts.last()
    }
}

/// Joins the strings of `parts` with `sep` between them.
pub fn join(parts: &Vec<String>, sep: &str) -> (out: String)
    ensures
        out@ == joined(texts(parts@), sep@),
{
    let sep_chars = chars_of(sep);
    let mut out = String::new();
    let mut i: usize = 0;
    while i < parts.len()
        invariant
            i <= parts.len(),
            sep_chars@ == sep@,
            out@ == joined(texts(parts@).take(i as int), sep@),
        decreases parts.len() - i,
    {
        let piece = chars_of(parts[i].as_str());
        proof {
            let upto = texts(parts@).take(i as int + 1);
            assert(upto.drop_last() == texts(parts@).take(i as int));
            assert(upto.last() == piece@);
            if i == 0 {
                assert(out@ + piece@ == piece@);
            }
        }
        if i > 0 {
            push_chars(&mut out, &sep_chars);
        }
        push_chars(&mut out, &piece);
        i = i + 1;
    }
    assert(texts(parts@).take(parts@.len() as int) == texts(parts@));
    out
}

// ---------------------------------------------------------------------------
// Searching and splitting
// ---------------------------------------------------------------------------

/// Whether `sep` stands in `s` at position `k`.
pub open spec fn occurs_at(s: Seq<char>, sep: Seq<char>, k: int) -> bool {
    &&& 0 <= k
    &&& k + sep.len() <= s.len()
    &&& s.subrange(k, k + sep.len()) == sep
}

/// The first position at or after `from` where `sep` stands in `s`, or the
/// length of `s` where there is none.
pub open spec fn find_from(s: Seq<char>, sep: Seq<char>, from: int) -> int
    decreases s.len() - from,
{
    if from < 0 || from >= s.len() || from + sep.len() > s.len() {
        s.len() as int
    } else if occurs_at(s, sep, from) {
        from
    } else {
        find_from(s, sep, from + 1)
    }
}

/// Whether `sep` stands somewhere in `s`.
pub open spec fn contains_text(s: Seq<char>, sep: Seq<char>) -> bool {
    exists|k: int| occurs_at(s, sep, k)
}

/// The parts of `s` from position `from` on that lie between the
/// occurrences of `sep`, found from left to right without overlap. There is
/// always at least one part; parts may be empty. An empty `sep` cuts
/// nowhere.
pub open spec fn pieces_from(s: Seq<char>, sep: Seq<char>, from: int) -> Seq<Seq<char>>
    decreases s.len() - from,
{
    let k = find_from(s, sep, from);
    if 0 <= from <= k && k + sep.len() <= s.len() && sep.len() > 0 {
        seq![s.subrange(from, k)] + pieces_from(s, sep, k + sep.len())
    } else if 0 <= from <= s.len() {
        seq![s.subrange(from, s.len() as int)]
    } else {
        seq![Seq::empty()]
    }
}

/// The parts of `s` between the occurrences of `sep`.
pub open spec fn pieces(s: Seq<char>, sep: Seq<char>) -> Seq<Seq<char>> {
    pieces_from(s, sep, 0)
}

/// Cutting a text gives at least one part.
pub proof fn lemma_pieces_nonempty(s: Seq<char>, sep: Seq<char>, from: int)
    ensures
        pieces_from(s, sep, from).len() >= 1,
    decreases s.len() - from,
{
    let k = find_from(s, sep, from);
    if 0 <= from <= k && k + sep.len() <= s.len() && sep.len() > 0 {
        lemma_pieces_nonempty(s, sep, k + sep.len());
    }
}

/// What `find_from` finds: an occurrence with none before it, or the length
/// of `s`.
pub proof fn lemma_find_from(s: Seq<char>, sep: Seq<char>, from: int)
    requires
        0 <= from <= s.len(),
    ensures
        from <= find_from(s, sep, from) <= s.len(),
        find_from(s, sep, from) + sep.len() <= s.len() ==> occurs_at(
            s,
            sep,
            find_from(s, sep, from),
        ),
        find_from(s, sep, from) + sep.len() > s.len() ==> find_from(s, sep, from) == s.len(),
        forall|k: int| from <= k < find_from(s, sep, from) ==> !occurs_at(s, sep, k),
    decreases s.len() - from,
{
    if from >= s.len() || from + sep.len() > s.len() {
        if sep.len() == 0 {
            assert(s.subrange(from, from + sep.len()) =~= sep);
        }
    } else if occurs_at(s, sep, from) {
    } else {
        lemma_find_from(s, sep, from + 1);
    }
}

/// Whether `sep` stands in `v` at position `k`.
fn matches_at(v: &Vec<char>, sep: &Vec<char>, k: usize) -> (b: bool)
    requires
        k + sep.len() <= v.len(),
    ensures
        b == occurs_at(v@, sep@, k as int),
{
    let mut j: usize = 0;
    while j < sep.len()
        invariant
            j <= sep.len(),
            k + sep.len() <= v.len(),
            forall|i: int| 0 <= i < j ==> v@[k + i] == sep@[i],
        decreases sep.len() - j,
    {
        if v[k + j] != sep[j] {
            assert(v@.subrange(k as int, k + sep.len())[j as int] != sep@[j as int]);
            return false;
        }
        j = j + 1;
    }
    assert(v@.subrange(k as int, k + sep.len()) =~= sep@);
    true
}

/// Finds the first occurrence of `sep` in `v` at or after `from`.
pub fn find(v: &Vec<char>, sep: &Vec<char>, from: usize) -> (k: usize)
    requires
        from <= v.len(),
    ensures
        k == find_from(v@, sep@, from as int),
        from <= k <= v.len(),
{
    let mut k: usize = from;
    while k < v.len() && sep.len() <= v.len() - k
        invariant
            from <= k <= v.len(),
            find_from(v@, sep@, from as int) == find_from(v@, sep@, k as int),
        decreases v.len() - k,
    {
        if matches_at(v, sep, k) {
            return k;
        }
        k = k + 1;
    }
    v.len()
}

/// Whether `sep` stands somewhere in `s`.
pub fn contains(s: &str, sep: &str) -> (b: bool)
    ensures
        b == contains_text(s@, sep@),
{
    let v = chars_of(s);
    let p = chars_of(sep);
    let k = find(&v, &p, 0);
    proof {
        lemma_find_from(v@, p@, 0);
    }
    if p.len() <= v.len() && k <= v.len() - p.len() {
        true
    } else {
        assert forall|j: int| !occurs_at(v@, p@, j) by {
            if occurs_at(v@, p@, j) {
                assert(j < find_from(v@, p@, 0));
            }
        }
        false
    }
}

/// Cuts `s` at every occurrence of `sep`, as `str::split` does with a string
/// pattern that is not empty. An empty `sep` occurs nowhere: the result is
/// `s` as its only part.
pub fn split(s: &str, sep: &str) -> (parts: Vec<String>)
    ensures
        texts(parts@) == pieces(s@, sep@),
{
    let v = chars_of(s);
    let p = chars_of(sep);
    let mut parts: Vec<String> = Vec::new();
    if p.len() == 0 {
        let whole = string_of(&v);
        assert(v@.subrange(0, v@.len() as int) == v@);
        assert(texts(parts@.push(whole)) =~= seq![whole@]);
        parts.push(whole);
        return parts;
    }
    let mut from: usize = 0;
    loop
        invariant_except_break
            from <= v.len(),
            p@.len() > 0,
            texts(parts@) + pieces_from(v@, p@, from as int) == pieces(v@, p@),
        ensures
            texts(parts@) == pieces(v@, p@),
        decreases v.len() - from,
    {
        let k = find(&v, &p, from);
        proof {
            lemma_find_from(v@, p@, from as int);
        }
        let ghost before = texts(parts@);
        if p.len() <= v.len() && k <= v.len() - p.len() {
            let part = string_of_range(&v, from, k);
            proof {
                assert(texts(parts@.push(part)) == before + seq![part@]);
                assert(pieces_from(v@, p@, from as int) == seq![part@] + pieces_from(
                    v@,
                    p@,
                    k + p@.len(),
                ));
                assert((before + seq![part@]) + pieces_from(v@, p@, k + p@.len()) == before + (
                seq![part@] + pieces_from(v@, p@, k + p@.len())));
            }
            parts.push(part);
            from = k + p.len();
        } else {
            let part = string_of_range(&v, from, v.len());
            proof {
                assert(texts(parts@.push(part)) == before + seq![part@]);
                assert(pieces_from(v@, p@, from as int) == seq![part@]);
            }
            parts.push(part);
            break ;
        }
    }
    parts
}

// ---------------------------------------------------------------------------
// Trimming
// ---------------------------------------------------------------------------

/// The position of the first character of `s` that is no whitespace, or the
/// length of `s` where all of it is whitespace.
pub open spec fn trim_start_at(s: Seq<char>, i: int) -> int
    decreases s.len() - i,
{
    if i < 0 || i >= s.len() || !char_is_whitespace(s[i]) {
        i
    } else {
        trim_start_at(s, i + 1)
    }
}

/// The position just after the last character of `s[from..j]` that is no
/// whitespace, or `from` where there is none.
pub open spec fn trim_end_at(s: Seq<char>, from: int, j: int) -> int
    decreases j - from,
{
    if j <= from || j > s.len() || !char_is_whitespace(s[j - 1]) {
        j
    } else {
        trim_end_at(s, from, j - 1)
    }
}

/// `s` without the whitespace at its start and at its end.
pub open spec fn trimmed(s: Seq<char>) -> Seq<char> {
    let a = trim_start_at(s, 0);
    let b = trim_end_at(s, a, s.len() as int);
    if 0 <= a <= b <= s.len() {
        s.subrange(a, b)
    } else {
        Seq::empty()
    }
}

/// Strips the whitespace from both ends of `s`, as `str::trim` does.
pub fn trim(s: &str) -> (t: String)
    ensures
        t@ == trimmed(s@),
{
    let v = chars_of(s);
    let mut a: usize = 0;
    while a < v.len() && v[a].is_whitespace()
        invariant
            a <= v.len(),
            trim_start_at(v@, a as int) == trim_start_at(v@, 0),
        decreases v.len() - a,
    {
        a = a + 1;
    }
    let mut b: usize = v.len();
    while b > a && v[b - 1].is_whitespace()
        invariant
            a <= b <= v.len(),
            trim_end_at(v@, a as int, b as int) == trim_end_at(v@, a as int, v@.len() as int),
        decreases b - a,
    {
        b = b - 1;
    }
    string_of_range(&v, a, b)
}

} // verus!
