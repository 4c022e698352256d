//! Ranking: sorting counted texts by count and text.
use crate::ordered::{lemma_increasing_distinct, lemma_text_lt_total, text_less, text_lt, TextMap};
use crate::text::texts;
use vstd::prelude::*;

verus! {

/// A text with a number attached: a count, or a value to sort by.
pub struct Ranked {
    pub count: usize,
    pub text: String,
}

/// Which way texts with equal numbers are ordered.
#[derive(Clone, Copy, Debug, PartialEq, Eq, Structural)]
pub enum Ties {
    /// The text that comes first in the order of texts goes first.
    Ascending,
    /// The text that comes last in the order of texts goes first.
    Descending,
}

/// Whether the pair `a` must stand before the pair `b`: it has the larger
/// number, or the same number and the text that goes first.
pub open spec fn ranks_before(a: (nat, Seq<char>), b: (nat, Seq<char>), ties: Ties) -> bool {
    a.0 > b.0 || (a.0 == b.0 && match ties {
        Ties::Ascending => text_lt(a.1, b.1),
        Ties::Descending => text_lt(b.1, a.1),
    })
}

/// The numbers and texts of a list of ranked texts.
pub open spec fn ranked_pairs(v: Seq<Ranked>) -> Seq<(nat, Seq<char>)> {
    Seq::new(v.len(), |i: int| (v[i].count as nat, v[i].text@))
}

/// The texts of a list of pairs.
pub open spec fn ranked_texts(order: Seq<(nat, Seq<char>)>) -> Seq<Seq<char>> {
    Seq::new(order.len(), |i: int| order[i].1)
}

/// The texts of the ranked items, in order.
pub fn texts_of_ranked(items: &Vec<Ranked>) -> (out: Vec<String>)
    ensures
        texts(out@) == ranked_texts(ranked_pairs(items@)),
{
    let mut out: Vec<String> = Vec::new();
    let mut i: usize = 0;
    while i < items.len()
        invariant
            i <= items.len(),
            out@.len() == i,
            forall|k: int| 0 <= k < i ==> (#[trigger] out@[k])@ == items@[k].text@,
        decreases items.len() - i,
    {
        out.push(items[i].text.clone());
        i = i + 1;
    }
    assert(texts(out@) =~= ranked_texts(ranked_pairs(items@)));
    out
}

/// Whether no pair of `s` stands after one that it must stand before.
pub open spec fn ranked_in_order(s: Seq<(nat, Seq<char>)>, ties: Ties) -> bool {
    forall|i: int, j: int|
        0 <= i < j < s.len() ==> !ranks_before(#[trigger] s[j], #[trigger] s[i], ties)
}

/// Decides whether `a` must stand before `b`.
fn goes_before(a: &Ranked, b: &Ranked, ties: Ties) -> (r: bool)
    ensures
        r == ranks_before((a.count as nat, a.text@), (b.count as nat, b.text@), ties),
{
    if a.count != b.count {
        a.count > b.count
    } else {
        match ties {
            Ties::Ascending => text_less(a.text.as_str(), b.text.as_str()),
            Ties::Descending => text_less(b.text.as_str(), a.text.as_str()),
        }
    }
}

/// Of two pairs, one must stand before the other, or the two are the same.
pub proof fn lemma_ranks_total(a: (nat, Seq<char>), b: (nat, Seq<char>), ties: Ties)
    ensures
        a == b || ranks_before(a, b, ties) || ranks_before(b, a, ties),
{
    lemma_text_lt_total(a.1, b.1);
}

/// Standing before is transitive.
pub proof fn lemma_ranks_transitive(
    a: (nat, Seq<char>),
    b: (nat, Seq<char>),
    c: (nat, Seq<char>),
    ties: Ties,
)
    requires
        ranks_before(a, b, ties),
        ranks_before(b, c, ties),
    ensures
        ranks_before(a, c, ties),
{
    if a.0 == b.0 && b.0 == c.0 {
        match ties {
            Ties::Ascending => crate::ordered::lemma_text_lt_transitive(a.1, b.1, c.1),
            Ties::Descending => crate::ordered::lemma_text_lt_transitive(c.1, b.1, a.1),
        }
    }
}

/// Sorts ranked texts: larger numbers first, equal numbers by text as `ties`
/// says. The result holds the same numbers and texts as `items`, each as
/// often as `items` does.
pub fn sort_ranked(items: Vec<Ranked>, ties: Ties) -> (sorted: Vec<Ranked>)
    ensures
        ranked_in_order(ranked_pairs(sorted@), ties),
        ranked_pairs(sorted@).to_multiset() == ranked_pairs(items@).to_multiset(),
        sorted@.len() == items@.len(),
{
    let ghost all = ranked_pairs(items@);
    let mut rest = items;
    let mut sorted: Vec<Ranked> = Vec::new();
    assert(ranked_pairs(rest@).to_multiset().add(ranked_pairs(sorted@).to_multiset())
        =~= all.to_multiset()) by {
        assert(ranked_pairs(sorted@) =~= Seq::<(nat, Seq<char>)>::empty());
        ranked_pairs(sorted@).to_multiset_ensures();
    }
    while rest.len() > 0
        invariant
            ranked_in_order(ranked_pairs(sorted@), ties),
            ranked_pairs(rest@).to_multiset().add(ranked_pairs(sorted@).to_multiset())
                == all.to_multiset(),
            rest@.len() + sorted@.len() == all.len(),
        decreases rest.len(),
    {
        let ghost rest0 = ranked_pairs(rest@);
        let ghost sorted0 = ranked_pairs(sorted@);
        let item = rest.pop().unwrap();
        let ghost pair = (item.count as nat, item.text@);
        assert(ranked_pairs(rest@) =~= rest0.drop_last());
        assert(rest0 =~= rest0.drop_last().push(pair));
        let mut pos: usize = sorted.len();
        while pos > 0 && goes_before(&item, &sorted[pos - 1], ties)
            invariant
                pos <= sorted.len(),
                sorted0 == ranked_pairs(sorted@),
                pair == (item.count as nat, item.text@),
                forall|k: int| pos <= k < sorted0.len() ==> ranks_before(pair, sorted0[k], ties),
            decreases pos,
        {
            assert(sorted0[pos - 1] == (sorted@[pos - 1].count as nat, sorted@[pos - 1].text@));
            pos = pos - 1;
        }
        proof {
            let after = sorted0.insert(pos as int, pair);
            assert forall|i: int, j: int| 0 <= i < j < after.len() implies !ranks_before(
                #[trigger] after[j],
                #[trigger] after[i],
                ties,
            ) by {
                if j < pos {
                    assert(after[j] == sorted0[j] && after[i] == sorted0[i]);
                } else if j == pos {
                    // `pair` does not pass the item just before it, so it passes none before that
                    assert(sorted0[pos - 1] == (
                        sorted@[pos - 1].count as nat,
                        sorted@[pos - 1].text@,
                    ));
                    if ranks_before(pair, after[i], ties) && i < pos - 1 {
                        lemma_ranks_total(pair, sorted0[pos - 1], ties);
                        if pair != sorted0[pos - 1] {
                            lemma_ranks_transitive(sorted0[pos - 1], pair, sorted0[i], ties);
                        }
                    }
                } else if i < pos {
                    assert(after[j] == sorted0[j - 1] && after[i] == sorted0[i]);
                } else if i == pos {
                    assert(after[j] == sorted0[j - 1]);
                    lemma_ranks_asymmetric(pair, sorted0[j - 1], ties);
                } else {
                    assert(after[j] == sorted0[j - 1] && after[i] == sorted0[i - 1]);
                }
            }
            vstd::seq_lib::to_multiset_insert(sorted0, pos as int, pair);
            vstd::seq_lib::to_multiset_build(rest0.drop_last(), pair);
            assert(rest0.drop_last().to_multiset().add(after.to_multiset()) =~= rest0.to_multiset().add(
                sorted0.to_multiset(),
            ));
        }
        sorted.insert(pos, item);
        assert(ranked_pairs(sorted@) =~= sorted0.insert(pos as int, pair));
    }
    proof {
        assert(ranked_pairs(rest@) =~= Seq::<(nat, Seq<char>)>::empty());
        ranked_pairs(rest@).to_multiset_ensures();
        assert(ranked_pairs(rest@).to_multiset().add(ranked_pairs(sorted@).to_multiset())
            =~= ranked_pairs(sorted@).to_multiset());
    }
    sorted
}

/// No pair stands before one that stands before it.
pub proof fn lemma_ranks_asymmetric(a: (nat, Seq<char>), b: (nat, Seq<char>), ties: Ties)
    requires
        ranks_before(a, b, ties),
    ensures
        !ranks_before(b, a, ties),
{
    if a.0 == b.0 {
        if text_lt(a.1, b.1) && text_lt(b.1, a.1) {
            crate::ordered::lemma_text_lt_transitive(a.1, b.1, a.1);
            crate::ordered::lemma_text_lt_irreflexive(a.1);
        }
    }
}

/// Two sequences that hold the same items equally often have the same
/// members, and if one holds nothing twice, neither does the other.
pub proof fn lemma_same_members<A>(a: Seq<A>, b: Seq<A>)
    requires
        a.to_multiset() == b.to_multiset(),
    ensures
        forall|x: A| a.contains(x) <==> b.contains(x),
        a.no_duplicates() ==> b.no_duplicates(),
        a.len() == b.len(),
{
    a.to_multiset_ensures();
    b.to_multiset_ensures();
    assert forall|x: A| a.contains(x) <==> b.contains(x) by {
        assert(a.contains(x) <==> a.to_multiset().count(x) > 0);
        assert(b.contains(x) <==> b.to_multiset().count(x) > 0);
    }
    if a.no_duplicates() {
        a.lemma_multiset_has_no_duplicates();
        b.lemma_multiset_has_no_duplicates_conv();
    }
}

// ---------------------------------------------------------------------------
// Counting
// ---------------------------------------------------------------------------

/// How often `x` occurs in `items`.
pub open spec fn occurrences(items: Seq<Seq<char>>, x: Seq<char>) -> nat {
    items.to_multiset().count(x)
}

/// Whether `counts` tells for each text how often it occurs in `items`, and
/// holds no other text.
pub open spec fn counts_of(counts: Map<Seq<char>, usize>, items: Seq<Seq<char>>) -> bool {
    &&& forall|x: Seq<char>| counts.contains_key(x) <==> items.contains(x)
    &&& forall|x: Seq<char>| #[trigger]
        counts.contains_key(x) ==> counts[x] as nat == occurrences(items, x)
}

/// Counts how often each of the `items` occurs.
pub fn count_texts(items: &Vec<String>) -> (counts: TextMap<usize>)
    ensures
        counts.wf(),
        counts_of(counts@, texts(items@)),
{
    let ghost all = texts(items@);
    let mut counts: TextMap<usize> = TextMap::new();
    proof {
        all.take(0).to_multiset_ensures();
        assert(all.take(0) =~= Seq::<Seq<char>>::empty());
    }
    let mut i: usize = 0;
    while i < items.len()
        invariant
            i <= items.len(),
            all == texts(items@),
            counts.wf(),
            counts_of(counts@, all.take(i as int)),
        decreases items.len() - i,
    {
        let ghost seen = all.take(i as int);
        let ghost x = all[i as int];
        assert(x == items@[i as int]@);
        proof {
            assert(all.take(i as int + 1) =~= seen.push(x));
            vstd::seq_lib::to_multiset_build(seen, x);
            seen.to_multiset_ensures();
            seen.push(x).to_multiset_ensures();
            vstd::seq_lib::to_multiset_len(seen);
        }
        let ghost before = counts@;
        let n: usize = match counts.get(items[i].as_str()) {
            Some(n) => {
                assert(*n as nat == occurrences(seen, x));
                assert(occurrences(seen, x) <= seen.to_multiset().len()) by {
                    lemma_count_le_len(seen.to_multiset(), x);
                }
                *n + 1
            },
            None => {
                assert(!seen.contains(x));
                assert(seen.to_multiset().count(x) == 0);
                1
            },
        };
        counts.insert(items[i].clone(), n);
        assert(counts_of(counts@, seen.push(x))) by {
            assert forall|y: Seq<char>| counts@.contains_key(y) <==> seen.push(x).contains(y) by {
                if seen.contains(y) {
                    let j = choose|j: int| 0 <= j < seen.len() && seen[j] == y;
                    assert(seen.push(x)[j] == y);
                }
                if seen.push(x).contains(y) && y != x {
                    let j = choose|j: int| 0 <= j < seen.push(x).len() && seen.push(x)[j] == y;
                    assert(seen[j] == y);
                }
                if y == x {
                    assert(seen.push(x)[seen.len() as int] == x);
                }
            }
        }
        i = i + 1;
    }
    assert(all.take(items@.len() as int) == all);
    counts
}

/// No item occurs more often in a multiset than the multiset has items.
pub proof fn lemma_count_le_len<A>(m: vstd::multiset::Multiset<A>, x: A)
    ensures
        m.count(x) <= m.len(),
    decreases m.len(),
{
    if m.count(x) > 0 {
        let rest = m.remove(x);
        assert(rest.len() == m.len() - 1);
        lemma_count_le_len(rest, x);
        assert(rest.count(x) == m.count(x) - 1);
    }
}

/// The counted texts of `counts` as a list, in the order of the keys.
pub fn ranked_of(counts: &TextMap<usize>) -> (items: Vec<Ranked>)
    requires
        counts.wf(),
    ensures
        ranked_pairs(items@).no_duplicates(),
        crate::ordered::increasing(ranked_texts(ranked_pairs(items@))),
        forall|p: (nat, Seq<char>)|
            ranked_pairs(items@).contains(p) <==> counts@.contains_key(p.1) && counts@[p.1] as nat
                == p.0,
        items@.len() == counts@.len(),
{
    let n = counts.len();
    let ghost keys = counts.keys();
    let mut items: Vec<Ranked> = Vec::new();
    let mut i: usize = 0;
    while i < n
        invariant
            i <= n,
            n == keys.len(),
            keys == counts.keys(),
            counts.wf(),
            items@.len() == i,
            forall|k: int|
                0 <= k < i ==> (#[trigger] items@[k]).text@ == keys[k] && counts@.contains_key(
                    keys[k],
                ) && items@[k].count == counts@[keys[k]],
        decreases n - i,
    {
        let count = *counts.value_at(i);
        let text = counts.key_at(i).clone();
        items.push(Ranked { count, text });
        i = i + 1;
    }
    proof {
        let pairs = ranked_pairs(items@);
        lemma_increasing_distinct(keys);
        assert(ranked_texts(pairs) =~= keys);
        assert forall|a: int, b: int| 0 <= a < pairs.len() && 0 <= b < pairs.len() && a
            != b implies pairs[a] != pairs[b] by {
            assert(pairs[a].1 == keys[a] && pairs[b].1 == keys[b]);
        }
        assert forall|p: (nat, Seq<char>)|
            pairs.contains(p) <==> counts@.contains_key(p.1) && counts@[p.1] as nat == p.0 by {
            if pairs.contains(p) {
                let k = choose|k: int| 0 <= k < pairs.len() && pairs[k] == p;
                assert(pairs[k].1 == items@[k].text@);
            }
            if counts@.contains_key(p.1) && counts@[p.1] as nat == p.0 {
                assert(keys.to_set().contains(p.1));
                let k = choose|k: int| 0 <= k < keys.len() && keys[k] == p.1;
                assert(pairs[k] == p);
            }
        }
    }
    items
}

} // verus!
