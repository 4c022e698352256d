//! The order of texts, and collections of texts kept in that order.
//!
//! Texts are ordered lexicographically by the code of their characters; this
//! is the order in which the standard library compares strings.
use vstd::prelude::*;
use vstd::std_specs::iter::IteratorSpec;

verus! {

/// Whether `a` comes strictly before `b`: at the first place where the two
/// differ `a` holds the smaller character, or `a` ends there and `b` goes on.
pub open spec fn text_lt(a: Seq<char>, b: Seq<char>) -> bool
    decreases a.len(),
{
    if b.len() == 0 {
        false
    } else if a.len() == 0 {
        true
    } else if a[0] != b[0] {
        (a[0] as int) < (b[0] as int)
    } else {
        text_lt(a.drop_first(), b.drop_first())
    }
}

/// No text comes before itself.
pub proof fn lemma_text_lt_irreflexive(a: Seq<char>)
    ensures
        !text_lt(a, a),
    decreases a.len(),
{
    if a.len() > 0 {
        lemma_text_lt_irreflexive(a.drop_first());
    }
}

/// The order is transitive.
pub proof fn lemma_text_lt_transitive(a: Seq<char>, b: Seq<char>, c: Seq<char>)
    requires
        text_lt(a, b),
        text_lt(b, c),
    ensures
        text_lt(a, c),
    decreases a.len(),
{
    if a.len() > 0 && a[0] == b[0] && b[0] == c[0] {
        lemma_text_lt_transitive(a.drop_first(), b.drop_first(), c.drop_first());
    }
}

/// Of two different texts one comes before the other.
pub proof fn lemma_text_lt_total(a: Seq<char>, b: Seq<char>)
    ensures
        a == b || text_lt(a, b) || text_lt(b, a),
    decreases a.len(),
{
    if a.len() > 0 && b.len() > 0 && a[0] == b[0] {
        lemma_text_lt_total(a.drop_first(), b.drop_first());
        if a.drop_first() == b.drop_first() {
            assert(a =~= seq![a[0]] + a.drop_first());
            assert(b =~= seq![b[0]] + b.drop_first());
        }
    } else if a.len() == 0 && b.len() == 0 {
        assert(a =~= b);
    }
}

/// Decides whether `a` comes strictly before `b`.
pub fn text_less(a: &str, b: &str) -> (r: bool)
    ensures
        r == text_lt(a@, b@),
{
    let mut ia = a.chars();
    let mut ib = b.chars();
    loop
        invariant
            text_lt(a@, b@) == text_lt(ia.remaining(), ib.remaining()),
            ia.decrease() is Some,
        decreases ia.decrease()->0,
    {
        let x = ia.next();
        let y = ib.next();
        match y {
            None => {
                return false;
            },
            Some(q) => {
                match x {
                    None => {
                        return true;
                    },
                    Some(p) => {
                        if p != q {
                            return p < q;
                        }
                    },
                }
            },
        }
    }
}

/// Decides whether `a` and `b` are the same text.
pub fn same_text(a: &str, b: &str) -> (r: bool)
    ensures
        r == (a@ == b@),
{
    proof {
        lemma_text_lt_total(a@, b@);
        lemma_text_lt_irreflexive(a@);
    }
    !text_less(a, b) && !text_less(b, a)
}

// ---------------------------------------------------------------------------
// Sequences in increasing order
// ---------------------------------------------------------------------------

/// Whether each text of `s` comes strictly before every later one.
pub open spec fn increasing(s: Seq<Seq<char>>) -> bool {
    forall|i: int, j: int| 0 <= i < j < s.len() ==> text_lt(#[trigger] s[i], #[trigger] s[j])
}

/// An increasing sequence holds no text twice.
pub proof fn lemma_increasing_distinct(s: Seq<Seq<char>>)
    requires
        increasing(s),
    ensures
        s.no_duplicates(),
{
    assert forall|i: int, j: int| 0 <= i < s.len() && 0 <= j < s.len() && i != j implies s[i]
        != s[j] by {
        lemma_text_lt_irreflexive(s[i]);
    }
}

/// In a sequence without duplicates, a text is found at its own place.
pub proof fn lemma_index_of_own<A>(s: Seq<A>, i: int)
    requires
        s.no_duplicates(),
        0 <= i < s.len(),
    ensures
        s.contains(s[i]),
        s.index_of(s[i]) == i,
{
    let j = s.index_of(s[i]);
    assert(0 <= j < s.len() && s[j] == s[i]);
}

/// The map that pairs each key with the value at the same place.
pub open spec fn paired<V>(keys: Seq<Seq<char>>, vals: Seq<V>) -> Map<Seq<char>, V> {
    Map::new(|k: Seq<char>| keys.contains(k), |k: Seq<char>| vals[keys.index_of(k)])
}

/// The keys of a pairing are the texts of the key sequence, each counted
/// once.
pub proof fn lemma_paired_dom<V>(keys: Seq<Seq<char>>, vals: Seq<V>)
    requires
        keys.no_duplicates(),
    ensures
        paired(keys, vals).dom() == keys.to_set(),
        paired(keys, vals).dom().finite(),
        paired(keys, vals).dom().len() == keys.len(),
{
    assert(paired(keys, vals).dom() =~= keys.to_set());
    keys.unique_seq_to_set();
    vstd::seq_lib::seq_to_set_is_finite(keys);
}

/// Putting a new key and its value in at one place adds that pair to the
/// pairing.
pub proof fn lemma_paired_insert<V>(
    keys: Seq<Seq<char>>,
    vals: Seq<V>,
    pos: int,
    k: Seq<char>,
    v: V,
)
    requires
        keys.len() == vals.len(),
        0 <= pos <= keys.len(),
        keys.no_duplicates(),
        keys.insert(pos, k).no_duplicates(),
        !keys.contains(k),
    ensures
        paired(keys.insert(pos, k), vals.insert(pos, v)) == paired(keys, vals).insert(k, v),
{
    let keys2 = keys.insert(pos, k);
    let vals2 = vals.insert(pos, v);
    let m1 = paired(keys2, vals2);
    let m2 = paired(keys, vals).insert(k, v);
    assert forall|x: Seq<char>| m1.dom().contains(x) <==> m2.dom().contains(x) by {
        if keys2.contains(x) {
            let i = choose|i: int| 0 <= i < keys2.len() && keys2[i] == x;
            if i < pos {
                assert(keys[i] == x);
            } else if i > pos {
                assert(keys[i - 1] == x);
            }
        }
        if keys.contains(x) {
            let i = choose|i: int| 0 <= i < keys.len() && keys[i] == x;
            if i < pos {
                assert(keys2[i] == x);
            } else {
                assert(keys2[i + 1] == x);
            }
        }
        if x == k {
            assert(keys2[pos] == x);
        }
    }
    assert forall|x: Seq<char>| #[trigger] m1.dom().contains(x) implies m1[x] == m2[x] by {
        if x == k {
            assert(keys2[pos] == k);
            lemma_index_of_own(keys2, pos);
        } else {
            let i = keys.index_of(x);
            assert(keys.contains(x));
            assert(0 <= i < keys.len() && keys[i] == x);
            if i < pos {
                assert(keys2[i] == x);
                lemma_index_of_own(keys2, i);
            } else {
                assert(keys2[i + 1] == x);
                lemma_index_of_own(keys2, i + 1);
            }
        }
    }
    assert(m1 =~= m2);
}

/// Changing the value at the place of a key changes that key's value in
/// the pairing.
pub proof fn lemma_paired_update<V>(keys: Seq<Seq<char>>, vals: Seq<V>, pos: int, v: V)
    requires
        keys.len() == vals.len(),
        0 <= pos < keys.len(),
        keys.no_duplicates(),
    ensures
        paired(keys, vals.update(pos, v)) == paired(keys, vals).insert(keys[pos], v),
{
    let m1 = paired(keys, vals.update(pos, v));
    let m2 = paired(keys, vals).insert(keys[pos], v);
    lemma_index_of_own(keys, pos);
    assert forall|x: Seq<char>| #[trigger] m1.dom().contains(x) implies m1[x] == m2[x] by {
        let i = keys.index_of(x);
        assert(0 <= i < keys.len() && keys[i] == x);
    }
    assert(m1 =~= m2);
}

// ---------------------------------------------------------------------------
// A map from texts to values, kept in the order of its keys
// ---------------------------------------------------------------------------

/// A finite map from texts to values. Its entries are held in increasing
/// order of their keys, so walking it by position visits the keys in that
/// order.
pub struct TextMap<V> {
    entries: Vec<(String, V)>,
}

impl<V> View for TextMap<V> {
    type V = Map<Seq<char>, V>;

    /// The map as a mathematical map from key text to value.
    open spec fn view(&self) -> Map<Seq<char>, V> {
        paired(self.keys(), self.values())
    }
}

impl<V> TextMap<V> {
    /// Well-formedness: the keys are in increasing order, which also means
    /// that no key occurs twice and that each value sits at its key's place.
    pub open spec fn wf(&self) -> bool {
        &&& increasing(self.keys())
        &&& self.values().len() == self.keys().len()
    }

    /// The keys, in the order in which the map holds them.
    pub closed spec fn keys(&self) -> Seq<Seq<char>> {
        Seq::new(self.entries@.len(), |i: int| self.entries@[i].0@)
    }

    /// The values, each at the place of its key.
    pub closed spec fn values(&self) -> Seq<V> {
        Seq::new(self.entries@.len(), |i: int| self.entries@[i].1)
    }

    /// An empty map.
    pub fn new() -> (m: Self)
        ensures
            m.wf(),
            m@ == Map::<Seq<char>, V>::empty(),
            m.keys().len() == 0,
    {
        let m = TextMap { entries: Vec::new() };
        assert(m@ =~= Map::<Seq<char>, V>::empty());
        m
    }

    /// The number of entries. The keys are in increasing order and no key
    /// occurs twice.
    pub fn len(&self) -> (n: usize)
        requires
            self.wf(),
        ensures
            n == self.keys().len(),
            n == self@.len(),
            self@.dom().finite(),
            self@.dom() == self.keys().to_set(),
    {
        proof {
            lemma_increasing_distinct(self.keys());
            lemma_paired_dom(self.keys(), self.values());
        }
        self.entries.len()
    }

    /// The key at place `i`.
    pub fn key_at(&self, i: usize) -> (k: &String)
        requires
            i < self.keys().len(),
        ensures
            k@ == self.keys()[i as int],
    {
        &self.entries[i].0
    }

    /// The value at place `i`.
    pub fn value_at(&self, i: usize) -> (v: &V)
        requires
            self.wf(),
            i < self.keys().len(),
        ensures
            *v == self.values()[i as int],
            self@.contains_key(self.keys()[i as int]),
            *v == self@[self.keys()[i as int]],
    {
        proof {
            lemma_increasing_distinct(self.keys());
            lemma_index_of_own(self.keys(), i as int);
        }
        &self.entries[i].1
    }

    /// The first place whose key does not come before `key`.
    fn lower_bound(&self, key: &str) -> (pos: usize)
        requires
            self.wf(),
        ensures
            pos <= self.keys().len(),
            forall|i: int| 0 <= i < pos ==> text_lt(#[trigger] self.keys()[i], key@),
            forall|i: int|
                pos <= i < self.keys().len() ==> !text_lt(#[trigger] self.keys()[i], key@),
    {
        let mut lo: usize = 0;
        let mut hi: usize = self.entries.len();
        while lo < hi
            invariant
                lo <= hi <= self.keys().len(),
                self.keys().len() == self.entries@.len(),
                increasing(self.keys()),
                forall|i: int| 0 <= i < lo ==> text_lt(#[trigger] self.keys()[i], key@),
                forall|i: int|
                    hi <= i < self.keys().len() ==> !text_lt(#[trigger] self.keys()[i], key@),
            decreases hi - lo,
        {
            let mid: usize = lo + (hi - lo) / 2;
            let before = text_less(self.entries[mid].0.as_str(), key);
            assert(self.keys()[mid as int] == self.entries@[mid as int].0@);
            if before {
                assert forall|i: int| 0 <= i < mid + 1 implies text_lt(
                    #[trigger] self.keys()[i],
                    key@,
                ) by {
                    if i < mid {
                        lemma_text_lt_transitive(self.keys()[i], self.keys()[mid as int], key@);
                    }
                }
                lo = mid + 1;
            } else {
                assert forall|i: int| mid <= i < self.keys().len() implies !text_lt(
                    #[trigger] self.keys()[i],
                    key@,
                ) by {
                    if i > mid && text_lt(self.keys()[i], key@) {
                        lemma_text_lt_transitive(self.keys()[mid as int], self.keys()[i], key@);
                    }
                }
                hi = mid;
            }
        }
        lo
    }

    /// The place of `key`, if the map holds it.
    fn find(&self, key: &str) -> (r: Option<usize>)
        requires
            self.wf(),
        ensures
            match r {
                Some(i) => i < self.keys().len() && self.keys()[i as int] == key@,
                None => !self.keys().contains(key@),
            },
    {
        let pos = self.lower_bound(key);
        if pos < self.entries.len() {
            let here = &self.entries[pos].0;
            assert(self.keys()[pos as int] == here@);
            if !text_less(key, here.as_str()) {
                proof {
                    lemma_text_lt_total(key@, here@);
                }
                return Some(pos);
            }
        }
        proof {
            if self.keys().contains(key@) {
                let i = choose|i: int| 0 <= i < self.keys().len() && self.keys()[i] == key@;
                lemma_text_lt_irreflexive(key@);
                if i > pos {
                    lemma_text_lt_transitive(key@, self.keys()[pos as int], self.keys()[i]);
                }
            }
        }
        None
    }

    /// Whether the map holds `key`.
    pub fn contains_key(&self, key: &str) -> (b: bool)
        requires
            self.wf(),
        ensures
            b == self@.contains_key(key@),
    {
        self.find(key).is_some()
    }

    /// The value that the map holds for `key`, if any.
    pub fn get(&self, key: &str) -> (r: Option<&V>)
        requires
            self.wf(),
        ensures
            match r {
                Some(v) => self@.contains_key(key@) && *v == self@[key@],
                None => !self@.contains_key(key@),
            },
    {
        match self.find(key) {
            Some(i) => {
                proof {
                    lemma_increasing_distinct(self.keys());
                    lemma_index_of_own(self.keys(), i as int);
                }
                Some(&self.entries[i].1)
            },
            None => None,
        }
    }

    /// Sets the value of `key` to `value`, whether or not the map held the
    /// key before. All other entries stay as they are.
    pub fn insert(&mut self, key: String, value: V)
        requires
            old(self).wf(),
        ensures
            final(self).wf(),
            final(self)@ == old(self)@.insert(key@, value),
    {
        proof {
            lemma_increasing_distinct(self.keys());
        }
        let ghost keys0 = self.keys();
        let ghost vals0 = self.values();
        let pos = self.lower_bound(key.as_str());
        let found = pos < self.entries.len() && !text_less(
            key.as_str(),
            self.entries[pos].0.as_str(),
        );
        if found {
            proof {
                assert(keys0[pos as int] == self.entries@[pos as int].0@);
                lemma_text_lt_total(key@, keys0[pos as int]);
                lemma_paired_update(keys0, vals0, pos as int, value);
            }
            self.entries.set(pos, (key, value));
            assert(self.keys() =~= keys0);
            assert(self.values() =~= vals0.update(pos as int, value));
        } else {
            proof {
                assert(!keys0.contains(key@)) by {
                    if keys0.contains(key@) {
                        let i = choose|i: int| 0 <= i < keys0.len() && keys0[i] == key@;
                        lemma_text_lt_irreflexive(key@);
                        if i > pos {
                            assert(keys0[pos as int] == self.entries@[pos as int].0@);
                            lemma_text_lt_transitive(key@, keys0[pos as int], keys0[i]);
                        } else if i == pos {
                            assert(keys0[pos as int] == self.entries@[pos as int].0@);
                        }
                    }
                }
                let keys1 = keys0.insert(pos as int, key@);
                assert(increasing(keys1)) by {
                    assert forall|i: int, j: int| 0 <= i < j < keys1.len() implies text_lt(
                        #[trigger] keys1[i],
                        #[trigger] keys1[j],
                    ) by {
                        if j < pos {
                            assert(keys1[i] == keys0[i] && keys1[j] == keys0[j]);
                        } else if j == pos {
                            assert(keys1[i] == keys0[i]);
                        } else if i < pos {
                            assert(keys1[i] == keys0[i] && keys1[j] == keys0[j - 1]);
                        } else if i == pos {
                            assert(keys1[j] == keys0[j - 1]);
                            assert(keys0[pos as int] == self.entries@[pos as int].0@);
                            lemma_text_lt_total(key@, keys0[pos as int]);
                            if j - 1 > pos {
                                lemma_text_lt_transitive(key@, keys0[pos as int], keys0[j - 1]);
                            }
                        } else {
                            assert(keys1[i] == keys0[i - 1] && keys1[j] == keys0[j - 1]);
                        }
                    }
                }
                lemma_increasing_distinct(keys1);
                lemma_paired_insert(keys0, vals0, pos as int, key@, value);
            }
            self.entries.insert(pos, (key, value));
            assert(self.keys() =~= keys0.insert(pos as int, key@));
            assert(self.values() =~= vals0.insert(pos as int, value));
        }
    }
}

// ---------------------------------------------------------------------------
// A set of texts, kept in order
// ---------------------------------------------------------------------------

/// A finite set of texts. Its members are held in increasing order, so
/// walking it by position visits them in that order.
pub struct TextSet {
    members: TextMap<()>,
}

impl View for TextSet {
    type V = Set<Seq<char>>;

    /// The set as a mathematical set of texts.
    open spec fn view(&self) -> Set<Seq<char>> {
        self.items().to_set()
    }
}

impl TextSet {
    /// The members, in the order in which the set holds them.
    pub closed spec fn items(&self) -> Seq<Seq<char>> {
        self.members.keys()
    }

    /// Well-formedness: the members are in increasing order, which also
    /// means that none occurs twice.
    pub closed spec fn wf(&self) -> bool {
        self.members.wf()
    }

    /// What well-formedness means for the members.
    pub proof fn lemma_wf(&self)
        requires
            self.wf(),
        ensures
            increasing(self.items()),
            self.items().no_duplicates(),
            self@.finite(),
            self@.len() == self.items().len(),
    {
        lemma_increasing_distinct(self.items());
        self.items().unique_seq_to_set();
        vstd::seq_lib::seq_to_set_is_finite(self.items());
    }

    /// An empty set.
    pub fn new() -> (s: Self)
        ensures
            s.wf(),
            s@ == Set::<Seq<char>>::empty(),
            s.items().len() == 0,
    {
        let s = TextSet { members: TextMap::new() };
        assert(s@ =~= Set::<Seq<char>>::empty());
        s
    }

    /// The number of members. The members are in increasing order and none
    /// occurs twice.
    pub fn len(&self) -> (n: usize)
        requires
            self.wf(),
        ensures
            n == self.items().len(),
            n == self@.len(),
    {
        proof {
            self.lemma_wf();
        }
        self.members.len()
    }

    /// The member at place `i`.
    pub fn item_at(&self, i: usize) -> (item: &String)
        requires
            i < self.items().len(),
        ensures
            item@ == self.items()[i as int],
            self@.contains(item@),
    {
        self.members.key_at(i)
    }

    /// Whether `item` is a member.
    pub fn contains(&self, item: &str) -> (b: bool)
        requires
            self.wf(),
        ensures
            b == self@.contains(item@),
    {
        let b = self.members.contains_key(item);
        assert(self.members@.dom() =~= self@);
        b
    }

    /// Makes `item` a member, if it is none yet.
    pub fn insert(&mut self, item: String)
        requires
            old(self).wf(),
        ensures
            final(self).wf(),
            final(self)@ == old(self)@.insert(item@),
    {
        assert(self.members@.dom() =~= self@);
        self.members.insert(item, ());
        assert(self.members@.dom() =~= self@);
    }

    /// The members as strings, in increasing order.
    pub fn to_vec(&self) -> (v: Vec<String>)
        requires
            self.wf(),
        ensures
            crate::text::texts(v@) == self.items(),
            increasing(crate::text::texts(v@)),
            crate::text::texts(v@).to_set() == self@,
    {
        proof {
            self.lemma_wf();
        }
        let n = self.len();
        let mut v: Vec<String> = Vec::new();
        let mut i: usize = 0;
        while i < n
            invariant
                i <= n,
                n == self.items().len(),
                v@.len() == i,
                forall|k: int| 0 <= k < i ==> (#[trigger] v@[k])@ == self.items()[k],
            decreases n - i,
        {
            v.push(self.item_at(i).clone());
            i = i + 1;
        }
        assert(crate::text::texts(v@) =~= self.items());
        v
    }
}

/// The texts of `s` up to place `i`, and the one at place `i`, make up the
/// set of the texts up to place `i + 1`.
pub proof fn lemma_take_to_set<A>(s: Seq<A>, i: int)
    requires
        0 <= i < s.len(),
    ensures
        s.take(i + 1).to_set() == s.take(i).to_set().insert(s[i]),
{
    let a = s.take(i);
    let b = s.take(i + 1);
    assert forall|x: A| b.to_set().contains(x) <==> a.to_set().insert(s[i]).contains(x) by {
        if b.contains(x) {
            let j = choose|j: int| 0 <= j < b.len() && b[j] == x;
            if j < i {
                assert(a[j] == x);
            }
        }
        if a.contains(x) {
            let j = choose|j: int| 0 <= j < a.len() && a[j] == x;
            assert(b[j] == x);
        }
        if x == s[i] {
            assert(b[i] == x);
        }
    }
    assert(b.to_set() =~= a.to_set().insert(s[i]));
}

/// The set of the given strings.
pub fn set_of(items: &Vec<String>) -> (set: TextSet)
    ensures
        set.wf(),
        set@ == crate::text::texts(items@).to_set(),
{
    let ghost all = crate::text::texts(items@);
    let mut set = TextSet::new();
    assert(all.take(0).to_set() =~= Set::<Seq<char>>::empty());
    let mut i: usize = 0;
    while i < items.len()
        invariant
            i <= items.len(),
            all == crate::text::texts(items@),
            set.wf(),
            set@ == all.take(i as int).to_set(),
        decreases items.len() - i,
    {
        proof {
            lemma_take_to_set(all, i as int);
        }
        set.insert(items[i].clone());
        i = i + 1;
    }
    assert(all.take(items@.len() as int) == all);
    set
}

} // verus!
