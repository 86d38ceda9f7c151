//! Attribute values and the key/value table that holds them.
use vstd::prelude::*;

use crate::text::{chars_of, push_char, same_chars};

verus! {

/// The value of an attribute, with the way it was written.
#[derive(Debug, Clone, PartialEq, Eq)]
pub enum AttributeValue {
    Quoted(String),
    Unquoted(String),
}

/// The model of an attribute value.
pub enum SpecAttributeValue {
    Quoted(Seq<char>),
    Unquoted(Seq<char>),
}

impl SpecAttributeValue {
    /// The text of the value, without quotes.
    pub open spec fn text(self) -> Seq<char> {
        match self {
            SpecAttributeValue::Quoted(v) => v,
            SpecAttributeValue::Unquoted(v) => v,
        }
    }

    /// How the value is displayed: quoted values between double quotes.
    pub open spec fn display(self) -> Seq<char> {
        match self {
            SpecAttributeValue::Quoted(v) => seq!['"'] + v + seq!['"'],
            SpecAttributeValue::Unquoted(v) => v,
        }
    }
}

impl View for AttributeValue {
    type V = SpecAttributeValue;

    open spec fn view(&self) -> SpecAttributeValue {
        match self {
            AttributeValue::Quoted(v) => SpecAttributeValue::Quoted(v@),
            AttributeValue::Unquoted(v) => SpecAttributeValue::Unquoted(v@),
        }
    }
}

impl AttributeValue {
    /// The text of the value, without quotes.
    pub fn as_str(&self) -> (r: &str)
        ensures
            r@ == self@.text(),
    {
        match self {
            AttributeValue::Quoted(value) => value.as_str(),
            AttributeValue::Unquoted(value) => value.as_str(),
        }
    }

    /// Whether the value was written between double quotes.
    pub fn is_quoted(&self) -> (r: bool)
        ensures
            r == (self@ is Quoted),
    {
        match self {
            AttributeValue::Quoted(_) => true,
            AttributeValue::Unquoted(_) => false,
        }
    }

    /// The value as it is displayed: a quoted value between double quotes, an unquoted one as is.
    pub fn to_string(&self) -> (r: String)
        ensures
            r@ == self@.display(),
    {
        match self {
            AttributeValue::Quoted(value) => {
                let mut r = String::new();
                push_char(&mut r, '"');
                r.append(value.as_str());
                push_char(&mut r, '"');
                r
            },
            AttributeValue::Unquoted(value) => value.clone(),
        }
    }
}

/// The value that the last pair of `pairs` with key `key` holds, if any.
pub open spec fn lookup(pairs: Seq<(String, AttributeValue)>, key: Seq<char>) -> Option<
    SpecAttributeValue,
>
    decreases pairs.len(),
{
    if pairs.len() == 0 {
        None
    } else if pairs.last().0@ == key {
        Some(pairs.last().1@)
    } else {
        lookup(pairs.drop_last(), key)
    }
}

/// A table of attributes: each key is bound to one value, and binding a key again replaces its
/// value.
#[derive(Debug)]
pub struct Attributes {
    pairs: Vec<(String, AttributeValue)>,
}

/// The keys of `pairs`, in order.
pub open spec fn keys_of(pairs: Seq<(String, AttributeValue)>) -> Seq<Seq<char>> {
    pairs.map_values(|p: (String, AttributeValue)| p.0@)
}

impl Attributes {
    /// No key occurs in two pairs.
    #[verifier::type_invariant]
    spec fn keys_distinct(self) -> bool {
        keys_of(self.pairs@).no_duplicates()
    }
}

impl View for Attributes {
    type V = Map<Seq<char>, SpecAttributeValue>;

    closed spec fn view(&self) -> Map<Seq<char>, SpecAttributeValue> {
        Map::new(|k: Seq<char>| lookup(self.pairs@, k) is Some, |k: Seq<char>| lookup(self.pairs@, k)->Some_0)
    }
}

/// Replacing the pair at `j`, the last one with key `key`, by one with the same key rebinds
/// `key` and no other key.
proof fn lemma_lookup_update(
    pairs: Seq<(String, AttributeValue)>,
    j: int,
    key: Seq<char>,
    pair: (String, AttributeValue),
    q: Seq<char>,
)
    requires
        0 <= j < pairs.len(),
        pairs[j].0@ == key,
        pair.0@ == key,
        forall|k: int| j < k < pairs.len() ==> #[trigger] pairs[k].0@ != key,
    ensures
        lookup(pairs.update(j, pair), q) == if q == key {
            Some(pair.1@)
        } else {
            lookup(pairs, q)
        },
    decreases pairs.len(),
{
    let updated = pairs.update(j, pair);
    if j == pairs.len() - 1 {
        assert(updated.drop_last() =~= pairs.drop_last());
    } else {
        assert(updated.drop_last() =~= pairs.drop_last().update(j, pair));
        assert(pairs.last().0@ != key);
        lemma_lookup_update(pairs.drop_last(), j, key, pair, q);
    }
}

impl Attributes {
    /// An empty table.
    pub fn new() -> (r: Attributes)
        ensures
            r@ == Map::<Seq<char>, SpecAttributeValue>::empty(),
    {
        let r = Attributes { pairs: Vec::new() };
        assert(r@ =~= Map::<Seq<char>, SpecAttributeValue>::empty());
        r
    }

    /// The position of the last pair with key `key`, if any.
    fn position(&self, key: &Vec<char>) -> (r: Option<usize>)
        ensures
            match r {
                Some(j) => {
                    &&& j < self.pairs.len()
                    &&& self.pairs@[j as int].0@ == key@
                    &&& forall|k: int| j < k < self.pairs.len() ==> #[trigger] self.pairs@[k].0@ != key@
                    &&& lookup(self.pairs@, key@) == Some(self.pairs@[j as int].1@)
                },
                None => lookup(self.pairs@, key@) is None,
            },
    {
        let mut i = self.pairs.len();
        assert(self.pairs@.subrange(0, i as int) =~= self.pairs@);
        while i > 0
            invariant
                i <= self.pairs.len(),
                forall|k: int| i <= k < self.pairs.len() ==> #[trigger] self.pairs@[k].0@ != key@,
                lookup(self.pairs@, key@) == lookup(self.pairs@.subrange(0, i as int), key@),
            decreases i,
        {
            let candidate = chars_of(self.pairs[i - 1].0.as_str());
            let ghost prefix = self.pairs@.subrange(0, i as int);
            assert(prefix.drop_last() =~= self.pairs@.subrange(0, i - 1));
            if same_chars(&candidate, key) {
                return Some(i - 1);
            }
            i -= 1;
        }
        None
    }

    /// Binds `key` to `value`, replacing the value it had.
    pub fn insert(&mut self, key: String, value: AttributeValue)
        ensures
            final(self)@ == old(self)@.insert(key@, value@),
    {
        proof {
            use_type_invariant(&*self);
        }
        let key_chars = chars_of(key.as_str());
        let ghost value_view = value@;
        let found = self.position(&key_chars);
        let mut pairs: Vec<(String, AttributeValue)> = Vec::new();
        std::mem::swap(&mut pairs, &mut self.pairs);
        let ghost before = pairs@;
        match found {
            Some(j) => {
                let ghost pair = (key, value);
                pairs.set(j, (key, value));
                assert forall|q: Seq<char>| #[trigger] lookup(pairs@, q) == if q == key_chars@ {
                    Some(value_view)
                } else {
                    lookup(before, q)
                } by {
                    lemma_lookup_update(before, j as int, key_chars@, pair, q);
                }
                assert(keys_of(pairs@) =~= keys_of(before));
            },
            None => {
                assert forall|i: int| 0 <= i < before.len() implies #[trigger] before[i].0@
                    != key_chars@ by {
                    lemma_lookup_position(before, i);
                }
                pairs.push((key, value));
                assert(pairs@.drop_last() =~= before);
                assert(keys_of(pairs@) =~= keys_of(before).push(key_chars@));
            },
        }
        self.pairs = pairs;
        assert(self@ =~= old(self)@.insert(key_chars@, value_view));
    }

    /// The number of keys that are bound.
    pub fn len(&self) -> (r: usize)
        ensures
            r == self@.dom().len(),
    {
        proof {
            use_type_invariant(self);
            lemma_dom_is_keys(self.pairs@);
            keys_of(self.pairs@).unique_seq_to_set();
        }
        self.pairs.len()
    }

    /// The keys that are bound, each once, in the order in which they were first bound.
    pub fn keys(&self) -> (r: Vec<String>)
        ensures
            r.len() == self@.dom().len(),
            forall|i: int| 0 <= i < r.len() ==> self@.contains_key(#[trigger] r@[i]@),
            forall|k: Seq<char>|
                self@.contains_key(k) ==> exists|i: int| 0 <= i < r.len() && #[trigger] r@[i]@ == k,
            forall|i: int, j: int| 0 <= i < j < r.len() ==> r@[i]@ != r@[j]@,
    {
        proof {
            use_type_invariant(self);
            lemma_dom_is_keys(self.pairs@);
            keys_of(self.pairs@).unique_seq_to_set();
        }
        let mut r: Vec<String> = Vec::new();
        let mut i: usize = 0;
        while i < self.pairs.len()
            invariant
                i <= self.pairs.len(),
                r.len() == i,
                forall|m: int| 0 <= m < i ==> #[trigger] r@[m]@ == self.pairs@[m].0@,
            decreases self.pairs.len() - i,
        {
            r.push(self.pairs[i].0.clone());
            i += 1;
        }
        assert forall|k: Seq<char>| self@.contains_key(k) implies exists|m: int|
            0 <= m < r.len() && #[trigger] r@[m]@ == k by {
            let m = choose|m: int| 0 <= m < self.pairs@.len() && keys_of(self.pairs@)[m] == k;
            assert(r@[m]@ == k);
        }
        assert forall|m: int, n: int| 0 <= m < n < r.len() implies r@[m]@ != r@[n]@ by {
            assert(keys_of(self.pairs@)[m] == r@[m]@);
            assert(keys_of(self.pairs@)[n] == r@[n]@);
        }
        assert forall|m: int| 0 <= m < r.len() implies self@.contains_key(#[trigger] r@[m]@) by {
            assert(keys_of(self.pairs@)[m] == r@[m]@);
        }
        r
    }

    /// The value bound to `key`, if any.
    pub fn get(&self, key: &str) -> (r: Option<&AttributeValue>)
        ensures
            match r {
                Some(v) => self@.contains_key(key@) && v@ == self@[key@],
                None => !self@.contains_key(key@),
            },
    {
        let key_chars = chars_of(key);
        match self.position(&key_chars) {
            Some(j) => Some(&self.pairs[j].1),
            None => None,
        }
    }

    /// Whether `key` is bound.
    pub fn contains_key(&self, key: &str) -> (r: bool)
        ensures
            r == self@.contains_key(key@),
    {
        let key_chars = chars_of(key);
        self.position(&key_chars).is_some()
    }
}

/// A key that `pairs` binds is the key of one of its pairs.
proof fn lemma_lookup_some(pairs: Seq<(String, AttributeValue)>, key: Seq<char>)
    requires
        lookup(pairs, key) is Some,
    ensures
        exists|j: int| 0 <= j < pairs.len() && #[trigger] pairs[j].0@ == key,
    decreases pairs.len(),
{
    if pairs.last().0@ != key {
        lemma_lookup_some(pairs.drop_last(), key);
        let j = choose|j: int| 0 <= j < pairs.drop_last().len() && #[trigger] pairs.drop_last()[j].0@ == key;
        assert(pairs[j].0@ == key);
    } else {
        assert(pairs[pairs.len() - 1].0@ == key);
    }
}

fn same_value(a: &AttributeValue, b: &AttributeValue) -> (r: bool)
    ensures
        r == (a@ == b@),
{
    match (a, b) {
        (AttributeValue::Quoted(x), AttributeValue::Quoted(y)) => *x == *y,
        (AttributeValue::Unquoted(x), AttributeValue::Unquoted(y)) => *x == *y,
        _ => false,
    }
}

impl Attributes {
    /// Whether every key of `self` is bound in `other` to the same value.
    fn covered_by(&self, other: &Attributes) -> (r: bool)
        ensures
            r == forall|k: Seq<char>| #[trigger] self@.contains_key(k) ==> other@.contains_key(k)
                && other@[k] == self@[k],
    {
        let mut i: usize = 0;
        while i < self.pairs.len()
            invariant
                i <= self.pairs.len(),
                forall|j: int|
                    0 <= j < i ==> {
                        let k = #[trigger] self.pairs@[j].0@;
                        other@.contains_key(k) && other@[k] == self@[k]
                    },
            decreases self.pairs.len() - i,
        {
            let key = self.pairs[i].0.as_str();
            let mine = self.get(key);
            let theirs = other.get(key);
            let same = match (mine, theirs) {
                (Some(a), Some(b)) => same_value(a, b),
                _ => false,
            };
            if !same {
                assert(self@.contains_key(key@)) by {
                    assert(lookup(self.pairs@, key@) is Some) by {
                        lemma_lookup_position(self.pairs@, i as int);
                    }
                }
                return false;
            }
            i += 1;
        }
        assert forall|k: Seq<char>| #[trigger] self@.contains_key(k) implies other@.contains_key(k)
            && other@[k] == self@[k] by {
            lemma_lookup_some(self.pairs@, k);
            let j = choose|j: int| 0 <= j < self.pairs@.len() && #[trigger] self.pairs@[j].0@ == k;
            assert(self.pairs@[j].0@ == k);
        }
        true
    }
}

/// The key of any pair of `pairs` is bound.
proof fn lemma_lookup_position(pairs: Seq<(String, AttributeValue)>, j: int)
    requires
        0 <= j < pairs.len(),
    ensures
        lookup(pairs, pairs[j].0@) is Some,
    decreases pairs.len(),
{
    if j < pairs.len() - 1 && pairs.last().0@ != pairs[j].0@ {
        lemma_lookup_position(pairs.drop_last(), j);
        assert(pairs.drop_last()[j] == pairs[j]);
    }
}

impl PartialEq for Attributes {
    /// Two tables are equal when they bind the same keys to the same values.
    fn eq(&self, other: &Attributes) -> (r: bool) {
        let r = self.covered_by(other) && other.covered_by(self);
        proof {
            if r {
                assert(self@ =~= other@);
            }
        }
        r
    }
}

impl vstd::std_specs::cmp::PartialEqSpecImpl for Attributes {
    open spec fn obeys_eq_spec() -> bool {
        true
    }

    open spec fn eq_spec(&self, other: &Attributes) -> bool {
        self@ == other@
    }
}

/// The keys that `pairs` binds are the keys of its pairs.
proof fn lemma_dom_is_keys(pairs: Seq<(String, AttributeValue)>)
    ensures
        forall|k: Seq<char>| (lookup(pairs, k) is Some) == #[trigger] keys_of(pairs).contains(k),
        Map::new(|k: Seq<char>| lookup(pairs, k) is Some, |k: Seq<char>| lookup(pairs, k)->Some_0).dom()
            == keys_of(pairs).to_set(),
{
    assert forall|k: Seq<char>| (lookup(pairs, k) is Some) == #[trigger] keys_of(pairs).contains(
        k,
    ) by {
        if lookup(pairs, k) is Some {
            lemma_lookup_some(pairs, k);
            let j = choose|j: int| 0 <= j < pairs.len() && #[trigger] pairs[j].0@ == k;
            assert(keys_of(pairs)[j] == k);
        }
        if keys_of(pairs).contains(k) {
            let j = choose|j: int| 0 <= j < keys_of(pairs).len() && keys_of(pairs)[j] == k;
            lemma_lookup_position(pairs, j);
        }
    }
    assert(Map::new(|k: Seq<char>| lookup(pairs, k) is Some, |k: Seq<char>| lookup(pairs, k)->Some_0).dom()
        =~= keys_of(pairs).to_set());
}

fn copy_value(v: &AttributeValue) -> (r: AttributeValue)
    ensures
        r@ == v@,
{
    match v {
        AttributeValue::Quoted(x) => AttributeValue::Quoted(x.clone()),
        AttributeValue::Unquoted(x) => AttributeValue::Unquoted(x.clone()),
    }
}

impl Clone for Attributes {
    /// A table with the same bindings.
    fn clone(&self) -> (r: Attributes)
        ensures
            r@ == self@,
    {
        proof {
            use_type_invariant(self);
        }
        let mut pairs: Vec<(String, AttributeValue)> = Vec::new();
        let mut i: usize = 0;
        while i < self.pairs.len()
            invariant
                i <= self.pairs.len(),
                pairs.len() == i,
                forall|m: int|
                    0 <= m < i ==> (#[trigger] pairs@[m]).0@ == self.pairs@[m].0@ && pairs@[m].1@
                        == self.pairs@[m].1@,
            decreases self.pairs.len() - i,
        {
            let key = self.pairs[i].0.clone();
            let value = copy_value(&self.pairs[i].1);
            pairs.push((key, value));
            i += 1;
        }
        assert(keys_of(pairs@) =~= keys_of(self.pairs@));
        assert forall|k: Seq<char>| #[trigger] lookup(pairs@, k) == lookup(self.pairs@, k) by {
            lemma_lookup_same(pairs@, self.pairs@, k);
        }
        let r = Attributes { pairs };
        assert(r@ =~= self@);
        r
    }
}

/// Pairs with the same keys and values, position by position, bind alike.
proof fn lemma_lookup_same(a: Seq<(String, AttributeValue)>, b: Seq<(String, AttributeValue)>, k: Seq<char>)
    requires
        a.len() == b.len(),
        forall|m: int| 0 <= m < a.len() ==> (#[trigger] a[m]).0@ == b[m].0@ && a[m].1@ == b[m].1@,
    ensures
        lookup(a, k) == lookup(b, k),
    decreases a.len(),
{
    if a.len() > 0 {
        assert(a.last() == a[a.len() - 1]);
        lemma_lookup_same(a.drop_last(), b.drop_last(), k);
    }
}

} // verus!
