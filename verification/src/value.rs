use crate::number::is_decimal;
use vstd::prelude::*;

verus! {

/// What a value is: the tree without its storage.
pub enum Datum {
    Null,
    Boolean(bool),
    Integer(int),
    /// A decimal number, held as the text it was written as.
    Float(Seq<u8>),
    String(Seq<char>),
    List(Seq<Datum>),
    Table(Map<Seq<char>, Datum>),
}

/// The mapping that a run of key and value pairs denotes, a later pair overriding an
/// earlier one with the same key.
pub open spec fn pairs_to_map(pairs: Seq<(Seq<char>, Datum)>) -> Map<Seq<char>, Datum>
    decreases pairs.len(),
{
    if pairs.len() == 0 {
        Map::empty()
    } else {
        pairs_to_map(pairs.drop_last()).insert(pairs.last().0, pairs.last().1)
    }
}

/// No key occurs twice among the pairs.
pub open spec fn distinct_keys(pairs: Seq<(Seq<char>, Datum)>) -> bool {
    forall|i: int, j: int| 0 <= i < j < pairs.len() ==> pairs[i].0 != pairs[j].0
}

/// One key with its value.
#[derive(Debug)]
pub struct Entry {
    pub key: String,
    pub value: Value,
}

/// A mapping from keys to values, held as its entries in the order in which their keys
/// first came.
#[derive(Debug)]
pub struct Table {
    pub entries: Vec<Entry>,
}

/// A value of the notation: nothing, a truth value, a number, a string, a list or a table.
#[derive(Debug)]
pub enum Value {
    Null,
    Boolean(bool),
    Integer(i64),
    /// A decimal number, held as the text it was written as, so that no digit is lost:
    /// an optional sign, digits with a point among them and, it may be, an exponent.
    Float(Vec<u8>),
    String(String),
    List(Vec<Value>),
    Table(Table),
}

impl Value {
    /// What the value is.
    pub open spec fn datum(&self) -> Datum
        decreases self,
    {
        match self {
            Value::Null => Datum::Null,
            Value::Boolean(b) => Datum::Boolean(*b),
            Value::Integer(n) => Datum::Integer(*n as int),
            Value::Float(t) => Datum::Float(t@),
            Value::String(s) => Datum::String(s@),
            Value::List(items) => Datum::List(data(items@)),
            Value::Table(t) => Datum::Table(pairs_to_map(pairs(t.entries@))),
        }
    }

    /// Every decimal number in the value, at any depth, is held as the text of one, and
    /// every table holds each of its keys once.
    pub open spec fn wf(&self) -> bool
        decreases self,
    {
        match self {
            Value::Float(text) => is_decimal(text@),
            Value::List(items) => forall|i: int|
                0 <= i < items.len() ==> (#[trigger] items[i]).wf(),
            Value::Table(t) => {
                &&& forall|i: int|
                    0 <= i < t.entries.len() ==> (#[trigger] t.entries[i]).value.wf()
                &&& distinct_keys(pairs(t.entries@))
            },
            _ => true,
        }
    }
}

/// What the values of a list are, in order.
pub open spec fn data(items: Seq<Value>) -> Seq<Datum>
    decreases items,
{
    Seq::new(
        items.len(),
        |i: int|
            if 0 <= i < items.len() {
                items[i].datum()
            } else {
                Datum::Null
            },
    )
}

/// The entries of a table as pairs of what they are, in order.
pub open spec fn pairs(entries: Seq<Entry>) -> Seq<(Seq<char>, Datum)>
    decreases entries,
{
    Seq::new(
        entries.len(),
        |i: int|
            if 0 <= i < entries.len() {
                (entries[i].key@, entries[i].value.datum())
            } else {
                (Seq::empty(), Datum::Null)
            },
    )
}

impl Table {
    /// The table's entries as pairs of what they are.
    pub open spec fn pairs(&self) -> Seq<(Seq<char>, Datum)> {
        pairs(self.entries@)
    }

    /// The mapping that the table is.
    pub open spec fn view(&self) -> Map<Seq<char>, Datum> {
        pairs_to_map(self.pairs())
    }

    /// Each key is held once, and every value is well formed.
    pub open spec fn wf(&self) -> bool {
        &&& forall|i: int| 0 <= i < self.entries.len() ==> (#[trigger] self.entries[i]).value.wf()
        &&& distinct_keys(self.pairs())
    }

    /// A table without entries.
    pub fn new() -> (t: Table)
        ensures
            t@ == Map::<Seq<char>, Datum>::empty(),
            t.wf(),
            t.entries@.len() == 0,
    {
        Table { entries: Vec::new() }
    }

    /// The number of keys.
    pub fn len(&self) -> (n: usize)
        requires
            self.wf(),
        ensures
            n == self@.dom().len(),
            self@.dom().finite(),
    {
        proof {
            lemma_pairs_domain(self.pairs());
        }
        self.entries.len()
    }

    /// Where `key` is held, if it is.
    fn find(&self, key: &String) -> (at: Option<usize>)
        ensures
            match at {
                Some(i) => i < self.entries.len() && self.entries[i as int].key@ == key@,
                None => forall|i: int| 0 <= i < self.entries.len() ==> self.entries[i].key@ != key@,
            },
    {
        let mut i: usize = 0;
        while i < self.entries.len()
            invariant
                i <= self.entries.len(),
                forall|k: int| 0 <= k < i ==> self.entries[k].key@ != key@,
            decreases self.entries.len() - i,
        {
            if self.entries[i].key == *key {
                return Some(i);
            }
            i += 1;
        }
        None
    }

    /// Binds `key` to `value`, in place of what it was bound to before.
    pub fn insert(&mut self, key: String, value: Value)
        requires
            old(self).wf(),
            value.wf(),
        ensures
            final(self).wf(),
            final(self)@ == old(self)@.insert(key@, value.datum()),
    {
        let ghost before = self.pairs();
        match self.find(&key) {
            Some(i) => {
                proof {
                    lemma_pairs_update(before, i as int, value.datum());
                }
                self.entries.set(i, Entry { key, value });
                assert(self.pairs() =~= before.update(i as int, (key@, value.datum())));
            },
            None => {
                self.entries.push(Entry { key, value });
                assert(self.pairs() =~= before.push((key@, value.datum())));
                assert(self.pairs().drop_last() =~= before);
            },
        }
    }

    /// What `key` is bound to, if it is bound.
    pub fn get(&self, key: &str) -> (r: Option<&Value>)
        requires
            self.wf(),
        ensures
            match r {
                Some(v) => self@.contains_key(key@) && self@[key@] == v.datum() && v.wf(),
                None => !self@.contains_key(key@),
            },
    {
        let owned = key.to_owned();
        match self.find(&owned) {
            Some(i) => {
                proof {
                    lemma_pairs_lookup(self.pairs(), i as int);
                }
                Some(&self.entries[i].value)
            },
            None => {
                proof {
                    lemma_pairs_absent(self.pairs(), key@);
                }
                None
            },
        }
    }
}

/// A key that no pair holds is not bound.
pub proof fn lemma_pairs_absent(pairs: Seq<(Seq<char>, Datum)>, key: Seq<char>)
    requires
        forall|i: int| 0 <= i < pairs.len() ==> pairs[i].0 != key,
    ensures
        !pairs_to_map(pairs).contains_key(key),
    decreases pairs.len(),
{
    if pairs.len() > 0 {
        lemma_pairs_absent(pairs.drop_last(), key);
    }
}

/// Among pairs with distinct keys, each key is bound to the value it stands with.
pub proof fn lemma_pairs_lookup(pairs: Seq<(Seq<char>, Datum)>, i: int)
    requires
        distinct_keys(pairs),
        0 <= i < pairs.len(),
    ensures
        pairs_to_map(pairs).contains_key(pairs[i].0),
        pairs_to_map(pairs)[pairs[i].0] == pairs[i].1,
    decreases pairs.len(),
{
    if i < pairs.len() - 1 {
        lemma_pairs_lookup(pairs.drop_last(), i);
    }
}

/// Among pairs with distinct keys, a new value in place binds the key anew and leaves the
/// other keys as they were.
pub proof fn lemma_pairs_update(pairs: Seq<(Seq<char>, Datum)>, i: int, value: Datum)
    requires
        distinct_keys(pairs),
        0 <= i < pairs.len(),
    ensures
        distinct_keys(pairs.update(i, (pairs[i].0, value))),
        pairs_to_map(pairs.update(i, (pairs[i].0, value))) == pairs_to_map(pairs).insert(
            pairs[i].0,
            value,
        ),
    decreases pairs.len(),
{
    let key = pairs[i].0;
    let changed = pairs.update(i, (key, value));
    if i == pairs.len() - 1 {
        assert(changed.drop_last() =~= pairs.drop_last());
        assert(pairs_to_map(changed) =~= pairs_to_map(pairs).insert(key, value));
    } else {
        lemma_pairs_update(pairs.drop_last(), i, value);
        assert(changed.drop_last() =~= pairs.drop_last().update(i, (key, value)));
        assert(pairs_to_map(changed) =~= pairs_to_map(pairs).insert(key, value));
    }
}

/// Pairs with distinct keys bind as many keys as there are pairs.
pub proof fn lemma_pairs_domain(pairs: Seq<(Seq<char>, Datum)>)
    requires
        distinct_keys(pairs),
    ensures
        pairs_to_map(pairs).dom().finite(),
        pairs_to_map(pairs).dom().len() == pairs.len(),
    decreases pairs.len(),
{
    if pairs.len() > 0 {
        lemma_pairs_domain(pairs.drop_last());
        lemma_pairs_absent(pairs.drop_last(), pairs.last().0);
    }
}


} // verus!
