use vstd::prelude::*;

verus! {

/// A parsed bencoded value: the generic structured-data tree that metainfo
/// documents and tracker responses are decoded from.
///
/// Dictionary entries are kept in source order; lookups take the first entry
/// whose key matches.
pub enum Value {
    Integer(i64),
    Bytes(Vec<u8>),
    List(Vec<Value>),
    Dictionary(Vec<(Vec<u8>, Value)>),
}

/// The mathematical model of a `Value`: the same tree over `int`, `Seq` and
/// friends, for use in specifications.
#[verifier::ext_equal]
pub enum SpecValue {
    Integer(int),
    Bytes(Seq<u8>),
    List(Seq<SpecValue>),
    Dictionary(Seq<(Seq<u8>, SpecValue)>),
}

impl Value {
    /// The model of this value.
    pub open spec fn model(self) -> SpecValue
        decreases self,
    {
        match self {
            Value::Integer(i) => SpecValue::Integer(i as int),
            Value::Bytes(b) => SpecValue::Bytes(b@),
            Value::List(l) => SpecValue::List(model_items(l@)),
            Value::Dictionary(d) => SpecValue::Dictionary(model_entries(d@)),
        }
    }
}

/// The models of the elements of a list value.
pub open spec fn model_items(items: Seq<Value>) -> Seq<SpecValue>
    decreases items,
{
    if items.len() == 0 {
        Seq::empty()
    } else {
        model_items(items.drop_last()).push(items.last().model())
    }
}

/// The models of the entries of a dictionary value.
pub open spec fn model_entries(entries: Seq<(Vec<u8>, Value)>) -> Seq<(Seq<u8>, SpecValue)>
    decreases entries,
{
    if entries.len() == 0 {
        Seq::empty()
    } else {
        model_entries(entries.drop_last()).push((entries.last().0@, entries.last().1.model()))
    }
}

pub proof fn lemma_model_items(items: Seq<Value>)
    ensures
        model_items(items).len() == items.len(),
        forall|i: int| 0 <= i < items.len() ==> model_items(items)[i] == items[i].model(),
    decreases items,
{
    if items.len() > 0 {
        lemma_model_items(items.drop_last());
    }
}

pub proof fn lemma_model_entries(entries: Seq<(Vec<u8>, Value)>)
    ensures
        model_entries(entries).len() == entries.len(),
        forall|i: int| 0 <= i < entries.len() ==> #[trigger] model_entries(entries)[i]
            == (entries[i].0@, entries[i].1.model()),
    decreases entries,
{
    if entries.len() > 0 {
        lemma_model_entries(entries.drop_last());
    }
}

/// The value at `key` in a dictionary's entries: the first entry whose key
/// matches, if any.
pub open spec fn spec_lookup(entries: Seq<(Seq<u8>, SpecValue)>, key: Seq<u8>) -> Option<
    SpecValue,
>
    decreases entries.len(),
{
    if entries.len() == 0 {
        None
    } else if entries[0].0 == key {
        Some(entries[0].1)
    } else {
        spec_lookup(entries.drop_first(), key)
    }
}

/// Whether two byte slices hold the same bytes.
pub fn bytes_eq(a: &[u8], b: &[u8]) -> (r: bool)
    ensures
        r == (a@ == b@),
{
    if a.len() != b.len() {
        return false;
    }
    let n = a.len();
    let mut i: usize = 0;
    while i < n
        invariant
            n == a@.len() == b@.len(),
            i <= n,
            forall|j: int| 0 <= j < i ==> a@[j] == b@[j],
        decreases n - i,
    {
        if a[i] != b[i] {
            return false;
        }
        i = i + 1;
    }
    proof {
        assert(a@ =~= b@);
    }
    true
}

/// Finds `key` in a dictionary's entries, returning the first match.
pub fn dict_lookup<'a>(entries: &'a Vec<(Vec<u8>, Value)>, key: &[u8]) -> (r: Option<&'a Value>)
    ensures
        match r {
            Some(v) => spec_lookup(model_entries(entries@), key@) == Some(v.model()),
            None => spec_lookup(model_entries(entries@), key@) is None,
        },
{
    proof {
        lemma_model_entries(entries@);
        assert(model_entries(entries@).skip(0) =~= model_entries(entries@));
    }
    let ghost m = model_entries(entries@);
    let n = entries.len();
    let mut i: usize = 0;
    while i < n
        invariant
            n == entries@.len(),
            i <= n,
            m == model_entries(entries@),
            m.len() == n,
            forall|j: int| 0 <= j < m.len() ==> #[trigger] m[j] == (entries@[j].0@, entries@[j].1.model()),
            spec_lookup(m.skip(i as int), key@) == spec_lookup(m, key@),
        decreases n - i,
    {
        let hit = bytes_eq(entries[i].0.as_slice(), key);
        proof {
            assert(m.skip(i as int)[0] == m[i as int]);
        }
        if hit {
            return Some(&entries[i].1);
        }
        proof {
            assert(m.skip(i as int).drop_first() =~= m.skip(i as int + 1));
        }
        i = i + 1;
    }
    proof {
        assert(m.skip(n as int) =~= Seq::<(Seq<u8>, SpecValue)>::empty());
    }
    None
}

} // verus!
