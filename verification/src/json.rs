//! The recursive tagged value tree built by the parser.

use vstd::prelude::*;

verus! {

/// An object's entries: key/value pairs in insertion order, keys unique.
pub type Object = Vec<(Vec<u8>, Value)>;

/// An array's elements in source order.
pub type Array = Vec<Value>;

/// A parsed entity of the document grammar.
///
/// Object entries are kept in insertion order with unique keys; when the
/// same key text appears twice in a source document, the later value
/// replaces the earlier one. `String` holds the raw bytes between the
/// quotes, escape sequences unresolved. `Number` holds the literal bytes
/// of the numeric literal, an exact decimal spelling with no exponent.
#[derive(Debug, PartialEq, Eq)]
pub enum Value {
    Object(Object),
    Array(Array),
    Boolean(bool),
    Null,
    String(Vec<u8>),
    Number(Vec<u8>),
}

/// A value restricted to the two container cases permitted at the top
/// level of a document: a bare scalar is not a valid document.
#[derive(Debug, PartialEq, Eq)]
pub enum Root {
    Object(Object),
    Array(Array),
}

/// The mathematical model of a value: entries and elements as sequences,
/// text as byte sequences.
pub enum ValueModel {
    Object(Seq<(Seq<u8>, ValueModel)>),
    Array(Seq<ValueModel>),
    Boolean(bool),
    Null,
    String(Seq<u8>),
    Number(Seq<u8>),
}

/// The model of a top-level document value.
pub enum RootModel {
    Object(Seq<(Seq<u8>, ValueModel)>),
    Array(Seq<ValueModel>),
}

/// The model of a value tree.
pub open spec fn value_model(v: Value) -> ValueModel
    decreases v,
{
    match v {
        Value::Object(entries) => ValueModel::Object(entries_model(entries@)),
        Value::Array(elems) => ValueModel::Array(elems_model(elems@)),
        Value::Boolean(b) => ValueModel::Boolean(b),
        Value::Null => ValueModel::Null,
        Value::String(text) => ValueModel::String(text@),
        Value::Number(lit) => ValueModel::Number(lit@),
    }
}

/// The model of a sequence of object entries.
pub open spec fn entries_model(entries: Seq<(Vec<u8>, Value)>) -> Seq<(Seq<u8>, ValueModel)>
    decreases entries,
{
    if entries.len() == 0 {
        Seq::empty()
    } else {
        seq![(entries[0].0@, value_model(entries[0].1))]
            + entries_model(entries.subrange(1, entries.len() as int))
    }
}

/// The model of a sequence of array elements.
pub open spec fn elems_model(elems: Seq<Value>) -> Seq<ValueModel>
    decreases elems,
{
    if elems.len() == 0 {
        Seq::empty()
    } else {
        seq![value_model(elems[0])] + elems_model(elems.subrange(1, elems.len() as int))
    }
}

impl View for Value {
    type V = ValueModel;

    open spec fn view(&self) -> ValueModel {
        value_model(*self)
    }
}

impl View for Root {
    type V = RootModel;

    open spec fn view(&self) -> RootModel {
        match self {
            Root::Object(entries) => RootModel::Object(entries_model(entries@)),
            Root::Array(elems) => RootModel::Array(elems_model(elems@)),
        }
    }
}

/// The model of an entry sequence has the same length, entry by entry.
pub proof fn lemma_entries_model_index(entries: Seq<(Vec<u8>, Value)>)
    ensures
        entries_model(entries).len() == entries.len(),
        forall|i: int|
            0 <= i < entries.len() ==> #[trigger] entries_model(entries)[i] == (
                entries[i].0@,
                value_model(entries[i].1),
            ),
    decreases entries,
{
    if entries.len() > 0 {
        let rest = entries.subrange(1, entries.len() as int);
        lemma_entries_model_index(rest);
        assert forall|i: int|
            0 <= i < entries.len() implies #[trigger] entries_model(entries)[i] == (
            entries[i].0@,
            value_model(entries[i].1),
        ) by {
            if i > 0 {
                assert(rest[i - 1] == entries[i]);
            }
        }
    }
}

/// The model of an element sequence has the same length, element by element.
pub proof fn lemma_elems_model_index(elems: Seq<Value>)
    ensures
        elems_model(elems).len() == elems.len(),
        forall|i: int|
            0 <= i < elems.len() ==> #[trigger] elems_model(elems)[i] == value_model(elems[i]),
    decreases elems,
{
    if elems.len() > 0 {
        let rest = elems.subrange(1, elems.len() as int);
        lemma_elems_model_index(rest);
        assert forall|i: int|
            0 <= i < elems.len() implies #[trigger] elems_model(elems)[i] == value_model(
            elems[i],
        ) by {
            if i > 0 {
                assert(rest[i - 1] == elems[i]);
            }
        }
    }
}

/// Store `val` under `key`: the value of the first entry whose key is
/// `key` is replaced, keeping its place; a fresh key is appended. Later
/// occurrences of a key in a document therefore win over earlier ones.
pub open spec fn upsert_entry(
    entries: Seq<(Seq<u8>, ValueModel)>,
    key: Seq<u8>,
    val: ValueModel,
) -> Seq<(Seq<u8>, ValueModel)>
    decreases entries.len(),
{
    if entries.len() == 0 {
        seq![(key, val)]
    } else if entries[0].0 == key {
        seq![(key, val)] + entries.subrange(1, entries.len() as int)
    } else {
        seq![entries[0]] + upsert_entry(entries.subrange(1, entries.len() as int), key, val)
    }
}

/// Storing under a key that no entry holds appends the new entry.
pub proof fn lemma_upsert_entry_absent(
    entries: Seq<(Seq<u8>, ValueModel)>,
    key: Seq<u8>,
    val: ValueModel,
)
    requires
        forall|i: int| 0 <= i < entries.len() ==> (#[trigger] entries[i]).0 != key,
    ensures
        upsert_entry(entries, key, val) == entries.push((key, val)),
    decreases entries.len(),
{
    if entries.len() == 0 {
        assert(upsert_entry(entries, key, val) =~= entries.push((key, val)));
    } else {
        let rest = entries.subrange(1, entries.len() as int);
        assert(forall|i: int| 0 <= i < rest.len() ==> (#[trigger] rest[i]).0 != key);
        lemma_upsert_entry_absent(rest, key, val);
        assert(upsert_entry(entries, key, val) =~= entries.push((key, val)));
    }
}

/// Storing under the key of an existing entry replaces that entry's
/// value in place; the first such entry is the one replaced.
pub proof fn lemma_upsert_entry_found(
    entries: Seq<(Seq<u8>, ValueModel)>,
    key: Seq<u8>,
    val: ValueModel,
    at: int,
)
    requires
        0 <= at < entries.len(),
        entries[at].0 == key,
        forall|i: int| 0 <= i < at ==> (#[trigger] entries[i]).0 != key,
    ensures
        upsert_entry(entries, key, val) == entries.update(at, (key, val)),
    decreases entries.len(),
{
    let rest = entries.subrange(1, entries.len() as int);
    if at == 0 {
        assert(upsert_entry(entries, key, val) =~= entries.update(0, (key, val)));
    } else {
        assert(rest[at - 1] == entries[at]);
        assert(forall|i: int| 0 <= i < at - 1 ==> (#[trigger] rest[i]).0 != key);
        lemma_upsert_entry_found(rest, key, val, at - 1);
        assert(upsert_entry(entries, key, val) =~= entries.update(at, (key, val)));
    }
}

/// Whether two byte vectors hold the same bytes.
pub fn bytes_eq(a: &Vec<u8>, b: &Vec<u8>) -> (eq: bool)
    ensures
        eq == (a@ == b@),
{
    if a.len() != b.len() {
        return false;
    }
    let mut i: usize = 0;
    while i < a.len()
        invariant
            i <= a@.len(),
            a@.len() == b@.len(),
            forall|j: int| 0 <= j < i ==> a@[j] == b@[j],
        decreases a@.len() - i,
    {
        if a[i] != b[i] {
            return false;
        }
        i = i + 1;
    }
    proof {
        assert(a@ =~= b@);
    }
    true
}

/// Store `val` under `key` in an entry vector, replacing the value of an
/// existing entry with that key or appending a fresh entry.
pub fn upsert(entries: &mut Vec<(Vec<u8>, Value)>, key: Vec<u8>, val: Value)
    ensures
        entries_model(final(entries)@) == upsert_entry(
            entries_model(old(entries)@),
            key@,
            value_model(val),
        ),
{
    let ghost before = entries@;
    let mut i: usize = 0;
    while i < entries.len()
        invariant
            before == old(entries)@,
            entries@ == before,
            i <= before.len(),
            forall|j: int| 0 <= j < i ==> (#[trigger] before[j]).0@ != key@,
        decreases before.len() - i,
    {
        if bytes_eq(&entries[i].0, &key) {
            let ghost model_before = entries_model(before);
            entries.set(i, (key, val));
            proof {
                lemma_entries_model_index(before);
                lemma_entries_model_index(entries@);
                lemma_upsert_entry_found(
                    model_before,
                    entries@[i as int].0@,
                    value_model(entries@[i as int].1),
                    i as int,
                );
                assert(entries_model(entries@) =~= model_before.update(
                    i as int,
                    (entries@[i as int].0@, value_model(entries@[i as int].1)),
                ));
            }
            return ;
        }
        i = i + 1;
    }
    let ghost model_before = entries_model(before);
    entries.push((key, val));
    proof {
        lemma_entries_model_index(before);
        lemma_entries_model_index(entries@);
        lemma_upsert_entry_absent(
            model_before,
            entries@[before.len() as int].0@,
            value_model(entries@[before.len() as int].1),
        );
        assert(entries_model(entries@) =~= model_before.push(
            (entries@[before.len() as int].0@, value_model(entries@[before.len() as int].1)),
        ));
    }
}

impl From<bool> for Value {
    /// A boolean value.
    fn from(flag: bool) -> (v: Value) {
        Value::Boolean(flag)
    }
}

impl vstd::std_specs::convert::FromSpecImpl<bool> for Value {
    open spec fn obeys_from_spec() -> bool {
        true
    }

    open spec fn from_spec(flag: bool) -> Value {
        Value::Boolean(flag)
    }
}

impl From<Vec<u8>> for Value {
    /// A string value holding `text`.
    fn from(text: Vec<u8>) -> (v: Value) {
        Value::String(text)
    }
}

impl vstd::std_specs::convert::FromSpecImpl<Vec<u8>> for Value {
    open spec fn obeys_from_spec() -> bool {
        true
    }

    open spec fn from_spec(text: Vec<u8>) -> Value {
        Value::String(text)
    }
}

// ---------------------------------------------------------------------------
// Well-formedness: object keys are unique throughout a tree
// ---------------------------------------------------------------------------

/// No two entries share a key.
pub open spec fn entries_wf(entries: Seq<(Seq<u8>, ValueModel)>) -> bool {
    forall|i: int, j: int|
        0 <= i < j < entries.len() ==> (#[trigger] entries[i]).0 != (#[trigger] entries[j]).0
}

/// Some entry holds this key.
pub open spec fn key_in(entries: Seq<(Seq<u8>, ValueModel)>, key: Seq<u8>) -> bool {
    exists|i: int| 0 <= i < entries.len() && (#[trigger] entries[i]).0 == key
}

/// Every value of the entry sequence is well formed.
pub open spec fn entry_values_wf(entries: Seq<(Seq<u8>, ValueModel)>) -> bool
    decreases entries,
{
    if entries.len() == 0 {
        true
    } else {
        value_wf(entries[0].1) && entry_values_wf(entries.subrange(1, entries.len() as int))
    }
}

/// Every value of the element sequence is well formed.
pub open spec fn values_wf(elems: Seq<ValueModel>) -> bool
    decreases elems,
{
    if elems.len() == 0 {
        true
    } else {
        value_wf(elems[0]) && values_wf(elems.subrange(1, elems.len() as int))
    }
}

/// A value is well formed when every object anywhere in it has unique
/// keys.
pub open spec fn value_wf(v: ValueModel) -> bool
    decreases v,
{
    match v {
        ValueModel::Object(entries) => entries_wf(entries) && entry_values_wf(entries),
        ValueModel::Array(elems) => values_wf(elems),
        _ => true,
    }
}

/// A document value is well formed when every object in it has unique
/// keys.
pub open spec fn root_wf(root: RootModel) -> bool {
    match root {
        RootModel::Object(entries) => entries_wf(entries) && entry_values_wf(entries),
        RootModel::Array(elems) => values_wf(elems),
    }
}

/// An element appended to a well-formed element sequence keeps it well
/// formed.
pub proof fn lemma_values_wf_push(elems: Seq<ValueModel>, v: ValueModel)
    requires
        values_wf(elems),
        value_wf(v),
    ensures
        values_wf(elems.push(v)),
    decreases elems.len(),
{
    if elems.len() == 0 {
        assert(elems.push(v)[0] == v);
        assert(elems.push(v).subrange(1, 1) =~= Seq::<ValueModel>::empty());
        assert(values_wf(Seq::<ValueModel>::empty()));
        assert(elems.push(v).len() == 1);
        assert(values_wf(elems.push(v)) == (value_wf(elems.push(v)[0]) && values_wf(
            elems.push(v).subrange(1, 1),
        )));
        assert(values_wf(elems.push(v)));
    } else {
        let rest = elems.subrange(1, elems.len() as int);
        lemma_values_wf_push(rest, v);
        assert(elems.push(v)[0] == elems[0]);
        assert(elems.push(v).subrange(1, elems.len() as int + 1) =~= rest.push(v));
        assert(values_wf(elems.push(v)));
    }
}

/// Storing a well-formed value in a well-formed entry sequence keeps it
/// well formed: keys stay unique, and every key of the result was a key
/// before or is the stored one.
pub proof fn lemma_upsert_entry_wf(
    entries: Seq<(Seq<u8>, ValueModel)>,
    key: Seq<u8>,
    val: ValueModel,
)
    requires
        entries_wf(entries),
        entry_values_wf(entries),
        value_wf(val),
    ensures
        entries_wf(upsert_entry(entries, key, val)),
        entry_values_wf(upsert_entry(entries, key, val)),
        forall|j: int|
            0 <= j < upsert_entry(entries, key, val).len() ==> (#[trigger] upsert_entry(
                entries,
                key,
                val,
            )[j]).0 == key || key_in(entries, upsert_entry(entries, key, val)[j].0),
    decreases entries.len(),
{
    let up = upsert_entry(entries, key, val);
    if entries.len() == 0 {
        assert(up =~= seq![(key, val)]);
        assert(up[0] == (key, val));
        assert(up.subrange(1, 1) =~= Seq::<(Seq<u8>, ValueModel)>::empty());
        assert(entry_values_wf(Seq::<(Seq<u8>, ValueModel)>::empty()));
        assert(up.len() == 1);
        assert(entry_values_wf(up) == (value_wf(up[0].1) && entry_values_wf(up.subrange(1, 1))));
    } else {
        let rest = entries.subrange(1, entries.len() as int);
        assert(forall|i: int| 0 <= i < rest.len() ==> rest[i] == entries[i + 1]);
        if entries[0].0 == key {
            assert(up =~= seq![(key, val)] + rest);
            assert(up[0] == (key, val));
            assert(up.subrange(1, up.len() as int) =~= rest);
            assert(entry_values_wf(up));
            assert forall|j: int| 0 <= j < up.len() implies (#[trigger] up[j]).0 == key || key_in(
                entries,
                up[j].0,
            ) by {
                if j > 0 {
                    assert(entries[j].0 == up[j].0);
                }
            }
        } else {
            lemma_upsert_entry_wf(rest, key, val);
            let up_rest = upsert_entry(rest, key, val);
            assert(up =~= seq![entries[0]] + up_rest);
            assert(up[0] == entries[0]);
            assert(up.subrange(1, up.len() as int) =~= up_rest);
            assert(value_wf(up[0].1));
            assert(entry_values_wf(up));
            // the head key differs from every key of the upserted rest
            assert forall|j: int| 1 <= j < up.len() implies up[0].0 != (#[trigger] up[j]).0 by {
                assert(up[j] == up_rest[j - 1]);
                if up_rest[j - 1].0 == key {
                } else {
                    let i = choose|i: int|
                        0 <= i < rest.len() && (#[trigger] rest[i]).0 == up_rest[j - 1].0;
                    assert(entries[i + 1].0 == up_rest[j - 1].0);
                }
            }
            assert forall|j: int| 0 <= j < up.len() implies (#[trigger] up[j]).0 == key || key_in(
                entries,
                up[j].0,
            ) by {
                if j == 0 {
                    assert(entries[0].0 == up[0].0);
                } else {
                    assert(up[j] == up_rest[j - 1]);
                    if up_rest[j - 1].0 != key {
                        let i = choose|i: int|
                            0 <= i < rest.len() && (#[trigger] rest[i]).0 == up_rest[j - 1].0;
                        assert(entries[i + 1].0 == up_rest[j - 1].0);
                    }
                }
            }
        }
    }
}

// ---------------------------------------------------------------------------
// Objects as maps
// ---------------------------------------------------------------------------

/// The mapping an entry sequence denotes. On the unique-keyed sequences
/// the parser builds, each key maps to the value stored beside it.
pub open spec fn entry_map(entries: Seq<(Seq<u8>, ValueModel)>) -> Map<Seq<u8>, ValueModel>
    decreases entries,
{
    if entries.len() == 0 {
        Map::empty()
    } else {
        entry_map(entries.subrange(1, entries.len() as int)).insert(entries[0].0, entries[0].1)
    }
}

/// Last write wins: storing a value under a key makes the object map
/// that key to that value and leaves every other binding unchanged, so
/// when a source document repeats a key, the later occurrence's value
/// replaces the earlier one.
pub proof fn lemma_upsert_entry_last_wins(
    entries: Seq<(Seq<u8>, ValueModel)>,
    key: Seq<u8>,
    val: ValueModel,
)
    ensures
        entry_map(upsert_entry(entries, key, val)) == entry_map(entries).insert(key, val),
    decreases entries.len(),
{
    let up = upsert_entry(entries, key, val);
    if entries.len() == 0 {
        assert(up.subrange(1, 1) =~= Seq::<(Seq<u8>, ValueModel)>::empty());
        assert(up[0] == (key, val));
        assert(up.len() == 1);
        assert(entry_map(up) == entry_map(up.subrange(1, 1)).insert(up[0].0, up[0].1));
        assert(entry_map(Seq::<(Seq<u8>, ValueModel)>::empty()) == Map::<
            Seq<u8>,
            ValueModel,
        >::empty());
        assert(entry_map(up) =~= entry_map(entries).insert(key, val));
    } else {
        let rest = entries.subrange(1, entries.len() as int);
        if entries[0].0 == key {
            assert(up =~= seq![(key, val)] + rest);
            assert(up[0] == (key, val));
            assert(up.subrange(1, up.len() as int) =~= rest);
            assert(entry_map(up) == entry_map(rest).insert(key, val));
            assert(entry_map(entries) == entry_map(rest).insert(key, entries[0].1));
            assert(entry_map(up) =~= entry_map(entries).insert(key, val));
        } else {
            lemma_upsert_entry_last_wins(rest, key, val);
            let up_rest = upsert_entry(rest, key, val);
            assert(up =~= seq![entries[0]] + up_rest);
            assert(up[0] == entries[0]);
            assert(up.subrange(1, up.len() as int) =~= up_rest);
            assert(entry_map(up) == entry_map(up_rest).insert(entries[0].0, entries[0].1));
            assert(entry_map(up) =~= entry_map(entries).insert(key, val));
        }
    }
}

} // verus!
