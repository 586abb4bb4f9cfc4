use vstd::prelude::*;
use vstd::std_specs::vec::axiom_vec_index_decreases;

verus! {

#[verifier::external_type_specification]
pub struct ExYamlValue(serde_yaml::Value);

#[verifier::external_type_specification]
#[verifier::external_body]
pub struct ExYamlNumber(serde_yaml::Number);

#[verifier::external_type_specification]
#[verifier::external_body]
pub struct ExYamlMapping(serde_yaml::Mapping);

#[verifier::external_type_specification]
#[verifier::external_body]
pub struct ExYamlTaggedValue(serde_yaml::value::TaggedValue);

#[verifier::external_type_specification]
#[verifier::external_body]
pub struct ExYamlError(serde_yaml::Error);

/// A structured value: nested mappings and sequences over scalars.
///
/// A floating-point number is held as its default decimal rendering (`2.5`,
/// `inf`, `NaN`), which is what the serializer emits for it.
#[derive(Debug)]
pub enum StructuredValue {
    /// Ordered entries with text keys.
    Mapping(Vec<(String, StructuredValue)>),
    Sequence(Vec<StructuredValue>),
    Boolean(bool),
    Integer(i64),
    FloatingPoint(String),
    Text(String),
    Absent,
}

/// Why a structured value could not be serialized.
#[derive(Debug, PartialEq, Eq)]
pub enum SerializationError {
    /// A mapping holds this key more than once.
    DuplicateKey(String),
    /// The YAML writer refused the tree, with its message.
    Writer(String),
}

/// The YAML number that `serde_yaml::Number::from` builds from an integer.
pub uninterp spec fn number_of_i64(i: i64) -> serde_yaml::Number;

/// The key-value pairs of a YAML mapping, in insertion order.
pub uninterp spec fn mapping_entries(m: serde_yaml::Mapping) -> Seq<(serde_yaml::Value, serde_yaml::Value)>;

/// What `serde_yaml::to_string` yields for a YAML value: its text, or `None`
/// where the writer refuses it.
pub uninterp spec fn yaml_rendering(t: serde_yaml::Value) -> Option<Seq<char>>;

impl StructuredValue {
    /// Some mapping, at any depth, holds the key `key` twice.
    pub open spec fn repeats_key(self, key: Seq<char>) -> bool
        decreases self,
    {
        match self {
            StructuredValue::Mapping(entries) => {
                ||| exists|a: int, b: int|
                    #![trigger entries@[a], entries@[b]]
                    0 <= a < b < entries.len() && entries@[a].0@ == key && entries@[b].0@ == key
                ||| exists|k: int|
                    0 <= k < entries.len() && (#[trigger] entries@[k]).1.repeats_key(key)
            },
            StructuredValue::Sequence(items) => exists|k: int|
                0 <= k < items.len() && (#[trigger] items@[k]).repeats_key(key),
            _ => false,
        }
    }

    /// No mapping, at any depth, holds a key twice.
    pub open spec fn well_formed(self) -> bool
        decreases self,
    {
        match self {
            StructuredValue::Mapping(entries) => {
                &&& forall|a: int, b: int|
                    0 <= a < b < entries.len() ==> entries@[a].0@ != entries@[b].0@
                &&& forall|k: int| 0 <= k < entries.len() ==> (#[trigger] entries@[k]).1.well_formed()
            },
            StructuredValue::Sequence(items) => forall|k: int|
                0 <= k < items.len() ==> (#[trigger] items@[k]).well_formed(),
            _ => true,
        }
    }
}


/// Relies on `serde_yaml::Number::from(i64)`, whose result depends on the
/// integer alone.
#[verifier::external_body]
fn yaml_number(i: i64) -> (r: serde_yaml::Number)
    ensures
        r == number_of_i64(i),
{
    serde_yaml::Number::from(i)
}

/// Relies on `serde_yaml::Mapping::new`: an empty mapping.
#[verifier::external_body]
fn empty_mapping() -> (r: serde_yaml::Mapping)
    ensures
        mapping_entries(r) == Seq::<(serde_yaml::Value, serde_yaml::Value)>::empty(),
{
    serde_yaml::Mapping::new()
}

/// `e` is a YAML string whose text is `key`.
pub open spec fn is_string_key(e: serde_yaml::Value, key: Seq<char>) -> bool {
    e matches serde_yaml::Value::String(s) && s@ == key
}

/// Relies on `serde_yaml::Mapping::insert` (an `IndexMap` insert) with a
/// string key: an equal key keeps its place and takes the new value, else the
/// pair is appended. A string key equals only a string key with the same text.
#[verifier::external_body]
fn mapping_insert(m: &mut serde_yaml::Mapping, key: String, value: serde_yaml::Value)
    ensures
        forall|i: int|
            0 <= i < mapping_entries(*old(m)).len() && is_string_key(
                mapping_entries(*old(m))[i].0,
                key@,
            ) ==> mapping_entries(*final(m)) == mapping_entries(*old(m)).update(
                i,
                (mapping_entries(*old(m))[i].0, value),
            ),
        (forall|i: int|
            0 <= i < mapping_entries(*old(m)).len() ==> !is_string_key(
                mapping_entries(*old(m))[i].0,
                key@,
            )) ==> mapping_entries(*final(m)) == mapping_entries(*old(m)).push(
            (serde_yaml::Value::String(key), value),
        ),
{
    m.insert(serde_yaml::Value::String(key), value);
}

/// Relies on `serde_yaml::to_string`, whose outcome depends on the value alone.
#[verifier::external_body]
fn emit_yaml(t: &serde_yaml::Value) -> (r: Result<String, serde_yaml::Error>)
    ensures
        match r {
            Ok(s) => yaml_rendering(*t) == Some(s@),
            Err(_) => yaml_rendering(*t) is None,
        },
{
    serde_yaml::to_string(t)
}

/// Relies on the `Display` text of `serde_yaml::Error`.
#[verifier::external_body]
fn error_message(e: &serde_yaml::Error) -> String {
    e.to_string()
}

/// `t` is the YAML tree that stands for `v`: floating-point numbers become
/// strings of their decimal rendering, absent values become null.
pub open spec fn encodes(v: StructuredValue, t: serde_yaml::Value) -> bool
    decreases v,
{
    match v {
        StructuredValue::Mapping(entries) => t matches serde_yaml::Value::Mapping(m) && {
            let es = mapping_entries(m);
            &&& es.len() == entries.len()
            &&& forall|k: int|
                0 <= k < entries.len() ==> (#[trigger] es[k]).0 == serde_yaml::Value::String(
                    entries@[k].0,
                ) && encodes(entries@[k].1, es[k].1)
        },
        StructuredValue::Sequence(items) => t matches serde_yaml::Value::Sequence(ts) && {
            &&& ts.len() == items.len()
            &&& forall|k: int| 0 <= k < items.len() ==> encodes(items@[k], #[trigger] ts@[k])
        },
        StructuredValue::Boolean(b) => t == serde_yaml::Value::Bool(b),
        StructuredValue::Integer(i) => t == serde_yaml::Value::Number(number_of_i64(i)),
        StructuredValue::FloatingPoint(s) => t == serde_yaml::Value::String(s),
        StructuredValue::Text(s) => t == serde_yaml::Value::String(s),
        StructuredValue::Absent => t == serde_yaml::Value::Null,
    }
}

/// Builds the YAML tree that stands for `v`, depth first.
#[verifier::loop_isolation(false)]
pub fn to_yaml_value(v: &StructuredValue) -> (t: serde_yaml::Value)
    requires
        v.well_formed(),
    ensures
        encodes(*v, t),
    decreases v,
{
    match v {
        StructuredValue::Mapping(entries) => {
            let mut m = empty_mapping();
            let mut k: usize = 0;
            while k < entries.len()
                invariant
                    v.well_formed(),
                    *v == StructuredValue::Mapping(*entries),
                    k <= entries@.len(),
                    mapping_entries(m).len() == k,
                    forall|kk: int|
                        0 <= kk < k ==> (#[trigger] mapping_entries(m)[kk]).0
                            == serde_yaml::Value::String(entries@[kk].0) && encodes(
                            entries@[kk].1,
                            mapping_entries(m)[kk].1,
                        ),
                decreases entries@.len() - k,
            {
                proof {
                    axiom_vec_index_decreases(*entries, k as int);
                    assert(decreases_to!(*v => entries[k as int].1));
                    assert(entries@[k as int].1.well_formed());
                }
                let child = to_yaml_value(&entries[k].1);
                proof {
                    assert forall|i: int|
                        0 <= i < mapping_entries(m).len() implies !is_string_key(
                        mapping_entries(m)[i].0,
                        entries@[k as int].0@,
                    ) by {
                        assert(entries@[i].0@ != entries@[k as int].0@);
                    }
                }
                mapping_insert(&mut m, entries[k].0.clone(), child);
                k += 1;
            }
            serde_yaml::Value::Mapping(m)
        },
        StructuredValue::Sequence(items) => {
            let mut ts: Vec<serde_yaml::Value> = Vec::new();
            let mut k: usize = 0;
            while k < items.len()
                invariant
                    v.well_formed(),
                    *v == StructuredValue::Sequence(*items),
                    k <= items@.len(),
                    ts@.len() == k,
                    forall|kk: int| 0 <= kk < k ==> encodes(items@[kk], #[trigger] ts@[kk]),
                decreases items@.len() - k,
            {
                proof {
                    axiom_vec_index_decreases(*items, k as int);
                    assert(decreases_to!(*v => items[k as int]));
                    assert(items@[k as int].well_formed());
                }
                let child = to_yaml_value(&items[k]);
                ts.push(child);
                k += 1;
            }
            serde_yaml::Value::Sequence(ts)
        },
        StructuredValue::Boolean(b) => serde_yaml::Value::Bool(*b),
        StructuredValue::Integer(i) => serde_yaml::Value::Number(yaml_number(*i)),
        StructuredValue::FloatingPoint(s) => serde_yaml::Value::String(s.clone()),
        StructuredValue::Text(s) => serde_yaml::Value::String(s.clone()),
        StructuredValue::Absent => serde_yaml::Value::Null,
    }
}



impl StructuredValue {
    /// Whether no mapping, at any depth, holds a key twice; on failure, a key
    /// that occurs twice.
    #[verifier::loop_isolation(false)]
    pub fn duplicate_key(&self) -> (r: Option<String>)
        ensures
            r is None <==> self.well_formed(),
            r matches Some(key) ==> self.repeats_key(key@),
        decreases self,
    {
        match self {
            StructuredValue::Mapping(entries) => {
                let mut k: usize = 0;
                while k < entries.len()
                    invariant
                        k <= entries@.len(),
                        forall|a: int, b: int|
                            0 <= a < b < k ==> entries@[a].0@ != entries@[b].0@,
                        forall|kk: int|
                            0 <= kk < k ==> (#[trigger] entries@[kk]).1.well_formed(),
                    decreases entries@.len() - k,
                {
                    let mut a: usize = 0;
                    while a < k
                        invariant
                            a <= k < entries@.len(),
                            forall|aa: int| 0 <= aa < a ==> entries@[aa].0@ != entries@[k as int].0@,
                        decreases k - a,
                    {
                        if entries[a].0 == entries[k].0 {
                            let key = entries[k].0.clone();
                            assert(entries@[a as int].0@ == key@ && entries@[k as int].0@ == key@);
                            return Some(key);
                        }
                        a += 1;
                    }
                    proof {
                        axiom_vec_index_decreases(*entries, k as int);
                    }
                    let inner = entries[k].1.duplicate_key();
                    if inner.is_some() {
                        assert(entries@[k as int].1.repeats_key(inner->Some_0@));
                        return inner;
                    }
                    k += 1;
                }
                None
            },
            StructuredValue::Sequence(items) => {
                let mut k: usize = 0;
                while k < items.len()
                    invariant
                        k <= items@.len(),
                        forall|kk: int| 0 <= kk < k ==> (#[trigger] items@[kk]).well_formed(),
                    decreases items@.len() - k,
                {
                    proof {
                        axiom_vec_index_decreases(*items, k as int);
                    }
                    let inner = items[k].duplicate_key();
                    if inner.is_some() {
                        assert(items@[k as int].repeats_key(inner->Some_0@));
                        return inner;
                    }
                    k += 1;
                }
                None
            },
            _ => None,
        }
    }
}

/// Serializes a structured value to YAML text: mappings and sequences keep
/// their order, floating-point numbers appear as strings of their
/// decimal rendering, absent values as null.
pub fn serialize_structured_value(v: &StructuredValue) -> (r: Result<String, SerializationError>)
    ensures
        (r matches Err(SerializationError::DuplicateKey(_))) <==> !v.well_formed(),
        r matches Err(SerializationError::DuplicateKey(key)) ==> v.repeats_key(key@),
        v.well_formed() ==> exists|t: serde_yaml::Value|
            encodes(*v, t) && match r {
                Ok(s) => yaml_rendering(t) == Some(s@),
                Err(e) => e is Writer && yaml_rendering(t) is None,
            },
{
    match v.duplicate_key() {
        Some(key) => Err(SerializationError::DuplicateKey(key)),
        None => {
            let t = to_yaml_value(v);
            match emit_yaml(&t) {
                Ok(s) => Ok(s),
                Err(e) => Err(SerializationError::Writer(error_message(&e))),
            }
        },
    }
}

/// The part of `v` reached by following `path`, one entry or item index per
/// level.
pub open spec fn value_at(v: StructuredValue, path: Seq<int>) -> Option<StructuredValue>
    decreases path.len(),
{
    if path.len() == 0 {
        Some(v)
    } else {
        let k = path[0];
        match v {
            StructuredValue::Mapping(entries) => if 0 <= k < entries.len() {
                value_at(entries@[k].1, path.drop_first())
            } else {
                None
            },
            StructuredValue::Sequence(items) => if 0 <= k < items.len() {
                value_at(items@[k], path.drop_first())
            } else {
                None
            },
            _ => None,
        }
    }
}

/// The part of the YAML tree `t` reached by following `path`, one entry or
/// item index per level.
pub open spec fn tree_at(t: serde_yaml::Value, path: Seq<int>) -> Option<serde_yaml::Value>
    decreases path.len(),
{
    if path.len() == 0 {
        Some(t)
    } else {
        let k = path[0];
        match t {
            serde_yaml::Value::Mapping(m) => if 0 <= k < mapping_entries(m).len() {
                tree_at(mapping_entries(m)[k].1, path.drop_first())
            } else {
                None
            },
            serde_yaml::Value::Sequence(ts) => if 0 <= k < ts.len() {
                tree_at(ts@[k], path.drop_first())
            } else {
                None
            },
            _ => None,
        }
    }
}

/// At any depth, a floating-point number is handed to the writer as a string
/// holding its decimal rendering, never as a YAML number.
pub proof fn lemma_float_as_text(v: StructuredValue, t: serde_yaml::Value, path: Seq<int>)
    requires
        encodes(v, t),
        value_at(v, path) matches Some(StructuredValue::FloatingPoint(_)),
    ensures
        tree_at(t, path) == Some(
            serde_yaml::Value::String(value_at(v, path)->Some_0->FloatingPoint_0),
        ),
    decreases path.len(),
{
    if path.len() > 0 {
        let k = path[0];
        match v {
            StructuredValue::Mapping(entries) => {
                if let serde_yaml::Value::Mapping(m) = t {
                    assert(encodes(entries@[k].1, mapping_entries(m)[k].1));
                    lemma_float_as_text(entries@[k].1, mapping_entries(m)[k].1, path.drop_first());
                }
            },
            StructuredValue::Sequence(items) => {
                if let serde_yaml::Value::Sequence(ts) = t {
                    assert(encodes(items@[k], ts@[k]));
                    lemma_float_as_text(items@[k], ts@[k], path.drop_first());
                }
            },
            _ => {},
        }
    }
}

/// The tree handed to the writer keeps a mapping's keys, as strings, in the
/// mapping's order, and a sequence's length and order.
pub proof fn lemma_tree_keeps_order(v: StructuredValue, t: serde_yaml::Value)
    requires
        encodes(v, t),
    ensures
        v matches StructuredValue::Mapping(entries) ==> t matches serde_yaml::Value::Mapping(m)
            && mapping_entries(m).len() == entries@.len() && forall|k: int|
            0 <= k < entries@.len() ==> is_string_key(
                #[trigger] mapping_entries(m)[k].0,
                entries@[k].0@,
            ),
        v matches StructuredValue::Sequence(items) ==> t matches serde_yaml::Value::Sequence(ts)
            && ts@.len() == items@.len() && forall|k: int|
            0 <= k < items@.len() ==> encodes(items@[k], #[trigger] ts@[k]),
{
    if let StructuredValue::Mapping(entries) = v {
        if let serde_yaml::Value::Mapping(m) = t {
            assert forall|k: int| 0 <= k < entries@.len() implies is_string_key(
                #[trigger] mapping_entries(m)[k].0,
                entries@[k].0@,
            ) by {
                assert(mapping_entries(m)[k].0 == serde_yaml::Value::String(entries@[k].0));
            }
        }
    }
}

} // verus!
