//! The wire-level record model: one logical record is a normalized key with
//! named, typed values, and the physical payload stored at one address is a
//! bucket holding every record whose key collides there.

use vstd::prelude::*;

use crate::error::BuildError;

verus! {

/// The mathematical value of a [`ValueType`].
pub enum ValueV {
    Int32(i32),
    Int64(i64),
    UInt32(u32),
    UInt64(u64),
    Str(Seq<char>),
    Bytes(Seq<u8>),
}

/// One primitive value a record can hold.
#[derive(Debug, PartialEq)]
pub enum ValueType {
    Int32(i32),
    Int64(i64),
    UInt32(u32),
    UInt64(u64),
    String(String),
    Bytes(Vec<u8>),
}

impl View for ValueType {
    type V = ValueV;

    open spec fn view(&self) -> ValueV {
        match self {
            ValueType::Int32(x) => ValueV::Int32(*x),
            ValueType::Int64(x) => ValueV::Int64(*x),
            ValueType::UInt32(x) => ValueV::UInt32(*x),
            ValueType::UInt64(x) => ValueV::UInt64(*x),
            ValueType::String(s) => ValueV::Str(s@),
            ValueType::Bytes(b) => ValueV::Bytes(b@),
        }
    }
}

impl DeepView for ValueType {
    type V = ValueV;

    open spec fn deep_view(&self) -> ValueV {
        self.view()
    }
}

/// The mathematical value of a [`StateEntryValue`].
pub struct StateEntryValueV {
    pub key: Seq<char>,
    pub value: ValueV,
}

/// One named value inside a record.
#[derive(Debug, PartialEq)]
pub struct StateEntryValue {
    pub key: String,
    pub value: ValueType,
}

impl View for StateEntryValue {
    type V = StateEntryValueV;

    open spec fn view(&self) -> StateEntryValueV {
        StateEntryValueV { key: self.key@, value: self.value@ }
    }
}

impl DeepView for StateEntryValue {
    type V = StateEntryValueV;

    open spec fn deep_view(&self) -> StateEntryValueV {
        self.view()
    }
}

impl StateEntryValue {
    /// The name this value is stored under.
    pub fn key(&self) -> (r: &String)
        ensures
            r@ == self@.key,
    {
        &self.key
    }

    /// The value itself.
    pub fn value(&self) -> (r: &ValueType)
        ensures
            r@ == self@.value,
    {
        &self.value
    }
}

/// The mathematical value of a [`StateEntry`].
pub struct StateEntryV {
    pub normalized_key: Seq<char>,
    pub values: Seq<StateEntryValueV>,
}

/// One logical record: a normalized key and its named values. Within one
/// record the names are unique.
#[derive(Debug, PartialEq)]
pub struct StateEntry {
    pub normalized_key: String,
    pub state_entry_values: Vec<StateEntryValue>,
}

impl View for StateEntry {
    type V = StateEntryV;

    open spec fn view(&self) -> StateEntryV {
        StateEntryV {
            normalized_key: self.normalized_key@,
            values: self.state_entry_values.deep_view(),
        }
    }
}

impl DeepView for StateEntry {
    type V = StateEntryV;

    open spec fn deep_view(&self) -> StateEntryV {
        self.view()
    }
}

impl StateEntry {
    /// The normalized key this record is filed under.
    pub fn normalized_key(&self) -> (r: &String)
        ensures
            r@ == self@.normalized_key,
    {
        &self.normalized_key
    }

    /// The named values of this record.
    pub fn state_entry_values(&self) -> (r: &Vec<StateEntryValue>)
        ensures
            r.deep_view() == self@.values,
    {
        &self.state_entry_values
    }
}

/// The physical payload stored at one radix address: the ordered list of
/// records whose normalized keys collide there. No two records of one list
/// share a normalized key, and an empty list is deleted from the store
/// rather than stored.
#[derive(Debug, PartialEq)]
pub struct StateEntryList {
    pub entries: Vec<StateEntry>,
}

impl View for StateEntryList {
    type V = Seq<StateEntryV>;

    open spec fn view(&self) -> Seq<StateEntryV> {
        self.entries.deep_view()
    }
}

impl DeepView for StateEntryList {
    type V = Seq<StateEntryV>;

    open spec fn deep_view(&self) -> Seq<StateEntryV> {
        self.view()
    }
}

impl StateEntryList {
    /// The records of this list.
    pub fn entries(&self) -> (r: &Vec<StateEntry>)
        ensures
            r.deep_view() == self@,
    {
        &self.entries
    }

    /// Whether some record of this list is filed under the given normalized
    /// key.
    pub fn contains(&self, key: String) -> (r: bool)
        ensures
            r == exists|i: int|
                0 <= i < self@.len() && (#[trigger] self@[i]).normalized_key == key@,
    {
        let mut idx: usize = 0;
        while idx < self.entries.len()
            invariant
                0 <= idx <= self.entries.len(),
                self@.len() == self.entries.len(),
                forall|i: int| 0 <= i < idx ==> (#[trigger] self@[i]).normalized_key != key@,
            decreases self.entries.len() - idx,
        {
            if *self.entries[idx].normalized_key() == key {
                proof {
                    assert((self@[idx as int]).normalized_key == key@);
                }
                return true;
            }
            idx += 1;
        }
        false
    }
}


impl Clone for ValueType {
    /// A clone carries the same mathematical value.
    fn clone(&self) -> (r: ValueType)
        ensures
            r@ == self@,
    {
        match self {
            ValueType::Int32(x) => ValueType::Int32(*x),
            ValueType::Int64(x) => ValueType::Int64(*x),
            ValueType::UInt32(x) => ValueType::UInt32(*x),
            ValueType::UInt64(x) => ValueType::UInt64(*x),
            ValueType::String(s) => ValueType::String(s.clone()),
            ValueType::Bytes(b) => {
                let cloned_bytes = b.clone();
                proof {
                    assert forall|i: int| 0 <= i < b@.len() implies cloned_bytes@[i] == b@[i] by {
                        assert(vstd::pervasive::cloned::<u8>(b[i], cloned_bytes[i]));
                    }
                    assert(cloned_bytes@ =~= b@);
                }
                ValueType::Bytes(cloned_bytes)
            },
        }
    }
}

impl Clone for StateEntryValue {
    /// A clone carries the same mathematical value.
    fn clone(&self) -> (r: StateEntryValue)
        ensures
            r@ == self@,
    {
        StateEntryValue { key: self.key.clone(), value: self.value.clone() }
    }
}

/// A clone of a vector of named values carries the same mathematical
/// values.
pub fn clone_values(vs: &Vec<StateEntryValue>) -> (r: Vec<StateEntryValue>)
    ensures
        r.deep_view() == vs.deep_view(),
{
    let r = vs.clone();
    proof {
        assert forall|i: int| 0 <= i < vs@.len() implies r.deep_view()[i] == vs.deep_view()[i] by {
            assert(vstd::pervasive::cloned::<StateEntryValue>(vs[i], r[i]));
        }
        assert(r.deep_view() =~= vs.deep_view());
    }
    r
}

impl Clone for StateEntry {
    /// A clone carries the same mathematical value.
    fn clone(&self) -> (r: StateEntry)
        ensures
            r@ == self@,
    {
        StateEntry {
            normalized_key: self.normalized_key.clone(),
            state_entry_values: clone_values(&self.state_entry_values),
        }
    }
}

/// A clone of a vector of records carries the same mathematical values.
pub fn clone_entries(es: &Vec<StateEntry>) -> (r: Vec<StateEntry>)
    ensures
        r.deep_view() == es.deep_view(),
{
    let r = es.clone();
    proof {
        assert forall|i: int| 0 <= i < es@.len() implies r.deep_view()[i] == es.deep_view()[i] by {
            assert(vstd::pervasive::cloned::<StateEntry>(es[i], r[i]));
        }
        assert(r.deep_view() =~= es.deep_view());
    }
    r
}

impl Clone for StateEntryList {
    /// A clone carries the same mathematical value.
    fn clone(&self) -> (r: StateEntryList)
        ensures
            r@ == self@,
    {
        StateEntryList { entries: clone_entries(&self.entries) }
    }
}

/// Builds a [`StateEntryValue`]; both the name and the value are required.
pub struct StateEntryValueBuilder {
    pub key: Option<String>,
    pub value: Option<ValueType>,
}

impl StateEntryValueBuilder {
    pub fn new() -> (r: StateEntryValueBuilder)
        ensures
            r.key is None,
            r.value is None,
    {
        StateEntryValueBuilder { key: None, value: None }
    }

    pub fn with_key(self, key: String) -> (r: StateEntryValueBuilder)
        ensures
            r.key == Some(key),
            r.value == self.value,
    {
        StateEntryValueBuilder { key: Some(key), ..self }
    }

    pub fn with_value(self, value: ValueType) -> (r: StateEntryValueBuilder)
        ensures
            r.key == self.key,
            r.value == Some(value),
    {
        StateEntryValueBuilder { value: Some(value), ..self }
    }

    /// Fails exactly when a required field was never supplied.
    pub fn build(self) -> (r: Result<StateEntryValue, BuildError>)
        ensures
            match r {
                Ok(v) => {
                    &&& self.key matches Some(k) && v@.key == k@
                    &&& self.value matches Some(val) && v@.value == val@
                },
                Err(e) => (self.key is None || self.value is None) && e matches
                    BuildError::MissingField(_),
            },
    {
        let key = match self.key {
            Some(k) => k,
            None => {
                return Err(BuildError::MissingField("'key' field is required".to_owned()));
            },
        };
        let value = match self.value {
            Some(v) => v,
            None => {
                return Err(BuildError::MissingField("'value' field is required".to_owned()));
            },
        };
        Ok(StateEntryValue { key, value })
    }
}

/// Builds a [`StateEntry`]; both the normalized key and the values are
/// required.
pub struct StateEntryBuilder {
    pub normalized_key: Option<String>,
    pub state_entry_values: Option<Vec<StateEntryValue>>,
}

impl StateEntryBuilder {
    pub fn new() -> (r: StateEntryBuilder)
        ensures
            r.normalized_key is None,
            r.state_entry_values is None,
    {
        StateEntryBuilder { normalized_key: None, state_entry_values: None }
    }

    pub fn with_normalized_key(self, normalized_key: String) -> (r: StateEntryBuilder)
        ensures
            r.normalized_key == Some(normalized_key),
            r.state_entry_values == self.state_entry_values,
    {
        StateEntryBuilder { normalized_key: Some(normalized_key), ..self }
    }

    pub fn with_state_entry_values(self, state_entry_values: Vec<StateEntryValue>) -> (r:
        StateEntryBuilder)
        ensures
            r.normalized_key == self.normalized_key,
            r.state_entry_values == Some(state_entry_values),
    {
        StateEntryBuilder { state_entry_values: Some(state_entry_values), ..self }
    }

    /// Fails exactly when a required field was never supplied.
    pub fn build(self) -> (r: Result<StateEntry, BuildError>)
        ensures
            match r {
                Ok(e) => {
                    &&& self.normalized_key matches Some(k) && e@.normalized_key == k@
                    &&& self.state_entry_values matches Some(vs) && e@.values == vs.deep_view()
                },
                Err(e) => (self.normalized_key is None || self.state_entry_values is None)
                    && e matches BuildError::MissingField(_),
            },
    {
        let normalized_key = match self.normalized_key {
            Some(k) => k,
            None => {
                return Err(
                    BuildError::MissingField("'normalized_key' field is required".to_owned()),
                );
            },
        };
        let state_entry_values = match self.state_entry_values {
            Some(v) => v,
            None => {
                return Err(
                    BuildError::MissingField("'state_entry_values' field is required".to_owned()),
                );
            },
        };
        Ok(StateEntry { normalized_key, state_entry_values })
    }
}

/// Builds a [`StateEntryList`]; the list of records is required.
pub struct StateEntryListBuilder {
    pub state_entries: Option<Vec<StateEntry>>,
}

impl StateEntryListBuilder {
    pub fn new() -> (r: StateEntryListBuilder)
        ensures
            r.state_entries is None,
    {
        StateEntryListBuilder { state_entries: None }
    }

    pub fn with_state_entries(self, state_entries: Vec<StateEntry>) -> (r: StateEntryListBuilder)
        ensures
            r.state_entries == Some(state_entries),
    {
        StateEntryListBuilder { state_entries: Some(state_entries) }
    }

    /// Fails exactly when the list of records was never supplied.
    pub fn build(self) -> (r: Result<StateEntryList, BuildError>)
        ensures
            match r {
                Ok(l) => self.state_entries matches Some(es) && l@ == es.deep_view(),
                Err(e) => self.state_entries is None && e matches BuildError::MissingField(_),
            },
    {
        let state_entries = match self.state_entries {
            Some(e) => e,
            None => {
                return Err(
                    BuildError::MissingField("'state_entries' field is required".to_owned()),
                );
            },
        };
        Ok(StateEntryList { entries: state_entries })
    }
}

} // verus!
