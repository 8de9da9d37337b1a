//! Raw records: open mappings from field names to loosely typed values.

use vstd::prelude::*;

verus! {

/// `serde_json::Value`, a JSON value of any shape. The library looks into
/// none: it carries such values from one record to another.
#[verifier::external_type_specification]
#[verifier::external_body]
pub struct ExJsonValue(serde_json::Value);

/// `serde_json::Value::clone`: the copy equals the value it was made from.
pub assume_specification[ <serde_json::Value as Clone>::clone ](v: &serde_json::Value) -> (r:
    serde_json::Value)
    ensures
        r == *v,
;

/// The value of a field: a string, an integer or a flag, which the library
/// reads,
/// or any other value, which it only carries along.
#[derive(Clone, Debug, PartialEq)]
pub enum FieldValue {
    Text(String),
    Integer(i64),
    Flag(bool),
    Other(serde_json::Value),
}

/// The model of a field value.
pub enum FieldModel {
    Text(Seq<char>),
    Integer(i64),
    Flag(bool),
    Other(serde_json::Value),
}

impl View for FieldValue {
    type V = FieldModel;

    open spec fn view(&self) -> FieldModel {
        match self {
            FieldValue::Text(s) => FieldModel::Text(s@),
            FieldValue::Integer(i) => FieldModel::Integer(*i),
            FieldValue::Flag(b) => FieldModel::Flag(*b),
            FieldValue::Other(v) => FieldModel::Other(*v),
        }
    }
}

impl FieldValue {
    /// A copy of this value.
    pub fn duplicate(&self) -> (r: FieldValue)
        ensures
            r == *self,
    {
        match self {
            FieldValue::Text(s) => FieldValue::Text(s.clone()),
            FieldValue::Integer(i) => FieldValue::Integer(*i),
            FieldValue::Flag(b) => FieldValue::Flag(*b),
            FieldValue::Other(v) => FieldValue::Other(v.clone()),
        }
    }
}

/// One field of a record.
#[derive(Clone, Debug, PartialEq)]
pub struct Field {
    pub key: String,
    pub value: FieldValue,
}

/// A raw record. Its fields are listed in some order; where a name is
/// listed more than once, the last listing counts.
#[derive(Clone, Debug, PartialEq)]
pub struct Record {
    pub fields: Vec<Field>,
}

/// The model of a record: a mapping from field names to values.
pub type RecordModel = Map<Seq<char>, FieldModel>;

/// The mapping that a list of fields stands for.
pub open spec fn fields_map(fields: Seq<Field>) -> RecordModel
    decreases fields.len(),
{
    if fields.len() == 0 {
        Map::empty()
    } else {
        fields_map(fields.drop_last()).insert(fields.last().key@, fields.last().value@)
    }
}

/// The text under `key`, if the record has a string there.
pub open spec fn text_of(m: RecordModel, key: Seq<char>) -> Option<Seq<char>> {
    if m.contains_key(key) {
        match m[key] {
            FieldModel::Text(s) => Some(s),
            _ => None,
        }
    } else {
        None
    }
}

/// One more field at the end is one more entry of the mapping, in place of
/// what its name stood for before.
pub proof fn lemma_fields_map_push(fields: Seq<Field>, f: Field)
    ensures
        fields_map(fields.push(f)) == fields_map(fields).insert(f.key@, f.value@),
{
    assert(fields.push(f).drop_last() =~= fields);
}

impl View for Record {
    type V = RecordModel;

    open spec fn view(&self) -> RecordModel {
        fields_map(self.fields@)
    }
}

impl Record {
    /// A record without fields.
    pub fn new() -> (r: Record)
        ensures
            r@ == Map::<Seq<char>, FieldModel>::empty(),
    {
        Record { fields: Vec::new() }
    }

    /// The value under `key`, if the record has the field.
    pub fn get(&self, key: &str) -> (r: Option<&FieldValue>)
        ensures
            match r {
                Some(v) => self@.contains_key(key@) && self@[key@] == v@,
                None => !self@.contains_key(key@),
            },
    {
        let wanted = key.to_owned();
        let mut found: Option<&FieldValue> = None;
        let mut i: usize = 0;
        assert(self.fields@.take(0) =~= Seq::<Field>::empty());
        while i < self.fields.len()
            invariant
                i <= self.fields.len(),
                wanted@ == key@,
                match found {
                    Some(v) => fields_map(self.fields@.take(i as int)).contains_key(key@)
                        && fields_map(self.fields@.take(i as int))[key@] == v@,
                    None => !fields_map(self.fields@.take(i as int)).contains_key(key@),
                },
            decreases self.fields.len() - i,
        {
            proof {
                assert(self.fields@.take(i + 1) =~= self.fields@.take(i as int).push(
                    self.fields@[i as int],
                ));
                lemma_fields_map_push(self.fields@.take(i as int), self.fields@[i as int]);
            }
            if self.fields[i].key == wanted {
                found = Some(&self.fields[i].value);
            }
            i += 1;
        }
        assert(self.fields@.take(self.fields.len() as int) =~= self.fields@);
        found
    }

    /// The text under `key`, if the record has a string there.
    pub fn text(&self, key: &str) -> (r: Option<&String>)
        ensures
            match r {
                Some(s) => text_of(self@, key@) == Some(s@),
                None => text_of(self@, key@).is_none(),
            },
    {
        match self.get(key) {
            Some(FieldValue::Text(s)) => Some(s),
            _ => None,
        }
    }

    /// Whether the record has a field `key`.
    pub fn has(&self, key: &str) -> (r: bool)
        ensures
            r == self@.contains_key(key@),
    {
        self.get(key).is_some()
    }

    /// Takes the field `key` out of the record.
    pub fn remove(&mut self, key: &str)
        ensures
            final(self)@ == old(self)@.remove(key@),
    {
        let wanted = key.to_owned();
        let mut kept: Vec<Field> = Vec::new();
        let mut i: usize = 0;
        assert(self.fields@.take(0) =~= Seq::<Field>::empty());
        assert(fields_map(kept@) =~= fields_map(self.fields@.take(0)).remove(key@));
        while i < self.fields.len()
            invariant
                i <= self.fields.len(),
                wanted@ == key@,
                *self == *old(self),
                fields_map(kept@) == fields_map(self.fields@.take(i as int)).remove(key@),
            decreases self.fields.len() - i,
        {
            let ghost before = kept@;
            proof {
                assert(self.fields@.take(i + 1) =~= self.fields@.take(i as int).push(
                    self.fields@[i as int],
                ));
                lemma_fields_map_push(self.fields@.take(i as int), self.fields@[i as int]);
            }
            if !(self.fields[i].key == wanted) {
                let f = Field {
                    key: self.fields[i].key.clone(),
                    value: self.fields[i].value.duplicate(),
                };
                kept.push(f);
                proof {
                    lemma_fields_map_push(before, f);
                }
            }
            assert(fields_map(kept@) =~= fields_map(self.fields@.take(i + 1)).remove(key@));
            i += 1;
        }
        assert(self.fields@.take(self.fields.len() as int) =~= self.fields@);
        self.fields = kept;
    }

    /// Puts `value` under `key`, in place of what was there.
    pub fn insert(&mut self, key: String, value: FieldValue)
        ensures
            final(self)@ == old(self)@.insert(key@, value@),
    {
        self.remove(key.as_str());
        let ghost before = self.fields@;
        let f = Field { key, value };
        self.fields.push(f);
        proof {
            lemma_fields_map_push(before, f);
            assert(old(self)@.remove(key@).insert(key@, value@) =~= old(self)@.insert(
                key@,
                value@,
            ));
        }
    }

    /// A copy of this record.
    pub fn duplicate(&self) -> (r: Record)
        ensures
            r@ == self@,
    {
        let mut fields: Vec<Field> = Vec::new();
        let mut i: usize = 0;
        while i < self.fields.len()
            invariant
                i <= self.fields.len(),
                fields@ == self.fields@.take(i as int),
            decreases self.fields.len() - i,
        {
            let f = Field {
                key: self.fields[i].key.clone(),
                value: self.fields[i].value.duplicate(),
            };
            fields.push(f);
            assert(fields@ =~= self.fields@.take(i + 1));
            i += 1;
        }
        assert(self.fields@.take(self.fields.len() as int) =~= self.fields@);
        Record { fields }
    }
}

} // verus!
