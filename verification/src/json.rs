//! Structured values, as the export functions read them.

use vstd::prelude::*;
use crate::text::same_text;

verus! {

/// A JSON value.
pub enum JsonValue {
    Null,
    Bool(bool),
    /// A number, held as the text that JSON writes for it.
    Number(String),
    Text(String),
    Array(Vec<JsonValue>),
    Object(JsonObject),
}

/// A JSON object: its fields in order, and the compact JSON text of the
/// whole object as the codec wrote it.
pub struct JsonObject {
    /// The field names; `values` holds the value of each at the same index.
    pub keys: Vec<String>,
    pub values: Vec<JsonValue>,
    pub compact: String,
}

impl JsonObject {
    /// How many fields the object has: names without a value, or values
    /// without a name, do not count.
    pub open spec fn size(&self) -> nat {
        if self.keys@.len() <= self.values@.len() {
            self.keys@.len()
        } else {
            self.values@.len()
        }
    }

    /// The index of the first field named `key`, from `from` on.
    pub open spec fn position(&self, key: Seq<char>, from: nat) -> Option<nat>
        decreases self.size() - from,
    {
        if from >= self.size() {
            None
        } else if self.keys@[from as int]@ == key {
            Some(from)
        } else {
            self.position(key, from + 1)
        }
    }

    /// The value of the first field named `key`.
    pub open spec fn field(&self, key: Seq<char>) -> Option<JsonValue> {
        match self.position(key, 0) {
            Some(i) => Some(self.values@[i as int]),
            None => None,
        }
    }

    pub fn len(&self) -> (n: usize)
        ensures
            n == self.size(),
    {
        if self.keys.len() <= self.values.len() {
            self.keys.len()
        } else {
            self.values.len()
        }
    }

    /// The value of the first field named `key`, if the object has one.
    pub fn get(&self, key: &str) -> (r: Option<&JsonValue>)
        ensures
            match r {
                Some(v) => self.field(key@) == Some(*v),
                None => self.field(key@).is_none(),
            },
    {
        let n = self.len();
        let mut i: usize = 0;
        while i < n
            invariant
                n == self.size(),
                i <= n,
                self.position(key@, 0) == self.position(key@, i as nat),
            decreases n - i,
        {
            if same_text(self.keys[i].as_str(), key) {
                return Some(&self.values[i]);
            }
            i += 1;
        }
        None
    }
}

impl JsonValue {
    /// The value of field `key`, where this value is an object that has it.
    pub open spec fn field(&self, key: Seq<char>) -> Option<JsonValue> {
        match self {
            JsonValue::Object(o) => o.field(key),
            _ => None,
        }
    }

    /// The value of field `key`; `None` for anything but an object with
    /// such a field.
    pub fn get(&self, key: &str) -> (r: Option<&JsonValue>)
        ensures
            match r {
                Some(v) => self.field(key@) == Some(*v),
                None => self.field(key@).is_none(),
            },
    {
        match self {
            JsonValue::Object(o) => o.get(key),
            _ => None,
        }
    }
}

} // verus!
