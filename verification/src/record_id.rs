//! Record identifiers as plain data: a table name and a key, with the key's
//! generic value shape.
//!
//! These types exist only as serialization payload. The one piece of logic
//! they carry is the decode decision for a key arriving as a key/value
//! object: when the object holds exactly one field whose name is a known
//! tag and whose value has that tag's shape, the key takes that concrete
//! variant; otherwise the whole object is kept as a generic object value.

use vstd::prelude::*;

verus! {

/// A generic value inside a record identifier. Floats are carried as their
/// raw double-precision bit pattern.
#[derive(Debug)]
pub enum RecordIdValue {
    Null,
    Bool(bool),
    Number(i64),
    Float(u64),
    Text(String),
    Array(Vec<RecordIdValue>),
    Object(Vec<(String, RecordIdValue)>),
}

/// The key part of a record identifier.
#[derive(Debug)]
pub enum RecordIdKey {
    Number(i64),
    Text(String),
    Uuid(String),
    Array(Vec<RecordIdValue>),
    Object(Vec<(String, RecordIdValue)>),
}

/// A record identifier: a table name and a key within the table.
#[derive(Debug)]
pub struct RecordId {
    pub tb: String,
    pub id: RecordIdKey,
}

impl RecordId {
    /// An identifier with a plain text key.
    pub fn new(tb: String, id: String) -> (r: Self)
        ensures
            r.tb@ == tb@,
            r.id is Text,
            r.id->Text_0@ == id@,
    {
        RecordId { tb, id: RecordIdKey::Text(id) }
    }
}

/// Decides the key shape of a key that arrived as a decoded key/value
/// object: exactly one field whose name is a known tag, with a value of
/// that tag's shape, selects the concrete variant; anything else is kept as
/// a generic object value.
pub fn key_from_fields(fields: Vec<(String, RecordIdValue)>) -> (r: RecordIdKey)
    ensures
        ({
            let fs = fields@;
            if fs.len() == 1 {
                let name = fs[0].0@;
                let val = fs[0].1;
                if name == ("String")@ && val is Text {
                    r == RecordIdKey::Text(val->Text_0)
                } else if (name == ("Number")@ || name == ("Integer")@) && val is Number {
                    r == RecordIdKey::Number(val->Number_0)
                } else if name == ("Uuid")@ && val is Text {
                    r == RecordIdKey::Uuid(val->Text_0)
                } else if name == ("Array")@ && val is Array {
                    r == RecordIdKey::Array(val->Array_0)
                } else if name == ("Object")@ && val is Object {
                    r == RecordIdKey::Object(val->Object_0)
                } else {
                    r is Object && r->Object_0@ == fs
                }
            } else {
                r is Object && r->Object_0@ == fs
            }
        }),
{
    if fields.len() != 1 {
        return RecordIdKey::Object(fields);
    }
    let ghost fs = fields@;
    let mut fields = fields;
    let (name, val) = fields.remove(0);
    proof {
        assert(fs[0] == (name, val));
    }
    let is_string_tag = name.eq(&String::from_str("String"));
    let is_number_tag = name.eq(&String::from_str("Number"));
    let is_integer_tag = name.eq(&String::from_str("Integer"));
    let is_uuid_tag = name.eq(&String::from_str("Uuid"));
    let is_array_tag = name.eq(&String::from_str("Array"));
    let is_object_tag = name.eq(&String::from_str("Object"));
    match val {
        RecordIdValue::Text(v) => {
            if is_string_tag {
                RecordIdKey::Text(v)
            } else if is_uuid_tag {
                RecordIdKey::Uuid(v)
            } else {
                let mut back: Vec<(String, RecordIdValue)> = Vec::new();
                back.push((name, RecordIdValue::Text(v)));
                proof {
                    assert(back@ =~= fs);
                }
                RecordIdKey::Object(back)
            }
        },
        RecordIdValue::Number(v) => {
            if is_number_tag || is_integer_tag {
                RecordIdKey::Number(v)
            } else {
                let mut back: Vec<(String, RecordIdValue)> = Vec::new();
                back.push((name, RecordIdValue::Number(v)));
                proof {
                    assert(back@ =~= fs);
                }
                RecordIdKey::Object(back)
            }
        },
        RecordIdValue::Array(v) => {
            if is_array_tag {
                RecordIdKey::Array(v)
            } else {
                let mut back: Vec<(String, RecordIdValue)> = Vec::new();
                back.push((name, RecordIdValue::Array(v)));
                proof {
                    assert(back@ =~= fs);
                }
                RecordIdKey::Object(back)
            }
        },
        RecordIdValue::Object(v) => {
            if is_object_tag {
                RecordIdKey::Object(v)
            } else {
                let mut back: Vec<(String, RecordIdValue)> = Vec::new();
                back.push((name, RecordIdValue::Object(v)));
                proof {
                    assert(back@ =~= fs);
                }
                RecordIdKey::Object(back)
            }
        },
        other => {
            let mut back: Vec<(String, RecordIdValue)> = Vec::new();
            back.push((name, other));
            proof {
                assert(back@ =~= fs);
            }
            RecordIdKey::Object(back)
        },
    }
}

} // verus!
