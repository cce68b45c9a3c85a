use vstd::prelude::*;

verus! {

/// The kind of a detected field.
#[derive(Debug, Clone, Copy, PartialEq, Eq, Structural)]
pub enum FieldType {
    Text,
    Checkbox,
    Date,
    Signature,
    Number,
}

/// The field type that the model's class id stands for: class 1 is a
/// checkbox, every other class a text field.
pub open spec fn class_id_type(id: i32) -> FieldType {
    if id == 1 {
        FieldType::Checkbox
    } else {
        FieldType::Text
    }
}

/// The lowercase name under which a field type is written out.
pub open spec fn field_type_name(t: FieldType) -> Seq<char> {
    match t {
        FieldType::Text => "text"@,
        FieldType::Checkbox => "checkbox"@,
        FieldType::Date => "date"@,
        FieldType::Signature => "signature"@,
        FieldType::Number => "number"@,
    }
}

impl FieldType {
    /// Maps a class id of the model to a field type.
    pub fn from_class_id(id: i32) -> (t: FieldType)
        ensures
            t == class_id_type(id),
    {
        match id {
            0 => FieldType::Text,
            1 => FieldType::Checkbox,
            _ => FieldType::Text,
        }
    }

    /// The lowercase name of the type ("text", "checkbox", "date",
    /// "signature", "number").
    pub fn name(&self) -> (s: &'static str)
        ensures
            s@ == field_type_name(*self),
            s.is_ascii(),
    {
        match self {
            FieldType::Text => {
                proof {
                    reveal_strlit("text");
                }
                "text"
            },
            FieldType::Checkbox => {
                proof {
                    reveal_strlit("checkbox");
                }
                "checkbox"
            },
            FieldType::Date => {
                proof {
                    reveal_strlit("date");
                }
                "date"
            },
            FieldType::Signature => {
                proof {
                    reveal_strlit("signature");
                }
                "signature"
            },
            FieldType::Number => {
                proof {
                    reveal_strlit("number");
                }
                "number"
            },
        }
    }
}

} // verus!
