use vstd::prelude::*;

verus! {

/// The static types of the language.
#[derive(Clone, Copy, Debug, PartialEq, Eq, Structural)]
pub enum Type {
    Number,
    String,
    Boolean,
    Void,
    Unknown,
}

/// How a type is written in diagnostics.
pub open spec fn name_of_type(t: Type) -> Seq<char> {
    match t {
        Type::Number => "number"@,
        Type::String => "string"@,
        Type::Boolean => "bool"@,
        Type::Void => "void"@,
        Type::Unknown => "unknown"@,
    }
}

/// The type a type annotation names: `number`, `string`, `bool` or `void`.
pub open spec fn annotated_type(name: Seq<char>) -> Option<Type> {
    if name == "number"@ {
        Some(Type::Number)
    } else if name == "string"@ {
        Some(Type::String)
    } else if name == "bool"@ {
        Some(Type::Boolean)
    } else if name == "void"@ {
        Some(Type::Void)
    } else {
        None
    }
}

impl Type {
    /// The name of the type as diagnostics write it.
    pub fn name(&self) -> (s: &'static str)
        ensures
            s@ == name_of_type(*self),
    {
        match self {
            Type::Number => "number",
            Type::String => "string",
            Type::Boolean => "bool",
            Type::Void => "void",
            Type::Unknown => "unknown",
        }
    }

    /// The type named by a type annotation, if the name is one.
    pub fn from_annotation(name: &String) -> (t: Option<Type>)
        ensures
            t == annotated_type(name@),
    {
        if name.eq(&String::from_str("number")) {
            Some(Type::Number)
        } else if name.eq(&String::from_str("string")) {
            Some(Type::String)
        } else if name.eq(&String::from_str("bool")) {
            Some(Type::Boolean)
        } else if name.eq(&String::from_str("void")) {
            Some(Type::Void)
        } else {
            None
        }
    }
}

} // verus!
