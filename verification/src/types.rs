//! The data that routes are declared with, and the values that a match
//! hands back.

use crate::methods::Methods;
use crate::scalar::int_value;
use crate::scalar::is_float_literal;
use crate::scalar::is_float_text;
use crate::scalar::parse_int;
use crate::text::contains_slash;
use crate::text::str_eq;
use crate::uuid_text::parse_uuid;
use crate::uuid_text::uuid_value;
use vstd::prelude::*;
use vstd::string::StringExecFns;

verus! {

/// What a parameter value is, as a mathematical value: texts are sequences
/// of characters.
pub enum ParamValue {
    UUID(u128),
    Int(i64),
    Float(Seq<char>),
    Str(Seq<char>),
    Path(Seq<char>),
}

/// A parsed parameter value. A UUID is held by its 128-bit value, a
/// floating-point number by the literal that was checked.
#[derive(Clone, Debug, PartialEq, Eq)]
pub enum ParamParseResult {
    UUID(u128),
    Int(i64),
    Float(String),
    Str(String),
    Path(String),
}

impl View for ParamParseResult {
    type V = ParamValue;

    open spec fn view(&self) -> ParamValue {
        match self {
            ParamParseResult::UUID(id) => ParamValue::UUID(*id),
            ParamParseResult::Int(number) => ParamValue::Int(*number),
            ParamParseResult::Float(literal) => ParamValue::Float(literal@),
            ParamParseResult::Str(text) => ParamValue::Str(text@),
            ParamParseResult::Path(text) => ParamValue::Path(text@),
        }
    }
}

/// The view of an optional parameter value.
pub open spec fn parsed_view(parsed: Option<ParamParseResult>) -> Option<ParamValue> {
    match parsed {
        Some(value) => Some(value@),
        None => None,
    }
}

/// The views of a list of parameter values.
pub open spec fn values_view(values: Seq<ParamParseResult>) -> Seq<ParamValue> {
    values.map_values(|value: ParamParseResult| value@)
}

/// The type of a path parameter. The order of the variants is the order in
/// which the types are tried on one segment.
#[derive(Copy, Clone, Debug, PartialEq, Eq, Structural, PartialOrd, Ord, Hash)]
pub enum ParamType {
    UUID,
    Int,
    Float,
    Str,
    Path,
}

/// The value of a segment read as a UUID, from what the UUID reader returned.
pub fn uuid_param(parsed: Option<u128>) -> (value: Option<ParamParseResult>)
    ensures
        parsed_view(value) == (match parsed {
            Some(id) => Some(ParamValue::UUID(id)),
            None => None,
        }),
{
    match parsed {
        Some(id) => Some(ParamParseResult::UUID(id)),
        None => None,
    }
}

impl ParamType {
    /// The place of a type in the order of trial: 0 for the first.
    pub open spec fn rank(self) -> int {
        match self {
            ParamType::UUID => 0,
            ParamType::Int => 1,
            ParamType::Float => 2,
            ParamType::Str => 3,
            ParamType::Path => 4,
        }
    }

    /// The place of a type in the order of trial.
    pub fn order(self) -> (place: u8)
        ensures
            place == self.rank(),
    {
        match self {
            ParamType::UUID => 0,
            ParamType::Int => 1,
            ParamType::Float => 2,
            ParamType::Str => 3,
            ParamType::Path => 4,
        }
    }

    /// What a segment is when read as this type; `None` where the type
    /// rejects it.
    pub open spec fn parse_spec(self, segment: Seq<char>) -> Option<ParamValue> {
        match self {
            ParamType::UUID => match uuid_value(segment) {
                Some(id) => Some(ParamValue::UUID(id)),
                None => None,
            },
            ParamType::Int => match int_value(segment) {
                Some(number) => Some(ParamValue::Int(number)),
                None => None,
            },
            ParamType::Float => if is_float_literal(segment) {
                Some(ParamValue::Float(segment))
            } else {
                None
            },
            ParamType::Str => if segment.contains('/') {
                None
            } else {
                Some(ParamValue::Str(segment))
            },
            ParamType::Path => Some(ParamValue::Path(segment)),
        }
    }

    /// Reads a segment as this type.
    pub fn parse(&self, value: &str) -> (parsed: Option<ParamParseResult>)
        ensures
            parsed_view(parsed) == self.parse_spec(value@),
    {
        match self {
            ParamType::UUID => uuid_param(parse_uuid(value)),
            ParamType::Int => match parse_int(value) {
                Some(number) => Some(ParamParseResult::Int(number)),
                None => None,
            },
            ParamType::Float => if is_float_text(value) {
                Some(ParamParseResult::Float(value.to_owned()))
            } else {
                None
            },
            ParamType::Str => if contains_slash(value) {
                None
            } else {
                Some(ParamParseResult::Str(value.to_owned()))
            },
            ParamType::Path => Some(ParamParseResult::Path(value.to_owned())),
        }
    }

    /// The name of a type, as a route pattern writes it.
    pub open spec fn name_spec(self) -> Seq<char> {
        match self {
            ParamType::UUID => "uuid"@,
            ParamType::Int => "int"@,
            ParamType::Float => "float"@,
            ParamType::Str => "str"@,
            ParamType::Path => "path"@,
        }
    }

    /// The name of a type, as a route pattern writes it.
    pub fn name(&self) -> (name: &'static str)
        ensures
            name@ == self.name_spec(),
    {
        match self {
            ParamType::UUID => "uuid",
            ParamType::Int => "int",
            ParamType::Float => "float",
            ParamType::Str => "str",
            ParamType::Path => "path",
        }
    }

    /// The type that a name stands for.
    pub fn from_name(name: &str) -> (kind: Option<ParamType>)
        ensures
            match kind {
                Some(found) => found.name_spec() == name@,
                None => forall|any: ParamType| any.name_spec() != name@,
            },
    {
        if str_eq(name, "uuid") {
            Some(ParamType::UUID)
        } else if str_eq(name, "int") {
            Some(ParamType::Int)
        } else if str_eq(name, "float") {
            Some(ParamType::Float)
        } else if str_eq(name, "str") {
            Some(ParamType::Str)
        } else if str_eq(name, "path") {
            Some(ParamType::Path)
        } else {
            None
        }
    }

    /// The label of a parameter edge: the type's name in braces.
    pub open spec fn label_spec(self) -> Seq<char> {
        "{"@ + self.name_spec() + "}"@
    }

    /// The label of a parameter edge: the type's name in braces.
    pub fn label(&self) -> (label: String)
        ensures
            label@ == self.label_spec(),
    {
        let mut label = String::from_str("{");
        label.append(self.name());
        label.append("}");
        label
    }
}

/// One segment of a route pattern.
#[derive(Clone, Debug)]
pub enum PathPart {
    Static { path: String },
    Param { name: String, param_type: ParamType },
}

/// The tag of a static route declaration.
#[derive(Clone, Debug)]
pub enum StaticRouteKey {
    Static,
}

impl StaticRouteKey {
    /// The tag that a name stands for: `static` is the only one.
    pub fn from_name(name: &str) -> (key: Option<StaticRouteKey>)
        ensures
            key is Some <==> name@ == "static"@,
    {
        if str_eq(name, "static") {
            Some(StaticRouteKey::Static)
        } else {
            None
        }
    }
}

/// A route without parameters: its path is matched as a whole.
#[derive(Debug)]
pub struct StaticRouteDecl<H> {
    pub methods: Methods,
    pub path: String,
    pub route: H,
    pub key: StaticRouteKey,
}

/// The tag of a parameterized route declaration.
#[derive(Clone, Debug)]
pub enum ParamRouteKey {
    Param,
}

impl ParamRouteKey {
    /// The tag that a name stands for: `param` is the only one.
    pub fn from_name(name: &str) -> (key: Option<ParamRouteKey>)
        ensures
            key is Some <==> name@ == "param"@,
    {
        if str_eq(name, "param") {
            Some(ParamRouteKey::Param)
        } else {
            None
        }
    }
}

/// A route with typed parameters. `parts` is the pattern segment by
/// segment; `params` names the parameters in the order of the pattern.
#[derive(Debug)]
pub struct ParamRouteDecl<H> {
    pub methods: Methods,
    pub path: String,
    pub parts: Vec<PathPart>,
    pub params: Vec<String>,
    pub route: H,
    pub key: ParamRouteKey,
}

/// A route declaration of either kind.
#[derive(Debug)]
pub enum RouteDecl<H> {
    Param(ParamRouteDecl<H>),
    Static(StaticRouteDecl<H>),
}

} // verus!
