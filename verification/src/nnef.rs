//! Operators as they stand in a model file: a name, inputs and attributes.

use vstd::prelude::*;

use crate::datum::DatumType;
use crate::graph::OutletId;

verus! {

/// The type of a parameter.
#[derive(Clone, Copy, Debug, PartialEq, Eq, Structural)]
pub enum TypeName {
    ScalarTensor,
    Scalar,
    Integer,
    IntegerArray,
    Text,
}

/// A parameter or a result of an operator.
#[derive(Clone, Copy, Debug)]
pub struct Parameter {
    pub name: &'static str,
    pub kind: TypeName,
}

/// How an operator is written in a model file.
#[derive(Clone, Debug)]
pub struct Primitive {
    pub id: &'static str,
    pub parameters: Vec<Parameter>,
    pub results: Vec<Parameter>,
}

/// The names and types of some parameters.
pub open spec fn signature(ps: Seq<Parameter>) -> Seq<(Seq<char>, TypeName)> {
    ps.map_values(|p: Parameter| (p.name@, p.kind))
}

/// The value of an attribute.
#[derive(Debug)]
pub enum Attribute<T, D> {
    Text(String),
    Integer(i128),
    Number(T),
    Datum(DatumType),
    Shape(Vec<D>),
}

/// The value of an attribute, in the abstract.
pub enum AttributeValue<T, D> {
    Text(Seq<char>),
    Integer(int),
    Number(T),
    Datum(DatumType),
    Shape(Seq<D>),
}

impl<T, D> View for Attribute<T, D> {
    type V = AttributeValue<T, D>;

    open spec fn view(&self) -> AttributeValue<T, D> {
        match self {
            Attribute::Text(s) => AttributeValue::Text(s@),
            Attribute::Integer(n) => AttributeValue::Integer(*n as int),
            Attribute::Number(x) => AttributeValue::Number(*x),
            Attribute::Datum(dt) => AttributeValue::Datum(*dt),
            Attribute::Shape(d) => AttributeValue::Shape(d@),
        }
    }
}

/// An operator in a model file.
#[derive(Debug)]
pub struct Invocation<T, D> {
    pub id: String,
    pub inputs: Vec<OutletId>,
    pub attributes: Vec<(String, Attribute<T, D>)>,
}

/// Why an operator cannot be read.
#[derive(Clone, Copy, Debug, PartialEq, Eq, Structural)]
pub enum ReadError {
    /// An input or an attribute that the operator cannot do without is missing.
    Missing,
    /// An attribute is not of its type.
    Mistyped,
}

/// The names and values of some attributes.
pub open spec fn entries<T, D>(attributes: Seq<(String, Attribute<T, D>)>) -> Seq<
    (Seq<char>, AttributeValue<T, D>),
> {
    Seq::new(attributes.len(), |i: int| (attributes[i].0@, attributes[i].1@))
}

/// The value of the first attribute of that name.
pub open spec fn lookup<T, D>(
    entries: Seq<(Seq<char>, AttributeValue<T, D>)>,
    name: Seq<char>,
) -> Option<AttributeValue<T, D>>
    decreases entries.len(),
{
    if entries.len() == 0 {
        None
    } else if entries[0].0 == name {
        Some(entries[0].1)
    } else {
        lookup(entries.drop_first(), name)
    }
}

/// An attribute whose name none before it has is the one that is found.
pub proof fn lemma_lookup<T, D>(entries: Seq<(Seq<char>, AttributeValue<T, D>)>, i: int)
    requires
        0 <= i < entries.len(),
        forall|j: int| 0 <= j < i ==> (#[trigger] entries[j]).0 != entries[i].0,
    ensures
        lookup(entries, entries[i].0) == Some(entries[i].1),
    decreases i,
{
    if i > 0 {
        let rest = entries.drop_first();
        assert forall|j: int| 0 <= j < i - 1 implies (#[trigger] rest[j]).0 != rest[i - 1].0 by {
            assert(rest[j] == entries[j + 1]);
        }
        assert(entries[0].0 != entries[i].0);
        lemma_lookup(rest, i - 1);
    }
}

/// The attribute of that name.
pub fn find<'a, T, D>(attributes: &'a Vec<(String, Attribute<T, D>)>, name: &str) -> (r: Option<
    &'a Attribute<T, D>,
>)
    ensures
        r is Some == lookup(entries(attributes@), name@) is Some,
        r is Some ==> r->0@ == lookup(entries(attributes@), name@)->0,
{
    let wanted = name.to_owned();
    let mut i: usize = 0;
    let ghost all = entries(attributes@);
    assert(all.skip(0) =~= all);
    while i < attributes.len()
        invariant
            i <= attributes@.len(),
            all == entries(attributes@),
            wanted@ == name@,
            lookup(all.skip(i as int), name@) == lookup(all, name@),
        decreases attributes@.len() - i,
    {
        assert(all.skip(i as int)[0] == (attributes@[i as int].0@, attributes@[i as int].1@));
        assert(all.skip(i as int).drop_first() =~= all.skip(i + 1));
        if attributes[i].0 == wanted {
            return Some(&attributes[i].1);
        }
        i += 1;
    }
    None
}

/// The integer of that name, which must be there and must be a count.
pub open spec fn count_of<T, D>(
    entries: Seq<(Seq<char>, AttributeValue<T, D>)>,
    name: Seq<char>,
) -> Result<usize, ReadError> {
    match lookup(entries, name) {
        None => Err(ReadError::Missing),
        Some(AttributeValue::Integer(n)) if 0 <= n <= usize::MAX => Ok(n as usize),
        Some(_) => Err(ReadError::Mistyped),
    }
}

/// The integer of that name, where it is there.
pub open spec fn integer_of<T, D>(
    entries: Seq<(Seq<char>, AttributeValue<T, D>)>,
    name: Seq<char>,
) -> Result<Option<i64>, ReadError> {
    match lookup(entries, name) {
        None => Ok(None),
        Some(AttributeValue::Integer(n)) if i64::MIN <= n <= i64::MAX => Ok(Some(n as i64)),
        Some(_) => Err(ReadError::Mistyped),
    }
}

/// The integer of that name, which must be there.
pub open spec fn required_integer_of<T, D>(
    entries: Seq<(Seq<char>, AttributeValue<T, D>)>,
    name: Seq<char>,
) -> Result<i64, ReadError> {
    match integer_of(entries, name) {
        Ok(Some(n)) => Ok(n),
        Ok(None) => Err(ReadError::Missing),
        Err(e) => Err(e),
    }
}

/// The number of that name, where it is there.
pub open spec fn number_of<T, D>(
    entries: Seq<(Seq<char>, AttributeValue<T, D>)>,
    name: Seq<char>,
) -> Result<Option<T>, ReadError> {
    match lookup(entries, name) {
        None => Ok(None),
        Some(AttributeValue::Number(x)) => Ok(Some(x)),
        Some(_) => Err(ReadError::Mistyped),
    }
}

/// The integer of that name, which must be there and must be a count.
pub fn read_count<T, D>(attributes: &Vec<(String, Attribute<T, D>)>, name: &str) -> (r: Result<
    usize,
    ReadError,
>)
    ensures
        r == count_of(entries(attributes@), name@),
{
    match find(attributes, name) {
        None => Err(ReadError::Missing),
        Some(Attribute::Integer(n)) => {
            if 0 <= *n && *n <= usize::MAX as i128 {
                Ok(*n as usize)
            } else {
                Err(ReadError::Mistyped)
            }
        },
        Some(_) => Err(ReadError::Mistyped),
    }
}

/// The integer of that name, where it is there.
pub fn read_integer<T, D>(attributes: &Vec<(String, Attribute<T, D>)>, name: &str) -> (r: Result<
    Option<i64>,
    ReadError,
>)
    ensures
        r == integer_of(entries(attributes@), name@),
{
    match find(attributes, name) {
        None => Ok(None),
        Some(Attribute::Integer(n)) => {
            if i64::MIN as i128 <= *n && *n <= i64::MAX as i128 {
                Ok(Some(*n as i64))
            } else {
                Err(ReadError::Mistyped)
            }
        },
        Some(_) => Err(ReadError::Mistyped),
    }
}

/// The integer of that name, which must be there.
pub fn read_required_integer<T, D>(
    attributes: &Vec<(String, Attribute<T, D>)>,
    name: &str,
) -> (r: Result<i64, ReadError>)
    ensures
        r == required_integer_of(entries(attributes@), name@),
{
    match read_integer(attributes, name) {
        Ok(Some(n)) => Ok(n),
        Ok(None) => Err(ReadError::Missing),
        Err(e) => Err(e),
    }
}

/// The number of that name, where it is there.
pub fn read_number<T: Copy, D>(attributes: &Vec<(String, Attribute<T, D>)>, name: &str) -> (r:
    Result<Option<T>, ReadError>)
    ensures
        r == number_of(entries(attributes@), name@),
{
    match find(attributes, name) {
        None => Ok(None),
        Some(Attribute::Number(x)) => Ok(Some(*x)),
        Some(_) => Err(ReadError::Mistyped),
    }
}

/// Makes a parameter.
pub(crate) fn parameter(name: &'static str, kind: TypeName) -> (r: Parameter)
    ensures
        r.name == name,
        r.kind == kind,
{
    Parameter { name, kind }
}

/// An attribute that holds an integer.
pub(crate) fn integer<T, D>(name: &str, n: i128) -> (r: (String, Attribute<T, D>))
    ensures
        r.0@ == name@,
        r.1@ == AttributeValue::<T, D>::Integer(n as int),
{
    (name.to_owned(), Attribute::Integer(n))
}

/// The value of a name is that of the first attribute which has it.
pub proof fn law_first_of_a_name_is_found<T, D>(
    entries: Seq<(Seq<char>, AttributeValue<T, D>)>,
    name: Seq<char>,
    i: int,
)
    requires
        0 <= i <= entries.len(),
        forall|j: int| 0 <= j < i ==> (#[trigger] entries[j]).0 != name,
    ensures
        i == entries.len() ==> lookup(entries, name) is None,
        i < entries.len() && entries[i].0 == name ==> lookup(entries, name) == Some(entries[i].1),
    decreases i,
{
    if i > 0 {
        let rest = entries.drop_first();
        assert forall|j: int| 0 <= j < i - 1 implies (#[trigger] rest[j]).0 != name by {
            assert(rest[j] == entries[j + 1]);
        }
        assert(entries[0].0 != name);
        law_first_of_a_name_is_found(rest, name, i - 1);
        if i < entries.len() {
            assert(rest[i - 1] == entries[i]);
        }
    }
}

/// How attributes are read. A count must be there, and fit; an integer need not be there,
/// but must fit; a number need not be there; and nothing is taken for what it is not.
pub proof fn law_attributes_are_read_by_kind<T, D>(
    entries: Seq<(Seq<char>, AttributeValue<T, D>)>,
    name: Seq<char>,
)
    ensures
        lookup(entries, name) is None ==> {
            &&& count_of(entries, name) == Err::<usize, ReadError>(ReadError::Missing)
            &&& integer_of(entries, name) == Ok::<Option<i64>, ReadError>(None)
            &&& required_integer_of(entries, name) == Err::<i64, ReadError>(ReadError::Missing)
            &&& number_of(entries, name) == Ok::<Option<T>, ReadError>(None)
        },
        lookup(entries, name) matches Some(AttributeValue::Integer(n)) ==> {
            &&& 0 <= n <= usize::MAX ==> count_of(entries, name) == Ok::<usize, ReadError>(
                n as usize,
            )
            &&& n < 0 || n > usize::MAX ==> count_of(entries, name) == Err::<usize, ReadError>(
                ReadError::Mistyped,
            )
            &&& i64::MIN <= n <= i64::MAX ==> {
                &&& integer_of(entries, name) == Ok::<Option<i64>, ReadError>(Some(n as i64))
                &&& required_integer_of(entries, name) == Ok::<i64, ReadError>(n as i64)
            }
            &&& n < i64::MIN || n > i64::MAX ==> {
                &&& integer_of(entries, name) == Err::<Option<i64>, ReadError>(ReadError::Mistyped)
                &&& required_integer_of(entries, name) == Err::<i64, ReadError>(ReadError::Mistyped)
            }
            &&& number_of(entries, name) == Err::<Option<T>, ReadError>(ReadError::Mistyped)
        },
        lookup(entries, name) matches Some(AttributeValue::Number(x)) ==> {
            &&& number_of(entries, name) == Ok::<Option<T>, ReadError>(Some(x))
            &&& count_of(entries, name) == Err::<usize, ReadError>(ReadError::Mistyped)
            &&& integer_of(entries, name) == Err::<Option<i64>, ReadError>(ReadError::Mistyped)
        },
{
}

} // verus!
