//! The ways in which an argument of a layout is taken from a request or a
//! response.

use crate::text::{same_chars, to_chars};
use vstd::prelude::*;

verus! {

/// What an argument of a layout is extracted from.
#[derive(Debug, Clone, Copy, PartialEq, Eq, Structural)]
pub enum FromTrait {
    ResponseParts,
    ResponseBody,
    RequestParts,
}

impl FromTrait {
    /// The name of the attribute that asks for this extraction.
    pub open spec fn attribute(self) -> Seq<char> {
        match self {
            FromTrait::ResponseParts => "from_response_parts"@,
            FromTrait::ResponseBody => "from_response_body"@,
            FromTrait::RequestParts => "from_request_parts"@,
        }
    }

    /// The name of the trait that performs this extraction.
    pub open spec fn trait_name(self) -> Seq<char> {
        match self {
            FromTrait::ResponseParts => "FromResponseParts"@,
            FromTrait::ResponseBody => "FromResponseBody"@,
            FromTrait::RequestParts => "FromRequestParts"@,
        }
    }

    /// The extraction whose attribute is `name`, if there is one.
    pub open spec fn named(name: Seq<char>) -> Option<FromTrait> {
        if name == "from_response_parts"@ {
            Some(FromTrait::ResponseParts)
        } else if name == "from_response_body"@ {
            Some(FromTrait::ResponseBody)
        } else if name == "from_request_parts"@ {
            Some(FromTrait::RequestParts)
        } else {
            None
        }
    }

    pub fn to_snake_case_static_str(&self) -> (name: &'static str)
        ensures
            name@ == self.attribute(),
    {
        match self {
            FromTrait::ResponseParts => "from_response_parts",
            FromTrait::ResponseBody => "from_response_body",
            FromTrait::RequestParts => "from_request_parts",
        }
    }

    /// The name of the trait, as it is written in code.
    pub fn to_string(&self) -> (name: String)
        ensures
            name@ == self.trait_name(),
    {
        match self {
            FromTrait::ResponseParts => "FromResponseParts".to_owned(),
            FromTrait::ResponseBody => "FromResponseBody".to_owned(),
            FromTrait::RequestParts => "FromRequestParts".to_owned(),
        }
    }

    /// The extraction that the attribute `name` asks for, if it is the name
    /// of one.
    pub fn from_str(name: &str) -> (found: Option<FromTrait>)
        ensures
            found == FromTrait::named(name@),
            match found {
                Some(from) => name@ == from.attribute(),
                None => forall|from: FromTrait| name@ != from.attribute(),
            },
    {
        let chars = to_chars(name);
        if same_chars(&chars, &to_chars("from_response_parts")) {
            Some(FromTrait::ResponseParts)
        } else if same_chars(&chars, &to_chars("from_response_body")) {
            Some(FromTrait::ResponseBody)
        } else if same_chars(&chars, &to_chars("from_request_parts")) {
            Some(FromTrait::RequestParts)
        } else {
            None
        }
    }
}

/// More than one attribute of an argument asks for an extraction.
#[derive(Debug, Clone, Copy, PartialEq, Eq, Structural)]
pub struct ConflictingAttributes;

/// The extraction that the attributes named `names` ask for, with the
/// place of the attribute that asks; none where no attribute does; a
/// conflict where more than one does.
pub open spec fn asked(names: Seq<Seq<char>>) -> Result<Option<(FromTrait, int)>, ConflictingAttributes>
    decreases names.len(),
{
    if names.len() == 0 {
        Ok(None)
    } else {
        match asked(names.drop_last()) {
            Err(conflict) => Err(conflict),
            Ok(before) => match FromTrait::named(names.last()) {
                None => Ok(before),
                Some(from) => match before {
                    Some(_) => Err(ConflictingAttributes),
                    None => Ok(Some((from, names.len() - 1))),
                },
            },
        }
    }
}

/// Once the attributes up to `upto` conflict, so do all of them.
pub proof fn lemma_conflict_stays(names: Seq<Seq<char>>, upto: int)
    requires
        0 <= upto <= names.len(),
        asked(names.take(upto)) is Err,
    ensures
        asked(names) is Err,
    decreases names.len(),
{
    if upto == names.len() {
        assert(names.take(upto) == names);
    } else {
        assert(names.drop_last().take(upto) == names.take(upto));
        lemma_conflict_stays(names.drop_last(), upto);
    }
}

/// Finds the attribute of an argument that says what the argument is
/// extracted from. An argument may have one such attribute at most.
pub fn parse_attrs_of_arg(names: &Vec<String>) -> (out: Result<
    Option<(FromTrait, usize)>,
    ConflictingAttributes,
>)
    ensures
        match out {
            Ok(Some((from, at))) => asked(crate::text::texts(names@)) == Ok::<
                Option<(FromTrait, int)>,
                ConflictingAttributes,
            >(Some((from, at as int))),
            Ok(None) => asked(crate::text::texts(names@)) == Ok::<
                Option<(FromTrait, int)>,
                ConflictingAttributes,
            >(None),
            Err(_) => asked(crate::text::texts(names@)) is Err,
        },
{
    let ghost all = crate::text::texts(names@);
    let mut current: Option<(FromTrait, usize)> = None;
    let mut i: usize = 0;
    assert(all.take(0) == Seq::<Seq<char>>::empty());
    while i < names.len()
        invariant
            i <= names.len(),
            all == crate::text::texts(names@),
            match current {
                Some((from, at)) => asked(all.take(i as int)) == Ok::<
                    Option<(FromTrait, int)>,
                    ConflictingAttributes,
                >(Some((from, at as int))),
                None => asked(all.take(i as int)) == Ok::<
                    Option<(FromTrait, int)>,
                    ConflictingAttributes,
                >(None),
            },
        decreases names.len() - i,
    {
        assert(all.take(i + 1).drop_last() == all.take(i as int));
        assert(all.take(i + 1).last() == all[i as int]);
        assert(all.take(i + 1).len() == i + 1);
        match FromTrait::from_str(names[i].as_str()) {
            Some(from) => {
                if current.is_some() {
                    proof {
                        lemma_conflict_stays(all, i + 1);
                    }
                    return Err(ConflictingAttributes);
                }
                current = Some((from, i));
            },
            None => {},
        }
        i += 1;
    }
    assert(all.take(names@.len() as int) == all);
    Ok(current)
}

/// The text of a type as a path: with `::` before every `<`.
pub open spec fn as_path(text: Seq<char>) -> Seq<char> {
    crate::text::replaced(text, seq!['<'], seq![':', ':', '<'])
}

/// Writes the text of a type as a path.
pub fn ty_into_path(text: &str) -> (path: String)
    ensures
        path@ == as_path(text@),
{
    let mut from: Vec<char> = Vec::new();
    from.push('<');
    let mut to: Vec<char> = Vec::new();
    to.push(':');
    to.push(':');
    to.push('<');
    assert(from@ == seq!['<']);
    assert(to@ == seq![':', ':', '<']);
    crate::text::from_chars(&crate::text::replace_chars(&to_chars(text), &from, &to))
}

/// Whether the text of a function's result type says that it is a result:
/// it holds the word `Result`.
pub fn is_ouput_ty_result(first_segment: &str) -> (yes: bool)
    ensures
        yes == crate::text::occurs(first_segment@, "Result"@),
{
    crate::text::contains_chars(&to_chars(first_segment), &to_chars("Result"))
}

/// Whether `name` is the last segment of the path written in `source`:
/// what stands behind its last colon.
pub fn is_str_eq_to_path(name: &str, source: &str) -> (yes: bool)
    ensures
        yes == (crate::path::split(source@, ':').last() == name@),
{
    let pieces = crate::path::split_chars(&to_chars(source), ':');
    proof {
        crate::path::lemma_split_nonempty(source@, ':');
    }
    let last = &pieces[pieces.len() - 1];
    assert(last@ == crate::text::rows(pieces@).last());
    same_chars(last, &to_chars(name))
}

} // verus!
