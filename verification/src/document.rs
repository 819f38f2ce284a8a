//! From a whole document to its declarations: the root value is synthesized
//! into a named type and every registered type is written out.

use vstd::prelude::*;
use crate::emit::{declarations, render_all, text_pairs};
use crate::infer::{synthesize, synthesized, valid_samples};
use crate::registry::{DefinitionModel, TypeRegistry};
use crate::text::{digit_runs_are_short, short_digit_runs};
use crate::value::{lemma_view_members, trees, Tree, Value};

verus! {

/// `json::JsonValue`, the value tree of the `json` crate. Nothing of what a
/// value holds is visible here; [`json_tree`] names it.
#[verifier::external_type_specification]
#[verifier::external_body]
pub struct ExJsonValue(json::JsonValue);

/// `json::Error`, the error of the `json` crate.
#[verifier::external_type_specification]
#[verifier::external_body]
pub struct ExJsonError(json::Error);

/// Why a document gave no declarations.
#[derive(Clone, Copy, Debug, PartialEq, Eq)]
pub enum DocumentError {
    /// The text holds more digits in a row than a text may hold to be read.
    NumberTooLong,
    /// The text is not JSON.
    InvalidJson,
    /// The samples are neither one object, one array, nor several objects.
    InvalidSamples,
}

/// What a `json::JsonValue` holds, as a tree: null, a boolean, a number or a
/// string (short or long) by its kind, an array by its members in order, an
/// object by its entries in insertion order.
pub uninterp spec fn json_tree(json: json::JsonValue) -> Tree;

/// The value that `json::parse` reads from `text`, as a tree; `None` where
/// it rejects the text.
pub uninterp spec fn parsed_json(text: Seq<char>) -> Option<Tree>;

/// `json::parse` reads a text as one JSON value or rejects it. The contract
/// claims only that the outcome is a function of the text: the value read is
/// the one that [`parsed_json`] names, and a text is rejected exactly where
/// `parsed_json` is `None`.
///
/// The parser counts the digits of a fraction in a 16-bit exponent and
/// overflows on more than 32768 of them, so the contract admits only texts
/// without so long a run of digits.
pub assume_specification[ json::parse ](source: &str) -> (parsed: Result<
    json::JsonValue,
    json::Error,
>)
    requires
        short_digit_runs(source@),
    ensures
        match parsed {
            Ok(json) => parsed_json(source@) == Some(json_tree(json)),
            Err(_) => parsed_json(source@) is None,
        },
;

/// Rebuilds a `json::JsonValue` as a [`Value`], variant by variant: both
/// kinds of string become `String`, the members of an array (a `Vec`) and
/// the entries of an object (`Object::iter`, which walks them in insertion
/// order) are rebuilt in order. The contract claims that the result holds
/// what the value holds.
#[verifier::external_body]
fn value_of_json(json: &json::JsonValue) -> (value: Value)
    ensures
        value@ == json_tree(*json),
{
    match json {
        json::JsonValue::Null => Value::Null,
        json::JsonValue::Short(_) => Value::String,
        json::JsonValue::String(_) => Value::String,
        json::JsonValue::Number(_) => Value::Number,
        json::JsonValue::Boolean(_) => Value::Boolean,
        json::JsonValue::Array(items) => Value::Array(items.iter().map(value_of_json).collect()),
        json::JsonValue::Object(fields) => Value::Object(
            fields.iter().map(|(name, value)| (name.to_string(), value_of_json(value))).collect(),
        ),
    }
}

/// What [`parse_value`] makes of `text`: a text with too long a run of
/// digits is refused unread; any other text gives the value that
/// `json::parse` reads from it, or is refused as `json::parse` refuses it.
pub open spec fn parse_outcome(text: Seq<char>) -> Result<Tree, DocumentError> {
    if !short_digit_runs(text) {
        Err(DocumentError::NumberTooLong)
    } else {
        match parsed_json(text) {
            Some(tree) => Ok(tree),
            None => Err(DocumentError::InvalidJson),
        }
    }
}

/// Reads `text` as one JSON value, unless more than
/// [`crate::text::MAX_DIGIT_RUN`] digits stand in a row in it.
pub fn parse_value(text: &str) -> (parsed: Result<Value, DocumentError>)
    ensures
        match parsed {
            Ok(value) => parse_outcome(text@) == Ok::<Tree, DocumentError>(value@),
            Err(e) => parse_outcome(text@) == Err::<Tree, DocumentError>(e),
        },
{
    if !digit_runs_are_short(text) {
        return Err(DocumentError::NumberTooLong);
    }
    match json::parse(text) {
        Ok(json) => Ok(value_of_json(&json)),
        Err(_) => Err(DocumentError::InvalidJson),
    }
}

/// Whether `samples` may be synthesized into one named type.
pub fn samples_valid(samples: &Vec<Value>) -> (valid: bool)
    ensures
        valid == valid_samples(trees(samples@)),
{
    if samples.len() == 0 {
        return false;
    }
    if samples.len() == 1 {
        proof {
            lemma_view_members(&samples[0]);
        }
        return match &samples[0] {
            Value::Object(_) => true,
            Value::Array(_) => true,
            _ => false,
        };
    }
    let mut i: usize = 0;
    while i < samples.len()
        invariant
            i <= samples.len(),
            samples.len() >= 2,
            forall|k: int| 0 <= k < i ==> trees(samples@)[k] is Object,
        decreases samples.len() - i,
    {
        if !samples[i].is_object() {
            assert(!(trees(samples@)[i as int] is Object));
            return false;
        }
        i = i + 1;
    }
    true
}

/// The declarations of the type called `root_name` that is synthesized from
/// `samples`, and of the types of the objects nested in them, in the order
/// of registration.
pub open spec fn document_declarations(root_name: Seq<char>, samples: Seq<Tree>) -> Seq<
    (Seq<char>, Seq<char>),
> {
    declarations(
        synthesized(root_name, samples, Seq::<(Seq<char>, DefinitionModel)>::empty()),
    )
}

/// Infers the declarations for `samples` under the name `root_name`,
/// starting from an empty registry.
pub fn infer_declarations(root_name: &str, samples: &Vec<Value>) -> (out: Result<
    Vec<(String, String)>,
    DocumentError,
>)
    ensures
        match out {
            Ok(pairs) => valid_samples(trees(samples@)) && text_pairs(pairs@)
                == document_declarations(root_name@, trees(samples@)),
            Err(e) => !valid_samples(trees(samples@)) && e == DocumentError::InvalidSamples,
        },
{
    if !samples_valid(samples) {
        return Err(DocumentError::InvalidSamples);
    }
    let mut registry = TypeRegistry::new();
    synthesize(root_name, samples, &mut registry);
    Ok(render_all(&registry))
}

/// What [`infer_declarations_from_text`] returns for a text of which
/// [`parse_value`] makes `parsed`: the error of a text that was refused, the
/// declarations for a value that is an object or an array, and
/// `InvalidSamples` for any other value.
pub open spec fn document_outcome(
    root_name: Seq<char>,
    parsed: Result<Tree, DocumentError>,
) -> Result<Seq<(Seq<char>, Seq<char>)>, DocumentError> {
    match parsed {
        Err(e) => Err(e),
        Ok(tree) => if valid_samples(seq![tree]) {
            Ok(document_declarations(root_name, seq![tree]))
        } else {
            Err(DocumentError::InvalidSamples)
        },
    }
}

/// Reads `text` as JSON and infers the declarations for the value it
/// holds, under the name `root_name`.
pub fn infer_declarations_from_text(root_name: &str, text: &str) -> (out: Result<
    Vec<(String, String)>,
    DocumentError,
>)
    ensures
        match out {
            Ok(pairs) => document_outcome(root_name@, parse_outcome(text@)) == Ok::<
                Seq<(Seq<char>, Seq<char>)>,
                DocumentError,
            >(text_pairs(pairs@)),
            Err(e) => document_outcome(root_name@, parse_outcome(text@)) == Err::<
                Seq<(Seq<char>, Seq<char>)>,
                DocumentError,
            >(e),
        },
{
    match parse_value(text) {
        Err(e) => Err(e),
        Ok(value) => {
            let mut samples: Vec<Value> = Vec::new();
            samples.push(value);
            assert(trees(samples@) =~= seq![value@]);
            infer_declarations(root_name, &samples)
        },
    }
}

} // verus!
