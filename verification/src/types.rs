//! Type expressions: what inference says about the shape of a value, and how
//! an expression is written out.

use vstd::prelude::*;
use crate::text::{
    chars_of, compare_texts, lemma_lex_irreflexive, lemma_lex_total, lemma_lex_transitive,
    lex_less, Place,
};

verus! {

/// The built-in types of the target language.
#[derive(Clone, Copy, Debug, PartialEq, Eq)]
pub enum Primitive {
    String,
    Number,
    Boolean,
    Any,
}

/// A type expression.
#[derive(Debug, PartialEq, Eq)]
pub enum TypeExpression {
    Primitive(Primitive),
    /// A synthesized type, by its name.
    Reference(String),
    /// An array of the given element type.
    Array(Box<TypeExpression>),
    /// One of the given alternatives.
    Union(Vec<TypeExpression>),
}

/// The mathematical model of a [`TypeExpression`].
pub enum TypeModel {
    Primitive(Primitive),
    Reference(Seq<char>),
    Array(Box<TypeModel>),
    Union(Seq<TypeModel>),
}

impl View for TypeExpression {
    type V = TypeModel;

    open spec fn view(&self) -> TypeModel
        decreases self,
    {
        match self {
            TypeExpression::Primitive(p) => TypeModel::Primitive(*p),
            TypeExpression::Reference(name) => TypeModel::Reference(name@),
            TypeExpression::Array(inner) => TypeModel::Array(Box::new((**inner).view())),
            TypeExpression::Union(members) => TypeModel::Union(
                Seq::new(
                    members@.len(),
                    |i: int|
                        if 0 <= i < members@.len() {
                            members[i]@
                        } else {
                            TypeModel::Primitive(Primitive::Any)
                        },
                ),
            ),
        }
    }
}

/// The models of a sequence of type expressions, member by member.
pub open spec fn type_models(types: Seq<TypeExpression>) -> Seq<TypeModel> {
    Seq::new(types.len(), |i: int| types[i]@)
}

/// The keyword of a primitive type.
pub open spec fn primitive_text(p: Primitive) -> Seq<char> {
    match p {
        Primitive::String => "string"@,
        Primitive::Number => "number"@,
        Primitive::Boolean => "boolean"@,
        Primitive::Any => "any"@,
    }
}

/// The text of a type expression: a primitive is its keyword, a reference is
/// the referenced name, an array is its element type followed by `[]` (with
/// the element type in parentheses where it is a union), and a union is its
/// members joined by ` | `.
pub open spec fn rendered(t: TypeModel) -> Seq<char>
    decreases t, 0nat,
{
    match t {
        TypeModel::Primitive(p) => primitive_text(p),
        TypeModel::Reference(name) => name,
        TypeModel::Array(inner) => if *inner is Union {
            "("@ + rendered(*inner) + ")[]"@
        } else {
            rendered(*inner) + "[]"@
        },
        TypeModel::Union(members) => joined(members, members.len()),
    }
}

/// The texts of the first `n` of `members`, joined by ` | `.
pub open spec fn joined(members: Seq<TypeModel>, n: nat) -> Seq<char>
    decreases members, n,
{
    if n == 0 || n > members.len() {
        Seq::empty()
    } else if n == 1 {
        rendered(members[0])
    } else {
        joined(members, (n - 1) as nat) + " | "@ + rendered(members[n - 1])
    }
}

impl Primitive {
    /// The keyword of the primitive.
    pub fn keyword(&self) -> (out: &'static str)
        ensures
            out@ == primitive_text(*self),
    {
        match self {
            Primitive::String => "string",
            Primitive::Number => "number",
            Primitive::Boolean => "boolean",
            Primitive::Any => "any",
        }
    }
}

/// Writes the first `members` out, joined by ` | `.
pub fn join_types(members: &Vec<TypeExpression>) -> (out: String)
    ensures
        out@ == joined(type_models(members@), members@.len()),
    decreases members, 0nat,
{
    let mut out = String::new();
    let mut i: usize = 0;
    while i < members.len()
        invariant
            i <= members.len(),
            out@ == joined(type_models(members@), i as nat),
        decreases members.len() - i,
    {
        if i > 0 {
            out.append(" | ");
        }
        let piece = members[i].render();
        out.append(piece.as_str());
        i = i + 1;
    }
    out
}

impl TypeExpression {
    /// Whether the expression is the primitive `any`.
    pub fn is_any(&self) -> (r: bool)
        ensures
            r == (self@ == TypeModel::Primitive(Primitive::Any)),
    {
        match self {
            TypeExpression::Primitive(Primitive::Any) => true,
            _ => false,
        }
    }

    /// Writes the expression out.
    pub fn render(&self) -> (out: String)
        ensures
            out@ == rendered(self@),
        decreases self, 1nat,
    {
        match self {
            TypeExpression::Primitive(p) => String::from_str(p.keyword()),
            TypeExpression::Reference(name) => name.clone(),
            TypeExpression::Array(inner) => {
                let element = inner.render();
                match **inner {
                    TypeExpression::Union(_) => {
                        let mut out = String::from_str("(");
                        out.append(element.as_str());
                        out.append(")[]");
                        out
                    },
                    _ => {
                        let mut out = element;
                        out.append("[]");
                        out
                    },
                }
            },
            TypeExpression::Union(members) => {
                assert(type_models(members@) == self@->Union_0);
                join_types(members)
            },
        }
    }
}

/// Whether a type expression is in normal form: a union has at least two
/// members, in strictly ascending alphabetical order, none of them a union
/// itself, and every part of the expression is in normal form.
pub open spec fn well_formed(t: TypeModel) -> bool
    decreases t,
{
    match t {
        TypeModel::Primitive(_) => true,
        TypeModel::Reference(_) => true,
        TypeModel::Array(inner) => well_formed(*inner),
        TypeModel::Union(members) => {
            &&& members.len() >= 2
            &&& sorted_types(members)
            &&& forall|m: int|
                0 <= m < members.len() ==> !(#[trigger] members[m] is Union) && well_formed(
                    members[m],
                )
        },
    }
}

/// Whether `a` is written before `b` in a union: alphabetically by text.
pub open spec fn type_before(a: TypeModel, b: TypeModel) -> bool {
    lex_less(rendered(a), rendered(b))
}

/// Whether `types` is in strictly ascending alphabetical order, so that no
/// two members have the same text.
pub open spec fn sorted_types(types: Seq<TypeModel>) -> bool {
    forall|i: int, j: int| 0 <= i < j < types.len() ==> type_before(types[i], types[j])
}

/// The first position at or after `i` whose member is not before `t`; the
/// length where there is none.
pub open spec fn type_position(types: Seq<TypeModel>, t: TypeModel, i: int) -> int
    decreases types.len() - i,
{
    if i < 0 || i >= types.len() {
        types.len() as int
    } else if type_before(types[i], t) {
        type_position(types, t, i + 1)
    } else {
        i
    }
}

/// `types` with `t` added in its alphabetical place; unchanged where a
/// member with the text of `t` is already there.
pub open spec fn with_type(types: Seq<TypeModel>, t: TypeModel) -> Seq<TypeModel> {
    let p = type_position(types, t, 0);
    if p < types.len() && rendered(types[p]) == rendered(t) {
        types
    } else {
        types.insert(p, t)
    }
}

/// Adds `t` to the alphabetically ordered `types`, unless a member with the
/// same text is there already.
pub fn insert_type(types: &mut Vec<TypeExpression>, t: TypeExpression)
    ensures
        type_models(final(types)@) == with_type(type_models(old(types)@), t@),
{
    let text = t.render();
    let key = chars_of(text.as_str());
    let ghost before = type_models(types@);
    let mut i: usize = 0;
    while i < types.len()
        invariant
            i <= types.len(),
            types@ == old(types)@,
            before == type_models(types@),
            key@ == rendered(t@),
            type_position(before, t@, 0) == type_position(before, t@, i as int),
        decreases types.len() - i,
    {
        let member_text = types[i].render();
        let member_key = chars_of(member_text.as_str());
        match compare_texts(&member_key, &key) {
            Place::Before => {
                i = i + 1;
            },
            Place::Same => {
                proof {
                    lemma_lex_irreflexive(key@);
                }
                return ;
            },
            Place::After => {
                proof {
                    lemma_lex_total(member_key@, key@);
                }
                types.insert(i, t);
                assert(type_models(types@) == before.insert(i as int, t@));
                return ;
            },
        }
    }
    types.push(t);
    assert(type_models(types@) == before.insert(i as int, t@));
}

/// Every member before the position of `t` is before `t`, and the member at
/// that position is not.
pub proof fn lemma_type_position(types: Seq<TypeModel>, t: TypeModel, i: int)
    requires
        0 <= i <= types.len(),
    ensures
        i <= type_position(types, t, i) <= types.len(),
        forall|k: int| i <= k < type_position(types, t, i) ==> type_before(types[k], t),
        type_position(types, t, i) < types.len() ==> !type_before(
            types[type_position(types, t, i)],
            t,
        ),
    decreases types.len() - i,
{
    if i < types.len() && type_before(types[i], t) {
        lemma_type_position(types, t, i + 1);
    }
}

/// Adding a type keeps a union in strictly ascending order.
pub proof fn lemma_with_type_sorted(types: Seq<TypeModel>, t: TypeModel)
    requires
        sorted_types(types),
    ensures
        sorted_types(with_type(types, t)),
{
    let p = type_position(types, t, 0);
    let after = with_type(types, t);
    lemma_type_position(types, t, 0);
    if !(p < types.len() && rendered(types[p]) == rendered(t)) {
        assert forall|i: int, j: int| 0 <= i < j < after.len() implies type_before(
            after[i],
            after[j],
        ) by {
            if j == p {
                assert(after[i] == types[i]);
            } else if i == p {
                assert(after[j] == types[j - 1]);
                lemma_lex_total(rendered(types[p]), rendered(t));
                if j - 1 > p {
                    assert(type_before(types[p], types[j - 1]));
                    lemma_lex_transitive(
                        rendered(t),
                        rendered(types[p]),
                        rendered(types[j - 1]),
                    );
                }
            } else {
                let i0 = if i < p { i } else { i - 1 };
                let j0 = if j < p { j } else { j - 1 };
                assert(after[i] == types[i0]);
                assert(after[j] == types[j0]);
            }
        }
    }
}

/// Adding a type loses no member, and the text of the added type is then
/// among the members.
pub proof fn lemma_with_type_grows(types: Seq<TypeModel>, t: TypeModel)
    ensures
        forall|k: int|
            0 <= k < types.len() ==> with_type(types, t).contains(#[trigger] types[k]),
        exists|k: int|
            0 <= k < with_type(types, t).len() && rendered(#[trigger] with_type(types, t)[k])
                == rendered(t),
        types.len() <= with_type(types, t).len() <= types.len() + 1,
        forall|k: int|
            0 <= k < with_type(types, t).len() ==> types.contains(
                #[trigger] with_type(types, t)[k],
            ) || with_type(types, t)[k] == t,
{
    let p = type_position(types, t, 0);
    let after = with_type(types, t);
    lemma_type_position(types, t, 0);
    if p < types.len() && rendered(types[p]) == rendered(t) {
        assert(rendered(after[p]) == rendered(t));
        assert forall|k: int| 0 <= k < types.len() implies after.contains(
            #[trigger] types[k],
        ) by {
            assert(after[k] == types[k]);
        }
        assert forall|k: int| 0 <= k < after.len() implies types.contains(#[trigger] after[k])
            || after[k] == t by {
            assert(after[k] == types[k]);
        }
    } else {
        assert(after[p] == t);
        assert forall|k: int| 0 <= k < types.len() implies after.contains(
            #[trigger] types[k],
        ) by {
            let k1 = if k < p { k } else { k + 1 };
            assert(after[k1] == types[k]);
        }
        assert forall|k: int| 0 <= k < after.len() implies types.contains(#[trigger] after[k])
            || after[k] == t by {
            if k != p {
                let k0 = if k < p { k } else { k - 1 };
                assert(after[k] == types[k0]);
            }
        }
    }
}

} // verus!
