//! Values of the shapes in [`crate::shape`], together with their
//! mathematical model.

use vstd::prelude::*;

verus! {

broadcast use vstd::std_specs::vec::group_vec_axioms;

/// The mathematical model of a [`Value`]: the same tree with
/// mathematical sequences in place of vectors.
#[verifier::ext_equal]
pub enum ValueSpec {
    /// The unit value.
    Unit,
    /// A boolean.
    Bool(bool),
    /// The little-endian bit pattern of a fixed-width number; only the
    /// low `8 * width` bits of the kind's width are meaningful. Signed
    /// integers are stored in two's complement, floating-point numbers
    /// as their IEEE-754 bit patterns.
    Num(u128),
    /// The UTF-8 bytes of a piece of text.
    Text(Seq<u8>),
    /// The elements of a fixed array or of a counted sequence.
    List(Seq<ValueSpec>),
    /// An optional value, also the node of a recursive shape.
    OptVal(Option<Box<ValueSpec>>),
    /// The field values of a struct, in declaration order.
    StructVal(Seq<ValueSpec>),
    /// A variant ordinal and the payload field values of that variant.
    EnumVal(nat, Seq<ValueSpec>),
}

/// A value of some [`crate::shape::Shape`], the codec's in-memory form.
///
/// Numbers of every kind are carried as their little-endian bit
/// patterns in a `u128`; signed integers in two's complement and
/// floating-point numbers as IEEE-754 bits. Text is carried as its
/// UTF-8 bytes.
pub enum Value {
    /// The unit value.
    Unit,
    /// A boolean.
    Bool(bool),
    /// The bit pattern of a fixed-width number (low bits meaningful).
    Num(u128),
    /// The UTF-8 bytes of a piece of text.
    Text(Vec<u8>),
    /// The elements of a fixed array or of a counted sequence.
    List(Vec<Value>),
    /// An optional value, also the node of a recursive shape.
    OptVal(Option<Box<Value>>),
    /// The field values of a struct, in declaration order.
    StructVal(Vec<Value>),
    /// A variant ordinal and the payload field values of that variant.
    EnumVal(u8, Vec<Value>),
}

/// The model of one value.
pub open spec fn value_model(v: Value) -> ValueSpec
    decreases v, 1int, 0int,
{
    match v {
        Value::Unit => ValueSpec::Unit,
        Value::Bool(b) => ValueSpec::Bool(b),
        Value::Num(bits) => ValueSpec::Num(bits),
        Value::Text(bytes) => ValueSpec::Text(bytes@),
        Value::List(items) => ValueSpec::List(value_model_list(items@, 0)),
        Value::OptVal(o) => ValueSpec::OptVal(
            match o {
                Option::None => Option::None,
                Option::Some(inner) => Option::Some(Box::new(value_model(*inner))),
            },
        ),
        Value::StructVal(vals) => ValueSpec::StructVal(value_model_list(vals@, 0)),
        Value::EnumVal(ord, payload) => ValueSpec::EnumVal(
            ord as nat,
            value_model_list(payload@, 0),
        ),
    }
}

/// The models of the values of `vs` from index `i` on.
pub open spec fn value_model_list(vs: Seq<Value>, i: int) -> Seq<ValueSpec>
    decreases vs, 0int, vs.len() - i,
{
    if i < 0 || i >= vs.len() {
        Seq::empty()
    } else {
        seq![value_model(vs[i])] + value_model_list(vs, i + 1)
    }
}

impl View for Value {
    type V = ValueSpec;

    open spec fn view(&self) -> ValueSpec {
        value_model(*self)
    }
}

/// `value_model_list(vs, i)` lists the models of `vs[i..]`, one per
/// element, in order.
pub proof fn lemma_value_model_list(vs: Seq<Value>, i: int)
    requires
        0 <= i <= vs.len(),
    ensures
        value_model_list(vs, i).len() == vs.len() - i,
        forall|j: int|
            0 <= j < vs.len() - i ==> #[trigger] value_model_list(vs, i)[j] == value_model(
                vs[i + j],
            ),
    decreases vs.len() - i,
{
    if i < vs.len() {
        lemma_value_model_list(vs, i + 1);
        assert forall|j: int| 0 <= j < vs.len() - i implies #[trigger] value_model_list(
            vs,
            i,
        )[j] == value_model(vs[i + j]) by {
            if j > 0 {
                assert(value_model_list(vs, i)[j] == value_model_list(vs, i + 1)[j - 1]);
            }
        }
    }
}

} // verus!
