//! The closed set of value shapes the codec understands, together with
//! their mathematical model.

use vstd::prelude::*;

verus! {

broadcast use vstd::std_specs::vec::group_vec_axioms;

/// The fixed-width numeric kinds. Signed integers are laid out in
/// two's complement, floating-point kinds as their IEEE-754 bit
/// patterns; the codec itself only ever moves the raw little-endian
/// bytes of the value, so the kind matters only for its width.
#[derive(Clone, Copy, PartialEq, Eq, Structural, Debug)]
pub enum NumKind {
    U8,
    U16,
    U32,
    U64,
    U128,
    I8,
    I16,
    I32,
    I64,
    I128,
    F32,
    F64,
}

impl NumKind {
    /// Number of bytes a value of this kind occupies on the wire.
    pub open spec fn spec_width(self) -> nat {
        match self {
            NumKind::U8 | NumKind::I8 => 1,
            NumKind::U16 | NumKind::I16 => 2,
            NumKind::U32 | NumKind::I32 | NumKind::F32 => 4,
            NumKind::U64 | NumKind::I64 | NumKind::F64 => 8,
            NumKind::U128 | NumKind::I128 => 16,
        }
    }

    /// Executable twin of [`NumKind::spec_width`].
    pub fn width(self) -> (w: usize)
        ensures
            w as nat == self.spec_width(),
            1 <= w <= 16,
    {
        match self {
            NumKind::U8 | NumKind::I8 => 1,
            NumKind::U16 | NumKind::I16 => 2,
            NumKind::U32 | NumKind::I32 | NumKind::F32 => 4,
            NumKind::U64 | NumKind::I64 | NumKind::F64 => 8,
            NumKind::U128 | NumKind::I128 => 16,
        }
    }
}

/// The mathematical model of a [`Shape`]: the same tree with
/// mathematical sequences for the bookkeeping collections.
#[verifier::ext_equal]
pub enum ShapeSpec {
    /// Zero bytes on the wire.
    Unit,
    /// One byte, `0` or `1`.
    Bool,
    /// A fixed-width number, little-endian.
    Num(NumKind),
    /// A 4-byte little-endian count of bytes, then that many bytes of
    /// valid UTF-8.
    Text,
    /// Exactly the given number of elements, back to back, no prefix.
    FixedArray(Box<ShapeSpec>, nat),
    /// A 4-byte little-endian count, then that many elements.
    Sequence(Box<ShapeSpec>),
    /// One discriminant byte (`0` absent, `1` present), then the inner
    /// value if present.
    Optional(Box<ShapeSpec>),
    /// The fields in declaration order, no tags, no padding.
    Struct(Seq<ShapeSpec>),
    /// A 1-byte zero-based ordinal, then the chosen variant's payload
    /// fields in declaration order.
    Enum(Seq<Seq<ShapeSpec>>),
    /// A recursive optional: laid out like `Optional`, but the value
    /// present is a value of the whole root shape being decoded.
    SelfOpt,
}

/// A description of how a value is laid out on the wire.
///
/// A `Shape` is a finite tree; recursion is expressed by [`Shape::SelfOpt`],
/// which refers back to the root shape handed to the codec, so a value of
/// a recursive shape is a finite, singly-owned tree.
pub enum Shape {
    /// Zero bytes on the wire.
    Unit,
    /// One byte, `0` or `1`.
    Bool,
    /// A fixed-width number, little-endian.
    Num(NumKind),
    /// A 4-byte little-endian count of bytes, then that many bytes of
    /// valid UTF-8.
    Text,
    /// Exactly the given number of elements, back to back, no prefix.
    FixedArray(Box<Shape>, usize),
    /// A 4-byte little-endian count, then that many elements.
    Sequence(Box<Shape>),
    /// One discriminant byte (`0` absent, `1` present), then the inner
    /// value if present.
    Optional(Box<Shape>),
    /// The fields in declaration order, no tags, no padding.
    Struct(Vec<Shape>),
    /// A 1-byte zero-based ordinal, then the chosen variant's payload
    /// fields in declaration order.
    Enum(Vec<Vec<Shape>>),
    /// A recursive optional: laid out like `Optional`, but the value
    /// present is a value of the whole root shape being decoded.
    SelfOpt,
}

/// The model of one shape.
pub open spec fn shape_model(s: Shape) -> ShapeSpec
    decreases s, 1int, 0int,
{
    match s {
        Shape::Unit => ShapeSpec::Unit,
        Shape::Bool => ShapeSpec::Bool,
        Shape::Num(k) => ShapeSpec::Num(k),
        Shape::Text => ShapeSpec::Text,
        Shape::FixedArray(elem, n) => ShapeSpec::FixedArray(
            Box::new(shape_model(*elem)),
            n as nat,
        ),
        Shape::Sequence(elem) => ShapeSpec::Sequence(Box::new(shape_model(*elem))),
        Shape::Optional(inner) => ShapeSpec::Optional(Box::new(shape_model(*inner))),
        Shape::Struct(fields) => ShapeSpec::Struct(shape_model_list(fields@, 0)),
        Shape::Enum(variants) => ShapeSpec::Enum(shape_model_variants(variants@, 0)),
        Shape::SelfOpt => ShapeSpec::SelfOpt,
    }
}

/// The models of the shapes of `ss` from index `i` on.
pub open spec fn shape_model_list(ss: Seq<Shape>, i: int) -> Seq<ShapeSpec>
    decreases ss, 0int, ss.len() - i,
{
    if i < 0 || i >= ss.len() {
        Seq::empty()
    } else {
        seq![shape_model(ss[i])] + shape_model_list(ss, i + 1)
    }
}

/// The models of the variant field lists of `vs` from index `i` on.
pub open spec fn shape_model_variants(vs: Seq<Vec<Shape>>, i: int) -> Seq<Seq<ShapeSpec>>
    decreases vs, 0int, vs.len() - i,
{
    if i < 0 || i >= vs.len() {
        Seq::empty()
    } else {
        seq![shape_model_list(vs[i]@, 0)] + shape_model_variants(vs, i + 1)
    }
}

impl View for Shape {
    type V = ShapeSpec;

    open spec fn view(&self) -> ShapeSpec {
        shape_model(*self)
    }
}

/// `shape_model_list(ss, i)` lists the models of `ss[i..]`, one per
/// element, in order.
pub proof fn lemma_shape_model_list(ss: Seq<Shape>, i: int)
    requires
        0 <= i <= ss.len(),
    ensures
        shape_model_list(ss, i).len() == ss.len() - i,
        forall|j: int|
            0 <= j < ss.len() - i ==> #[trigger] shape_model_list(ss, i)[j] == shape_model(
                ss[i + j],
            ),
    decreases ss.len() - i,
{
    if i < ss.len() {
        lemma_shape_model_list(ss, i + 1);
        assert forall|j: int| 0 <= j < ss.len() - i implies #[trigger] shape_model_list(
            ss,
            i,
        )[j] == shape_model(ss[i + j]) by {
            if j > 0 {
                assert(shape_model_list(ss, i)[j] == shape_model_list(ss, i + 1)[j - 1]);
            }
        }
    }
}

/// `shape_model_variants(vs, i)` lists the models of the field lists of
/// `vs[i..]`, one per variant, in order.
pub proof fn lemma_shape_model_variants(vs: Seq<Vec<Shape>>, i: int)
    requires
        0 <= i <= vs.len(),
    ensures
        shape_model_variants(vs, i).len() == vs.len() - i,
        forall|j: int|
            0 <= j < vs.len() - i ==> #[trigger] shape_model_variants(vs, i)[j]
                == shape_model_list(vs[i + j]@, 0),
    decreases vs.len() - i,
{
    if i < vs.len() {
        lemma_shape_model_variants(vs, i + 1);
        assert forall|j: int| 0 <= j < vs.len() - i implies #[trigger] shape_model_variants(
            vs,
            i,
        )[j] == shape_model_list(vs[i + j]@, 0) by {
            if j > 0 {
                assert(shape_model_variants(vs, i)[j] == shape_model_variants(vs, i + 1)[j - 1]);
            }
        }
    }
}

} // verus!
