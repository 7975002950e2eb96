//! The codec engine: the mathematical encoding and decoding functions
//! for every shape, and the executable encoder and decoder proved
//! against them.
//!
//! The byte layout is canonical: numbers are little-endian and
//! fixed-width, text and sequences carry a 4-byte little-endian count,
//! optionals and the recursive optional carry a one-byte discriminant
//! (`0` or `1`), enums carry a one-byte zero-based ordinal, and structs
//! are the plain concatenation of their fields.

use vstd::prelude::*;
use crate::bytes::{le_bytes, from_le, write_le};
use crate::shape::{Shape, ShapeSpec};
use crate::value::{Value, ValueSpec};
use crate::utf8::valid_utf8;
use vstd::arithmetic::power2::pow2;

verus! {

broadcast use vstd::std_specs::vec::group_vec_axioms;

/// The ways a buffer can fail to decode.
#[derive(Clone, Copy, PartialEq, Eq, Structural, Debug)]
pub enum DecodeError {
    /// The input ended before one whole value could be read.
    UnexpectedEndOfInput,
    /// A discriminant byte was out of range: a boolean or an optional
    /// marker other than `0` or `1`, or an enum ordinal at or past the
    /// variant count.
    InvalidDiscriminant,
    /// A text payload held ill-formed UTF-8.
    InvalidUtf8,
    /// The input held a whole value and then more bytes.
    TrailingBytes,
}

/// `d` is a value of shape `s`, where `SelfOpt` recursion refers to
/// `root`: the shapes and values line up and every count fits its
/// 4-byte field.
pub open spec fn conforms(root: ShapeSpec, s: ShapeSpec, d: ValueSpec) -> bool
    decreases d, 1int, 0int,
{
    match (s, d) {
        (ShapeSpec::Unit, ValueSpec::Unit) => true,
        (ShapeSpec::Bool, ValueSpec::Bool(_)) => true,
        (ShapeSpec::Num(k), ValueSpec::Num(bits)) => (bits as nat) < pow2(8 * k.spec_width()),
        (ShapeSpec::Text, ValueSpec::Text(bytes)) => bytes.len() < 0x1_0000_0000
            && valid_utf8(bytes),
        (ShapeSpec::FixedArray(elem, n), ValueSpec::List(items)) => items.len() == n
            && conforms_elems(root, *elem, items, 0),
        (ShapeSpec::Sequence(elem), ValueSpec::List(items)) => items.len() < 0x1_0000_0000
            && conforms_elems(root, *elem, items, 0),
        (ShapeSpec::Optional(inner), ValueSpec::OptVal(o)) => match o {
            Option::None => true,
            Option::Some(child) => conforms(root, *inner, *child),
        },
        (ShapeSpec::Struct(fields), ValueSpec::StructVal(vals)) => vals.len() == fields.len()
            && conforms_fields(root, fields, vals, 0),
        (ShapeSpec::Enum(variants), ValueSpec::EnumVal(ord, payload)) => ord < variants.len()
            && ord < 256
            && payload.len() == variants[ord as int].len()
            && conforms_fields(root, variants[ord as int], payload, 0),
        (ShapeSpec::SelfOpt, ValueSpec::OptVal(o)) => match o {
            Option::None => true,
            Option::Some(child) => conforms(root, root, *child),
        },
        _ => false,
    }
}

/// Every element of `items` from index `i` on conforms to `elem`.
pub open spec fn conforms_elems(
    root: ShapeSpec,
    elem: ShapeSpec,
    items: Seq<ValueSpec>,
    i: int,
) -> bool
    decreases items, 0int, items.len() - i,
{
    i >= items.len() || i < 0 || (conforms(root, elem, items[i]) && conforms_elems(
        root,
        elem,
        items,
        i + 1,
    ))
}

/// Every value of `vals` from index `i` on conforms to the shape at the
/// same index of `shapes`.
pub open spec fn conforms_fields(
    root: ShapeSpec,
    shapes: Seq<ShapeSpec>,
    vals: Seq<ValueSpec>,
    i: int,
) -> bool
    recommends
        shapes.len() == vals.len(),
    decreases vals, 0int, vals.len() - i,
{
    i >= vals.len() || i < 0 || (i < shapes.len() && conforms(root, shapes[i], vals[i])
        && conforms_fields(root, shapes, vals, i + 1))
}

/// The canonical encoding of `d` as a value of shape `s` under the root
/// shape `root`. Meaningful when `conforms(root, s, d)` holds.
pub open spec fn enc(root: ShapeSpec, s: ShapeSpec, d: ValueSpec) -> Seq<u8>
    decreases d, 1int, 0int,
{
    match (s, d) {
        (ShapeSpec::Unit, ValueSpec::Unit) => Seq::empty(),
        (ShapeSpec::Bool, ValueSpec::Bool(b)) => seq![if b { 1u8 } else { 0u8 }],
        (ShapeSpec::Num(k), ValueSpec::Num(bits)) => le_bytes(bits as nat, k.spec_width()),
        (ShapeSpec::Text, ValueSpec::Text(bytes)) => le_bytes(bytes.len(), 4) + bytes,
        (ShapeSpec::FixedArray(elem, _), ValueSpec::List(items)) => enc_elems(
            root,
            *elem,
            items,
            0,
        ),
        (ShapeSpec::Sequence(elem), ValueSpec::List(items)) => le_bytes(items.len(), 4)
            + enc_elems(root, *elem, items, 0),
        (ShapeSpec::Optional(inner), ValueSpec::OptVal(o)) => match o {
            Option::None => seq![0u8],
            Option::Some(child) => seq![1u8] + enc(root, *inner, *child),
        },
        (ShapeSpec::Struct(fields), ValueSpec::StructVal(vals)) => enc_fields(
            root,
            fields,
            vals,
            0,
        ),
        (ShapeSpec::Enum(variants), ValueSpec::EnumVal(ord, payload)) => seq![ord as u8]
            + enc_fields(root, variants[ord as int], payload, 0),
        (ShapeSpec::SelfOpt, ValueSpec::OptVal(o)) => match o {
            Option::None => seq![0u8],
            Option::Some(child) => seq![1u8] + enc(root, root, *child),
        },
        _ => Seq::empty(),
    }
}

/// The concatenated encodings of the elements of `items` from index `i`
/// on, each as a value of shape `elem`.
pub open spec fn enc_elems(
    root: ShapeSpec,
    elem: ShapeSpec,
    items: Seq<ValueSpec>,
    i: int,
) -> Seq<u8>
    decreases items, 0int, items.len() - i,
{
    if i < 0 || i >= items.len() {
        Seq::empty()
    } else {
        enc(root, elem, items[i]) + enc_elems(root, elem, items, i + 1)
    }
}

/// The concatenated encodings of the values of `vals` from index `i`
/// on, each as a value of the shape at the same index of `shapes`.
pub open spec fn enc_fields(
    root: ShapeSpec,
    shapes: Seq<ShapeSpec>,
    vals: Seq<ValueSpec>,
    i: int,
) -> Seq<u8>
    recommends
        shapes.len() == vals.len(),
    decreases vals, 0int, vals.len() - i,
{
    if i < 0 || i >= vals.len() || i >= shapes.len() {
        Seq::empty()
    } else {
        enc(root, shapes[i], vals[i]) + enc_fields(root, shapes, vals, i + 1)
    }
}

/// The bytes of `input` that remain at or after `pos`; never negative,
/// so it can serve as a termination measure for the decoder.
pub open spec fn remaining(input: Seq<u8>, pos: nat) -> int {
    if pos <= input.len() {
        input.len() - pos
    } else {
        0
    }
}

/// The mathematical decoder: the value of shape `s` at offset `pos` of
/// `input` and the number of bytes it occupies, or the first failure.
pub open spec fn dec(root: ShapeSpec, s: ShapeSpec, input: Seq<u8>, pos: nat) -> Result<
    (ValueSpec, nat),
    DecodeError,
>
    decreases remaining(input, pos), s, 1int, 0int,
{
    match s {
        ShapeSpec::Unit => Ok((ValueSpec::Unit, 0)),
        ShapeSpec::Bool => if pos >= input.len() {
            Err(DecodeError::UnexpectedEndOfInput)
        } else if input[pos as int] == 0 {
            Ok((ValueSpec::Bool(false), 1))
        } else if input[pos as int] == 1 {
            Ok((ValueSpec::Bool(true), 1))
        } else {
            Err(DecodeError::InvalidDiscriminant)
        },
        ShapeSpec::Num(k) => if pos + k.spec_width() > input.len() {
            Err(DecodeError::UnexpectedEndOfInput)
        } else {
            Ok(
                (
                    ValueSpec::Num(
                        from_le(input.subrange(pos as int, pos as int + k.spec_width())) as u128,
                    ),
                    k.spec_width(),
                ),
            )
        },
        ShapeSpec::Text => if pos + 4 > input.len() {
            Err(DecodeError::UnexpectedEndOfInput)
        } else {
            let n = from_le(input.subrange(pos as int, pos as int + 4));
            if pos + 4 + n > input.len() {
                Err(DecodeError::UnexpectedEndOfInput)
            } else {
                let bytes = input.subrange(pos as int + 4, pos as int + 4 + n);
                if valid_utf8(bytes) {
                    Ok((ValueSpec::Text(bytes), 4 + n))
                } else {
                    Err(DecodeError::InvalidUtf8)
                }
            }
        },
        ShapeSpec::FixedArray(_, n) => match dec_elems(root, s, input, pos, n) {
            Ok((items, c)) => Ok((ValueSpec::List(items), c)),
            Err(e) => Err(e),
        },
        ShapeSpec::Sequence(_) => if pos + 4 > input.len() {
            Err(DecodeError::UnexpectedEndOfInput)
        } else {
            let n = from_le(input.subrange(pos as int, pos as int + 4));
            match dec_elems(root, s, input, pos + 4, n) {
                Ok((items, c)) => Ok((ValueSpec::List(items), 4 + c)),
                Err(e) => Err(e),
            }
        },
        ShapeSpec::Optional(inner) => if pos >= input.len() {
            Err(DecodeError::UnexpectedEndOfInput)
        } else if input[pos as int] == 0 {
            Ok((ValueSpec::OptVal(Option::None), 1))
        } else if input[pos as int] == 1 {
            match dec(root, *inner, input, pos + 1) {
                Ok((child, c)) => Ok(
                    (ValueSpec::OptVal(Option::Some(Box::new(child))), 1 + c),
                ),
                Err(e) => Err(e),
            }
        } else {
            Err(DecodeError::InvalidDiscriminant)
        },
        ShapeSpec::Struct(fields) => match dec_fields(root, fields, input, pos, 0) {
            Ok((vals, c)) => Ok((ValueSpec::StructVal(vals), c)),
            Err(e) => Err(e),
        },
        ShapeSpec::Enum(variants) => if pos >= input.len() {
            Err(DecodeError::UnexpectedEndOfInput)
        } else if (input[pos as int] as int) < variants.len() {
            match dec_fields(root, variants[input[pos as int] as int], input, pos + 1, 0) {
                Ok((vals, c)) => Ok(
                    (ValueSpec::EnumVal(input[pos as int] as nat, vals), 1 + c),
                ),
                Err(e) => Err(e),
            }
        } else {
            Err(DecodeError::InvalidDiscriminant)
        },
        ShapeSpec::SelfOpt => if pos >= input.len() {
            Err(DecodeError::UnexpectedEndOfInput)
        } else if input[pos as int] == 0 {
            Ok((ValueSpec::OptVal(Option::None), 1))
        } else if input[pos as int] == 1 {
            match dec(root, root, input, pos + 1) {
                Ok((child, c)) => Ok(
                    (ValueSpec::OptVal(Option::Some(Box::new(child))), 1 + c),
                ),
                Err(e) => Err(e),
            }
        } else {
            Err(DecodeError::InvalidDiscriminant)
        },
    }
}

/// Decodes `count` consecutive elements of the element shape of the
/// array or sequence shape `arr`, starting at `pos`.
pub open spec fn dec_elems(
    root: ShapeSpec,
    arr: ShapeSpec,
    input: Seq<u8>,
    pos: nat,
    count: nat,
) -> Result<(Seq<ValueSpec>, nat), DecodeError>
    decreases remaining(input, pos), arr, 0int, count,
{
    if count == 0 {
        Ok((Seq::empty(), 0))
    } else {
        match arr {
            ShapeSpec::FixedArray(elem, _) => match dec(root, *elem, input, pos) {
                Ok((d0, c0)) => match dec_elems(root, arr, input, pos + c0, (count - 1) as nat) {
                    Ok((rest, c1)) => Ok((seq![d0] + rest, c0 + c1)),
                    Err(e) => Err(e),
                },
                Err(e) => Err(e),
            },
            ShapeSpec::Sequence(elem) => match dec(root, *elem, input, pos) {
                Ok((d0, c0)) => match dec_elems(root, arr, input, pos + c0, (count - 1) as nat) {
                    Ok((rest, c1)) => Ok((seq![d0] + rest, c0 + c1)),
                    Err(e) => Err(e),
                },
                Err(e) => Err(e),
            },
            _ => Err(DecodeError::UnexpectedEndOfInput),
        }
    }
}

/// Decodes one value per shape of `shapes`, from index `i` on, starting
/// at `pos`.
pub open spec fn dec_fields(
    root: ShapeSpec,
    shapes: Seq<ShapeSpec>,
    input: Seq<u8>,
    pos: nat,
    i: int,
) -> Result<(Seq<ValueSpec>, nat), DecodeError>
    decreases remaining(input, pos), shapes, 0int, shapes.len() - i,
{
    if i < 0 || i >= shapes.len() {
        Ok((Seq::empty(), 0))
    } else {
        match dec(root, shapes[i], input, pos) {
            Ok((d0, c0)) => match dec_fields(root, shapes, input, pos + c0, i + 1) {
                Ok((rest, c1)) => Ok((seq![d0] + rest, c0 + c1)),
                Err(e) => Err(e),
            },
            Err(e) => Err(e),
        }
    }
}

/// The top-level decoder: a value of shape `s` that occupies the whole
/// of `input`; anything left over is `TrailingBytes`.
pub open spec fn dec_top(s: ShapeSpec, input: Seq<u8>) -> Result<ValueSpec, DecodeError> {
    match dec(s, s, input, 0) {
        Ok((d, c)) => if c == input.len() {
            Ok(d)
        } else {
            Err(DecodeError::TrailingBytes)
        },
        Err(e) => Err(e),
    }
}

/// The canonical encoding of `d` as a value of the root shape `s`.
pub open spec fn enc_top(s: ShapeSpec, d: ValueSpec) -> Seq<u8> {
    enc(s, s, d)
}

/// `d` is a value of the root shape `s`.
pub open spec fn conforms_top(s: ShapeSpec, d: ValueSpec) -> bool {
    conforms(s, s, d)
}

/// Appends a copy of the bytes of `src` to `out`.
fn push_bytes(src: &Vec<u8>, out: &mut Vec<u8>)
    ensures
        final(out)@ == old(out)@ + src@,
{
    let n = src.len();
    let mut j: usize = 0;
    while j < n
        invariant
            j <= n,
            n == src@.len(),
            out@ == old(out)@ + src@.subrange(0, j as int),
        decreases n - j,
    {
        out.push(src[j]);
        proof {
            assert(src@.subrange(0, j + 1) =~= src@.subrange(0, j as int) + seq![src@[j as int]]);
        }
        j = j + 1;
    }
    assert(out@ =~= old(out)@ + src@);
}

/// Appends the canonical encoding of `v`, a value of shape `s` under
/// the root shape `root`, to `out`.
pub fn encode(root: &Shape, s: &Shape, v: &Value, out: &mut Vec<u8>)
    requires
        conforms(root@, s@, v@),
    ensures
        final(out)@ == old(out)@ + enc(root@, s@, v@),
    decreases *v, 1int, 0int,
{
    match (s, v) {
        (Shape::Unit, Value::Unit) => {
            assert(out@ =~= out@ + enc(root@, s@, v@));
        },
        (Shape::Bool, Value::Bool(b)) => {
            out.push(if *b { 1 } else { 0 });
            assert(out@ =~= old(out)@ + enc(root@, s@, v@));
        },
        (Shape::Num(k), Value::Num(bits)) => {
            write_le(*bits, k.width(), out);
        },
        (Shape::Text, Value::Text(bytes)) => {
            write_le(bytes.len() as u128, 4, out);
            push_bytes(bytes, out);
            assert(out@ =~= old(out)@ + enc(root@, s@, v@));
        },
        (Shape::FixedArray(elem, _), Value::List(items)) => {
            encode_elems(root, elem, items, 0, out);
        },
        (Shape::Sequence(elem), Value::List(items)) => {
            proof {
                crate::value::lemma_value_model_list(items@, 0);
            }
            write_le(items.len() as u128, 4, out);
            encode_elems(root, elem, items, 0, out);
            assert(out@ =~= old(out)@ + enc(root@, s@, v@));
        },
        (Shape::Optional(inner), Value::OptVal(o)) => match o {
            Option::None => {
                out.push(0);
                assert(out@ =~= old(out)@ + enc(root@, s@, v@));
            },
            Option::Some(child) => {
                out.push(1);
                encode(root, inner, child, out);
                assert(out@ =~= old(out)@ + enc(root@, s@, v@));
            },
        },
        (Shape::Struct(fields), Value::StructVal(vals)) => {
            encode_fields(root, fields, vals, 0, out);
        },
        (Shape::Enum(variants), Value::EnumVal(ord, payload)) => {
            proof {
                crate::shape::lemma_shape_model_variants(variants@, 0);
            }
            out.push(*ord);
            encode_fields(root, &variants[*ord as usize], payload, 0, out);
            assert(out@ =~= old(out)@ + enc(root@, s@, v@));
        },
        (Shape::SelfOpt, Value::OptVal(o)) => match o {
            Option::None => {
                out.push(0);
                assert(out@ =~= old(out)@ + enc(root@, s@, v@));
            },
            Option::Some(child) => {
                out.push(1);
                encode(root, root, child, out);
                assert(out@ =~= old(out)@ + enc(root@, s@, v@));
            },
        },
        _ => {
            assert(out@ =~= out@ + enc(root@, s@, v@));
        },
    }
}

/// Appends the encodings of the elements of `items` from index `i` on,
/// each as a value of shape `elem`.
fn encode_elems(root: &Shape, elem: &Shape, items: &Vec<Value>, i: usize, out: &mut Vec<u8>)
    requires
        i <= items.len(),
        conforms_elems(root@, elem@, crate::value::value_model_list(items@, 0), i as int),
    ensures
        final(out)@ == old(out)@ + enc_elems(
            root@,
            elem@,
            crate::value::value_model_list(items@, 0),
            i as int,
        ),
    decreases *items, 0int, items.len() - i,
{
    proof {
        crate::value::lemma_value_model_list(items@, 0);
    }
    let ghost m = crate::value::value_model_list(items@, 0);
    if i < items.len() {
        encode(root, elem, &items[i], out);
        encode_elems(root, elem, items, i + 1, out);
        assert(out@ =~= old(out)@ + enc_elems(root@, elem@, m, i as int));
    } else {
        assert(out@ =~= out@ + enc_elems(root@, elem@, m, i as int));
    }
}

/// Appends the encodings of the values of `vals` from index `i` on,
/// each as a value of the shape at the same index of `fields`.
fn encode_fields(root: &Shape, fields: &Vec<Shape>, vals: &Vec<Value>, i: usize, out: &mut Vec<u8>)
    requires
        i <= vals.len(),
        conforms_fields(
            root@,
            crate::shape::shape_model_list(fields@, 0),
            crate::value::value_model_list(vals@, 0),
            i as int,
        ),
    ensures
        final(out)@ == old(out)@ + enc_fields(
            root@,
            crate::shape::shape_model_list(fields@, 0),
            crate::value::value_model_list(vals@, 0),
            i as int,
        ),
    decreases *vals, 0int, vals.len() - i,
{
    proof {
        crate::shape::lemma_shape_model_list(fields@, 0);
        crate::value::lemma_value_model_list(vals@, 0);
    }
    let ghost ms = crate::shape::shape_model_list(fields@, 0);
    let ghost m = crate::value::value_model_list(vals@, 0);
    if i < vals.len() {
        encode(root, &fields[i], &vals[i], out);
        encode_fields(root, fields, vals, i + 1, out);
        assert(out@ =~= old(out)@ + enc_fields(root@, ms, m, i as int));
    } else {
        assert(out@ =~= out@ + enc_fields(root@, ms, m, i as int));
    }
}

/// Copies the bytes of `input` between `start` and `end` into a fresh
/// vector.
fn copy_range(input: &[u8], start: usize, end: usize) -> (r: Vec<u8>)
    requires
        start <= end <= input@.len(),
    ensures
        r@ == input@.subrange(start as int, end as int),
{
    let mut r: Vec<u8> = Vec::new();
    let mut j: usize = start;
    while j < end
        invariant
            start <= j <= end <= input@.len(),
            r@ == input@.subrange(start as int, j as int),
        decreases end - j,
    {
        r.push(input[j]);
        proof {
            assert(input@.subrange(start as int, j + 1) =~= input@.subrange(
                start as int,
                j as int,
            ) + seq![input@[j as int]]);
        }
        j = j + 1;
    }
    r
}

/// Decodes one value of shape `s` at offset `pos` of `input`, returning
/// the value and the number of bytes it occupied. Agrees exactly with
/// the mathematical decoder [`dec`].
pub fn decode(root: &Shape, s: &Shape, input: &[u8], pos: usize) -> (r: Result<
    (Value, usize),
    DecodeError,
>)
    requires
        pos <= input@.len(),
    ensures
        match r {
            Ok((v, c)) => pos + c <= input@.len() && dec(root@, s@, input@, pos as nat)
                == Ok::<(ValueSpec, nat), DecodeError>((v@, c as nat)),
            Err(e) => dec(root@, s@, input@, pos as nat) == Err::<(ValueSpec, nat), DecodeError>(
                e,
            ),
        },
    decreases remaining(input@, pos as nat), *s, 1int, 0int,
{
    let len = input.len();
    match s {
        Shape::Unit => Ok((Value::Unit, 0)),
        Shape::Bool => {
            if pos >= len {
                Err(DecodeError::UnexpectedEndOfInput)
            } else if input[pos] == 0 {
                Ok((Value::Bool(false), 1))
            } else if input[pos] == 1 {
                Ok((Value::Bool(true), 1))
            } else {
                Err(DecodeError::InvalidDiscriminant)
            }
        },
        Shape::Num(k) => {
            let w = k.width();
            if len - pos < w {
                Err(DecodeError::UnexpectedEndOfInput)
            } else {
                let bits = crate::bytes::read_le(input, pos, w);
                Ok((Value::Num(bits), w))
            }
        },
        Shape::Text => {
            if len - pos < 4 {
                return Err(DecodeError::UnexpectedEndOfInput);
            }
            let n128 = crate::bytes::read_le(input, pos, 4);
            proof {
                crate::bytes::lemma_from_le_bound(input@.subrange(pos as int, pos as int + 4));
                vstd::arithmetic::power2::lemma2_to64();
            }
            let n = n128 as usize;
            if len - pos - 4 < n {
                return Err(DecodeError::UnexpectedEndOfInput);
            }
            if crate::utf8::check_utf8(input, pos + 4, pos + 4 + n) {
                let bytes = copy_range(input, pos + 4, pos + 4 + n);
                Ok((Value::Text(bytes), 4 + n))
            } else {
                Err(DecodeError::InvalidUtf8)
            }
        },
        Shape::FixedArray(_, n) => {
            match decode_elems(root, s, input, pos, *n) {
                Ok((items, c)) => Ok((Value::List(items), c)),
                Err(e) => Err(e),
            }
        },
        Shape::Sequence(_) => {
            if len - pos < 4 {
                return Err(DecodeError::UnexpectedEndOfInput);
            }
            let n128 = crate::bytes::read_le(input, pos, 4);
            proof {
                crate::bytes::lemma_from_le_bound(input@.subrange(pos as int, pos as int + 4));
                vstd::arithmetic::power2::lemma2_to64();
            }
            let n = n128 as usize;
            match decode_elems(root, s, input, pos + 4, n) {
                Ok((items, c)) => Ok((Value::List(items), 4 + c)),
                Err(e) => Err(e),
            }
        },
        Shape::Optional(inner) => {
            if pos >= len {
                Err(DecodeError::UnexpectedEndOfInput)
            } else if input[pos] == 0 {
                Ok((Value::OptVal(Option::None), 1))
            } else if input[pos] == 1 {
                match decode(root, inner, input, pos + 1) {
                    Ok((child, c)) => Ok((Value::OptVal(Option::Some(Box::new(child))), 1 + c)),
                    Err(e) => Err(e),
                }
            } else {
                Err(DecodeError::InvalidDiscriminant)
            }
        },
        Shape::Struct(fields) => {
            match decode_fields(root, fields, input, pos, 0) {
                Ok((vals, c)) => Ok((Value::StructVal(vals), c)),
                Err(e) => Err(e),
            }
        },
        Shape::Enum(variants) => {
            proof {
                crate::shape::lemma_shape_model_variants(variants@, 0);
            }
            if pos >= len {
                Err(DecodeError::UnexpectedEndOfInput)
            } else {
                let ord = input[pos];
                if (ord as usize) < variants.len() {
                    match decode_fields(root, &variants[ord as usize], input, pos + 1, 0) {
                        Ok((vals, c)) => Ok((Value::EnumVal(ord, vals), 1 + c)),
                        Err(e) => Err(e),
                    }
                } else {
                    Err(DecodeError::InvalidDiscriminant)
                }
            }
        },
        Shape::SelfOpt => {
            if pos >= len {
                Err(DecodeError::UnexpectedEndOfInput)
            } else if input[pos] == 0 {
                Ok((Value::OptVal(Option::None), 1))
            } else if input[pos] == 1 {
                match decode(root, root, input, pos + 1) {
                    Ok((child, c)) => Ok((Value::OptVal(Option::Some(Box::new(child))), 1 + c)),
                    Err(e) => Err(e),
                }
            } else {
                Err(DecodeError::InvalidDiscriminant)
            }
        },
    }
}

/// Decodes `count` consecutive elements of the element shape of the
/// array or sequence shape `arr`, starting at `pos`. Agrees exactly
/// with [`dec_elems`].
fn decode_elems(root: &Shape, arr: &Shape, input: &[u8], pos: usize, count: usize) -> (r: Result<
    (Vec<Value>, usize),
    DecodeError,
>)
    requires
        pos <= input@.len(),
    ensures
        match r {
            Ok((items, c)) => pos + c <= input@.len() && dec_elems(
                root@,
                arr@,
                input@,
                pos as nat,
                count as nat,
            ) == Ok::<(Seq<ValueSpec>, nat), DecodeError>(
                (crate::value::value_model_list(items@, 0), c as nat),
            ),
            Err(e) => dec_elems(root@, arr@, input@, pos as nat, count as nat) == Err::<
                (Seq<ValueSpec>, nat),
                DecodeError,
            >(e),
        },
    decreases remaining(input@, pos as nat), *arr, 0int, count,
{
    let len = input.len();
    if count == 0 {
        let items: Vec<Value> = Vec::new();
        proof {
            assert(crate::value::value_model_list(items@, 0) =~= Seq::<ValueSpec>::empty());
        }
        return Ok((items, 0));
    }
    match arr {
        Shape::FixedArray(elem, _) | Shape::Sequence(elem) => {
            match decode(root, elem, input, pos) {
                Ok((d0, c0)) => {
                    match decode_elems(root, arr, input, pos + c0, count - 1) {
                        Ok((rest, c1)) => {
                            let ghost restv = rest@;
                            let mut items = rest;
                            items.insert(0, d0);
                            proof {
                                assert(items@ =~= seq![d0] + restv);
                                crate::value::lemma_value_model_list(items@, 0);
                                crate::value::lemma_value_model_list(restv, 0);
                                assert(crate::value::value_model_list(items@, 0) =~= seq![d0@]
                                    + crate::value::value_model_list(restv, 0));
                            }
                            Ok((items, c0 + c1))
                        },
                        Err(e) => Err(e),
                    }
                },
                Err(e) => Err(e),
            }
        },
        _ => Err(DecodeError::UnexpectedEndOfInput),
    }
}

/// Decodes one value per shape of `fields`, from index `i` on, starting
/// at `pos`. Agrees exactly with [`dec_fields`].
fn decode_fields(root: &Shape, fields: &Vec<Shape>, input: &[u8], pos: usize, i: usize) -> (r:
    Result<(Vec<Value>, usize), DecodeError>)
    requires
        pos <= input@.len(),
        i <= fields@.len(),
    ensures
        match r {
            Ok((vals, c)) => pos + c <= input@.len() && dec_fields(
                root@,
                crate::shape::shape_model_list(fields@, 0),
                input@,
                pos as nat,
                i as int,
            ) == Ok::<(Seq<ValueSpec>, nat), DecodeError>(
                (crate::value::value_model_list(vals@, 0), c as nat),
            ),
            Err(e) => dec_fields(
                root@,
                crate::shape::shape_model_list(fields@, 0),
                input@,
                pos as nat,
                i as int,
            ) == Err::<(Seq<ValueSpec>, nat), DecodeError>(e),
        },
    decreases remaining(input@, pos as nat), *fields, 0int, fields.len() - i,
{
    let len = input.len();
    proof {
        crate::shape::lemma_shape_model_list(fields@, 0);
    }
    if i >= fields.len() {
        let vals: Vec<Value> = Vec::new();
        proof {
            assert(crate::value::value_model_list(vals@, 0) =~= Seq::<ValueSpec>::empty());
        }
        return Ok((vals, 0));
    }
    match decode(root, &fields[i], input, pos) {
        Ok((d0, c0)) => {
            match decode_fields(root, fields, input, pos + c0, i + 1) {
                Ok((rest, c1)) => {
                    let ghost restv = rest@;
                    let mut vals = rest;
                    vals.insert(0, d0);
                    proof {
                        assert(vals@ =~= seq![d0] + restv);
                        crate::value::lemma_value_model_list(vals@, 0);
                        crate::value::lemma_value_model_list(restv, 0);
                        assert(crate::value::value_model_list(vals@, 0) =~= seq![d0@]
                            + crate::value::value_model_list(restv, 0));
                    }
                    Ok((vals, c0 + c1))
                },
                Err(e) => Err(e),
            }
        },
        Err(e) => Err(e),
    }
}

/// Decodes the whole of `input` as one value of the root shape `s`;
/// bytes left over after the value are an error. Agrees exactly with
/// [`dec_top`].
pub fn decode_top(s: &Shape, input: &[u8]) -> (r: Result<Value, DecodeError>)
    ensures
        match r {
            Ok(v) => dec_top(s@, input@) == Ok::<ValueSpec, DecodeError>(v@),
            Err(e) => dec_top(s@, input@) == Err::<ValueSpec, DecodeError>(e),
        },
{
    match decode(s, s, input, 0) {
        Ok((v, c)) => {
            if c == input.len() {
                Ok(v)
            } else {
                Err(DecodeError::TrailingBytes)
            }
        },
        Err(e) => Err(e),
    }
}

} // verus!
