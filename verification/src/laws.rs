//! The laws of the codec: encoding followed by decoding is the
//! identity, decoding accepts nothing but canonical encodings, any
//! strict prefix of an encoding fails with `UnexpectedEndOfInput`, a
//! whole-buffer decode rejects trailing bytes, encoding is injective,
//! and out-of-range discriminants are rejected.

use vstd::prelude::*;
use crate::bytes::{le_bytes, from_le, lemma_le_bytes_len, lemma_from_le_le, lemma_from_le_bound,
    lemma_le_from_le};
use crate::shape::ShapeSpec;
use crate::value::ValueSpec;
use crate::codec::{DecodeError, conforms, conforms_elems, conforms_fields, enc, enc_elems,
    enc_fields, dec, dec_elems, dec_fields, dec_top, enc_top, conforms_top, remaining};
use vstd::arithmetic::power2::{pow2, lemma2_to64, lemma_pow2_strictly_increases};

verus! {

/// Walking `items` from `i + 1` is walking `items.drop_first()` from
/// `i`: the element-wise conformance view.
proof fn lemma_conforms_elems_drop(
    root: ShapeSpec,
    elem: ShapeSpec,
    items: Seq<ValueSpec>,
    i: int,
)
    requires
        0 <= i,
        items.len() > 0,
    ensures
        conforms_elems(root, elem, items, i + 1) == conforms_elems(
            root,
            elem,
            items.drop_first(),
            i,
        ),
    decreases items.len() - i,
{
    if i + 1 < items.len() {
        lemma_conforms_elems_drop(root, elem, items, i + 1);
    }
}

/// Walking `vals` from `i + 1` is walking the dropped sequences from
/// `i`: the field-wise conformance view.
proof fn lemma_conforms_fields_drop(
    root: ShapeSpec,
    shapes: Seq<ShapeSpec>,
    vals: Seq<ValueSpec>,
    i: int,
)
    requires
        0 <= i,
        shapes.len() > 0,
        vals.len() > 0,
    ensures
        conforms_fields(root, shapes, vals, i + 1) == conforms_fields(
            root,
            shapes.drop_first(),
            vals.drop_first(),
            i,
        ),
    decreases vals.len() - i,
{
    if i + 1 < vals.len() {
        lemma_conforms_fields_drop(root, shapes, vals, i + 1);
    }
}

/// The encoding of elements from `i + 1` equals the encoding of the
/// dropped sequence from `i`.
proof fn lemma_enc_elems_drop(root: ShapeSpec, elem: ShapeSpec, items: Seq<ValueSpec>, i: int)
    requires
        0 <= i,
        items.len() > 0,
    ensures
        enc_elems(root, elem, items, i + 1) == enc_elems(root, elem, items.drop_first(), i),
    decreases items.len() - i,
{
    if i + 1 < items.len() {
        lemma_enc_elems_drop(root, elem, items, i + 1);
    }
}

/// The encoding of fields from `i + 1` equals the encoding of the
/// dropped sequences from `i`.
proof fn lemma_enc_fields_drop(
    root: ShapeSpec,
    shapes: Seq<ShapeSpec>,
    vals: Seq<ValueSpec>,
    i: int,
)
    requires
        0 <= i,
        shapes.len() > 0,
        vals.len() > 0,
    ensures
        enc_fields(root, shapes, vals, i + 1) == enc_fields(
            root,
            shapes.drop_first(),
            vals.drop_first(),
            i,
        ),
    decreases vals.len() - i,
{
    if i + 1 < vals.len() {
        lemma_enc_fields_drop(root, shapes, vals, i + 1);
    }
}

/// Round trip, one value: wherever the encoding of a conforming value
/// `d` sits in a buffer, decoding its shape at that offset returns
/// exactly `d` and consumes exactly the encoding.
pub proof fn lemma_enc_dec(
    root: ShapeSpec,
    s: ShapeSpec,
    d: ValueSpec,
    input: Seq<u8>,
    pos: nat,
)
    requires
        conforms(root, s, d),
        pos + enc(root, s, d).len() <= input.len(),
        input.subrange(pos as int, pos as int + enc(root, s, d).len()) =~= enc(root, s, d),
    ensures
        dec(root, s, input, pos) == Ok::<(ValueSpec, nat), DecodeError>(
            (d, enc(root, s, d).len()),
        ),
    decreases d, 1int, 0int,
{
    let e = enc(root, s, d);
    let sub = input.subrange(pos as int, pos as int + e.len());
    match (s, d) {
        (ShapeSpec::Unit, ValueSpec::Unit) => {},
        (ShapeSpec::Bool, ValueSpec::Bool(b)) => {
            assert(input[pos as int] == sub[0]);
        },
        (ShapeSpec::Num(k), ValueSpec::Num(bits)) => {
            let w = k.spec_width();
            lemma_le_bytes_len(bits as nat, w);
            assert(input.subrange(pos as int, pos as int + w) =~= e);
            lemma_from_le_le(bits as nat, w);
        },
        (ShapeSpec::Text, ValueSpec::Text(bytes)) => {
            lemma_le_bytes_len(bytes.len(), 4);
            lemma2_to64();
            assert(input.subrange(pos as int, pos as int + 4) =~= le_bytes(bytes.len(), 4));
            lemma_from_le_le(bytes.len(), 4);
            assert forall|j: int| 0 <= j < bytes.len() implies input.subrange(
                pos as int + 4,
                pos as int + 4 + bytes.len(),
            )[j] == bytes[j] by {
                assert(sub[4 + j] == e[4 + j]);
            }
            assert(input.subrange(pos as int + 4, pos as int + 4 + bytes.len()) =~= bytes);
        },
        (ShapeSpec::FixedArray(elem, n), ValueSpec::List(items)) => {
            lemma_enc_dec_elems(root, s, *elem, items, 0, input, pos);
            assert(items.skip(0) =~= items);
        },
        (ShapeSpec::Sequence(elem), ValueSpec::List(items)) => {
            lemma_le_bytes_len(items.len(), 4);
            lemma2_to64();
            let l = enc_elems(root, *elem, items, 0).len();
            assert(input.subrange(pos as int, pos as int + 4) =~= le_bytes(items.len(), 4));
            lemma_from_le_le(items.len(), 4);
            let erest = enc_elems(root, *elem, items, 0);
            assert forall|j: int| 0 <= j < l implies input.subrange(
                pos as int + 4,
                pos as int + 4 + l,
            )[j] == erest[j] by {
                assert(sub[4 + j] == e[4 + j]);
            }
            assert(input.subrange(pos as int + 4, pos as int + 4 + l) =~= erest);
            lemma_enc_dec_elems(root, s, *elem, items, 0, input, pos + 4);
            assert(items.skip(0) =~= items);
        },
        (ShapeSpec::Optional(inner), ValueSpec::OptVal(o)) => match o {
            Option::None => {
                assert(input[pos as int] == sub[0]);
            },
            Option::Some(child) => {
                assert(input[pos as int] == sub[0]);
                let ec = enc(root, *inner, *child);
                let l = ec.len();
                assert forall|j: int| 0 <= j < l implies input.subrange(
                    pos as int + 1,
                    pos as int + 1 + l,
                )[j] == ec[j] by {
                    assert(sub[1 + j] == e[1 + j]);
                }
                assert(input.subrange(pos as int + 1, pos as int + 1 + l) =~= ec);
                lemma_enc_dec(root, *inner, *child, input, pos + 1);
            },
        },
        (ShapeSpec::Struct(fields), ValueSpec::StructVal(vals)) => {
            lemma_enc_dec_fields(root, fields, vals, 0, input, pos);
            assert(vals.skip(0) =~= vals);
        },
        (ShapeSpec::Enum(variants), ValueSpec::EnumVal(ord, payload)) => {
            assert(input[pos as int] == sub[0]);
            let shapes = variants[ord as int];
            let ef = enc_fields(root, shapes, payload, 0);
            let l = ef.len();
            assert forall|j: int| 0 <= j < l implies input.subrange(
                pos as int + 1,
                pos as int + 1 + l,
            )[j] == ef[j] by {
                assert(sub[1 + j] == e[1 + j]);
            }
            assert(input.subrange(pos as int + 1, pos as int + 1 + l) =~= ef);
            lemma_enc_dec_fields(root, shapes, payload, 0, input, pos + 1);
            assert(payload.skip(0) =~= payload);
            assert(input[pos as int] as int == ord);
        },
        (ShapeSpec::SelfOpt, ValueSpec::OptVal(o)) => match o {
            Option::None => {
                assert(input[pos as int] == sub[0]);
            },
            Option::Some(child) => {
                assert(input[pos as int] == sub[0]);
                let ec = enc(root, root, *child);
                let l = ec.len();
                assert forall|j: int| 0 <= j < l implies input.subrange(
                    pos as int + 1,
                    pos as int + 1 + l,
                )[j] == ec[j] by {
                    assert(sub[1 + j] == e[1 + j]);
                }
                assert(input.subrange(pos as int + 1, pos as int + 1 + l) =~= ec);
                lemma_enc_dec(root, root, *child, input, pos + 1);
            },
        },
        _ => {},
    }
}

/// Round trip, a run of elements: decoding `items.len() - i` elements
/// over their concatenated encodings returns exactly `items.skip(i)`.
proof fn lemma_enc_dec_elems(
    root: ShapeSpec,
    arr: ShapeSpec,
    elem: ShapeSpec,
    items: Seq<ValueSpec>,
    i: int,
    input: Seq<u8>,
    pos: nat,
)
    requires
        (arr matches ShapeSpec::FixedArray(e, _) && *e == elem) || (arr matches
            ShapeSpec::Sequence(e) && *e == elem),
        0 <= i <= items.len(),
        conforms_elems(root, elem, items, i),
        pos + enc_elems(root, elem, items, i).len() <= input.len(),
        input.subrange(pos as int, pos as int + enc_elems(root, elem, items, i).len()) =~= enc_elems(
            root,
            elem,
            items,
            i,
        ),
    ensures
        dec_elems(root, arr, input, pos, (items.len() - i) as nat) == Ok::<
            (Seq<ValueSpec>, nat),
            DecodeError,
        >((items.skip(i), enc_elems(root, elem, items, i).len())),
    decreases items, 0int, items.len() - i,
{
    if i == items.len() {
        assert(items.skip(i) =~= Seq::<ValueSpec>::empty());
    } else {
        let e0 = enc(root, elem, items[i]);
        let erest = enc_elems(root, elem, items, i + 1);
        let efull = enc_elems(root, elem, items, i);
        let subfull = input.subrange(pos as int, pos as int + efull.len());
        assert forall|j: int| 0 <= j < e0.len() implies input.subrange(
            pos as int,
            pos as int + e0.len(),
        )[j] == e0[j] by {
            assert(subfull[j] == efull[j]);
        }
        assert(input.subrange(pos as int, pos as int + e0.len()) =~= e0);
        lemma_enc_dec(root, elem, items[i], input, pos);
        assert forall|j: int| 0 <= j < erest.len() implies input.subrange(
            pos as int + e0.len(),
            pos as int + e0.len() + erest.len(),
        )[j] == erest[j] by {
            assert(subfull[e0.len() + j] == efull[e0.len() + j]);
        }
        assert(input.subrange(pos as int + e0.len(), pos as int + e0.len() + erest.len()) =~= erest);
        lemma_enc_dec_elems(root, arr, elem, items, i + 1, input, pos + e0.len());
        assert(items.skip(i) =~= seq![items[i]] + items.skip(i + 1));
    }
}

/// Round trip, a run of fields: decoding one value per shape from
/// index `i` over their concatenated encodings returns exactly
/// `vals.skip(i)`.
proof fn lemma_enc_dec_fields(
    root: ShapeSpec,
    shapes: Seq<ShapeSpec>,
    vals: Seq<ValueSpec>,
    i: int,
    input: Seq<u8>,
    pos: nat,
)
    requires
        0 <= i <= vals.len(),
        vals.len() == shapes.len(),
        conforms_fields(root, shapes, vals, i),
        pos + enc_fields(root, shapes, vals, i).len() <= input.len(),
        input.subrange(pos as int, pos as int + enc_fields(root, shapes, vals, i).len()) =~= enc_fields(
            root,
            shapes,
            vals,
            i,
        ),
    ensures
        dec_fields(root, shapes, input, pos, i) == Ok::<(Seq<ValueSpec>, nat), DecodeError>(
            (vals.skip(i), enc_fields(root, shapes, vals, i).len()),
        ),
    decreases vals, 0int, vals.len() - i,
{
    if i == vals.len() {
        assert(vals.skip(i) =~= Seq::<ValueSpec>::empty());
    } else {
        let e0 = enc(root, shapes[i], vals[i]);
        let erest = enc_fields(root, shapes, vals, i + 1);
        let efull = enc_fields(root, shapes, vals, i);
        let subfull = input.subrange(pos as int, pos as int + efull.len());
        assert forall|j: int| 0 <= j < e0.len() implies input.subrange(
            pos as int,
            pos as int + e0.len(),
        )[j] == e0[j] by {
            assert(subfull[j] == efull[j]);
        }
        assert(input.subrange(pos as int, pos as int + e0.len()) =~= e0);
        lemma_enc_dec(root, shapes[i], vals[i], input, pos);
        assert forall|j: int| 0 <= j < erest.len() implies input.subrange(
            pos as int + e0.len(),
            pos as int + e0.len() + erest.len(),
        )[j] == erest[j] by {
            assert(subfull[e0.len() + j] == efull[e0.len() + j]);
        }
        assert(input.subrange(pos as int + e0.len(), pos as int + e0.len() + erest.len()) =~= erest);
        lemma_enc_dec_fields(root, shapes, vals, i + 1, input, pos + e0.len());
        assert(vals.skip(i) =~= seq![vals[i]] + vals.skip(i + 1));
    }
}

/// Round-trip law: decoding the canonical encoding of any conforming
/// value of a shape gives back exactly that value.
pub proof fn lemma_round_trip(s: ShapeSpec, d: ValueSpec)
    requires
        conforms_top(s, d),
    ensures
        dec_top(s, enc_top(s, d)) == Ok::<ValueSpec, DecodeError>(d),
{
    let e = enc_top(s, d);
    assert(e.subrange(0, e.len() as int) =~= e);
    lemma_enc_dec(s, s, d, e, 0);
}

/// Trailing-byte sensitivity: a buffer that extends the canonical
/// encoding of a conforming value by at least one byte fails the
/// whole-buffer decode with `TrailingBytes`.
pub proof fn lemma_trailing_bytes(s: ShapeSpec, d: ValueSpec, input: Seq<u8>)
    requires
        conforms_top(s, d),
        input.len() > enc_top(s, d).len(),
        input.subrange(0, enc_top(s, d).len() as int) =~= enc_top(s, d),
    ensures
        dec_top(s, input) == Err::<ValueSpec, DecodeError>(DecodeError::TrailingBytes),
{
    lemma_enc_dec(s, s, d, input, 0);
}

/// Injectivity: two conforming values of one shape with the same
/// canonical encoding are the same value.
pub proof fn lemma_enc_injective(s: ShapeSpec, d1: ValueSpec, d2: ValueSpec)
    requires
        conforms_top(s, d1),
        conforms_top(s, d2),
        enc_top(s, d1) == enc_top(s, d2),
    ensures
        d1 == d2,
{
    lemma_round_trip(s, d1);
    lemma_round_trip(s, d2);
}

/// Soundness, one value: whatever the decoder accepts is a conforming
/// value whose canonical encoding is exactly the bytes consumed.
pub proof fn lemma_dec_enc(root: ShapeSpec, s: ShapeSpec, input: Seq<u8>, pos: nat)
    requires
        pos <= input.len(),
    ensures
        match dec(root, s, input, pos) {
            Ok((d, c)) => pos + c <= input.len() && conforms(root, s, d) && enc(root, s, d)
                == input.subrange(pos as int, pos as int + c),
            Err(_) => true,
        },
    decreases remaining(input, pos), s, 1int, 0int,
{
    match s {
        ShapeSpec::Unit => {
            assert(Seq::<u8>::empty() =~= input.subrange(pos as int, pos as int));
        },
        ShapeSpec::Bool => {
            if pos < input.len() && input[pos as int] <= 1 {
                assert(seq![input[pos as int]] =~= input.subrange(pos as int, pos as int + 1));
            }
        },
        ShapeSpec::Num(k) => {
            let w = k.spec_width();
            if pos + w <= input.len() {
                let b = input.subrange(pos as int, pos as int + w);
                lemma_from_le_bound(b);
                lemma_le_from_le(b);
                assert(pow2(8 * w) <= pow2(128)) by {
                    if w < 16 {
                        lemma_pow2_strictly_increases(8 * w, 128);
                    }
                }
                assert(pow2(128) == 0x100000000000000000000000000000000) by {
                    vstd::arithmetic::power2::lemma_pow2_adds(64, 64);
                    lemma2_to64();
                }
                assert((from_le(b) as u128) as nat == from_le(b));
            }
        },
        ShapeSpec::Text => {
            if pos + 4 <= input.len() {
                let b4 = input.subrange(pos as int, pos as int + 4);
                let n = from_le(b4);
                lemma_from_le_bound(b4);
                lemma_le_from_le(b4);
                lemma2_to64();
                if pos + 4 + n <= input.len() {
                    let bytes = input.subrange(pos as int + 4, pos as int + 4 + n);
                    let e = le_bytes(bytes.len(), 4) + bytes;
                    lemma_le_bytes_len(bytes.len(), 4);
                    assert forall|j: int| 0 <= j < 4 + n implies e[j] == input.subrange(
                        pos as int,
                        pos as int + 4 + n,
                    )[j] by {
                        if j < 4 {
                            assert(e[j] == b4[j]);
                        } else {
                            assert(e[j] == bytes[j - 4]);
                        }
                    }
                    assert(e =~= input.subrange(pos as int, pos as int + 4 + n));
                }
            }
        },
        ShapeSpec::FixedArray(_, n) => {
            lemma_dec_enc_elems(root, s, input, pos, n);
        },
        ShapeSpec::Sequence(_) => {
            if pos + 4 <= input.len() {
                let b4 = input.subrange(pos as int, pos as int + 4);
                let n = from_le(b4);
                lemma_from_le_bound(b4);
                lemma_le_from_le(b4);
                lemma_le_bytes_len(n, 4);
                lemma2_to64();
                lemma_dec_enc_elems(root, s, input, pos + 4, n);
                if let Ok((items, c)) = dec_elems(root, s, input, (pos + 4) as nat, n) {
                    let e = le_bytes(items.len(), 4) + enc_elems(root, arr_elem(s), items, 0);
                    assert forall|j: int| 0 <= j < 4 + c implies e[j] == input.subrange(
                        pos as int,
                        pos as int + 4 + c,
                    )[j] by {
                        if j < 4 {
                            assert(e[j] == b4[j]);
                        } else {
                            assert(e[j] == enc_elems(root, arr_elem(s), items, 0)[j - 4]);
                            assert(input.subrange(pos as int + 4, pos as int + 4 + c)[j - 4]
                                == input[pos + j]);
                        }
                    }
                    assert(e =~= input.subrange(pos as int, pos as int + 4 + c));
                }
            }
        },
        ShapeSpec::Optional(inner) => {
            if pos < input.len() && input[pos as int] == 0 {
                assert(seq![0u8] =~= input.subrange(pos as int, pos as int + 1));
            } else if pos < input.len() && input[pos as int] == 1 {
                lemma_dec_enc(root, *inner, input, pos + 1);
                if let Ok((child, c)) = dec(root, *inner, input, (pos + 1) as nat) {
                    let e = seq![1u8] + enc(root, *inner, child);
                    assert forall|j: int| 0 <= j < 1 + c implies e[j] == input.subrange(
                        pos as int,
                        pos as int + 1 + c,
                    )[j] by {
                        if j >= 1 {
                            assert(e[j] == enc(root, *inner, child)[j - 1]);
                            assert(input.subrange(pos as int + 1, pos as int + 1 + c)[j - 1]
                                == input[pos + j]);
                        }
                    }
                    assert(e =~= input.subrange(pos as int, pos as int + 1 + c));
                }
            }
        },
        ShapeSpec::Struct(fields) => {
            lemma_dec_enc_fields(root, fields, input, pos, 0);
            assert(fields.skip(0) =~= fields);
        },
        ShapeSpec::Enum(variants) => {
            if pos < input.len() && (input[pos as int] as int) < variants.len() {
                let ord = input[pos as int] as int;
                let shapes = variants[ord];
                lemma_dec_enc_fields(root, shapes, input, pos + 1, 0);
                assert(shapes.skip(0) =~= shapes);
                if let Ok((vals, c)) = dec_fields(root, shapes, input, (pos + 1) as nat, 0) {
                    let e = seq![input[pos as int]] + enc_fields(root, shapes, vals, 0);
                    assert forall|j: int| 0 <= j < 1 + c implies e[j] == input.subrange(
                        pos as int,
                        pos as int + 1 + c,
                    )[j] by {
                        if j >= 1 {
                            assert(e[j] == enc_fields(root, shapes, vals, 0)[j - 1]);
                            assert(input.subrange(pos as int + 1, pos as int + 1 + c)[j - 1]
                                == input[pos + j]);
                        }
                    }
                    assert(e =~= input.subrange(pos as int, pos as int + 1 + c));
                }
            }
        },
        ShapeSpec::SelfOpt => {
            if pos < input.len() && input[pos as int] == 0 {
                assert(seq![0u8] =~= input.subrange(pos as int, pos as int + 1));
            } else if pos < input.len() && input[pos as int] == 1 {
                lemma_dec_enc(root, root, input, pos + 1);
                if let Ok((child, c)) = dec(root, root, input, (pos + 1) as nat) {
                    let e = seq![1u8] + enc(root, root, child);
                    assert forall|j: int| 0 <= j < 1 + c implies e[j] == input.subrange(
                        pos as int,
                        pos as int + 1 + c,
                    )[j] by {
                        if j >= 1 {
                            assert(e[j] == enc(root, root, child)[j - 1]);
                            assert(input.subrange(pos as int + 1, pos as int + 1 + c)[j - 1]
                                == input[pos + j]);
                        }
                    }
                    assert(e =~= input.subrange(pos as int, pos as int + 1 + c));
                }
            }
        },
    }
}

/// The element shape of an array or sequence shape.
pub open spec fn arr_elem(arr: ShapeSpec) -> ShapeSpec {
    match arr {
        ShapeSpec::FixedArray(e, _) => *e,
        ShapeSpec::Sequence(e) => *e,
        _ => arr,
    }
}

/// Soundness, a run of elements: whatever `dec_elems` accepts is
/// `count` conforming elements whose concatenated encodings are exactly
/// the bytes consumed.
proof fn lemma_dec_enc_elems(root: ShapeSpec, arr: ShapeSpec, input: Seq<u8>, pos: nat, count: nat)
    requires
        pos <= input.len(),
    ensures
        match dec_elems(root, arr, input, pos, count) {
            Ok((items, c)) => pos + c <= input.len() && items.len() == count && conforms_elems(
                root,
                arr_elem(arr),
                items,
                0,
            ) && enc_elems(root, arr_elem(arr), items, 0) == input.subrange(
                pos as int,
                pos as int + c,
            ),
            Err(_) => true,
        },
    decreases remaining(input, pos), arr, 0int, count,
{
    if count == 0 {
        assert(Seq::<u8>::empty() =~= input.subrange(pos as int, pos as int));
        return;
    }
    match arr {
        ShapeSpec::FixedArray(eb, _) | ShapeSpec::Sequence(eb) => {
            let elem = *eb;
            lemma_dec_enc(root, elem, input, pos);
            if let Ok((d0, c0)) = dec(root, elem, input, pos) {
                lemma_dec_enc_elems(root, arr, input, pos + c0, (count - 1) as nat);
                if let Ok((rest, c1)) = dec_elems(
                    root,
                    arr,
                    input,
                    (pos + c0) as nat,
                    (count - 1) as nat,
                ) {
                    let items = seq![d0] + rest;
                    assert(items.drop_first() =~= rest);
                    lemma_conforms_elems_drop(root, elem, items, 0);
                    lemma_enc_elems_drop(root, elem, items, 0);
                    let e = enc(root, elem, d0) + enc_elems(root, elem, rest, 0);
                    assert(enc_elems(root, elem, items, 0) == e);
                    assert forall|j: int| 0 <= j < c0 + c1 implies e[j] == input.subrange(
                        pos as int,
                        pos as int + c0 + c1,
                    )[j] by {
                        if j < c0 {
                            assert(input.subrange(pos as int, pos as int + c0)[j] == input[pos
                                + j]);
                        } else {
                            assert(e[j] == enc_elems(root, elem, rest, 0)[j - c0]);
                            assert(input.subrange(pos as int + c0, pos as int + c0 + c1)[j - c0]
                                == input[pos + j]);
                        }
                    }
                    assert(e =~= input.subrange(pos as int, pos as int + c0 + c1));
                }
            }
        },
        _ => {},
    }
}

/// Soundness, a run of fields: whatever `dec_fields` accepts is one
/// conforming value per shape from index `i`, with the concatenated
/// encodings exactly the bytes consumed.
proof fn lemma_dec_enc_fields(
    root: ShapeSpec,
    shapes: Seq<ShapeSpec>,
    input: Seq<u8>,
    pos: nat,
    i: int,
)
    requires
        pos <= input.len(),
        0 <= i <= shapes.len(),
    ensures
        match dec_fields(root, shapes, input, pos, i) {
            Ok((vals, c)) => pos + c <= input.len() && vals.len() == shapes.len() - i
                && conforms_fields(root, shapes.skip(i), vals, 0) && enc_fields(
                root,
                shapes.skip(i),
                vals,
                0,
            ) == input.subrange(pos as int, pos as int + c),
            Err(_) => true,
        },
    decreases remaining(input, pos), shapes, 0int, shapes.len() - i,
{
    if i >= shapes.len() {
        assert(Seq::<u8>::empty() =~= input.subrange(pos as int, pos as int));
        return;
    }
    lemma_dec_enc(root, shapes[i], input, pos);
    if let Ok((d0, c0)) = dec(root, shapes[i], input, pos) {
        lemma_dec_enc_fields(root, shapes, input, pos + c0, i + 1);
        if let Ok((rest, c1)) = dec_fields(root, shapes, input, (pos + c0) as nat, i + 1) {
            let vals = seq![d0] + rest;
            assert(vals.drop_first() =~= rest);
            assert(shapes.skip(i).drop_first() =~= shapes.skip(i + 1));
            assert(shapes.skip(i)[0] == shapes[i]);
            lemma_conforms_fields_drop(root, shapes.skip(i), vals, 0);
            lemma_enc_fields_drop(root, shapes.skip(i), vals, 0);
            let e = enc(root, shapes[i], d0) + enc_fields(root, shapes.skip(i + 1), rest, 0);
            assert(enc_fields(root, shapes.skip(i), vals, 0) == e);
            assert forall|j: int| 0 <= j < c0 + c1 implies e[j] == input.subrange(
                pos as int,
                pos as int + c0 + c1,
            )[j] by {
                if j < c0 {
                    assert(input.subrange(pos as int, pos as int + c0)[j] == input[pos + j]);
                } else {
                    assert(e[j] == enc_fields(root, shapes.skip(i + 1), rest, 0)[j - c0]);
                    assert(input.subrange(pos as int + c0, pos as int + c0 + c1)[j - c0]
                        == input[pos + j]);
                }
            }
            assert(e =~= input.subrange(pos as int, pos as int + c0 + c1));
        }
    }
}

/// Canonicity: a buffer the whole-buffer decoder accepts is exactly the
/// canonical encoding of the conforming value it returns — decoding is
/// a left inverse of encoding and accepts nothing but encodings.
pub proof fn lemma_dec_canonical(s: ShapeSpec, input: Seq<u8>)
    ensures
        match dec_top(s, input) {
            Ok(d) => conforms_top(s, d) && enc_top(s, d) == input,
            Err(_) => true,
        },
{
    lemma_dec_enc(s, s, input, 0);
    if let Ok(d) = dec_top(s, input) {
        assert(input.subrange(0, input.len() as int) =~= input);
    }
}

/// Discriminant bounds, enums: an ordinal byte at or past the variant
/// count fails with `InvalidDiscriminant`.
pub proof fn lemma_enum_ordinal_bound(
    root: ShapeSpec,
    variants: Seq<Seq<ShapeSpec>>,
    input: Seq<u8>,
    pos: nat,
)
    requires
        pos < input.len(),
        input[pos as int] as int >= variants.len(),
    ensures
        dec(root, ShapeSpec::Enum(variants), input, pos) == Err::<(ValueSpec, nat), DecodeError>(
            DecodeError::InvalidDiscriminant,
        ),
{
}

/// Discriminant bounds, optionals: a marker byte other than `0` or `1`
/// fails with `InvalidDiscriminant`, for plain and recursive optionals
/// alike.
pub proof fn lemma_optional_marker_bound(
    root: ShapeSpec,
    inner: ShapeSpec,
    input: Seq<u8>,
    pos: nat,
)
    requires
        pos < input.len(),
        input[pos as int] != 0,
        input[pos as int] != 1,
    ensures
        dec(root, ShapeSpec::Optional(Box::new(inner)), input, pos) == Err::<
            (ValueSpec, nat),
            DecodeError,
        >(DecodeError::InvalidDiscriminant),
        dec(root, ShapeSpec::SelfOpt, input, pos) == Err::<(ValueSpec, nat), DecodeError>(
            DecodeError::InvalidDiscriminant,
        ),
{
}

/// Truncation sensitivity, one value: a buffer that ends strictly
/// inside the canonical encoding of a conforming value fails with
/// `UnexpectedEndOfInput`.
pub proof fn lemma_truncation(
    root: ShapeSpec,
    s: ShapeSpec,
    d: ValueSpec,
    input: Seq<u8>,
    pos: nat,
)
    requires
        conforms(root, s, d),
        pos <= input.len(),
        input.len() - pos < enc(root, s, d).len(),
        input.subrange(pos as int, input.len() as int) =~= enc(root, s, d).subrange(
            0,
            input.len() - pos,
        ),
    ensures
        dec(root, s, input, pos) == Err::<(ValueSpec, nat), DecodeError>(
            DecodeError::UnexpectedEndOfInput,
        ),
    decreases remaining(input, pos), s, 1int, 0int,
{
    let e = enc(root, s, d);
    let avail = input.len() - pos;
    let sub = input.subrange(pos as int, input.len() as int);
    match (s, d) {
        (ShapeSpec::Num(k), ValueSpec::Num(bits)) => {
            lemma_le_bytes_len(bits as nat, k.spec_width());
        },
        (ShapeSpec::Text, ValueSpec::Text(bytes)) => {
            lemma_le_bytes_len(bytes.len(), 4);
            if avail >= 4 {
                assert forall|j: int| 0 <= j < 4 implies input.subrange(
                    pos as int,
                    pos as int + 4,
                )[j] == le_bytes(bytes.len(), 4)[j] by {
                    assert(sub[j] == e.subrange(0, avail as int)[j]);
                }
                assert(input.subrange(pos as int, pos as int + 4) =~= le_bytes(bytes.len(), 4));
                lemma2_to64();
                lemma_from_le_le(bytes.len(), 4);
            }
        },
        (ShapeSpec::FixedArray(elem, n), ValueSpec::List(items)) => {
            lemma_truncation_elems(root, s, items, 0, input, pos);
        },
        (ShapeSpec::Sequence(elem), ValueSpec::List(items)) => {
            lemma_le_bytes_len(items.len(), 4);
            if avail >= 4 {
                assert forall|j: int| 0 <= j < 4 implies input.subrange(
                    pos as int,
                    pos as int + 4,
                )[j] == le_bytes(items.len(), 4)[j] by {
                    assert(sub[j] == e.subrange(0, avail as int)[j]);
                }
                assert(input.subrange(pos as int, pos as int + 4) =~= le_bytes(items.len(), 4));
                lemma2_to64();
                lemma_from_le_le(items.len(), 4);
                let erest = enc_elems(root, *elem, items, 0);
                assert forall|j: int| 0 <= j < input.len() - (pos + 4) implies #[trigger] input.subrange(
                    pos as int + 4,
                    input.len() as int,
                )[j] == erest.subrange(0, input.len() - (pos + 4))[j] by {
                    assert(sub[4 + j] == e.subrange(0, avail as int)[4 + j]);
                }
                assert(input.subrange(pos as int + 4, input.len() as int) =~= erest.subrange(
                    0,
                    input.len() - (pos + 4),
                ));
                lemma_truncation_elems(root, s, items, 0, input, pos + 4);
            }
        },
        (ShapeSpec::Optional(inner), ValueSpec::OptVal(o)) => {
            if avail > 0 {
                assert(input[pos as int] == sub[0]);
                match o {
                    Option::None => {},
                    Option::Some(child) => {
                        let ec = enc(root, *inner, *child);
                        assert forall|j: int| 0 <= j < input.len() - (pos + 1) implies #[trigger]
                            input.subrange(pos as int + 1, input.len() as int)[j] == ec.subrange(
                            0,
                            input.len() - (pos + 1),
                        )[j] by {
                            assert(sub[1 + j] == e.subrange(0, avail as int)[1 + j]);
                        }
                        assert(input.subrange(pos as int + 1, input.len() as int) =~= ec.subrange(
                            0,
                            input.len() - (pos + 1),
                        ));
                        lemma_truncation(root, *inner, *child, input, pos + 1);
                    },
                }
            }
        },
        (ShapeSpec::Struct(fields), ValueSpec::StructVal(vals)) => {
            lemma_truncation_fields(root, fields, vals, 0, input, pos);
        },
        (ShapeSpec::Enum(variants), ValueSpec::EnumVal(ord, payload)) => {
            if avail > 0 {
                assert(input[pos as int] == sub[0]);
                assert(input[pos as int] as int == ord);
                let shapes = variants[ord as int];
                let ef = enc_fields(root, shapes, payload, 0);
                assert forall|j: int| 0 <= j < input.len() - (pos + 1) implies #[trigger] input.subrange(
                    pos as int + 1,
                    input.len() as int,
                )[j] == ef.subrange(0, input.len() - (pos + 1))[j] by {
                    assert(sub[1 + j] == e.subrange(0, avail as int)[1 + j]);
                }
                assert(input.subrange(pos as int + 1, input.len() as int) =~= ef.subrange(
                    0,
                    input.len() - (pos + 1),
                ));
                lemma_truncation_fields(root, shapes, payload, 0, input, pos + 1);
            }
        },
        (ShapeSpec::SelfOpt, ValueSpec::OptVal(o)) => {
            if avail > 0 {
                assert(input[pos as int] == sub[0]);
                match o {
                    Option::None => {},
                    Option::Some(child) => {
                        let ec = enc(root, root, *child);
                        assert forall|j: int| 0 <= j < input.len() - (pos + 1) implies #[trigger]
                            input.subrange(pos as int + 1, input.len() as int)[j] == ec.subrange(
                            0,
                            input.len() - (pos + 1),
                        )[j] by {
                            assert(sub[1 + j] == e.subrange(0, avail as int)[1 + j]);
                        }
                        assert(input.subrange(pos as int + 1, input.len() as int) =~= ec.subrange(
                            0,
                            input.len() - (pos + 1),
                        ));
                        lemma_truncation(root, root, *child, input, pos + 1);
                    },
                }
            }
        },
        _ => {},
    }
}

/// Truncation sensitivity, a run of elements.
proof fn lemma_truncation_elems(
    root: ShapeSpec,
    arr: ShapeSpec,
    items: Seq<ValueSpec>,
    i: int,
    input: Seq<u8>,
    pos: nat,
)
    requires
        arr matches ShapeSpec::FixedArray(_, _) || arr matches ShapeSpec::Sequence(_),
        0 <= i <= items.len(),
        conforms_elems(root, arr_elem(arr), items, i),
        pos <= input.len(),
        input.len() - pos < enc_elems(root, arr_elem(arr), items, i).len(),
        input.subrange(pos as int, input.len() as int) =~= enc_elems(
            root,
            arr_elem(arr),
            items,
            i,
        ).subrange(0, input.len() - pos),
    ensures
        dec_elems(root, arr, input, pos, (items.len() - i) as nat) == Err::<
            (Seq<ValueSpec>, nat),
            DecodeError,
        >(DecodeError::UnexpectedEndOfInput),
    decreases remaining(input, pos), arr, 0int, items.len() - i,
{
    match arr {
        ShapeSpec::FixedArray(eb, _) | ShapeSpec::Sequence(eb) => {
            let elem = *eb;
            assert(elem == arr_elem(arr));
            let avail = input.len() - pos;
            let sub = input.subrange(pos as int, input.len() as int);
            let e0 = enc(root, elem, items[i]);
            let erest = enc_elems(root, elem, items, i + 1);
            let efull = enc_elems(root, elem, items, i);
            if avail >= e0.len() {
                assert forall|j: int| 0 <= j < e0.len() implies input.subrange(
                    pos as int,
                    pos as int + e0.len(),
                )[j] == e0[j] by {
                    assert(sub[j] == efull.subrange(0, avail as int)[j]);
                }
                assert(input.subrange(pos as int, pos as int + e0.len()) =~= e0);
                lemma_enc_dec(root, elem, items[i], input, pos);
                assert forall|j: int| 0 <= j < input.len() - (pos + e0.len()) implies #[trigger]
                    input.subrange(pos as int + e0.len(), input.len() as int)[j] == erest.subrange(
                    0,
                    input.len() - (pos + e0.len()),
                )[j] by {
                    assert(sub[e0.len() + j] == efull.subrange(0, avail as int)[e0.len() + j]);
                }
                assert(input.subrange(pos as int + e0.len(), input.len() as int) =~=
                    erest.subrange(0, input.len() - (pos + e0.len())));
                lemma_truncation_elems(root, arr, items, i + 1, input, pos + e0.len());
            } else {
                assert forall|j: int| 0 <= j < avail implies #[trigger] sub[j] == e0.subrange(
                    0,
                    avail as int,
                )[j] by {
                    assert(sub[j] == efull.subrange(0, avail as int)[j]);
                }
                assert(sub =~= e0.subrange(0, avail as int));
                lemma_truncation(root, elem, items[i], input, pos);
            }
        },
        _ => {},
    }
}

/// Truncation sensitivity, a run of fields.
proof fn lemma_truncation_fields(
    root: ShapeSpec,
    shapes: Seq<ShapeSpec>,
    vals: Seq<ValueSpec>,
    i: int,
    input: Seq<u8>,
    pos: nat,
)
    requires
        0 <= i <= vals.len(),
        vals.len() == shapes.len(),
        conforms_fields(root, shapes, vals, i),
        pos <= input.len(),
        input.len() - pos < enc_fields(root, shapes, vals, i).len(),
        input.subrange(pos as int, input.len() as int) =~= enc_fields(
            root,
            shapes,
            vals,
            i,
        ).subrange(0, input.len() - pos),
    ensures
        dec_fields(root, shapes, input, pos, i) == Err::<(Seq<ValueSpec>, nat), DecodeError>(
            DecodeError::UnexpectedEndOfInput,
        ),
    decreases remaining(input, pos), shapes, 0int, shapes.len() - i,
{
    let avail = input.len() - pos;
    let sub = input.subrange(pos as int, input.len() as int);
    let e0 = enc(root, shapes[i], vals[i]);
    let erest = enc_fields(root, shapes, vals, i + 1);
    let efull = enc_fields(root, shapes, vals, i);
    if avail >= e0.len() {
        assert forall|j: int| 0 <= j < e0.len() implies input.subrange(
            pos as int,
            pos as int + e0.len(),
        )[j] == e0[j] by {
            assert(sub[j] == efull.subrange(0, avail as int)[j]);
        }
        assert(input.subrange(pos as int, pos as int + e0.len()) =~= e0);
        lemma_enc_dec(root, shapes[i], vals[i], input, pos);
        assert forall|j: int| 0 <= j < input.len() - (pos + e0.len()) implies #[trigger]
            input.subrange(pos as int + e0.len(), input.len() as int)[j] == erest.subrange(
            0,
            input.len() - (pos + e0.len()),
        )[j] by {
            assert(sub[e0.len() + j] == efull.subrange(0, avail as int)[e0.len() + j]);
        }
        assert(input.subrange(pos as int + e0.len(), input.len() as int) =~= erest.subrange(
            0,
            input.len() - (pos + e0.len()),
        ));
        lemma_truncation_fields(root, shapes, vals, i + 1, input, pos + e0.len());
    } else {
        assert forall|j: int| 0 <= j < avail implies #[trigger] sub[j] == e0.subrange(
            0,
            avail as int,
        )[j] by {
            assert(sub[j] == efull.subrange(0, avail as int)[j]);
        }
        assert(sub =~= e0.subrange(0, avail as int));
        lemma_truncation(root, shapes[i], vals[i], input, pos);
    }
}

/// Truncation sensitivity: any strict prefix of the canonical encoding
/// of a conforming value fails the whole-buffer decode with
/// `UnexpectedEndOfInput`.
pub proof fn lemma_truncation_top(s: ShapeSpec, d: ValueSpec, input: Seq<u8>)
    requires
        conforms_top(s, d),
        input.len() < enc_top(s, d).len(),
        input =~= enc_top(s, d).subrange(0, input.len() as int),
    ensures
        dec_top(s, input) == Err::<ValueSpec, DecodeError>(DecodeError::UnexpectedEndOfInput),
{
    assert(input.subrange(0, input.len() as int) =~= input);
    lemma_truncation(s, s, d, input, 0);
}

} // verus!
