//! The registry of fixed reference test cases: a dense mapping from
//! small identifiers to a shape and a reference value of that shape,
//! immutable by construction. The cases exercise a struct mixing text,
//! a 128-bit integer, a float bit pattern and a sequence; a recursive
//! tree at depth zero and depth one; a payload-less enum; and an enum
//! with a zero-width payload field beside a boolean.

use vstd::prelude::*;
use crate::shape::{NumKind, Shape, ShapeSpec, shape_model, shape_model_list, shape_model_variants,
    lemma_shape_model_list, lemma_shape_model_variants};
use crate::value::{Value, ValueSpec, value_model, value_model_list, lemma_value_model_list};
use crate::codec::{conforms_top, conforms, conforms_fields, conforms_elems};
use crate::utf8::lemma_ascii_valid;
use vstd::arithmetic::power2::{pow2, lemma2_to64, lemma_pow2_adds};

verus! {

broadcast use vstd::std_specs::vec::group_vec_axioms;

/// IEEE-754 double bit pattern of the probability in the first struct
/// case.
pub const PROB_BITS_A: u128 = 0x3FE6147AE147AE14;

/// IEEE-754 double bit pattern of the probability in the second struct
/// case.
pub const PROB_BITS_B: u128 = 0x3F847AE147AE147B;

/// How many test cases the registry defines.
pub open spec fn case_count() -> int {
    7
}

/// The shape of the struct cases: text, a 128-bit unsigned age, a
/// 64-bit float bit pattern, and a sequence of 32-bit signed integers.
pub open spec fn struct_case_shape() -> ShapeSpec {
    ShapeSpec::Struct(
        seq![
            ShapeSpec::Text,
            ShapeSpec::Num(NumKind::U128),
            ShapeSpec::Num(NumKind::F64),
            ShapeSpec::Sequence(Box::new(ShapeSpec::Num(NumKind::I32))),
        ],
    )
}

/// The shape of the recursive tree cases: a 32-bit age, a fixed pair of
/// 16-bit identifiers, and an optional child of the same shape.
pub open spec fn tree_case_shape() -> ShapeSpec {
    ShapeSpec::Struct(
        seq![
            ShapeSpec::Num(NumKind::U32),
            ShapeSpec::FixedArray(Box::new(ShapeSpec::Num(NumKind::I16)), 2),
            ShapeSpec::SelfOpt,
        ],
    )
}

/// The shape of the payload-less enum case: three variants, no fields.
pub open spec fn bare_enum_shape() -> ShapeSpec {
    ShapeSpec::Enum(seq![seq![], seq![], seq![]])
}

/// The shape of the mixed enum case: a bare variant beside one with a
/// unit field and a boolean field.
pub open spec fn mixed_enum_shape() -> ShapeSpec {
    ShapeSpec::Enum(seq![seq![], seq![ShapeSpec::Unit, ShapeSpec::Bool]])
}

/// The shape of the case with the given identifier.
pub open spec fn reg_shape(id: int) -> ShapeSpec {
    if id == 0 || id == 1 {
        struct_case_shape()
    } else if id == 2 || id == 3 {
        tree_case_shape()
    } else if id == 4 {
        bare_enum_shape()
    } else {
        mixed_enum_shape()
    }
}

/// A node of the recursive tree value.
pub open spec fn tree_node(age: u128, id0: u128, id1: u128, child: Option<Box<ValueSpec>>)
    -> ValueSpec {
    ValueSpec::StructVal(
        seq![
            ValueSpec::Num(age),
            ValueSpec::List(seq![ValueSpec::Num(id0), ValueSpec::Num(id1)]),
            ValueSpec::OptVal(child),
        ],
    )
}

/// The reference value of the case with the given identifier.
pub open spec fn reg_value(id: int) -> ValueSpec {
    if id == 0 {
        ValueSpec::StructVal(
            seq![
                ValueSpec::Text(seq![0x63u8, 0x63u8, 0x63u8, 0x63u8, 0x63u8]),
                ValueSpec::Num(541212312321534534),
                ValueSpec::Num(PROB_BITS_A),
                ValueSpec::List(seq![ValueSpec::Num(31), ValueSpec::Num(69)]),
            ],
        )
    } else if id == 1 {
        ValueSpec::StructVal(
            seq![
                ValueSpec::Text(seq![]),
                ValueSpec::Num(699),
                ValueSpec::Num(PROB_BITS_B),
                ValueSpec::List(seq![]),
            ],
        )
    } else if id == 2 {
        tree_node(69, 3, 9, Option::None)
    } else if id == 3 {
        tree_node(1131, 3, 10, Option::Some(Box::new(tree_node(1333, 6, 9, Option::None))))
    } else if id == 4 {
        ValueSpec::EnumVal(1, seq![])
    } else if id == 5 {
        ValueSpec::EnumVal(0, seq![])
    } else {
        ValueSpec::EnumVal(1, seq![ValueSpec::Unit, ValueSpec::Bool(true)])
    }
}

/// A tree node conforms to the tree shape whenever its numbers are in
/// range and its child, if any, conforms too.
proof fn lemma_tree_node_conforms(age: u128, id0: u128, id1: u128, child: Option<Box<ValueSpec>>)
    requires
        age < 0x100000000,
        id0 < 0x10000,
        id1 < 0x10000,
        match child {
            Option::None => true,
            Option::Some(c) => conforms(tree_case_shape(), tree_case_shape(), *c),
        },
    ensures
        conforms(tree_case_shape(), tree_case_shape(), tree_node(age, id0, id1, child)),
{
    lemma2_to64();
    let root = tree_case_shape();
    let f = seq![
        ShapeSpec::Num(NumKind::U32),
        ShapeSpec::FixedArray(Box::new(ShapeSpec::Num(NumKind::I16)), 2),
        ShapeSpec::SelfOpt,
    ];
    let ids = seq![ValueSpec::Num(id0), ValueSpec::Num(id1)];
    let v = seq![ValueSpec::Num(age), ValueSpec::List(ids), ValueSpec::OptVal(child)];
    assert(conforms(root, f[0], v[0]));
    assert(conforms_elems(root, ShapeSpec::Num(NumKind::I16), ids, 2));
    assert(conforms(root, ShapeSpec::Num(NumKind::I16), ids[1]));
    assert(conforms(root, ShapeSpec::Num(NumKind::I16), ids[0]));
    assert(conforms_elems(root, ShapeSpec::Num(NumKind::I16), ids, 1));
    assert(conforms_elems(root, ShapeSpec::Num(NumKind::I16), ids, 0));
    assert(conforms(root, f[1], v[1]));
    assert(conforms(root, f[2], v[2]));
    assert(conforms_fields(root, f, v, 3));
    assert(conforms_fields(root, f, v, 2));
    assert(conforms_fields(root, f, v, 1));
    assert(conforms_fields(root, f, v, 0));
}

/// Every registry case's reference value conforms to its shape.
pub proof fn lemma_reg_conforms(id: int)
    requires
        0 <= id < case_count(),
    ensures
        conforms_top(reg_shape(id), reg_value(id)),
{
    lemma2_to64();
    assert(pow2(128) == 0x100000000000000000000000000000000) by {
        lemma_pow2_adds(64, 64);
        lemma2_to64();
    }
    if id == 0 || id == 1 {
        let root = struct_case_shape();
        let f = seq![
            ShapeSpec::Text,
            ShapeSpec::Num(NumKind::U128),
            ShapeSpec::Num(NumKind::F64),
            ShapeSpec::Sequence(Box::new(ShapeSpec::Num(NumKind::I32))),
        ];
        let name: Seq<u8> = if id == 0 {
            seq![0x63u8, 0x63u8, 0x63u8, 0x63u8, 0x63u8]
        } else {
            seq![]
        };
        let age: u128 = if id == 0 { 541212312321534534 } else { 699 };
        let prob: u128 = if id == 0 { PROB_BITS_A } else { PROB_BITS_B };
        let data: Seq<ValueSpec> = if id == 0 {
            seq![ValueSpec::Num(31), ValueSpec::Num(69)]
        } else {
            seq![]
        };
        let v = seq![
            ValueSpec::Text(name),
            ValueSpec::Num(age),
            ValueSpec::Num(prob),
            ValueSpec::List(data),
        ];
        assert(reg_value(id) == ValueSpec::StructVal(v));
        lemma_ascii_valid(name);
        assert(conforms(root, f[0], v[0]));
        assert(conforms(root, f[1], v[1]));
        assert(conforms(root, f[2], v[2]));
        assert(conforms_elems(root, ShapeSpec::Num(NumKind::I32), data, data.len() as int));
        if id == 0 {
            assert(conforms(root, ShapeSpec::Num(NumKind::I32), data[1]));
            assert(conforms(root, ShapeSpec::Num(NumKind::I32), data[0]));
            assert(conforms_elems(root, ShapeSpec::Num(NumKind::I32), data, 1));
        }
        assert(conforms_elems(root, ShapeSpec::Num(NumKind::I32), data, 0));
        assert(conforms(root, f[3], v[3]));
        assert(conforms_fields(root, f, v, 4));
        assert(conforms_fields(root, f, v, 3));
        assert(conforms_fields(root, f, v, 2));
        assert(conforms_fields(root, f, v, 1));
        assert(conforms_fields(root, f, v, 0));
    } else if id == 2 {
        lemma_tree_node_conforms(69, 3, 9, Option::None);
    } else if id == 3 {
        lemma_tree_node_conforms(1333, 6, 9, Option::None);
        lemma_tree_node_conforms(
            1131,
            3,
            10,
            Option::Some(Box::new(tree_node(1333, 6, 9, Option::None))),
        );
    } else if id == 4 {
        let variants = seq![Seq::<ShapeSpec>::empty(), seq![], seq![]];
        assert(conforms_fields(bare_enum_shape(), variants[1], Seq::<ValueSpec>::empty(), 0));
    } else if id == 5 {
        let variants = seq![Seq::<ShapeSpec>::empty(), seq![ShapeSpec::Unit, ShapeSpec::Bool]];
        assert(conforms_fields(mixed_enum_shape(), variants[0], Seq::<ValueSpec>::empty(), 0));
    } else {
        let root = mixed_enum_shape();
        let f = seq![ShapeSpec::Unit, ShapeSpec::Bool];
        let v = seq![ValueSpec::Unit, ValueSpec::Bool(true)];
        assert(conforms(root, f[0], v[0]));
        assert(conforms(root, f[1], v[1]));
        assert(conforms_fields(root, f, v, 2));
        assert(conforms_fields(root, f, v, 1));
        assert(conforms_fields(root, f, v, 0));
    }
}

/// Builds the executable shape of the case with the given identifier.
fn build_shape(id: u8) -> (s: Shape)
    requires
        (id as int) < case_count(),
    ensures
        s@ == reg_shape(id as int),
{
    if id <= 1 {
        let mut fields: Vec<Shape> = Vec::new();
        fields.push(Shape::Text);
        fields.push(Shape::Num(NumKind::U128));
        fields.push(Shape::Num(NumKind::F64));
        fields.push(Shape::Sequence(Box::new(Shape::Num(NumKind::I32))));
        let ghost fseq = fields@;
        let s = Shape::Struct(fields);
        proof {
            lemma_shape_model_list(fseq, 0);
            assert(fseq[0] == Shape::Text && fseq[1] == Shape::Num(NumKind::U128) && fseq[2]
                == Shape::Num(NumKind::F64));
            assert(fseq[3] matches Shape::Sequence(e) && *e == Shape::Num(NumKind::I32));
            assert(shape_model_list(fseq, 0)[0] == shape_model(fseq[0]));
            assert(shape_model_list(fseq, 0)[1] == shape_model(fseq[1]));
            assert(shape_model_list(fseq, 0)[2] == shape_model(fseq[2]));
            assert(shape_model_list(fseq, 0)[3] == shape_model(fseq[3]));
            assert(shape_model(Shape::Num(NumKind::I32)) == ShapeSpec::Num(NumKind::I32));
            assert(shape_model(fseq[0]) == ShapeSpec::Text);
            assert(shape_model(fseq[1]) == ShapeSpec::Num(NumKind::U128));
            assert(shape_model(fseq[2]) == ShapeSpec::Num(NumKind::F64));
            assert(shape_model(fseq[3]) == ShapeSpec::Sequence(
                Box::new(ShapeSpec::Num(NumKind::I32)),
            ));
            assert(shape_model_list(fseq, 0) =~= seq![
                ShapeSpec::Text,
                ShapeSpec::Num(NumKind::U128),
                ShapeSpec::Num(NumKind::F64),
                ShapeSpec::Sequence(Box::new(ShapeSpec::Num(NumKind::I32))),
            ]);
        }
        s
    } else if id <= 3 {
        let mut fields: Vec<Shape> = Vec::new();
        fields.push(Shape::Num(NumKind::U32));
        fields.push(Shape::FixedArray(Box::new(Shape::Num(NumKind::I16)), 2));
        fields.push(Shape::SelfOpt);
        let ghost fseq = fields@;
        let s = Shape::Struct(fields);
        proof {
            lemma_shape_model_list(fseq, 0);
            assert(fseq[0] == Shape::Num(NumKind::U32) && fseq[2] == Shape::SelfOpt);
            assert(fseq[1] matches Shape::FixedArray(e, n) && *e == Shape::Num(NumKind::I16) && n
                == 2);
            assert(shape_model_list(fseq, 0)[0] == shape_model(fseq[0]));
            assert(shape_model_list(fseq, 0)[1] == shape_model(fseq[1]));
            assert(shape_model_list(fseq, 0)[2] == shape_model(fseq[2]));
            assert(shape_model(Shape::Num(NumKind::I16)) == ShapeSpec::Num(NumKind::I16));
            assert(shape_model(fseq[0]) == ShapeSpec::Num(NumKind::U32));
            assert(shape_model(fseq[1]) == ShapeSpec::FixedArray(
                Box::new(ShapeSpec::Num(NumKind::I16)),
                2,
            ));
            assert(shape_model(fseq[2]) == ShapeSpec::SelfOpt);
            assert(shape_model_list(fseq, 0) =~= seq![
                ShapeSpec::Num(NumKind::U32),
                ShapeSpec::FixedArray(Box::new(ShapeSpec::Num(NumKind::I16)), 2),
                ShapeSpec::SelfOpt,
            ]);
        }
        s
    } else if id == 4 {
        let mut variants: Vec<Vec<Shape>> = Vec::new();
        variants.push(Vec::new());
        variants.push(Vec::new());
        variants.push(Vec::new());
        let ghost vseq = variants@;
        let s = Shape::Enum(variants);
        proof {
            lemma_shape_model_variants(vseq, 0);
            assert(vseq[0]@ =~= Seq::<Shape>::empty() && vseq[1]@ =~= Seq::<Shape>::empty()
                && vseq[2]@ =~= Seq::<Shape>::empty());
            assert(shape_model_list(Seq::<Shape>::empty(), 0) =~= Seq::<ShapeSpec>::empty());
            assert(shape_model_variants(vseq, 0) =~= seq![
                Seq::<ShapeSpec>::empty(),
                Seq::<ShapeSpec>::empty(),
                Seq::<ShapeSpec>::empty(),
            ]);
        }
        s
    } else {
        let mut yes_fields: Vec<Shape> = Vec::new();
        yes_fields.push(Shape::Unit);
        yes_fields.push(Shape::Bool);
        let ghost yseq = yes_fields@;
        let mut variants: Vec<Vec<Shape>> = Vec::new();
        variants.push(Vec::new());
        variants.push(yes_fields);
        let ghost vseq = variants@;
        let s = Shape::Enum(variants);
        proof {
            lemma_shape_model_variants(vseq, 0);
            lemma_shape_model_list(yseq, 0);
            assert(yseq[0] == Shape::Unit && yseq[1] == Shape::Bool);
            assert(shape_model_list(yseq, 0) =~= seq![ShapeSpec::Unit, ShapeSpec::Bool]);
            assert(vseq[0]@ =~= Seq::<Shape>::empty() && vseq[1]@ =~= yseq);
            assert(shape_model_list(Seq::<Shape>::empty(), 0) =~= Seq::<ShapeSpec>::empty());
            assert(shape_model_variants(vseq, 0) =~= seq![
                Seq::<ShapeSpec>::empty(),
                seq![ShapeSpec::Unit, ShapeSpec::Bool],
            ]);
        }
        s
    }
}

/// Builds one executable node of the recursive tree value.
fn build_tree_node(age: u128, id0: u128, id1: u128, child: Option<Box<Value>>) -> (v: Value)
    ensures
        v@ == tree_node(
            age,
            id0,
            id1,
            match child {
                Option::None => Option::None,
                Option::Some(c) => Option::Some(Box::new(c@)),
            },
        ),
{
    let ghost childm: Option<Box<ValueSpec>> = match &child {
        Option::None => Option::None,
        Option::Some(c) => Option::Some(Box::new((**c)@)),
    };
    let mut ids: Vec<Value> = Vec::new();
    ids.push(Value::Num(id0));
    ids.push(Value::Num(id1));
    let ghost iseq = ids@;
    let mut vals: Vec<Value> = Vec::new();
    vals.push(Value::Num(age));
    vals.push(Value::List(ids));
    vals.push(Value::OptVal(child));
    let ghost vseq = vals@;
    let v = Value::StructVal(vals);
    proof {
        lemma_value_model_list(iseq, 0);
        lemma_value_model_list(vseq, 0);
        assert(iseq[0] == Value::Num(id0) && iseq[1] == Value::Num(id1));
        assert(value_model_list(iseq, 0) =~= seq![ValueSpec::Num(id0), ValueSpec::Num(id1)]);
        assert(vseq[0] == Value::Num(age));
        assert(vseq[2] matches Value::OptVal(c) && value_model(vseq[2]) == ValueSpec::OptVal(
            childm,
        ));
        assert(value_model_list(vseq, 0) =~= seq![
            ValueSpec::Num(age),
            ValueSpec::List(seq![ValueSpec::Num(id0), ValueSpec::Num(id1)]),
            ValueSpec::OptVal(childm),
        ]);
    }
    v
}

/// Builds the executable reference value of the case with the given
/// identifier.
fn build_value(id: u8) -> (v: Value)
    requires
        (id as int) < case_count(),
    ensures
        v@ == reg_value(id as int),
{
    if id == 0 {
        let mut name: Vec<u8> = Vec::new();
        name.push(0x63);
        name.push(0x63);
        name.push(0x63);
        name.push(0x63);
        name.push(0x63);
        let ghost nseq = name@;
        let mut data: Vec<Value> = Vec::new();
        data.push(Value::Num(31));
        data.push(Value::Num(69));
        let ghost dseq = data@;
        let mut vals: Vec<Value> = Vec::new();
        vals.push(Value::Text(name));
        vals.push(Value::Num(541212312321534534));
        vals.push(Value::Num(PROB_BITS_A));
        vals.push(Value::List(data));
        let ghost vseq = vals@;
        let v = Value::StructVal(vals);
        proof {
            lemma_value_model_list(dseq, 0);
            lemma_value_model_list(vseq, 0);
            assert(nseq =~= seq![0x63u8, 0x63u8, 0x63u8, 0x63u8, 0x63u8]);
            assert(dseq[0] == Value::Num(31) && dseq[1] == Value::Num(69));
            assert(value_model_list(dseq, 0) =~= seq![ValueSpec::Num(31), ValueSpec::Num(69)]);
            assert(vseq[1] == Value::Num(541212312321534534) && vseq[2] == Value::Num(
                PROB_BITS_A,
            ));
            assert(value_model_list(vseq, 0) =~= seq![
                ValueSpec::Text(seq![0x63u8, 0x63u8, 0x63u8, 0x63u8, 0x63u8]),
                ValueSpec::Num(541212312321534534),
                ValueSpec::Num(PROB_BITS_A),
                ValueSpec::List(seq![ValueSpec::Num(31), ValueSpec::Num(69)]),
            ]);
        }
        v
    } else if id == 1 {
        let name: Vec<u8> = Vec::new();
        let data: Vec<Value> = Vec::new();
        let ghost dseq = data@;
        let mut vals: Vec<Value> = Vec::new();
        vals.push(Value::Text(name));
        vals.push(Value::Num(699));
        vals.push(Value::Num(PROB_BITS_B));
        vals.push(Value::List(data));
        let ghost vseq = vals@;
        let v = Value::StructVal(vals);
        proof {
            lemma_value_model_list(dseq, 0);
            lemma_value_model_list(vseq, 0);
            assert(value_model_list(dseq, 0) =~= Seq::<ValueSpec>::empty());
            assert(value_model_list(vseq, 0) =~= seq![
                ValueSpec::Text(seq![]),
                ValueSpec::Num(699),
                ValueSpec::Num(PROB_BITS_B),
                ValueSpec::List(seq![]),
            ]);
        }
        v
    } else if id == 2 {
        build_tree_node(69, 3, 9, Option::None)
    } else if id == 3 {
        let child = build_tree_node(1333, 6, 9, Option::None);
        build_tree_node(1131, 3, 10, Option::Some(Box::new(child)))
    } else if id == 4 {
        let payload: Vec<Value> = Vec::new();
        let ghost pseq = payload@;
        let v = Value::EnumVal(1, payload);
        proof {
            lemma_value_model_list(pseq, 0);
            assert(value_model_list(pseq, 0) =~= Seq::<ValueSpec>::empty());
        }
        v
    } else if id == 5 {
        let payload: Vec<Value> = Vec::new();
        let ghost pseq = payload@;
        let v = Value::EnumVal(0, payload);
        proof {
            lemma_value_model_list(pseq, 0);
            assert(value_model_list(pseq, 0) =~= Seq::<ValueSpec>::empty());
        }
        v
    } else {
        let mut payload: Vec<Value> = Vec::new();
        payload.push(Value::Unit);
        payload.push(Value::Bool(true));
        let ghost pseq = payload@;
        let v = Value::EnumVal(1, payload);
        proof {
            lemma_value_model_list(pseq, 0);
            assert(pseq[0] == Value::Unit && pseq[1] == Value::Bool(true));
            assert(value_model_list(pseq, 0) =~= seq![ValueSpec::Unit, ValueSpec::Bool(true)]);
        }
        v
    }
}

/// Resolves a test-case identifier to its shape and reference value,
/// or nothing for an identifier past the registry.
pub fn lookup(id: u8) -> (r: Option<(Shape, Value)>)
    ensures
        match r {
            Option::Some((s, v)) => (id as int) < case_count() && s@ == reg_shape(id as int) && v@
                == reg_value(id as int),
            Option::None => (id as int) >= case_count(),
        },
{
    if id < 7 {
        Some((build_shape(id), build_value(id)))
    } else {
        None
    }
}

} // verus!
