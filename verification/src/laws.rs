//! What holds of tracing, whatever the records: widening gives the
//! smallest covering type, null never changes a type, and the same
//! records always give the same field tree.
use vstd::prelude::*;
use crate::error::{Error, ErrorKind};
use crate::event::{EventView, IntKind};
use crate::field::{FieldModel, GenericDataType, GenericField};
use crate::internal::field_traced;
use crate::tracer::{
    covers, float_bits, float_type, int_bits, int_type, trace, widen, widen_int, TracingOptions,
};
use crate::value::Value;

verus! {

/// Two signed integer kinds widen to the smallest signed kind that covers
/// both: it covers both, and every signed kind that covers both covers it.
pub proof fn law_widen_signed(a: IntKind, b: IntKind, c: IntKind)
    requires
        a.signed(),
        b.signed(),
    ensures
        widen_int(a, b) matches Some(w) && w.signed() && covers(w, a) && covers(w, b) && (
        c.signed() && covers(c, a) && covers(c, b) ==> covers(c, w)),
{
}

/// Two integer kinds widen, in either order, to a kind that covers both.
/// Two different kinds widen to the smallest signed kind that covers both,
/// and fail to widen exactly where no signed kind does.
pub proof fn law_widen_int(a: IntKind, b: IntKind, c: IntKind)
    ensures
        widen_int(a, b) == widen_int(b, a),
        widen_int(a, a) == Some(a),
        match widen_int(a, b) {
            Some(w) => covers(w, a) && covers(w, b) && (a != b ==> w.signed() && (c.signed()
                && covers(c, a) && covers(c, b) ==> covers(c, w))),
            None => a != b && !(c.signed() && covers(c, a) && covers(c, b)),
        },
{
}

/// An integer and a floating point number widen, in either order, to the
/// floating point type with the bits of the wider of the two.
pub proof fn law_widen_int_float(k: IntKind, f: GenericDataType)
    requires
        f is F32 || f is F64,
    ensures
        widen(int_type(k), f) == Ok::<GenericDataType, ErrorKind>(
            float_type(
                if int_bits(k) >= float_bits(f)->Some_0 {
                    int_bits(k)
                } else {
                    float_bits(f)->Some_0
                },
            ),
        ),
        widen(f, int_type(k)) == widen(int_type(k), f),
        widen(int_type(k), f) matches Ok(t) && (t is F32 || t is F64),
{
}

/// Widening does not depend on the order of the two types.
pub proof fn law_widen_commutes(a: GenericDataType, b: GenericDataType)
    ensures
        widen(a, b) == widen(b, a),
{
    match (a.int_kind(), b.int_kind()) {
        (Some(x), Some(y)) => {
            law_widen_int(x, y, x);
        },
        _ => {},
    }
}

/// Null never changes the type of a field, only its nullability: the
/// observation of null leaves name, type and children as they were, and
/// the null type widens with every type to that type.
pub proof fn law_null_keeps_type(t: FieldModel, options: TracingOptions)
    ensures
        trace(t, Value::Null, options) == Ok::<FieldModel, ErrorKind>(
            FieldModel { nullable: true, ..t },
        ),
        trace(t, Value::Present(Box::new(Value::Null)), options) == Ok::<FieldModel, ErrorKind>(
            FieldModel { nullable: true, ..t },
        ),
        widen(t.data_type, GenericDataType::Null) == Ok::<GenericDataType, ErrorKind>(t.data_type),
        widen(GenericDataType::Null, t.data_type) == Ok::<GenericDataType, ErrorKind>(t.data_type),
{
}

/// Tracing is deterministic: two runs over the same records with the same
/// options both succeed or both fail; where they succeed, the field trees
/// are equal in names, order, types and nullability, and where they fail,
/// they fail alike.
pub proof fn law_tracing_is_deterministic(
    ev: Seq<EventView>,
    name: Seq<char>,
    options: TracingOptions,
    first: Result<GenericField, Error>,
    second: Result<GenericField, Error>,
)
    requires
        field_traced(ev, name, options, first),
        field_traced(ev, name, options, second),
    ensures
        first is Ok <==> second is Ok,
        first matches Ok(a) ==> second matches Ok(b) && a@ == b@,
        first matches Err(a) ==> second matches Err(b) && a.kind == b.kind,
{
}

} // verus!
