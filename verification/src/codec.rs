use vstd::prelude::*;
use crate::json::Json;
use crate::json::JsonModel;
use crate::json::arr_view;
use crate::json::f64_bits_finite;
use crate::json::get_member;
use crate::json::json_view;
use crate::json::keys_sorted;
use crate::json::lemma_arr_view;
use crate::json::lemma_members_view;
use crate::json::lemma_obj_put_wf;
use crate::json::lemma_obj_put_depth;
use crate::json::lemma_depth_mono;
use crate::json::lemma_obj_depth_member;
use crate::json::lemma_arr_depth_intro;
use crate::json::lemma_obj_depth_intro;
use crate::json::obj_depth_at_most;
use crate::json::depth_at_most;
use crate::json::lex_lt;
use crate::json::lex_lt_transitive;
use crate::json::members_view;
use crate::json::obj_get;
use crate::json::obj_put;
use crate::json::put_member;
use crate::json::wf_model;
use crate::params::ParamMap;
use crate::params::ParamModel;
use crate::params::ParametersType;
use crate::params::lemma_params_view;
use crate::params::param_view;
use crate::params::params_view;
use crate::params::pkeys_sorted;
use crate::text::doc_of;
use crate::text::text_of;
use crate::text::json_of_value;
use crate::text::parse_value;
use crate::text::text_of_value;
use crate::text::value_of_json;

verus! {

/// The two fatal conditions: input text that is not JSON, and a float with
/// no JSON representation. Everything else (missing keys, wrong shapes,
/// unsupported member values) is absorbed silently.
#[derive(Debug, Clone, Copy, PartialEq, Eq, Structural)]
pub enum CodecError {
    MalformedJson,
    NonFiniteNumber,
}

// ---------------------------------------------------------------------
// The decoder's classification policy.
// ---------------------------------------------------------------------

/// The integer of a `UInt`, 0 elsewhere.
pub open spec fn uint_val(v: JsonModel) -> u64 {
    match v {
        JsonModel::UInt(u) => u,
        _ => 0,
    }
}

/// Whether a number is representable as a signed 64-bit integer.
pub open spec fn is_intlike(v: JsonModel) -> bool {
    match v {
        JsonModel::UInt(u) => u <= i64::MAX as u64,
        JsonModel::NegInt(_) => true,
        _ => false,
    }
}

/// The signed 64-bit reading of an int-like number, 0 elsewhere.
pub open spec fn intlike_val(v: JsonModel) -> i64 {
    match v {
        JsonModel::UInt(u) => u as i64,
        JsonModel::NegInt(i) => i,
        _ => 0,
    }
}

/// All elements are non-negative integers.
pub open spec fn all_uint(es: Seq<JsonModel>) -> bool {
    forall|i: int| 0 <= i < es.len() ==> (#[trigger] es[i]) is UInt
}

/// All elements are signed-64-bit-representable integers.
pub open spec fn all_intlike(es: Seq<JsonModel>) -> bool {
    forall|i: int| 0 <= i < es.len() ==> is_intlike(#[trigger] es[i])
}

/// The decoder's ordered classification policy for one member value:
/// booleans; non-negative integers as `U64`; negative integers as `I64`;
/// other numbers as `F64`; arrays of non-negative integers as `VecU32`
/// (before `VecI32`, narrowing each element to 32 bits by truncation);
/// other all-integer arrays as `VecI32` (same narrowing); strings as
/// `Text`; anything else is dropped (`None`).
pub open spec fn classify(v: JsonModel) -> Option<ParamModel> {
    match v {
        JsonModel::Bool(b) => Some(ParamModel::Bool(b)),
        JsonModel::UInt(u) => Some(ParamModel::U64(u)),
        JsonModel::NegInt(i) => Some(ParamModel::I64(i)),
        JsonModel::Float(bits) => Some(ParamModel::F64(bits)),
        JsonModel::Text(s) => Some(ParamModel::Text(s)),
        JsonModel::Arr(es) => if all_uint(es) {
            Some(ParamModel::VecU32(Seq::new(es.len(), |i: int| uint_val(es[i]) as u32)))
        } else if all_intlike(es) {
            Some(ParamModel::VecI32(Seq::new(es.len(), |i: int| intlike_val(es[i]) as i32)))
        } else {
            None
        },
        _ => None,
    }
}

/// The decoded entries of a section object: each member classified in
/// order, unsupported members dropped.
pub open spec fn decode_entries(es: Seq<(Seq<char>, JsonModel)>) -> Seq<(Seq<char>, ParamModel)>
    decreases es.len(),
{
    if es.len() == 0 {
        Seq::empty()
    } else {
        let rest = decode_entries(es.drop_last());
        match classify(es.last().1) {
            Some(p) => rest.push((es.last().0, p)),
            None => rest,
        }
    }
}

/// What decoding a document under `key` yields: the classified members of
/// the named top-level object, and the empty map when the key is absent,
/// is not an object, or the document root is not an object.
pub open spec fn spec_decode_section(d: JsonModel, key: Seq<char>) -> Seq<(Seq<char>, ParamModel)> {
    match d {
        JsonModel::Obj(es) => match obj_get(es, key) {
            Some(JsonModel::Obj(ms)) => decode_entries(ms),
            _ => Seq::empty(),
        },
        _ => Seq::empty(),
    }
}

// ---------------------------------------------------------------------
// The encoder's value table.
// ---------------------------------------------------------------------

/// Whether a value can be encoded at all: only a non-finite float cannot.
pub open spec fn encode_ok(p: ParamModel) -> bool {
    match p {
        ParamModel::F32(bits) => f64_bits_finite(bits),
        ParamModel::F64(bits) => f64_bits_finite(bits),
        _ => true,
    }
}

/// The JSON value a parameter encodes to: the variant tag picks the
/// numeric encoding; signed values keep their sign, unsigned values and
/// `usize` are emitted as non-negative integers, both float variants emit
/// their stored binary64 bits, and the vectors emit arrays of integers.
pub open spec fn encode_val(p: ParamModel) -> JsonModel {
    match p {
        ParamModel::Bool(b) => JsonModel::Bool(b),
        ParamModel::I16(v) => if v < 0 {
            JsonModel::NegInt(v as i64)
        } else {
            JsonModel::UInt(v as u64)
        },
        ParamModel::I32(v) => if v < 0 {
            JsonModel::NegInt(v as i64)
        } else {
            JsonModel::UInt(v as u64)
        },
        ParamModel::I64(v) => if v < 0 {
            JsonModel::NegInt(v)
        } else {
            JsonModel::UInt(v as u64)
        },
        ParamModel::U8(v) => JsonModel::UInt(v as u64),
        ParamModel::U16(v) => JsonModel::UInt(v as u64),
        ParamModel::U32(v) => JsonModel::UInt(v as u64),
        ParamModel::U64(v) => JsonModel::UInt(v),
        ParamModel::F32(bits) => JsonModel::Float(bits),
        ParamModel::F64(bits) => JsonModel::Float(bits),
        ParamModel::VecI32(s) => JsonModel::Arr(
            Seq::new(
                s.len(),
                |i: int|
                    if s[i] < 0 {
                        JsonModel::NegInt(s[i] as i64)
                    } else {
                        JsonModel::UInt(s[i] as u64)
                    },
            ),
        ),
        ParamModel::VecU32(s) => JsonModel::Arr(
            Seq::new(s.len(), |i: int| JsonModel::UInt(s[i] as u64)),
        ),
        ParamModel::Usize(v) => JsonModel::UInt(v as u64),
        ParamModel::Text(s) => JsonModel::Text(s),
    }
}

/// Every value of the map can be encoded.
pub open spec fn all_encodable(es: Seq<(Seq<char>, ParamModel)>) -> bool {
    forall|i: int| 0 <= i < es.len() ==> encode_ok((#[trigger] es[i]).1)
}

/// The encoded members of a map, name for name.
pub open spec fn encode_entries(es: Seq<(Seq<char>, ParamModel)>) -> Seq<(Seq<char>, JsonModel)> {
    Seq::new(es.len(), |i: int| (es[i].0, encode_val(es[i].1)))
}

/// An encodable value encodes to a well-formed JSON value, at most one
/// container deep.
pub proof fn lemma_encode_val_wf(p: ParamModel)
    requires
        encode_ok(p),
    ensures
        wf_model(encode_val(p)),
        depth_at_most(encode_val(p), 1),
{
    match p {
        ParamModel::VecI32(s) => {
            let es = Seq::new(
                s.len(),
                |i: int|
                    if s[i] < 0 {
                        JsonModel::NegInt(s[i] as i64)
                    } else {
                        JsonModel::UInt(s[i] as u64)
                    },
            );
            assert(forall|i: int| 0 <= i < es.len() ==> wf_model(#[trigger] es[i]));
            assert(forall|i: int| 0 <= i < es.len() ==> depth_at_most(#[trigger] es[i], 0));
            lemma_arr_depth_intro(es, 0);
        },
        ParamModel::VecU32(s) => {
            let es = Seq::new(s.len(), |i: int| JsonModel::UInt(s[i] as u64));
            assert(forall|i: int| 0 <= i < es.len() ==> wf_model(#[trigger] es[i]));
            assert(forall|i: int| 0 <= i < es.len() ==> depth_at_most(#[trigger] es[i], 0));
            lemma_arr_depth_intro(es, 0);
        },
        _ => {},
    }
}

/// Encoding a sorted, encodable map gives a well-formed JSON object.
pub proof fn lemma_encode_entries_wf(es: Seq<(Seq<char>, ParamModel)>)
    requires
        pkeys_sorted(es),
        all_encodable(es),
    ensures
        wf_model(JsonModel::Obj(encode_entries(es))),
        depth_at_most(JsonModel::Obj(encode_entries(es)), 2),
{
    let q = encode_entries(es);
    assert forall|i: int| 0 <= i < q.len() implies wf_model(#[trigger] q[i].1) && depth_at_most(
        q[i].1,
        1,
    ) by {
        lemma_encode_val_wf(es[i].1);
    }
    assert(keys_sorted(q));
    lemma_obj_depth_intro(q, 1);
}

// ---------------------------------------------------------------------
// The executable classification and encoding.
// ---------------------------------------------------------------------

/// Whether `bits` denotes a finite binary64 number.
pub fn f64_bits_finite_exec(bits: u64) -> (r: bool)
    ensures
        r == f64_bits_finite(bits),
{
    (bits >> 52u64) & 0x7ff != 0x7ff
}

/// Classifies one JSON array under the decoder's array rules.
fn classify_array(elems: &Vec<Json>) -> (r: Option<ParametersType>)
    ensures
        match r {
            Some(p) => classify(JsonModel::Arr(arr_view(elems@))) == Some(p@),
            None => classify(JsonModel::Arr(arr_view(elems@))) is None,
        },
{
    let ghost av = arr_view(elems@);
    proof {
        lemma_arr_view(elems@);
    }
    let mut uint_only: bool = true;
    let mut i: usize = 0;
    while i < elems.len()
        invariant
            0 <= i <= elems.len(),
            av == arr_view(elems@),
            av.len() == elems@.len(),
            forall|k: int| 0 <= k < elems@.len() ==> #[trigger] av[k] == json_view(elems@[k]),
            uint_only ==> (forall|k: int| 0 <= k < i ==> (#[trigger] av[k]) is UInt),
            !uint_only ==> !all_uint(av),
        decreases elems.len() - i,
    {
        match &elems[i] {
            Json::UInt(_) => {
                proof {
                    assert(av[i as int] is UInt);
                }
            },
            _ => {
                proof {
                    assert(!(av[i as int] is UInt));
                    assert(!all_uint(av));
                }
                uint_only = false;
            },
        }
        i = i + 1;
    }
    if uint_only {
        assert(all_uint(av));
        let mut out: Vec<u32> = Vec::new();
        let mut k: usize = 0;
        while k < elems.len()
            invariant
                0 <= k <= elems.len(),
                av == arr_view(elems@),
                av.len() == elems@.len(),
                forall|j: int| 0 <= j < elems@.len() ==> #[trigger] av[j] == json_view(elems@[j]),
                all_uint(av),
                out@.len() == k,
                forall|j: int| 0 <= j < k ==> #[trigger] out@[j] == uint_val(av[j]) as u32,
            decreases elems.len() - k,
        {
            match &elems[k] {
                Json::UInt(u) => {
                    out.push(#[verifier::truncate] (*u as u32));
                },
                _ => {
                    proof {
                        assert(av[k as int] is UInt);
                        assert(false);
                    }
                },
            }
            k = k + 1;
        }
        proof {
            assert(out@ =~= Seq::new(av.len(), |i: int| uint_val(av[i]) as u32));
        }
        return Some(ParametersType::VecU32(out));
    }
    assert(!all_uint(av));
    let mut int_only: bool = true;
    let mut j: usize = 0;
    while j < elems.len()
        invariant
            0 <= j <= elems.len(),
            av == arr_view(elems@),
            av.len() == elems@.len(),
            forall|k: int| 0 <= k < elems@.len() ==> #[trigger] av[k] == json_view(elems@[k]),
            int_only ==> (forall|k: int| 0 <= k < j ==> is_intlike(#[trigger] av[k])),
            !int_only ==> !all_intlike(av),
        decreases elems.len() - j,
    {
        match &elems[j] {
            Json::UInt(u) => {
                if *u > 0x7fff_ffff_ffff_ffffu64 {
                    proof {
                        assert(!is_intlike(av[j as int]));
                        assert(!all_intlike(av));
                    }
                    int_only = false;
                } else {
                    proof {
                        assert(is_intlike(av[j as int]));
                    }
                }
            },
            Json::NegInt(_) => {
                proof {
                    assert(is_intlike(av[j as int]));
                }
            },
            _ => {
                proof {
                    assert(!is_intlike(av[j as int]));
                    assert(!all_intlike(av));
                }
                int_only = false;
            },
        }
        j = j + 1;
    }
    if int_only {
        assert(all_intlike(av));
        let mut out: Vec<i32> = Vec::new();
        let mut k: usize = 0;
        while k < elems.len()
            invariant
                0 <= k <= elems.len(),
                av == arr_view(elems@),
                av.len() == elems@.len(),
                forall|j: int| 0 <= j < elems@.len() ==> #[trigger] av[j] == json_view(elems@[j]),
                all_intlike(av),
                out@.len() == k,
                forall|j: int| 0 <= j < k ==> #[trigger] out@[j] == intlike_val(av[j]) as i32,
            decreases elems.len() - k,
        {
            match &elems[k] {
                Json::UInt(u) => {
                    out.push(#[verifier::truncate] ((*u as i64) as i32));
                },
                Json::NegInt(v) => {
                    out.push(#[verifier::truncate] (*v as i32));
                },
                _ => {
                    proof {
                        assert(is_intlike(av[k as int]));
                        assert(false);
                    }
                },
            }
            k = k + 1;
        }
        proof {
            assert(out@ =~= Seq::new(av.len(), |i: int| intlike_val(av[i]) as i32));
        }
        return Some(ParametersType::VecI32(out));
    }
    assert(!all_intlike(av));
    None
}

/// Classifies one member value, as the spec `classify` does; `None` means
/// the member is dropped.
pub fn classify_value(v: &Json) -> (r: Option<ParametersType>)
    ensures
        match r {
            Some(p) => classify(v@) == Some(p@),
            None => classify(v@) is None,
        },
{
    match v {
        Json::Null => None,
        Json::Bool(b) => Some(ParametersType::Bool(*b)),
        Json::UInt(u) => Some(ParametersType::U64(*u)),
        Json::NegInt(i) => Some(ParametersType::I64(*i)),
        Json::Float(bits) => Some(ParametersType::F64(*bits)),
        Json::Text(s) => Some(ParametersType::Text(s.clone())),
        Json::Arr(elems) => classify_array(elems),
        Json::Obj(_) => None,
    }
}

/// Encodes one parameter value to JSON; fails exactly on a non-finite
/// float.
pub fn encode_value(value: &ParametersType) -> (r: Result<Json, CodecError>)
    ensures
        match r {
            Ok(j) => encode_ok(value@) && j@ == encode_val(value@),
            Err(e) => e == CodecError::NonFiniteNumber && !encode_ok(value@),
        },
{
    match value {
        ParametersType::Bool(b) => Ok(Json::Bool(*b)),
        ParametersType::I16(v) => Ok(
            if *v < 0 {
                Json::NegInt(*v as i64)
            } else {
                Json::UInt(*v as u64)
            },
        ),
        ParametersType::I32(v) => Ok(
            if *v < 0 {
                Json::NegInt(*v as i64)
            } else {
                Json::UInt(*v as u64)
            },
        ),
        ParametersType::I64(v) => Ok(
            if *v < 0 {
                Json::NegInt(*v)
            } else {
                Json::UInt(*v as u64)
            },
        ),
        ParametersType::U8(v) => Ok(Json::UInt(*v as u64)),
        ParametersType::U16(v) => Ok(Json::UInt(*v as u64)),
        ParametersType::U32(v) => Ok(Json::UInt(*v as u64)),
        ParametersType::U64(v) => Ok(Json::UInt(*v)),
        ParametersType::F32(bits) => {
            if f64_bits_finite_exec(*bits) {
                Ok(Json::Float(*bits))
            } else {
                Err(CodecError::NonFiniteNumber)
            }
        },
        ParametersType::F64(bits) => {
            if f64_bits_finite_exec(*bits) {
                Ok(Json::Float(*bits))
            } else {
                Err(CodecError::NonFiniteNumber)
            }
        },
        ParametersType::VecI32(v) => {
            let ghost target = match encode_val(param_view(*value)) {
                JsonModel::Arr(es) => es,
                _ => Seq::empty(),
            };
            let mut out: Vec<Json> = Vec::new();
            let mut i: usize = 0;
            while i < v.len()
                invariant
                    0 <= i <= v.len(),
                    target == Seq::new(
                        v@.len(),
                        |j: int|
                            if v@[j] < 0 {
                                JsonModel::NegInt(v@[j] as i64)
                            } else {
                                JsonModel::UInt(v@[j] as u64)
                            },
                    ),
                    out@.len() == i,
                    forall|j: int| 0 <= j < i ==> json_view(#[trigger] out@[j]) == target[j],
                decreases v.len() - i,
            {
                let e = v[i];
                if e < 0 {
                    out.push(Json::NegInt(e as i64));
                } else {
                    out.push(Json::UInt(e as u64));
                }
                i = i + 1;
            }
            proof {
                lemma_arr_view(out@);
                assert(arr_view(out@) =~= target);
            }
            Ok(Json::Arr(out))
        },
        ParametersType::VecU32(v) => {
            let ghost target = match encode_val(param_view(*value)) {
                JsonModel::Arr(es) => es,
                _ => Seq::empty(),
            };
            let mut out: Vec<Json> = Vec::new();
            let mut i: usize = 0;
            while i < v.len()
                invariant
                    0 <= i <= v.len(),
                    target == Seq::new(v@.len(), |j: int| JsonModel::UInt(v@[j] as u64)),
                    out@.len() == i,
                    forall|j: int| 0 <= j < i ==> json_view(#[trigger] out@[j]) == target[j],
                decreases v.len() - i,
            {
                let e = v[i];
                out.push(Json::UInt(e as u64));
                i = i + 1;
            }
            proof {
                lemma_arr_view(out@);
                assert(arr_view(out@) =~= target);
            }
            Ok(Json::Arr(out))
        },
        ParametersType::Usize(v) => Ok(Json::UInt(*v as u64)),
        ParametersType::Text(s) => Ok(Json::Text(s.clone())),
    }
}

// ---------------------------------------------------------------------
// Sections: whole objects decoded and encoded.
// ---------------------------------------------------------------------

/// A found member is one of the object's entries.
pub proof fn lemma_obj_get_found(es: Seq<(Seq<char>, JsonModel)>, key: Seq<char>)
    ensures
        match obj_get(es, key) {
            Some(v) => exists|i: int| 0 <= i < es.len() && #[trigger] es[i] == (key, v),
            None => true,
        },
    decreases es.len(),
{
    if es.len() == 0 {
    } else if es[0].0 == key {
        assert(es[0] == (key, es[0].1));
    } else {
        lemma_obj_get_found(es.skip(1), key);
        match obj_get(es, key) {
            Some(v) => {
                let i = choose|i: int| 0 <= i < es.skip(1).len() && es.skip(1)[i] == (key, v);
                assert(es[i + 1] == (key, v));
            },
            None => {},
        }
    }
}

/// Decoding keeps the section's sorted name order: the decoded entries are
/// the classified members in order, so their names stay strictly sorted.
pub proof fn lemma_decode_entries_sorted(ms: Seq<(Seq<char>, JsonModel)>)
    requires
        keys_sorted(ms),
    ensures
        pkeys_sorted(decode_entries(ms)),
        forall|j: int|
            0 <= j < decode_entries(ms).len() ==> exists|i: int|
                0 <= i < ms.len() && (#[trigger] decode_entries(ms)[j]).0 == ms[i].0,
    decreases ms.len(),
{
    if ms.len() > 0 {
        let q = decode_entries(ms);
        let qp = decode_entries(ms.drop_last());
        assert(keys_sorted(ms.drop_last())) by {
            assert(forall|i: int|
                0 <= i < ms.len() - 1 ==> #[trigger] ms.drop_last()[i] == ms[i]);
        }
        lemma_decode_entries_sorted(ms.drop_last());
        match classify(ms.last().1) {
            Some(p) => {
                assert(q == qp.push((ms.last().0, p)));
                assert forall|j: int|
                    0 <= j < q.len() implies exists|i: int|
                    0 <= i < ms.len() && (#[trigger] q[j]).0 == ms[i].0 by {
                    if j < qp.len() {
                        assert(q[j] == qp[j]);
                        let i = choose|i: int|
                            0 <= i < ms.drop_last().len() && qp[j].0 == ms.drop_last()[i].0;
                        assert(q[j].0 == ms[i].0);
                    } else {
                        assert(q[j].0 == ms[ms.len() - 1].0);
                    }
                }
                assert forall|a: int, b: int| 0 <= a < b < q.len() implies lex_lt(
                    #[trigger] q[a].0,
                    #[trigger] q[b].0,
                ) by {
                    if b < qp.len() {
                        assert(q[a] == qp[a] && q[b] == qp[b]);
                    } else {
                        assert(q[a] == qp[a]);
                        let i = choose|i: int|
                            0 <= i < ms.drop_last().len() && qp[a].0 == ms.drop_last()[i].0;
                        assert(q[a].0 == ms[i].0);
                        assert(lex_lt(ms[i].0, ms[ms.len() - 1].0));
                    }
                }
            },
            None => {
                assert(q == qp);
            },
        }
    }
}

/// Decodes the members of one section object, dropping what the policy
/// drops.
fn decode_object(entries: &Vec<(String, Json)>) -> (r: Vec<(String, ParametersType)>)
    ensures
        params_view(r@) == decode_entries(members_view(entries@)),
{
    let ghost mv = members_view(entries@);
    proof {
        lemma_members_view(entries@);
        assert(mv.take(0) =~= Seq::<(Seq<char>, JsonModel)>::empty());
    }
    let mut out: Vec<(String, ParametersType)> = Vec::new();
    let mut i: usize = 0;
    while i < entries.len()
        invariant
            0 <= i <= entries.len(),
            mv == members_view(entries@),
            mv.len() == entries@.len(),
            forall|k: int|
                0 <= k < mv.len() ==> #[trigger] mv[k] == (entries@[k].0@, json_view(
                    entries@[k].1,
                )),
            params_view(out@) == decode_entries(mv.take(i as int)),
        decreases entries.len() - i,
    {
        let ghost prev = out@;
        match classify_value(&entries[i].1) {
            Some(p) => {
                let ghost psnap = p;
                let key = entries[i].0.clone();
                out.push((key, p));
                proof {
                    lemma_params_view(out@);
                    lemma_params_view(prev);
                    assert(forall|k: int| 0 <= k < prev.len() ==> #[trigger] out@[k] == prev[k]);
                    assert(params_view(out@) =~= params_view(prev).push(
                        (mv[i as int].0, param_view(psnap)),
                    ));
                }
            },
            None => {},
        }
        proof {
            assert(mv.take(i + 1).drop_last() =~= mv.take(i as int));
            assert(mv.take(i + 1).last() == mv[i as int]);
            assert(params_view(out@) == decode_entries(mv.take(i + 1)));
        }
        i = i + 1;
    }
    proof {
        assert(mv.take(mv.len() as int) =~= mv);
    }
    out
}

/// Encodes every entry of a map; fails exactly when some value holds a
/// non-finite float.
fn encode_map(map: &ParamMap) -> (r: Result<Vec<(String, Json)>, CodecError>)
    ensures
        match r {
            Ok(out) => all_encodable(map@) && members_view(out@) == encode_entries(map@),
            Err(e) => e == CodecError::NonFiniteNumber && !all_encodable(map@),
        },
{
    let entries = map.entries();
    let ghost pv = map@;
    proof {
        lemma_params_view(entries@);
    }
    let mut out: Vec<(String, Json)> = Vec::new();
    let mut i: usize = 0;
    while i < entries.len()
        invariant
            0 <= i <= entries.len(),
            pv == map@,
            pv == params_view(entries@),
            pv.len() == entries@.len(),
            forall|k: int|
                0 <= k < pv.len() ==> #[trigger] pv[k] == (entries@[k].0@, param_view(
                    entries@[k].1,
                )),
            out@.len() == i,
            forall|k: int| 0 <= k < i ==> encode_ok((#[trigger] pv[k]).1),
            forall|k: int|
                0 <= k < i ==> (#[trigger] out@[k]).0@ == pv[k].0 && json_view(out@[k].1)
                    == encode_val(pv[k].1),
        decreases entries.len() - i,
    {
        match encode_value(&entries[i].1) {
            Ok(j) => {
                let key = entries[i].0.clone();
                out.push((key, j));
            },
            Err(e) => {
                proof {
                    assert(!encode_ok(pv[i as int].1));
                    assert(!all_encodable(pv));
                }
                return Err(e);
            },
        }
        i = i + 1;
    }
    proof {
        lemma_members_view(out@);
        assert(members_view(out@) =~= encode_entries(pv));
    }
    Ok(out)
}

/// Parses JSON text into the library's document tree; fails exactly on
/// text that is not JSON.
pub fn parse_json(s: &str) -> (r: Result<Json, CodecError>)
    ensures
        match r {
            Ok(j) => doc_of(s@) == Some(j@) && wf_model(j@) && depth_at_most(j@, 127),
            Err(e) => e == CodecError::MalformedJson && doc_of(s@) is None,
        },
{
    match parse_value(s) {
        Ok(v) => Ok(json_of_value(&v)),
        Err(_) => Err(CodecError::MalformedJson),
    }
}

/// Serializes a well-formed document tree of bounded nesting; the text
/// parses back to it.
pub fn to_text(j: &Json) -> (r: String)
    requires
        wf_model(j@),
        depth_at_most(j@, 127),
    ensures
        r@ == text_of(j@),
        doc_of(r@) == Some(j@),
{
    let v = value_of_json(j);
    text_of_value(&v)
}

// ---------------------------------------------------------------------
// The public operations.
// ---------------------------------------------------------------------

/// Reads the top-level `actor_name` field. A missing field and a
/// non-object root both yield the empty string, never an error; a string
/// field is returned as it is; any other field value is returned as its
/// serialized JSON text. Fails only on malformed input text.
pub fn get_actor_name(json_input: &str) -> (r: Result<String, CodecError>)
    ensures
        match r {
            Ok(s) => match doc_of(json_input@) {
                Some(d) => match d {
                    JsonModel::Obj(es) => match obj_get(es, "actor_name"@) {
                        Some(JsonModel::Text(t)) => s@ == t,
                        Some(v) => s@ == text_of(v) && doc_of(s@) == Some(v),
                        None => s@ == Seq::<char>::empty(),
                    },
                    _ => s@ == Seq::<char>::empty(),
                },
                None => false,
            },
            Err(e) => e == CodecError::MalformedJson && doc_of(json_input@) is None,
        },
{
    match parse_json(json_input) {
        Err(_) => Err(CodecError::MalformedJson),
        Ok(doc) => match &doc {
            Json::Obj(entries) => {
                proof {
                    lemma_obj_get_found(members_view(entries@), "actor_name"@);
                }
                match get_member(entries, "actor_name") {
                    Some(v) => match v {
                        Json::Text(t) => Ok(t.clone()),
                        other => {
                            proof {
                                let mv = members_view(entries@);
                                assert(obj_get(mv, "actor_name"@) == Some(json_view(*other)));
                                let i = choose|i: int|
                                    0 <= i < mv.len() && mv[i] == ("actor_name"@, json_view(
                                        *other,
                                    ));
                                assert(wf_model(mv[i].1));
                                assert(wf_model(other@));
                                assert(obj_depth_at_most(mv, 126));
                                lemma_obj_depth_member(mv, i, 126);
                                lemma_depth_mono(other@, 126, 127);
                            }
                            Ok(to_text(other))
                        },
                    },
                    None => Ok(String::new()),
                }
            },
            _ => Ok(String::new()),
        },
    }
}

/// The shared decode algorithm: parse, look the section up, classify its
/// members.
fn decode_field(json_input: &str, field: &str) -> (r: Result<ParamMap, CodecError>)
    ensures
        match r {
            Ok(m) => m.wf() && match doc_of(json_input@) {
                Some(d) => wf_model(d) && m@ == spec_decode_section(d, field@),
                None => false,
            },
            Err(e) => e == CodecError::MalformedJson && doc_of(json_input@) is None,
        },
{
    match parse_json(json_input) {
        Err(_) => Err(CodecError::MalformedJson),
        Ok(doc) => match &doc {
            Json::Obj(entries) => {
                proof {
                    lemma_obj_get_found(members_view(entries@), field@);
                }
                match get_member(entries, field) {
                    Some(v) => match v {
                        Json::Obj(ms) => {
                            proof {
                                let mv = members_view(entries@);
                                assert(obj_get(mv, field@) == Some(json_view(*v)));
                                let i = choose|i: int|
                                    0 <= i < mv.len() && mv[i] == (field@, json_view(*v));
                                assert(wf_model(mv[i].1));
                                assert(wf_model(v@));
                                lemma_decode_entries_sorted(members_view(ms@));
                            }
                            let dec = decode_object(ms);
                            Ok(ParamMap::from_sorted(dec))
                        },
                        _ => Ok(ParamMap::new()),
                    },
                    None => Ok(ParamMap::new()),
                }
            },
            _ => Ok(ParamMap::new()),
        },
    }
}

/// Decodes the top-level `parameters` object of a JSON document.
pub fn parameters_json_to_map(json_input: &str) -> (r: Result<ParamMap, CodecError>)
    ensures
        match r {
            Ok(m) => m.wf() && match doc_of(json_input@) {
                Some(d) => wf_model(d) && m@ == spec_decode_section(d, "parameters"@),
                None => false,
            },
            Err(e) => e == CodecError::MalformedJson && doc_of(json_input@) is None,
        },
{
    decode_field(json_input, "parameters")
}

/// Decodes the top-level `virtual_parameters` object of a JSON document.
pub fn virtual_parameters_json_to_map(json_input: &str) -> (r: Result<ParamMap, CodecError>)
    ensures
        match r {
            Ok(m) => m.wf() && match doc_of(json_input@) {
                Some(d) => wf_model(d) && m@ == spec_decode_section(d, "virtual_parameters"@),
                None => false,
            },
            Err(e) => e == CodecError::MalformedJson && doc_of(json_input@) is None,
        },
{
    decode_field(json_input, "virtual_parameters")
}

/// Decodes the top-level `function_parameters` object of a JSON document.
pub fn arguments_json_to_map(json_input: &str) -> (r: Result<ParamMap, CodecError>)
    ensures
        match r {
            Ok(m) => m.wf() && match doc_of(json_input@) {
                Some(d) => wf_model(d) && m@ == spec_decode_section(d, "function_parameters"@),
                None => false,
            },
            Err(e) => e == CodecError::MalformedJson && doc_of(json_input@) is None,
        },
{
    decode_field(json_input, "function_parameters")
}

/// The shared standalone encoder: `{"<field>": { ...encoded map... }}`.
fn encode_section(map: &ParamMap, field: &str) -> (r: Result<String, CodecError>)
    requires
        map.wf(),
    ensures
        match r {
            Ok(s) => all_encodable(map@) && s@ == text_of(
                JsonModel::Obj(seq![(field@, JsonModel::Obj(encode_entries(map@)))]),
            ) && doc_of(s@) == Some(
                JsonModel::Obj(seq![(field@, JsonModel::Obj(encode_entries(map@)))]),
            ),
            Err(e) => e == CodecError::NonFiniteNumber && !all_encodable(map@),
        },
{
    match encode_map(map) {
        Err(e) => Err(e),
        Ok(inner) => {
            let obj = Json::Obj(inner);
            let ghost objv = obj@;
            let mut top: Vec<(String, Json)> = Vec::new();
            top.push((String::from_str(field), obj));
            let docj = Json::Obj(top);
            proof {
                lemma_members_view(docj->Obj_0@);
                assert(members_view(docj->Obj_0@) =~= seq![(field@, objv)]);
                lemma_encode_entries_wf(map@);
                assert(wf_model(docj@));
                lemma_depth_mono(objv, 2, 126);
                assert forall|i: int|
                    0 <= i < members_view(docj->Obj_0@).len() implies depth_at_most(
                    (#[trigger] members_view(docj->Obj_0@)[i]).1,
                    126,
                ) by {
                }
                lemma_obj_depth_intro(members_view(docj->Obj_0@), 126);
                assert(depth_at_most(docj@, 127));
            }
            Ok(to_text(&docj))
        },
    }
}

/// The shared merge encoder: overwrite `field` in a parsed document whose
/// root is an object; hand a non-object document back unchanged.
fn merge_section(map: &ParamMap, field: &str, base: &str) -> (r: Result<String, CodecError>)
    requires
        map.wf(),
    ensures
        match r {
            Ok(s) => all_encodable(map@) && match doc_of(base@) {
                Some(d) => match d {
                    JsonModel::Obj(es) => s@ == text_of(
                        JsonModel::Obj(
                            obj_put(es, field@, JsonModel::Obj(encode_entries(map@))),
                        ),
                    ) && doc_of(s@) == Some(
                        JsonModel::Obj(
                            obj_put(es, field@, JsonModel::Obj(encode_entries(map@))),
                        ),
                    ),
                    _ => s@ == base@,
                },
                None => false,
            },
            Err(e) => match doc_of(base@) {
                None => e == CodecError::MalformedJson,
                Some(_) => e == CodecError::NonFiniteNumber && !all_encodable(map@),
            },
        },
{
    match parse_json(base) {
        Err(_) => Err(CodecError::MalformedJson),
        Ok(doc) => match encode_map(map) {
            Err(e) => Err(e),
            Ok(inner) => match doc {
                Json::Obj(entries) => {
                    let ghost es = members_view(entries@);
                    let merged = put_member(entries, field, Json::Obj(inner));
                    let out = Json::Obj(merged);
                    proof {
                        lemma_encode_entries_wf(map@);
                        lemma_obj_put_wf(es, field@, JsonModel::Obj(encode_entries(map@)));
                        assert(wf_model(out@));
                        lemma_depth_mono(JsonModel::Obj(encode_entries(map@)), 2, 126);
                        lemma_obj_put_depth(
                            es,
                            field@,
                            JsonModel::Obj(encode_entries(map@)),
                            127,
                        );
                        assert(depth_at_most(out@, 127));
                    }
                    Ok(to_text(&out))
                },
                _ => Ok(String::from_str(base)),
            },
        },
    }
}

/// Encodes a map as a standalone `{"parameters": {...}}` document.
pub fn parameters_map_to_json(map_input: ParamMap) -> (r: Result<String, CodecError>)
    requires
        map_input.wf(),
    ensures
        match r {
            Ok(s) => all_encodable(map_input@) && s@ == text_of(
                JsonModel::Obj(seq![("parameters"@, JsonModel::Obj(encode_entries(map_input@)))]),
            ) && doc_of(s@) == Some(
                JsonModel::Obj(seq![("parameters"@, JsonModel::Obj(encode_entries(map_input@)))]),
            ),
            Err(e) => e == CodecError::NonFiniteNumber && !all_encodable(map_input@),
        },
{
    encode_section(&map_input, "parameters")
}

/// Inserts the encoded map under `parameters` into an existing document.
pub fn add_parameters_map_to_json(map_input: ParamMap, json_to_follow: &str) -> (r: Result<
    String,
    CodecError,
>)
    requires
        map_input.wf(),
    ensures
        match r {
            Ok(s) => all_encodable(map_input@) && match doc_of(json_to_follow@) {
                Some(d) => match d {
                    JsonModel::Obj(es) => s@ == text_of(
                        JsonModel::Obj(
                            obj_put(es, "parameters"@, JsonModel::Obj(encode_entries(map_input@))),
                        ),
                    ) && doc_of(s@) == Some(
                        JsonModel::Obj(
                            obj_put(es, "parameters"@, JsonModel::Obj(encode_entries(map_input@))),
                        ),
                    ),
                    _ => s@ == json_to_follow@,
                },
                None => false,
            },
            Err(e) => match doc_of(json_to_follow@) {
                None => e == CodecError::MalformedJson,
                Some(_) => e == CodecError::NonFiniteNumber && !all_encodable(map_input@),
            },
        },
{
    merge_section(&map_input, "parameters", json_to_follow)
}

/// Encodes a map as a standalone `{"virtual_parameters": {...}}` document.
pub fn virtual_parameters_map_to_json(map_input: ParamMap) -> (r: Result<String, CodecError>)
    requires
        map_input.wf(),
    ensures
        match r {
            Ok(s) => all_encodable(map_input@) && s@ == text_of(
                JsonModel::Obj(
                    seq![("virtual_parameters"@, JsonModel::Obj(encode_entries(map_input@)))],
                ),
            ) && doc_of(s@) == Some(
                JsonModel::Obj(
                    seq![("virtual_parameters"@, JsonModel::Obj(encode_entries(map_input@)))],
                ),
            ),
            Err(e) => e == CodecError::NonFiniteNumber && !all_encodable(map_input@),
        },
{
    encode_section(&map_input, "virtual_parameters")
}

/// Inserts the encoded map under `virtual_parameters` into an existing
/// document.
pub fn add_virtual_parameters_map_to_json(map_input: ParamMap, json_to_follow: &str) -> (r: Result<
    String,
    CodecError,
>)
    requires
        map_input.wf(),
    ensures
        match r {
            Ok(s) => all_encodable(map_input@) && match doc_of(json_to_follow@) {
                Some(d) => match d {
                    JsonModel::Obj(es) => s@ == text_of(
                        JsonModel::Obj(
                            obj_put(
                                es,
                                "virtual_parameters"@,
                                JsonModel::Obj(encode_entries(map_input@)),
                            ),
                        ),
                    ) && doc_of(s@) == Some(
                        JsonModel::Obj(
                            obj_put(
                                es,
                                "virtual_parameters"@,
                                JsonModel::Obj(encode_entries(map_input@)),
                            ),
                        ),
                    ),
                    _ => s@ == json_to_follow@,
                },
                None => false,
            },
            Err(e) => match doc_of(json_to_follow@) {
                None => e == CodecError::MalformedJson,
                Some(_) => e == CodecError::NonFiniteNumber && !all_encodable(map_input@),
            },
        },
{
    merge_section(&map_input, "virtual_parameters", json_to_follow)
}

/// Builds `{"to_user_message" : "<message>"}` by direct formatting, with
/// the message inserted verbatim and unescaped.
pub fn message_to_user(message: &str) -> (r: String)
    ensures
        r@ == "{\"to_user_message\" : \""@ + message@ + "\"}"@,
{
    let mut s = String::from_str("{\"to_user_message\" : \"");
    s.append(message);
    s.append("\"}");
    s
}

/// Inserts `message` under `to_user_message` into an existing document
/// (properly escaped, as it goes through the JSON tree); a non-object root
/// is handed back unchanged.
pub fn add_message_to_user(message: &str, json_to_follow: &str) -> (r: Result<String, CodecError>)
    ensures
        match r {
            Ok(s) => match doc_of(json_to_follow@) {
                Some(d) => match d {
                    JsonModel::Obj(es) => s@ == text_of(
                        JsonModel::Obj(
                            obj_put(es, "to_user_message"@, JsonModel::Text(message@)),
                        ),
                    ) && doc_of(s@) == Some(
                        JsonModel::Obj(
                            obj_put(es, "to_user_message"@, JsonModel::Text(message@)),
                        ),
                    ),
                    _ => s@ == json_to_follow@,
                },
                None => false,
            },
            Err(e) => e == CodecError::MalformedJson && doc_of(json_to_follow@) is None,
        },
{
    match parse_json(json_to_follow) {
        Err(_) => Err(CodecError::MalformedJson),
        Ok(doc) => match doc {
            Json::Obj(entries) => {
                let ghost es = members_view(entries@);
                let merged = put_member(
                    entries,
                    "to_user_message",
                    Json::Text(String::from_str(message)),
                );
                let out = Json::Obj(merged);
                proof {
                    lemma_obj_put_wf(es, "to_user_message"@, JsonModel::Text(message@));
                    assert(wf_model(out@));
                    lemma_obj_put_depth(es, "to_user_message"@, JsonModel::Text(message@), 127);
                    assert(depth_at_most(out@, 127));
                }
                Ok(to_text(&out))
            },
            _ => Ok(String::from_str(json_to_follow)),
        },
    }
}

/// The `function_component` payload: actor name, function name, and the
/// encoded parameters, in that (sorted) member order.
pub open spec fn request_component(
    actor: Seq<char>,
    function: Seq<char>,
    es: Seq<(Seq<char>, ParamModel)>,
) -> JsonModel {
    JsonModel::Obj(
        seq![
            ("actor_name"@, JsonModel::Text(actor)),
            ("function_name"@, JsonModel::Text(function)),
            ("function_parameters"@, JsonModel::Obj(encode_entries(es))),
        ],
    )
}

/// `a` is lexicographically below `b` when they agree before `k` and
/// differ in `b`'s favour at `k`.
pub proof fn lemma_lex_lt_at(a: Seq<char>, b: Seq<char>, k: int)
    requires
        0 <= k < a.len(),
        k < b.len(),
        forall|j: int| 0 <= j < k ==> a[j] == b[j],
        (a[k] as int) < (b[k] as int),
    ensures
        lex_lt(a, b),
    decreases k,
{
    if k == 0 {
        assert(a[0] != b[0]);
    } else {
        lemma_lex_lt_at(a.skip(1), b.skip(1), k - 1);
        assert(a[0] == b[0]);
    }
}

/// The three member names of a `function_component` are strictly sorted.
pub proof fn lemma_request_keys_sorted()
    ensures
        lex_lt("actor_name"@, "function_name"@),
        lex_lt("function_name"@, "function_parameters"@),
{
    reveal_strlit("actor_name");
    reveal_strlit("function_name");
    reveal_strlit("function_parameters");
    lemma_lex_lt_at("actor_name"@, "function_name"@, 0);
    lemma_lex_lt_at("function_name"@, "function_parameters"@, 9);
}

/// An encodable request component is a well-formed JSON object.
pub proof fn lemma_request_component_wf(
    actor: Seq<char>,
    function: Seq<char>,
    es: Seq<(Seq<char>, ParamModel)>,
)
    requires
        pkeys_sorted(es),
        all_encodable(es),
    ensures
        wf_model(request_component(actor, function, es)),
        depth_at_most(request_component(actor, function, es), 3),
{
    lemma_request_keys_sorted();
    lemma_encode_entries_wf(es);
    let q = request_component(actor, function, es)->Obj_0;
    assert forall|i: int, j: int| 0 <= i < j < q.len() implies lex_lt(
        #[trigger] q[i].0,
        #[trigger] q[j].0,
    ) by {
        if i == 0 && j == 2 {
            lex_lt_transitive("actor_name"@, "function_name"@, "function_parameters"@);
        }
    }
    assert(forall|i: int| 0 <= i < q.len() ==> wf_model(#[trigger] q[i].1));
    assert forall|i: int| 0 <= i < q.len() implies depth_at_most((#[trigger] q[i]).1, 2) by {
        if i == 2 {
            lemma_depth_mono(q[2].1, 2, 2);
        }
    }
    lemma_obj_depth_intro(q, 2);
}

/// Builds a standalone function-call request document.
pub fn actor_function_request(
    actor_name: &str,
    function_name: &str,
    function_parameters_map: ParamMap,
) -> (r: Result<String, CodecError>)
    requires
        function_parameters_map.wf(),
    ensures
        match r {
            Ok(s) => all_encodable(function_parameters_map@) && s@ == text_of(
                JsonModel::Obj(
                    seq![
                        (
                            "function_component"@,
                            request_component(
                                actor_name@,
                                function_name@,
                                function_parameters_map@,
                            ),
                        ),
                    ],
                ),
            ) && doc_of(s@) == Some(
                JsonModel::Obj(
                    seq![
                        (
                            "function_component"@,
                            request_component(
                                actor_name@,
                                function_name@,
                                function_parameters_map@,
                            ),
                        ),
                    ],
                ),
            ),
            Err(e) => e == CodecError::NonFiniteNumber && !all_encodable(
                function_parameters_map@,
            ),
        },
{
    match build_request_component(actor_name, function_name, &function_parameters_map) {
        Err(e) => Err(e),
        Ok(comp_json) => {
            let ghost compv = comp_json@;
            let mut top: Vec<(String, Json)> = Vec::new();
            top.push((String::from_str("function_component"), comp_json));
            let docj = Json::Obj(top);
            proof {
                lemma_members_view(docj->Obj_0@);
                assert(members_view(docj->Obj_0@) =~= seq![("function_component"@, compv)]);
                assert(wf_model(docj@));
                lemma_depth_mono(compv, 3, 126);
                assert forall|i: int|
                    0 <= i < members_view(docj->Obj_0@).len() implies depth_at_most(
                    (#[trigger] members_view(docj->Obj_0@)[i]).1,
                    126,
                ) by {
                }
                lemma_obj_depth_intro(members_view(docj->Obj_0@), 126);
                assert(depth_at_most(docj@, 127));
            }
            Ok(to_text(&docj))
        },
    }
}

/// Builds the `function_component` object itself.
fn build_request_component(
    actor_name: &str,
    function_name: &str,
    map: &ParamMap,
) -> (r: Result<Json, CodecError>)
    requires
        map.wf(),
    ensures
        match r {
            Ok(j) => all_encodable(map@) && j@ == request_component(
                actor_name@,
                function_name@,
                map@,
            ) && wf_model(j@) && depth_at_most(j@, 3),
            Err(e) => e == CodecError::NonFiniteNumber && !all_encodable(map@),
        },
{
    match encode_map(map) {
        Err(e) => Err(e),
        Ok(inner) => {
            let obj = Json::Obj(inner);
            let ghost objv = obj@;
            let mut comp: Vec<(String, Json)> = Vec::new();
            comp.push((String::from_str("actor_name"), Json::Text(String::from_str(actor_name))));
            comp.push(
                (String::from_str("function_name"), Json::Text(String::from_str(function_name))),
            );
            comp.push((String::from_str("function_parameters"), obj));
            let comp_json = Json::Obj(comp);
            proof {
                lemma_members_view(comp_json->Obj_0@);
                assert(members_view(comp_json->Obj_0@) =~= seq![
                    ("actor_name"@, JsonModel::Text(actor_name@)),
                    ("function_name"@, JsonModel::Text(function_name@)),
                    ("function_parameters"@, objv),
                ]);
                lemma_request_component_wf(actor_name@, function_name@, map@);
            }
            Ok(comp_json)
        },
    }
}

/// Inserts a function-call request under `function_component` into an
/// existing document; a non-object root is handed back unchanged.
pub fn add_actor_function_request(
    actor_name: &str,
    function_name: &str,
    function_parameters_map: ParamMap,
    json_to_follow: &str,
) -> (r: Result<String, CodecError>)
    requires
        function_parameters_map.wf(),
    ensures
        match r {
            Ok(s) => all_encodable(function_parameters_map@) && match doc_of(json_to_follow@) {
                Some(d) => match d {
                    JsonModel::Obj(es) => s@ == text_of(
                        JsonModel::Obj(
                            obj_put(
                                es,
                                "function_component"@,
                                request_component(
                                    actor_name@,
                                    function_name@,
                                    function_parameters_map@,
                                ),
                            ),
                        ),
                    ) && doc_of(s@) == Some(
                        JsonModel::Obj(
                            obj_put(
                                es,
                                "function_component"@,
                                request_component(
                                    actor_name@,
                                    function_name@,
                                    function_parameters_map@,
                                ),
                            ),
                        ),
                    ),
                    _ => s@ == json_to_follow@,
                },
                None => false,
            },
            Err(e) => match doc_of(json_to_follow@) {
                None => e == CodecError::MalformedJson,
                Some(_) => e == CodecError::NonFiniteNumber && !all_encodable(
                    function_parameters_map@,
                ),
            },
        },
{
    match parse_json(json_to_follow) {
        Err(_) => Err(CodecError::MalformedJson),
        Ok(doc) => match build_request_component(
            actor_name,
            function_name,
            &function_parameters_map,
        ) {
            Err(e) => Err(e),
            Ok(comp_json) => match doc {
                Json::Obj(entries) => {
                    let ghost es = members_view(entries@);
                    let ghost compv = comp_json@;
                    let merged = put_member(entries, "function_component", comp_json);
                    let out = Json::Obj(merged);
                    proof {
                        lemma_obj_put_wf(es, "function_component"@, compv);
                        assert(wf_model(out@));
                        lemma_depth_mono(compv, 3, 126);
                        lemma_obj_put_depth(es, "function_component"@, compv, 127);
                        assert(depth_at_most(out@, 127));
                    }
                    Ok(to_text(&out))
                },
                _ => Ok(String::from_str(json_to_follow)),
            },
        },
    }
}

// ---------------------------------------------------------------------
// Laws.
// ---------------------------------------------------------------------

/// A value whose decoded form is itself: a boolean, a non-negative 64-bit
/// integer, a negative signed 64-bit integer (a non-negative one comes
/// back as `U64`), a finite float, a string, an unsigned 32-bit vector, or
/// a signed 32-bit vector holding at least one negative element (an
/// all-non-negative vector decodes as `VecU32` instead, so its tag does
/// not survive the trip). The narrow numeric variants always widen.
pub open spec fn round_trippable(p: ParamModel) -> bool {
    match p {
        ParamModel::Bool(_) => true,
        ParamModel::U64(_) => true,
        ParamModel::I64(v) => v < 0,
        ParamModel::F64(bits) => f64_bits_finite(bits),
        ParamModel::Text(_) => true,
        ParamModel::VecU32(_) => true,
        ParamModel::VecI32(s) => exists|i: int| 0 <= i < s.len() && s[i] < 0,
        _ => false,
    }
}

/// Round trip of one value: classifying its encoding yields it back.
pub proof fn lemma_round_trip_value(p: ParamModel)
    requires
        round_trippable(p),
    ensures
        encode_ok(p),
        classify(encode_val(p)) == Some(p),
{
    match p {
        ParamModel::VecU32(s) => {
            let es = encode_val(p)->Arr_0;
            assert(all_uint(es));
            assert(Seq::new(es.len(), |i: int| uint_val(es[i]) as u32) =~= s);
        },
        ParamModel::VecI32(s) => {
            let es = encode_val(p)->Arr_0;
            let w = choose|i: int| 0 <= i < s.len() && s[i] < 0;
            assert(es[w] is NegInt);
            assert(!all_uint(es));
            assert forall|i: int| 0 <= i < es.len() implies is_intlike(#[trigger] es[i]) by {
                if s[i] < 0 {
                } else {
                    assert(es[i] == JsonModel::UInt(s[i] as u64));
                }
            }
            assert(all_intlike(es));
            assert(Seq::new(es.len(), |i: int| intlike_val(es[i]) as i32) =~= s);
        },
        _ => {},
    }
}

/// Round trip of a map's entries: decoding the encoded members yields the
/// original entries, names and order kept.
pub proof fn lemma_round_trip_entries(es: Seq<(Seq<char>, ParamModel)>)
    requires
        forall|i: int| 0 <= i < es.len() ==> round_trippable((#[trigger] es[i]).1),
    ensures
        all_encodable(es),
        decode_entries(encode_entries(es)) == es,
    decreases es.len(),
{
    assert forall|i: int| 0 <= i < es.len() implies encode_ok((#[trigger] es[i]).1) by {
        lemma_round_trip_value(es[i].1);
    }
    if es.len() == 0 {
        assert(encode_entries(es) =~= Seq::<(Seq<char>, JsonModel)>::empty());
        assert(decode_entries(encode_entries(es)) =~= es);
    } else {
        lemma_round_trip_entries(es.drop_last());
        let q = encode_entries(es);
        assert(q.drop_last() =~= encode_entries(es.drop_last()));
        assert(q.last() == (es.last().0, encode_val(es.last().1)));
        lemma_round_trip_value(es.last().1);
        assert(decode_entries(q) == decode_entries(q.drop_last()).push(
            (es.last().0, es.last().1),
        ));
        assert(decode_entries(q) =~= es);
    }
}

/// The round-trip law: a map holding only non-negative 64-bit integers,
/// strings, and homogeneous 32-bit integer vectors (a signed vector with
/// some negative element, or any unsigned vector), once encoded standalone
/// under a field name, decodes from that document back to the same map.
pub proof fn lemma_decode_encode_round_trip(es: Seq<(Seq<char>, ParamModel)>, field: Seq<char>)
    requires
        forall|i: int| 0 <= i < es.len() ==> round_trippable((#[trigger] es[i]).1),
    ensures
        all_encodable(es),
        spec_decode_section(
            JsonModel::Obj(seq![(field, JsonModel::Obj(encode_entries(es)))]),
            field,
        ) == es,
{
    lemma_round_trip_entries(es);
    let top = seq![(field, JsonModel::Obj(encode_entries(es)))];
    assert(obj_get(top, field) == Some(JsonModel::Obj(encode_entries(es))));
}

/// An array of non-negative integers always decodes as `VecU32`, even
/// when every element would also fit the signed 32-bit range: the
/// unsigned-array rule is checked before the signed one.
pub proof fn lemma_nonneg_array_decodes_unsigned(es: Seq<JsonModel>)
    requires
        all_uint(es),
    ensures
        classify(JsonModel::Arr(es)) == Some(
            ParamModel::VecU32(Seq::new(es.len(), |i: int| uint_val(es[i]) as u32)),
        ),
{
}

} // verus!

