use vstd::prelude::*;
use crate::json::lex_lt;
use crate::json::lex_lt_transitive;
use crate::json::lex_lt_trichotomy;

verus! {

/// One parameter's value: a closed tagged union.
///
/// The decoder only ever produces `Bool`, `U64`, `I64`, `F64`, `VecU32`,
/// `VecI32` and `Text`; the narrower numeric variants exist for callers
/// that build values programmatically before encoding, and do not survive
/// a decode round trip. The `F32` and `F64` variants store the bit pattern
/// of an IEEE 754 binary64 number (`F32` the pattern of the exactly
/// widened 32-bit float), since this library reasons about floats only
/// through their bits.
#[derive(Debug, Clone, PartialEq)]
pub enum ParametersType {
    Bool(bool),
    I16(i16),
    I32(i32),
    I64(i64),
    U8(u8),
    U16(u16),
    U32(u32),
    U64(u64),
    F32(u64),
    F64(u64),
    VecI32(Vec<i32>),
    VecU32(Vec<u32>),
    Usize(usize),
    Text(String),
}

/// The mathematical value of a `ParametersType`.
pub enum ParamModel {
    Bool(bool),
    I16(i16),
    I32(i32),
    I64(i64),
    U8(u8),
    U16(u16),
    U32(u32),
    U64(u64),
    F32(u64),
    F64(u64),
    VecI32(Seq<i32>),
    VecU32(Seq<u32>),
    Usize(usize),
    Text(Seq<char>),
}

/// The model denoted by a parameter value.
pub open spec fn param_view(p: ParametersType) -> ParamModel {
    match p {
        ParametersType::Bool(b) => ParamModel::Bool(b),
        ParametersType::I16(v) => ParamModel::I16(v),
        ParametersType::I32(v) => ParamModel::I32(v),
        ParametersType::I64(v) => ParamModel::I64(v),
        ParametersType::U8(v) => ParamModel::U8(v),
        ParametersType::U16(v) => ParamModel::U16(v),
        ParametersType::U32(v) => ParamModel::U32(v),
        ParametersType::U64(v) => ParamModel::U64(v),
        ParametersType::F32(bits) => ParamModel::F32(bits),
        ParametersType::F64(bits) => ParamModel::F64(bits),
        ParametersType::VecI32(v) => ParamModel::VecI32(v@),
        ParametersType::VecU32(v) => ParamModel::VecU32(v@),
        ParametersType::Usize(v) => ParamModel::Usize(v),
        ParametersType::Text(s) => ParamModel::Text(s@),
    }
}

impl View for ParametersType {
    type V = ParamModel;

    open spec fn view(&self) -> ParamModel {
        param_view(*self)
    }
}

/// The models of a sequence of named parameters.
pub open spec fn params_view(s: Seq<(String, ParametersType)>) -> Seq<(Seq<char>, ParamModel)>
    decreases s,
{
    if s.len() == 0 {
        Seq::empty()
    } else {
        params_view(s.drop_last()).push((s.last().0@, param_view(s.last().1)))
    }
}

/// `params_view` maps entry by entry.
pub proof fn lemma_params_view(s: Seq<(String, ParametersType)>)
    ensures
        params_view(s).len() == s.len(),
        forall|i: int|
            0 <= i < s.len() ==> #[trigger] params_view(s)[i] == (s[i].0@, param_view(s[i].1)),
    decreases s,
{
    if s.len() > 0 {
        lemma_params_view(s.drop_last());
        assert forall|i: int|
            0 <= i < s.len() implies params_view(s)[i] == (s[i].0@, param_view(s[i].1)) by {
            if i < s.len() - 1 {
                assert(params_view(s)[i] == params_view(s.drop_last())[i]);
                assert(s.drop_last()[i] == s[i]);
            } else {
                assert(params_view(s)[i] == (s.last().0@, param_view(s.last().1)));
            }
        }
    }
}

/// The parameter names of a map model, in strictly ascending order.
pub open spec fn pkeys_sorted(es: Seq<(Seq<char>, ParamModel)>) -> bool {
    forall|i: int, j: int|
        0 <= i < j < es.len() ==> lex_lt(#[trigger] es[i].0, #[trigger] es[j].0)
}

/// The value bound to `key`, if any.
pub open spec fn param_get(es: Seq<(Seq<char>, ParamModel)>, key: Seq<char>) -> Option<ParamModel>
    decreases es.len(),
{
    if es.len() == 0 {
        None
    } else if es[0].0 == key {
        Some(es[0].1)
    } else {
        param_get(es.skip(1), key)
    }
}

/// The map with `key` bound to `v`, inserted or overwritten, names kept
/// sorted.
pub open spec fn param_put(
    es: Seq<(Seq<char>, ParamModel)>,
    key: Seq<char>,
    v: ParamModel,
) -> Seq<(Seq<char>, ParamModel)>
    decreases es.len(),
{
    if es.len() == 0 {
        seq![(key, v)]
    } else if lex_lt(es[0].0, key) {
        seq![es[0]] + param_put(es.skip(1), key, v)
    } else if es[0].0 == key {
        seq![(key, v)] + es.skip(1)
    } else {
        seq![(key, v)] + es
    }
}

/// Every entry of `param_put(es, key, v)` is either `(key, v)` or an entry
/// of `es`.
pub proof fn lemma_param_put_origin(es: Seq<(Seq<char>, ParamModel)>, key: Seq<char>, v: ParamModel)
    ensures
        forall|j: int|
            0 <= j < param_put(es, key, v).len() ==> (#[trigger] param_put(es, key, v)[j] == (
            key,
            v,
            ) || es.contains(param_put(es, key, v)[j])),
    decreases es.len(),
{
    let q = param_put(es, key, v);
    if es.len() == 0 {
    } else if lex_lt(es[0].0, key) {
        lemma_param_put_origin(es.skip(1), key, v);
        let qt = param_put(es.skip(1), key, v);
        assert forall|j: int|
            0 <= j < q.len() implies (#[trigger] q[j] == (key, v) || es.contains(q[j])) by {
            if j == 0 {
                assert(q[0] == es[0]);
                assert(es.contains(es[0]));
            } else {
                assert(q[j] == qt[j - 1]);
                if qt[j - 1] != (key, v) {
                    let i = choose|i: int|
                        0 <= i < es.skip(1).len() && es.skip(1)[i] == qt[j - 1];
                    assert(es[i + 1] == qt[j - 1]);
                    assert(es.contains(qt[j - 1]));
                }
            }
        }
    } else if es[0].0 == key {
        assert forall|j: int|
            0 <= j < q.len() implies (#[trigger] q[j] == (key, v) || es.contains(q[j])) by {
            if j > 0 {
                assert(q[j] == es[j]);
                assert(es.contains(es[j]));
            }
        }
    } else {
        assert forall|j: int|
            0 <= j < q.len() implies (#[trigger] q[j] == (key, v) || es.contains(q[j])) by {
            if j > 0 {
                assert(q[j] == es[j - 1]);
                assert(es.contains(es[j - 1]));
            }
        }
    }
}

/// Inserting into a sorted map keeps it sorted.
pub proof fn lemma_param_put_sorted(
    es: Seq<(Seq<char>, ParamModel)>,
    key: Seq<char>,
    v: ParamModel,
)
    requires
        pkeys_sorted(es),
    ensures
        pkeys_sorted(param_put(es, key, v)),
    decreases es.len(),
{
    let q = param_put(es, key, v);
    if es.len() == 0 {
    } else if lex_lt(es[0].0, key) {
        assert(pkeys_sorted(es.skip(1))) by {
            assert(forall|i: int|
                0 <= i < es.skip(1).len() ==> #[trigger] es.skip(1)[i] == es[i + 1]);
        }
        lemma_param_put_sorted(es.skip(1), key, v);
        lemma_param_put_origin(es.skip(1), key, v);
        let qt = param_put(es.skip(1), key, v);
        assert forall|i: int, j: int| 0 <= i < j < q.len() implies lex_lt(
            #[trigger] q[i].0,
            #[trigger] q[j].0,
        ) by {
            if i == 0 {
                assert(q[0] == es[0]);
                assert(q[j] == qt[j - 1]);
                if qt[j - 1] != (key, v) {
                    let w = choose|w: int|
                        0 <= w < es.skip(1).len() && es.skip(1)[w] == qt[j - 1];
                    assert(es[w + 1] == qt[j - 1]);
                }
            } else {
                assert(q[i] == qt[i - 1]);
                assert(q[j] == qt[j - 1]);
            }
        }
    } else if es[0].0 == key {
        assert forall|i: int, j: int| 0 <= i < j < q.len() implies lex_lt(
            #[trigger] q[i].0,
            #[trigger] q[j].0,
        ) by {
            if i == 0 {
                assert(q[j] == es[j]);
            } else {
                assert(q[i] == es[i]);
                assert(q[j] == es[j]);
            }
        }
    } else {
        lex_lt_trichotomy(es[0].0, key);
        assert forall|i: int, j: int| 0 <= i < j < q.len() implies lex_lt(
            #[trigger] q[i].0,
            #[trigger] q[j].0,
        ) by {
            if i == 0 {
                assert(q[j] == es[j - 1]);
                if j > 1 {
                    lex_lt_transitive(key, es[0].0, es[j - 1].0);
                }
            } else {
                assert(q[i] == es[i - 1]);
                assert(q[j] == es[j - 1]);
            }
        }
    }
}

/// A mapping from parameter name to value, kept in strictly ascending name
/// order so that encoded output is deterministic.
#[derive(Debug, Clone, PartialEq)]
pub struct ParamMap {
    entries: Vec<(String, ParametersType)>,
}

impl View for ParamMap {
    type V = Seq<(Seq<char>, ParamModel)>;

    closed spec fn view(&self) -> Seq<(Seq<char>, ParamModel)> {
        params_view(self.entries@)
    }
}

impl ParamMap {
    /// The map's names are strictly sorted.
    pub open spec fn wf(&self) -> bool {
        pkeys_sorted(self@)
    }

    /// The empty map.
    pub fn new() -> (r: ParamMap)
        ensures
            r@ == Seq::<(Seq<char>, ParamModel)>::empty(),
            r.wf(),
    {
        let r = ParamMap { entries: Vec::new() };
        proof {
            assert(r@ =~= Seq::<(Seq<char>, ParamModel)>::empty());
        }
        r
    }

    /// Wraps entries already in strictly ascending name order.
    pub(crate) fn from_sorted(entries: Vec<(String, ParametersType)>) -> (r: ParamMap)
        requires
            pkeys_sorted(params_view(entries@)),
        ensures
            r@ == params_view(entries@),
            r.wf(),
    {
        ParamMap { entries }
    }

    /// How many parameters the map holds.
    pub fn len(&self) -> (r: usize)
        ensures
            r == self@.len(),
    {
        proof {
            lemma_params_view(self.entries@);
        }
        self.entries.len()
    }

    /// The entries, in name order.
    pub fn entries(&self) -> (r: &Vec<(String, ParametersType)>)
        ensures
            params_view(r@) == self@,
    {
        &self.entries
    }

    /// Binds `key` to `value`, inserting or overwriting, and returns the
    /// extended map.
    pub fn insert(self, key: &str, value: ParametersType) -> (r: ParamMap)
        requires
            self.wf(),
        ensures
            r@ == param_put(self@, key@, value@),
            r.wf(),
    {
        proof {
            lemma_param_put_sorted(self@, key@, param_view(value));
        }
        let entries = put_param_entry(self.entries, key, value);
        ParamMap { entries }
    }

    /// Looks a parameter up by name.
    pub fn get<'a>(&'a self, key: &str) -> (r: Option<&'a ParametersType>)
        ensures
            match r {
                Some(v) => param_get(self@, key@) == Some(param_view(*v)),
                None => param_get(self@, key@) is None,
            },
    {
        proof {
            lemma_params_view(self.entries@);
            assert(self@.skip(0) =~= self@);
        }
        let key_string = String::from_str(key);
        let ghost mv = self@;
        let mut i: usize = 0;
        while i < self.entries.len()
            invariant
                0 <= i <= self.entries.len(),
                mv == params_view(self.entries@),
                mv.len() == self.entries@.len(),
                forall|k: int|
                    0 <= k < mv.len() ==> #[trigger] mv[k] == (self.entries@[k].0@, param_view(
                        self.entries@[k].1,
                    )),
                key_string@ == key@,
                param_get(mv, key@) == param_get(mv.skip(i as int), key@),
            decreases self.entries.len() - i,
        {
            if self.entries[i].0 == key_string {
                assert(mv.skip(i as int)[0] == mv[i as int]);
                return Some(&self.entries[i].1);
            }
            proof {
                assert(mv.skip(i as int)[0] == mv[i as int]);
                assert(mv.skip(i as int).skip(1) =~= mv.skip(i + 1));
            }
            i = i + 1;
        }
        proof {
            assert(mv.skip(i as int).len() == 0);
        }
        None
    }
}

/// The recursive insertion behind `ParamMap::insert`, as `param_put` does
/// it.
fn put_param_entry(
    entries: Vec<(String, ParametersType)>,
    key: &str,
    value: ParametersType,
) -> (r: Vec<(String, ParametersType)>)
    ensures
        params_view(r@) == param_put(params_view(entries@), key@, param_view(value)),
    decreases entries.len(),
{
    let ghost es0 = entries@;
    let ghost ev = params_view(entries@);
    let ghost valv = param_view(value);
    proof {
        lemma_params_view(es0);
    }
    let mut rest = entries;
    if rest.len() == 0 {
        let mut r: Vec<(String, ParametersType)> = Vec::new();
        r.push((String::from_str(key), value));
        proof {
            lemma_params_view(r@);
            assert(params_view(r@) =~= seq![(key@, valv)]);
            assert(ev =~= Seq::<(Seq<char>, ParamModel)>::empty());
        }
        r
    } else {
        let head = rest.remove(0);
        let ghost hsnap = head;
        let ghost hview = (head.0@, param_view(head.1));
        proof {
            assert(rest@ =~= es0.skip(1));
            lemma_params_view(rest@);
            assert(es0[0] == hsnap);
            assert(ev[0] == hview);
            assert(forall|i: int| 0 <= i < rest@.len() ==> rest@[i] == es0[i + 1]);
            assert(params_view(rest@) =~= ev.skip(1));
        }
        let key_string = String::from_str(key);
        if crate::json::str_lt(head.0.as_str(), key) {
            let mut tail = put_param_entry(rest, key, value);
            let ghost tsnap = tail@;
            let ghost tv = params_view(tail@);
            let mut r: Vec<(String, ParametersType)> = Vec::new();
            r.push(head);
            r.append(&mut tail);
            proof {
                assert(r@ =~= seq![hsnap] + tsnap);
                lemma_params_view(r@);
                lemma_params_view(tsnap);
                assert(forall|i: int| 0 <= i < tsnap.len() ==> r@[i + 1] == tsnap[i]);
                assert(params_view(r@) =~= seq![hview] + tv);
                assert(param_put(ev, key@, valv) == seq![ev[0]] + param_put(
                    ev.skip(1),
                    key@,
                    valv,
                ));
                assert(params_view(r@) =~= param_put(ev, key@, valv));
            }
            r
        } else if head.0 == key_string {
            let mut t = rest;
            let ghost rv = params_view(rest@);
            let mut r: Vec<(String, ParametersType)> = Vec::new();
            r.push((key_string, value));
            r.append(&mut t);
            proof {
                lemma_params_view(r@);
                lemma_params_view(rest@);
                assert(forall|i: int| 0 <= i < rest@.len() ==> r@[i + 1] == rest@[i]);
                assert(params_view(r@) =~= seq![(key@, valv)] + rv);
                assert(param_put(ev, key@, valv) == seq![(key@, valv)] + ev.skip(1));
                assert(params_view(r@) =~= param_put(ev, key@, valv));
            }
            r
        } else {
            let mut t = rest;
            let mut r: Vec<(String, ParametersType)> = Vec::new();
            r.push((key_string, value));
            r.push(head);
            r.append(&mut t);
            proof {
                lemma_params_view(r@);
                lemma_params_view(rest@);
                assert(r@[0] == (key_string, value));
                assert(r@[1] == hsnap);
                assert(forall|i: int| 0 <= i < rest@.len() ==> r@[i + 2] == rest@[i]);
                assert(params_view(r@) =~= seq![(key@, valv)] + ev);
                assert(param_put(ev, key@, valv) == seq![(key@, valv)] + ev);
                assert(params_view(r@) =~= param_put(ev, key@, valv));
            }
            r
        }
    }
}

} // verus!
