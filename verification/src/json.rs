use vstd::prelude::*;

verus! {

/// True when `bits`, read as an IEEE 754 binary64 bit pattern, denotes a
/// finite number (neither an infinity nor a NaN): the exponent field is not
/// all ones.
pub open spec fn f64_bits_finite(bits: u64) -> bool {
    (bits >> 52) & 0x7ff != 0x7ff
}

/// The mathematical model of a JSON document.
///
/// Numbers keep the three-way split that the decoder's inference policy
/// depends on: a non-negative integer (`UInt`), a negative integer
/// (`NegInt`, always strictly negative in a well-formed model), and any
/// other number (`Float`, stored as its binary64 bit pattern, since this
/// library reasons about floats only through their bits).
pub enum JsonModel {
    Null,
    Bool(bool),
    UInt(u64),
    NegInt(i64),
    Float(u64),
    Text(Seq<char>),
    Arr(Seq<JsonModel>),
    Obj(Seq<(Seq<char>, JsonModel)>),
}

/// Strict lexicographic order on character sequences, by code point.
pub open spec fn lex_lt(a: Seq<char>, b: Seq<char>) -> bool
    decreases a.len(),
{
    if b.len() == 0 {
        false
    } else if a.len() == 0 {
        true
    } else if a[0] != b[0] {
        (a[0] as int) < (b[0] as int)
    } else {
        lex_lt(a.skip(1), b.skip(1))
    }
}

/// `lex_lt` is a strict total order: two sequences that are not ordered
/// either way are equal.
pub proof fn lex_lt_trichotomy(a: Seq<char>, b: Seq<char>)
    ensures
        lex_lt(a, b) || lex_lt(b, a) || a == b,
    decreases a.len(),
{
    if b.len() == 0 {
        if a.len() == 0 {
            assert(a =~= b);
        }
    } else if a.len() == 0 {
    } else if a[0] != b[0] {
        assert((a[0] as int) != (b[0] as int));
    } else {
        lex_lt_trichotomy(a.skip(1), b.skip(1));
        if !lex_lt(a, b) && !lex_lt(b, a) {
            assert(a.skip(1) == b.skip(1));
            assert(a.len() == b.len());
            assert forall|i: int| 0 <= i < a.len() implies a[i] == b[i] by {
                if i >= 1 {
                    assert(a[i] == a.skip(1)[i - 1]);
                    assert(b[i] == b.skip(1)[i - 1]);
                }
            }
            assert(a =~= b);
        }
    }
}

/// `lex_lt` is transitive.
pub proof fn lex_lt_transitive(a: Seq<char>, b: Seq<char>, c: Seq<char>)
    requires
        lex_lt(a, b),
        lex_lt(b, c),
    ensures
        lex_lt(a, c),
    decreases a.len(),
{
    if a.len() == 0 {
    } else if b.len() == 0 {
    } else if c.len() == 0 {
    } else {
        if a[0] == b[0] && b[0] == c[0] {
            lex_lt_transitive(a.skip(1), b.skip(1), c.skip(1));
        }
    }
}

/// The member names of a JSON object model, in order.
pub open spec fn keys_sorted(es: Seq<(Seq<char>, JsonModel)>) -> bool {
    forall|i: int, j: int|
        0 <= i < j < es.len() ==> lex_lt(#[trigger] es[i].0, #[trigger] es[j].0)
}

/// Well-formedness of a JSON model: negative integers are negative, floats
/// are finite (`serde_json` can represent no other), and every object keeps
/// its member names strictly sorted, as a `serde_json` map does.
pub open spec fn wf_model(v: JsonModel) -> bool
    decreases v,
{
    match v {
        JsonModel::NegInt(i) => i < 0,
        JsonModel::Float(bits) => f64_bits_finite(bits),
        JsonModel::Arr(es) => forall|i: int| 0 <= i < es.len() ==> wf_model(#[trigger] es[i]),
        JsonModel::Obj(es) => keys_sorted(es) && forall|i: int|
            0 <= i < es.len() ==> wf_model(#[trigger] es[i].1),
        _ => true,
    }
}

/// Containers nest at most `d` levels deep. Scalars are free; each array
/// or object consumes one level. (`serde_json`'s parser errors on the
/// 128th nested container, so only documents nesting at most 127 deep are
/// promised to parse back after serialization.)
pub open spec fn depth_at_most(v: JsonModel, d: int) -> bool
    decreases v, 1int,
{
    match v {
        JsonModel::Arr(es) => d >= 1 && arr_depth_at_most(es, d - 1),
        JsonModel::Obj(es) => d >= 1 && obj_depth_at_most(es, d - 1),
        _ => true,
    }
}

/// Every element of the array nests at most `d` levels deep.
pub open spec fn arr_depth_at_most(es: Seq<JsonModel>, d: int) -> bool
    decreases es, 0int,
{
    es.len() == 0 || (depth_at_most(es[0], d) && arr_depth_at_most(es.skip(1), d))
}

/// Every member value of the object nests at most `d` levels deep.
pub open spec fn obj_depth_at_most(es: Seq<(Seq<char>, JsonModel)>, d: int) -> bool
    decreases es, 0int,
{
    es.len() == 0 || (depth_at_most(es[0].1, d) && obj_depth_at_most(es.skip(1), d))
}

/// One member of a depth-bounded object list is itself bounded.
pub proof fn lemma_obj_depth_member(es: Seq<(Seq<char>, JsonModel)>, i: int, d: int)
    requires
        obj_depth_at_most(es, d),
        0 <= i < es.len(),
    ensures
        depth_at_most(es[i].1, d),
    decreases es.len(),
{
    if i > 0 {
        lemma_obj_depth_member(es.skip(1), i - 1, d);
        assert(es.skip(1)[i - 1] == es[i]);
    }
}

/// An object list whose member values are all bounded is bounded.
pub proof fn lemma_obj_depth_intro(es: Seq<(Seq<char>, JsonModel)>, d: int)
    requires
        forall|i: int| 0 <= i < es.len() ==> depth_at_most((#[trigger] es[i]).1, d),
    ensures
        obj_depth_at_most(es, d),
    decreases es.len(),
{
    if es.len() > 0 {
        assert(depth_at_most(es[0].1, d));
        assert forall|i: int|
            0 <= i < es.skip(1).len() implies depth_at_most((#[trigger] es.skip(1)[i]).1, d) by {
            assert(es.skip(1)[i] == es[i + 1]);
        }
        lemma_obj_depth_intro(es.skip(1), d);
    }
}

/// An array whose elements are all bounded is bounded.
pub proof fn lemma_arr_depth_intro(es: Seq<JsonModel>, d: int)
    requires
        forall|i: int| 0 <= i < es.len() ==> depth_at_most(#[trigger] es[i], d),
    ensures
        arr_depth_at_most(es, d),
    decreases es.len(),
{
    if es.len() > 0 {
        assert(depth_at_most(es[0], d));
        assert forall|i: int|
            0 <= i < es.skip(1).len() implies depth_at_most(#[trigger] es.skip(1)[i], d) by {
            assert(es.skip(1)[i] == es[i + 1]);
        }
        lemma_arr_depth_intro(es.skip(1), d);
    }
}

/// A depth bound weakens upward.
pub proof fn lemma_depth_mono(v: JsonModel, d1: int, d2: int)
    requires
        depth_at_most(v, d1),
        d1 <= d2,
    ensures
        depth_at_most(v, d2),
    decreases v, 1int,
{
    match v {
        JsonModel::Arr(es) => {
            lemma_arr_depth_mono(es, d1 - 1, d2 - 1);
        },
        JsonModel::Obj(es) => {
            lemma_obj_depth_mono(es, d1 - 1, d2 - 1);
        },
        _ => {},
    }
}

/// A depth bound on an array's elements weakens upward.
pub proof fn lemma_arr_depth_mono(es: Seq<JsonModel>, d1: int, d2: int)
    requires
        arr_depth_at_most(es, d1),
        d1 <= d2,
    ensures
        arr_depth_at_most(es, d2),
    decreases es, 0int,
{
    if es.len() > 0 {
        lemma_depth_mono(es[0], d1, d2);
        lemma_arr_depth_mono(es.skip(1), d1, d2);
    }
}

/// A depth bound on an object's member values weakens upward.
pub proof fn lemma_obj_depth_mono(es: Seq<(Seq<char>, JsonModel)>, d1: int, d2: int)
    requires
        obj_depth_at_most(es, d1),
        d1 <= d2,
    ensures
        obj_depth_at_most(es, d2),
    decreases es, 0int,
{
    if es.len() > 0 {
        lemma_depth_mono(es[0].1, d1, d2);
        lemma_obj_depth_mono(es.skip(1), d1, d2);
    }
}

/// The value of the member named `key`, if the object has one.
pub open spec fn obj_get(es: Seq<(Seq<char>, JsonModel)>, key: Seq<char>) -> Option<JsonModel>
    decreases es.len(),
{
    if es.len() == 0 {
        None
    } else if es[0].0 == key {
        Some(es[0].1)
    } else {
        obj_get(es.skip(1), key)
    }
}

/// The object with the member named `key` inserted or overwritten, keeping
/// the member names sorted.
pub open spec fn obj_put(
    es: Seq<(Seq<char>, JsonModel)>,
    key: Seq<char>,
    v: JsonModel,
) -> Seq<(Seq<char>, JsonModel)>
    decreases es.len(),
{
    if es.len() == 0 {
        seq![(key, v)]
    } else if lex_lt(es[0].0, key) {
        seq![es[0]] + obj_put(es.skip(1), key, v)
    } else if es[0].0 == key {
        seq![(key, v)] + es.skip(1)
    } else {
        seq![(key, v)] + es
    }
}

/// Every member of `obj_put(es, key, v)` is either the inserted `(key, v)`
/// or a member of `es`.
pub proof fn lemma_obj_put_origin(es: Seq<(Seq<char>, JsonModel)>, key: Seq<char>, v: JsonModel)
    ensures
        forall|j: int|
            0 <= j < obj_put(es, key, v).len() ==> (#[trigger] obj_put(es, key, v)[j] == (key, v)
                || es.contains(obj_put(es, key, v)[j])),
    decreases es.len(),
{
    let q = obj_put(es, key, v);
    if es.len() == 0 {
    } else if lex_lt(es[0].0, key) {
        lemma_obj_put_origin(es.skip(1), key, v);
        let qt = obj_put(es.skip(1), key, v);
        assert forall|j: int|
            0 <= j < q.len() implies (#[trigger] q[j] == (key, v) || es.contains(q[j])) by {
            if j == 0 {
                assert(q[0] == es[0]);
                assert(es.contains(es[0]));
            } else {
                assert(q[j] == qt[j - 1]);
                if qt[j - 1] == (key, v) {
                } else {
                    let i = choose|i: int|
                        0 <= i < es.skip(1).len() && es.skip(1)[i] == qt[j - 1];
                    assert(es[i + 1] == qt[j - 1]);
                    assert(es.contains(qt[j - 1]));
                }
            }
        }
    } else if es[0].0 == key {
        assert forall|j: int|
            0 <= j < q.len() implies (#[trigger] q[j] == (key, v) || es.contains(q[j])) by {
            if j > 0 {
                assert(q[j] == es[j]);
                assert(es.contains(es[j]));
            }
        }
    } else {
        assert forall|j: int|
            0 <= j < q.len() implies (#[trigger] q[j] == (key, v) || es.contains(q[j])) by {
            if j > 0 {
                assert(q[j] == es[j - 1]);
                assert(es.contains(es[j - 1]));
            }
        }
    }
}

/// Inserting into a well-formed object keeps it well formed.
pub proof fn lemma_obj_put_wf(es: Seq<(Seq<char>, JsonModel)>, key: Seq<char>, v: JsonModel)
    requires
        wf_model(JsonModel::Obj(es)),
        wf_model(v),
    ensures
        wf_model(JsonModel::Obj(obj_put(es, key, v))),
    decreases es.len(),
{
    let q = obj_put(es, key, v);
    if es.len() == 0 {
        assert(q =~= seq![(key, v)]);
        assert(keys_sorted(q));
        assert(forall|i: int| 0 <= i < q.len() ==> wf_model(#[trigger] q[i].1));
    } else if lex_lt(es[0].0, key) {
        assert(wf_model(JsonModel::Obj(es.skip(1)))) by {
            assert(forall|i: int|
                0 <= i < es.skip(1).len() ==> #[trigger] es.skip(1)[i] == es[i + 1]);
            assert(keys_sorted(es.skip(1)));
        }
        lemma_obj_put_wf(es.skip(1), key, v);
        lemma_obj_put_origin(es.skip(1), key, v);
        let qt = obj_put(es.skip(1), key, v);
        assert(q == seq![es[0]] + qt);
        assert forall|i: int, j: int| 0 <= i < j < q.len() implies lex_lt(
            #[trigger] q[i].0,
            #[trigger] q[j].0,
        ) by {
            if i == 0 {
                assert(q[0] == es[0]);
                assert(q[j] == qt[j - 1]);
                if qt[j - 1] == (key, v) {
                } else {
                    let w = choose|w: int|
                        0 <= w < es.skip(1).len() && es.skip(1)[w] == qt[j - 1];
                    assert(es[w + 1] == qt[j - 1]);
                }
            } else {
                assert(q[i] == qt[i - 1]);
                assert(q[j] == qt[j - 1]);
            }
        }
        assert forall|i: int| 0 <= i < q.len() implies wf_model(#[trigger] q[i].1) by {
            if i == 0 {
                assert(q[0] == es[0]);
            } else {
                assert(q[i] == qt[i - 1]);
            }
        }
    } else if es[0].0 == key {
        assert(q == seq![(key, v)] + es.skip(1));
        assert forall|i: int, j: int| 0 <= i < j < q.len() implies lex_lt(
            #[trigger] q[i].0,
            #[trigger] q[j].0,
        ) by {
            if i == 0 {
                assert(q[j] == es[j]);
            } else {
                assert(q[i] == es[i]);
                assert(q[j] == es[j]);
            }
        }
        assert forall|i: int| 0 <= i < q.len() implies wf_model(#[trigger] q[i].1) by {
            if i > 0 {
                assert(q[i] == es[i]);
            }
        }
    } else {
        lex_lt_trichotomy(es[0].0, key);
        assert(lex_lt(key, es[0].0));
        assert(q == seq![(key, v)] + es);
        assert forall|i: int, j: int| 0 <= i < j < q.len() implies lex_lt(
            #[trigger] q[i].0,
            #[trigger] q[j].0,
        ) by {
            if i == 0 {
                assert(q[j] == es[j - 1]);
                if j > 1 {
                    lex_lt_transitive(key, es[0].0, es[j - 1].0);
                }
            } else {
                assert(q[i] == es[i - 1]);
                assert(q[j] == es[j - 1]);
            }
        }
        assert forall|i: int| 0 <= i < q.len() implies wf_model(#[trigger] q[i].1) by {
            if i > 0 {
                assert(q[i] == es[i - 1]);
            }
        }
    }
}

/// Inserting a member within the depth bound keeps the object within it.
pub proof fn lemma_obj_put_depth(
    es: Seq<(Seq<char>, JsonModel)>,
    key: Seq<char>,
    v: JsonModel,
    d: int,
)
    requires
        depth_at_most(JsonModel::Obj(es), d),
        depth_at_most(v, d - 1),
    ensures
        depth_at_most(JsonModel::Obj(obj_put(es, key, v)), d),
{
    lemma_obj_put_origin(es, key, v);
    let q = obj_put(es, key, v);
    assert(obj_depth_at_most(es, d - 1));
    assert forall|j: int| 0 <= j < q.len() implies depth_at_most((#[trigger] q[j]).1, d - 1) by {
        if q[j] == (key, v) {
        } else {
            let i = choose|i: int| 0 <= i < es.len() && es[i] == q[j];
            lemma_obj_depth_member(es, i, d - 1);
        }
    }
    lemma_obj_depth_intro(q, d - 1);
}

/// A JSON document as executable data; its mathematical value is a
/// `JsonModel` (see `json_view`).
#[derive(Debug)]
pub enum Json {
    Null,
    Bool(bool),
    UInt(u64),
    NegInt(i64),
    Float(u64),
    Text(String),
    Arr(Vec<Json>),
    Obj(Vec<(String, Json)>),
}

/// The model denoted by an executable JSON tree.
pub open spec fn json_view(j: Json) -> JsonModel
    decreases j,
{
    match j {
        Json::Null => JsonModel::Null,
        Json::Bool(b) => JsonModel::Bool(b),
        Json::UInt(u) => JsonModel::UInt(u),
        Json::NegInt(i) => JsonModel::NegInt(i),
        Json::Float(bits) => JsonModel::Float(bits),
        Json::Text(s) => JsonModel::Text(s@),
        Json::Arr(v) => JsonModel::Arr(arr_view(v@)),
        Json::Obj(v) => JsonModel::Obj(members_view(v@)),
    }
}

/// The models of the elements of a JSON array.
pub open spec fn arr_view(s: Seq<Json>) -> Seq<JsonModel>
    decreases s,
{
    if s.len() == 0 {
        Seq::empty()
    } else {
        arr_view(s.drop_last()).push(json_view(s.last()))
    }
}

/// The models of the members of a JSON object.
pub open spec fn members_view(s: Seq<(String, Json)>) -> Seq<(Seq<char>, JsonModel)>
    decreases s,
{
    if s.len() == 0 {
        Seq::empty()
    } else {
        members_view(s.drop_last()).push((s.last().0@, json_view(s.last().1)))
    }
}

impl View for Json {
    type V = JsonModel;

    open spec fn view(&self) -> JsonModel {
        json_view(*self)
    }
}

/// `arr_view` maps element by element.
pub proof fn lemma_arr_view(s: Seq<Json>)
    ensures
        arr_view(s).len() == s.len(),
        forall|i: int| 0 <= i < s.len() ==> #[trigger] arr_view(s)[i] == json_view(s[i]),
    decreases s,
{
    if s.len() > 0 {
        lemma_arr_view(s.drop_last());
        assert forall|i: int| 0 <= i < s.len() implies arr_view(s)[i] == json_view(s[i]) by {
            if i < s.len() - 1 {
                assert(arr_view(s)[i] == arr_view(s.drop_last())[i]);
                assert(s.drop_last()[i] == s[i]);
            } else {
                assert(arr_view(s)[i] == json_view(s.last()));
            }
        }
    }
}

/// `members_view` maps member by member.
pub proof fn lemma_members_view(s: Seq<(String, Json)>)
    ensures
        members_view(s).len() == s.len(),
        forall|i: int|
            0 <= i < s.len() ==> #[trigger] members_view(s)[i] == (s[i].0@, json_view(s[i].1)),
    decreases s,
{
    if s.len() > 0 {
        lemma_members_view(s.drop_last());
        assert forall|i: int|
            0 <= i < s.len() implies members_view(s)[i] == ((#[trigger] s[i]).0@, json_view(
            s[i].1,
        )) by {
            if i < s.len() - 1 {
                assert(members_view(s)[i] == members_view(s.drop_last())[i]);
                assert(s.drop_last()[i] == s[i]);
            } else {
                assert(members_view(s)[i] == (s.last().0@, json_view(s.last().1)));
            }
        }
    }
}

/// `members_view` distributes over concatenation.
pub proof fn lemma_members_view_concat(s1: Seq<(String, Json)>, s2: Seq<(String, Json)>)
    ensures
        members_view(s1 + s2) == members_view(s1) + members_view(s2),
    decreases s2,
{
    if s2.len() == 0 {
        assert(s1 + s2 =~= s1);
        assert(members_view(s1) + s2.map_values(|p: (String, Json)| (p.0@, json_view(p.1)))
            =~= members_view(s1) + Seq::empty());
        assert(members_view(s1) + Seq::empty() =~= members_view(s1));
    } else {
        lemma_members_view_concat(s1, s2.drop_last());
        assert((s1 + s2).drop_last() =~= s1 + s2.drop_last());
        assert((s1 + s2).last() == s2.last());
        assert(members_view(s1) + members_view(s2)
            =~= (members_view(s1) + members_view(s2.drop_last())).push(
                (s2.last().0@, json_view(s2.last().1))));
    }
}

/// Relies on `str`'s `PartialOrd`: `<` on `&str` is lexicographic on bytes,
/// which for UTF-8 text coincides with lexicographic order on code points.
#[verifier::external_body]
pub(crate) fn str_lt(a: &str, b: &str) -> (r: bool)
    ensures
        r == lex_lt(a@, b@),
{
    a < b
}

/// Looks a member up by name, as the spec `obj_get` does.
pub fn get_member<'a>(entries: &'a Vec<(String, Json)>, key: &str) -> (r: Option<&'a Json>)
    ensures
        match r {
            Some(v) => obj_get(members_view(entries@), key@) == Some(json_view(*v)),
            None => obj_get(members_view(entries@), key@) is None,
        },
{
    proof {
        lemma_members_view(entries@);
        assert(members_view(entries@).skip(0) =~= members_view(entries@));
    }
    let key_string = String::from_str(key);
    let ghost mv = members_view(entries@);
    let mut i: usize = 0;
    while i < entries.len()
        invariant
            0 <= i <= entries.len(),
            mv == members_view(entries@),
            mv.len() == entries@.len(),
            forall|k: int|
                0 <= k < mv.len() ==> #[trigger] mv[k] == (entries@[k].0@, json_view(
                    entries@[k].1,
                )),
            key_string@ == key@,
            obj_get(mv, key@) == obj_get(mv.skip(i as int), key@),
        decreases entries.len() - i,
    {
        if entries[i].0 == key_string {
            assert(mv.skip(i as int)[0] == mv[i as int]);
            return Some(&entries[i].1);
        }
        proof {
            assert(mv.skip(i as int)[0] == mv[i as int]);
            assert(mv.skip(i as int).skip(1) =~= mv.skip(i + 1));
        }
        i = i + 1;
    }
    proof {
        assert(mv.skip(i as int).len() == 0);
    }
    None
}

/// Inserts or overwrites a member by name, keeping names sorted, as the
/// spec `obj_put` does.
pub fn put_member(entries: Vec<(String, Json)>, key: &str, value: Json) -> (r: Vec<(String, Json)>)
    ensures
        members_view(r@) == obj_put(members_view(entries@), key@, json_view(value)),
    decreases entries.len(),
{
    let ghost es0 = entries@;
    let ghost ev = members_view(entries@);
    let ghost valv = json_view(value);
    proof {
        lemma_members_view(es0);
    }
    let mut rest = entries;
    if rest.len() == 0 {
        let mut r: Vec<(String, Json)> = Vec::new();
        r.push((String::from_str(key), value));
        proof {
            lemma_members_view(r@);
            assert(members_view(r@) =~= seq![(key@, valv)]);
            assert(ev =~= Seq::<(Seq<char>, JsonModel)>::empty());
        }
        r
    } else {
        let head = rest.remove(0);
        let ghost hsnap = head;
        let ghost hview = (head.0@, json_view(head.1));
        proof {
            assert(rest@ =~= es0.skip(1));
            lemma_members_view(rest@);
            assert(es0[0] == hsnap);
            assert(ev[0] == hview);
            assert(forall|i: int| 0 <= i < rest@.len() ==> rest@[i] == es0[i + 1]);
            assert(members_view(rest@) =~= ev.skip(1));
        }
        let key_string = String::from_str(key);
        if str_lt(head.0.as_str(), key) {
            let mut tail = put_member(rest, key, value);
            let ghost tsnap = tail@;
            let ghost tv = members_view(tail@);
            let mut r: Vec<(String, Json)> = Vec::new();
            r.push(head);
            r.append(&mut tail);
            proof {
                assert(r@ =~= seq![hsnap] + tsnap);
                lemma_members_view_concat(seq![hsnap], tsnap);
                lemma_members_view(seq![hsnap]);
                assert(members_view(seq![hsnap]) =~= seq![hview]);
                assert(members_view(r@) == members_view(seq![hsnap] + tsnap));
                assert(members_view(r@) =~= seq![hview] + tv);
                assert(obj_put(ev, key@, valv) == seq![ev[0]] + obj_put(ev.skip(1), key@, valv));
                assert(members_view(r@) =~= obj_put(ev, key@, valv));
            }
            r
        } else if head.0 == key_string {
            let mut t = rest;
            let ghost rv = members_view(rest@);
            let mut r: Vec<(String, Json)> = Vec::new();
            r.push((key_string, value));
            r.append(&mut t);
            proof {
                lemma_members_view(r@);
                lemma_members_view(rest@);
                assert(forall|i: int| 0 <= i < rest@.len() ==> r@[i + 1] == rest@[i]);
                assert(members_view(r@) =~= seq![(key@, valv)] + rv);
                assert(obj_put(ev, key@, valv) == seq![(key@, valv)] + ev.skip(1));
                assert(members_view(r@) =~= obj_put(ev, key@, valv));
            }
            r
        } else {
            let mut t = rest;
            let ghost rv = members_view(rest@);
            let mut r: Vec<(String, Json)> = Vec::new();
            r.push((key_string, value));
            r.push(head);
            r.append(&mut t);
            proof {
                lemma_members_view(r@);
                lemma_members_view(rest@);
                assert(r@[0] == (key_string, value));
                assert(r@[1] == hsnap);
                assert(forall|i: int| 0 <= i < rest@.len() ==> r@[i + 2] == rest@[i]);
                assert(members_view(r@) =~= seq![(key@, valv)] + ev);
                assert(obj_put(ev, key@, valv) == seq![(key@, valv)] + ev);
                assert(members_view(r@) =~= obj_put(ev, key@, valv));
            }
            r
        }
    }
}

} // verus!
