//! JSON values and their canonical text: no white space, the members of
//! every object in ascending order of their keys, character by character,
//! at every depth, and the elements of every array in the order given.

use vstd::prelude::*;
use vstd::string::*;
use crate::lease::{lemma_text_order_strict, lemma_text_order_total, text_before, text_lt};
use crate::order::lemma_text_order_transitive;
use crate::records::same_text;
use vstd::relations::{sorted_by, total_ordering};
use vstd::seq_lib::{lemma_sorted_unique, to_multiset_build, to_multiset_contains, to_multiset_insert};
use vstd::utf8::encode_utf8;
use crate::digest::{hash, hash_text};
use crate::snapshot::{
    decimal_text, is_plain, json_number, json_string, json_string_text, SnapshotError,
};

verus! {

/// A JSON value. Numbers are integers; an object holds its members in the
/// order in which they were written down.
pub enum Json {
    Null,
    Bool(bool),
    /// An integer that is not below zero.
    Number(u64),
    /// The integer below zero, or zero, that is as far from zero as this one.
    Negative(u64),
    Text(String),
    Array(Vec<Json>),
    Object(Vec<(String, Json)>),
}

/// The mathematical value of a `Json`.
pub ghost enum Value {
    Null,
    Bool(bool),
    Number(int),
    Text(Seq<char>),
    Array(Seq<Value>),
    Object(Seq<(Seq<char>, Value)>),
}

/// A key with the canonical text of its value.
pub type Pair = (Seq<char>, Seq<char>);

/// The mathematical value of `j`.
pub open spec fn value_of(j: Json) -> Value
    decreases j,
{
    match j {
        Json::Null => Value::Null,
        Json::Bool(b) => Value::Bool(b),
        Json::Number(n) => Value::Number(n as int),
        Json::Negative(n) => Value::Number(-(n as int)),
        Json::Text(s) => Value::Text(s@),
        Json::Array(xs) => Value::Array(
            Seq::new(
                xs@.len(),
                |i: int|
                    if 0 <= i < xs@.len() {
                        value_of(xs@[i])
                    } else {
                        Value::Null
                    },
            ),
        ),
        Json::Object(ms) => Value::Object(
            Seq::new(
                ms@.len(),
                |i: int|
                    if 0 <= i < ms@.len() {
                        (ms@[i].0@, value_of(ms@[i].1))
                    } else {
                        (Seq::empty(), Value::Null)
                    },
            ),
        ),
    }
}

impl View for Json {
    type V = Value;

    open spec fn view(&self) -> Value {
        value_of(*self)
    }
}

/// `sorted` with `p` put behind the last pair whose key is not behind its own.
pub open spec fn insert_pair(sorted: Seq<Pair>, p: Pair) -> Seq<Pair>
    decreases sorted.len(),
{
    if sorted.len() == 0 {
        seq![p]
    } else if text_lt(p.0, sorted.last().0) {
        insert_pair(sorted.drop_last(), p).push(sorted.last())
    } else {
        sorted.push(p)
    }
}

/// `pairs` in ascending order of their keys.
pub open spec fn sorted_pairs(pairs: Seq<Pair>) -> Seq<Pair>
    decreases pairs.len(),
{
    if pairs.len() == 0 {
        Seq::empty()
    } else {
        insert_pair(sorted_pairs(pairs.drop_last()), pairs.last())
    }
}

/// The texts `items` with a comma between each two.
pub open spec fn joined(items: Seq<Seq<char>>) -> Seq<char>
    decreases items.len(),
{
    if items.len() == 0 {
        Seq::empty()
    } else if items.len() == 1 {
        items[0]
    } else {
        joined(items.drop_last()) + ","@ + items.last()
    }
}

/// A member as it is written: the key as a string, a colon, the value.
pub open spec fn member_text(p: Pair) -> Seq<char> {
    json_string_text(p.0) + ":"@ + p.1
}

/// The text of an object with the members `pairs`, whatever their order.
pub open spec fn object_text(pairs: Seq<Pair>) -> Seq<char> {
    "{"@ + joined(sorted_pairs(pairs).map_values(|p: Pair| member_text(p))) + "}"@
}

/// The text of an array whose elements have the texts `items`.
pub open spec fn array_text(items: Seq<Seq<char>>) -> Seq<char> {
    "["@ + joined(items) + "]"@
}

/// The canonical texts of the elements of an array, in their order.
pub open spec fn item_texts(v: Value) -> Seq<Seq<char>>
    decreases v, 0nat,
{
    match v {
        Value::Array(xs) => Seq::new(
            xs.len(),
            |i: int|
                if 0 <= i < xs.len() {
                    canonical(xs[i])
                } else {
                    Seq::empty()
                },
        ),
        _ => Seq::empty(),
    }
}

/// The keys of an object, each with the canonical text of its value, in the
/// order in which the members were written down.
pub open spec fn member_pairs(v: Value) -> Seq<Pair>
    decreases v, 0nat,
{
    match v {
        Value::Object(ms) => Seq::new(
            ms.len(),
            |i: int|
                if 0 <= i < ms.len() {
                    (ms[i].0, canonical(ms[i].1))
                } else {
                    (Seq::empty(), Seq::empty())
                },
        ),
        _ => Seq::empty(),
    }
}

/// The canonical text of `v`.
pub open spec fn canonical(v: Value) -> Seq<char>
    decreases v, 1nat,
{
    match v {
        Value::Null => "null"@,
        Value::Bool(b) => if b {
            "true"@
        } else {
            "false"@
        },
        Value::Number(n) => if n >= 0 {
            decimal_text(n as nat)
        } else {
            "-"@ + decimal_text((-n) as nat)
        },
        Value::Text(s) => json_string_text(s),
        Value::Array(xs) => array_text(item_texts(v)),
        Value::Object(ms) => object_text(member_pairs(v)),
    }
}

/// Whether no key stands twice among `ms`.
pub open spec fn distinct_keys(ms: Seq<(Seq<char>, Value)>) -> bool {
    forall|i: int, j: int| 0 <= i < j < ms.len() ==> (#[trigger] ms[i]).0 != (#[trigger] ms[j]).0
}

/// Whether no object of `v`, at any depth, has a key twice.
pub open spec fn well_formed(v: Value) -> bool
    decreases v,
{
    match v {
        Value::Array(xs) => forall|i: int| 0 <= i < xs.len() ==> well_formed(#[trigger] xs[i]),
        Value::Object(ms) => distinct_keys(ms) && forall|i: int|
            0 <= i < ms.len() ==> well_formed((#[trigger] ms[i]).1),
        _ => true,
    }
}

/// The members of a signing block as they are hashed: without the signature.
pub open spec fn unsigned_members(ms: Seq<(Seq<char>, Value)>) -> Seq<(Seq<char>, Value)>
    decreases ms.len(),
{
    if ms.len() == 0 {
        Seq::empty()
    } else if ms.last().0 == "signature"@ {
        unsigned_members(ms.drop_last())
    } else {
        unsigned_members(ms.drop_last()).push(ms.last())
    }
}

/// A signing block as it is hashed: an object loses its member `signature`,
/// anything else stays as it is.
pub open spec fn unsigned(v: Value) -> Value {
    match v {
        Value::Object(ms) => Value::Object(unsigned_members(ms)),
        _ => v,
    }
}

/// A snapshot as it is hashed: the member `signature` directly under the
/// top-level member `signing` is left out. Nothing else changes: `signing`
/// itself stays, and so does a member `signature` anywhere else.
pub open spec fn without_signature(v: Value) -> Value {
    match v {
        Value::Object(ms) => Value::Object(
            Seq::new(
                ms.len(),
                |i: int|
                    if ms[i].0 == "signing"@ {
                        (ms[i].0, unsigned(ms[i].1))
                    } else {
                        ms[i]
                    },
            ),
        ),
        _ => v,
    }
}

/// The views of pairs of texts.
pub open spec fn pair_views(pairs: Seq<(String, String)>) -> Seq<Pair> {
    Seq::new(pairs.len(), |i: int| (pairs[i].0@, pairs[i].1@))
}

/// The views of texts.
pub open spec fn text_views(texts: Seq<String>) -> Seq<Seq<char>> {
    Seq::new(texts.len(), |i: int| texts[i]@)
}

proof fn insert_pair_at(sorted: Seq<Pair>, p: Pair, pos: int)
    requires
        0 <= pos <= sorted.len(),
        forall|k: int| pos <= k < sorted.len() ==> text_lt(p.0, (#[trigger] sorted[k]).0),
        pos > 0 ==> !text_lt(p.0, sorted[pos - 1].0),
    ensures
        insert_pair(sorted, p) == sorted.insert(pos, p),
    decreases sorted.len(),
{
    if sorted.len() == 0 {
        assert(sorted.insert(pos, p) =~= seq![p]);
    } else if pos == sorted.len() {
        assert(sorted.insert(pos, p) =~= sorted.push(p));
    } else {
        assert(text_lt(p.0, sorted[sorted.len() - 1].0));
        let shorter = sorted.drop_last();
        assert forall|k: int| pos <= k < shorter.len() implies text_lt(
            p.0,
            (#[trigger] shorter[k]).0,
        ) by {
            assert(shorter[k] == sorted[k]);
        }
        insert_pair_at(shorter, p, pos);
        assert(sorted.insert(pos, p) =~= shorter.insert(pos, p).push(sorted.last()));
    }
}

/// The string literal for `text`: the text as it is between two quotes,
/// where it holds nothing to escape.
pub fn quoted(text: &str) -> (literal: String)
    ensures
        literal@ == json_string_text(text@),
        is_plain(text@) ==> literal@ == seq!['"'] + text@ + seq!['"'],
{
    match json_string(text) {
        Some(literal) => literal,
        None => String::new(),
    }
}

/// The texts `items` with a comma between each two.
fn join(items: &Vec<String>) -> (text: String)
    ensures
        text@ == joined(text_views(items@)),
{
    let mut text = String::new();
    let mut i: usize = 0;
    proof {
        assert(text_views(items@).take(0) =~= Seq::<Seq<char>>::empty());
    }
    while i < items.len()
        invariant
            i <= items@.len(),
            text@ == joined(text_views(items@).take(i as int)),
        decreases items@.len() - i,
    {
        let ghost before = text_views(items@).take(i as int);
        let ghost after = text_views(items@).take(i + 1);
        proof {
            assert(after.drop_last() =~= before);
            assert(after.last() == items@[i as int]@);
        }
        if i > 0 {
            text.append(",");
        }
        text.append(items[i].as_str());
        proof {
            if i == 0 {
                assert(text@ =~= items@[0]@);
            }
        }
        i += 1;
    }
    proof {
        assert(text_views(items@).take(i as int) =~= text_views(items@));
    }
    text
}

/// The text of an object with the members `pairs`: each key with the text
/// of its value, in ascending order of the keys.
pub fn write_object(pairs: &Vec<(String, String)>) -> (text: String)
    ensures
        text@ == object_text(pair_views(pairs@)),
{
    let ghost pv = pair_views(pairs@);
    let mut order: Vec<usize> = Vec::new();
    let mut i: usize = 0;
    proof {
        assert(pv.take(0) =~= Seq::<Pair>::empty());
        assert(Seq::new(order@.len(), |k: int| pv[order@[k] as int]) =~= Seq::<Pair>::empty());
    }
    while i < pairs.len()
        invariant
            i <= pairs@.len(),
            pv == pair_views(pairs@),
            forall|k: int| 0 <= k < order@.len() ==> (#[trigger] order@[k]) < pairs@.len(),
            Seq::new(order@.len(), |k: int| pv[order@[k] as int]) == sorted_pairs(pv.take(i as int)),
        decreases pairs@.len() - i,
    {
        let ghost sorted = Seq::new(order@.len(), |k: int| pv[order@[k] as int]);
        let mut pos: usize = order.len();
        let mut found = false;
        while pos > 0 && !found
            invariant
                i < pairs@.len(),
                pv == pair_views(pairs@),
                pos <= order@.len(),
                forall|k: int| 0 <= k < order@.len() ==> (#[trigger] order@[k]) < pairs@.len(),
                forall|k: int|
                    pos <= k < order@.len() ==> text_lt(
                        pv[i as int].0,
                        pv[(#[trigger] order@[k]) as int].0,
                    ),
                found ==> pos > 0 && !text_lt(pv[i as int].0, pv[order@[pos - 1] as int].0),
            decreases pos + if found { 0int } else { 1int },
        {
            if text_before(pairs[i].0.as_str(), pairs[order[pos - 1]].0.as_str()) {
                pos -= 1;
            } else {
                found = true;
            }
        }
        proof {
            assert forall|k: int| pos <= k < sorted.len() implies text_lt(
                pv[i as int].0,
                (#[trigger] sorted[k]).0,
            ) by {
                assert(sorted[k] == pv[order@[k] as int]);
            }
            insert_pair_at(sorted, pv[i as int], pos as int);
            assert(pv.take(i + 1).drop_last() =~= pv.take(i as int));
            assert(pv.take(i + 1).last() == pv[i as int]);
            assert(Seq::new(order@.insert(pos as int, i).len(), |k: int| pv[order@.insert(pos as int, i)[k] as int])
                =~= sorted.insert(pos as int, pv[i as int]));
        }
        order.insert(pos, i);
        i += 1;
    }
    let ghost sorted = sorted_pairs(pv);
    proof {
        assert(pv.take(i as int) =~= pv);
    }
    let mut members: Vec<String> = Vec::new();
    let mut k: usize = 0;
    while k < order.len()
        invariant
            k <= order@.len(),
            pv == pair_views(pairs@),
            sorted == Seq::new(order@.len(), |k: int| pv[order@[k] as int]),
            forall|k: int| 0 <= k < order@.len() ==> (#[trigger] order@[k]) < pairs@.len(),
            members@.len() == k,
            forall|j: int| 0 <= j < k ==> (#[trigger] members@[j])@ == member_text(sorted[j]),
        decreases order@.len() - k,
    {
        let p = &pairs[order[k]];
        let mut member = quoted(p.0.as_str());
        member.append(":");
        member.append(p.1.as_str());
        members.push(member);
        k += 1;
    }
    proof {
        assert(text_views(members@) =~= sorted.map_values(|p: Pair| member_text(p)));
    }
    let inner = join(&members);
    let mut text = String::from_str("{");
    text.append(inner.as_str());
    text.append("}");
    text
}

/// The canonical text of `v`.
pub fn canonical_value(v: &Json) -> (text: String)
    ensures
        text@ == canonical(v@),
    decreases v,
{
    match v {
        Json::Null => String::from_str("null"),
        Json::Bool(b) => if *b {
            String::from_str("true")
        } else {
            String::from_str("false")
        },
        Json::Number(n) => match json_number(*n) {
            Some(digits) => digits,
            None => String::new(),
        },
        Json::Negative(n) => {
            let digits = match json_number(*n) {
                Some(digits) => digits,
                None => String::new(),
            };
            if *n == 0 {
                digits
            } else {
                String::from_str("-").concat(digits.as_str())
            }
        },
        Json::Text(s) => quoted(s.as_str()),
        Json::Array(xs) => {
            let mut items: Vec<String> = Vec::new();
            let mut i: usize = 0;
            while i < xs.len()
                invariant
                    i <= xs@.len(),
                    *v == Json::Array(*xs),
                    decreases_to!(*v => *xs),
                    items@.len() == i,
                    forall|k: int| 0 <= k < i ==> (#[trigger] items@[k])@ == canonical(xs@[k]@),
                decreases xs@.len() - i,
            {
                proof {
                    vstd::std_specs::vec::axiom_vec_index_decreases(*xs, i as int);
                }
                items.push(canonical_value(&xs[i]));
                i += 1;
            }
            proof {
                assert(text_views(items@) =~= item_texts(v@));
            }
            let inner = join(&items);
            let mut text = String::from_str("[");
            text.append(inner.as_str());
            text.append("]");
            text
        },
        Json::Object(ms) => {
            let mut pairs: Vec<(String, String)> = Vec::new();
            let mut i: usize = 0;
            while i < ms.len()
                invariant
                    i <= ms@.len(),
                    *v == Json::Object(*ms),
                    decreases_to!(*v => *ms),
                    pairs@.len() == i,
                    forall|k: int|
                        0 <= k < i ==> (#[trigger] pairs@[k]).0@ == ms@[k].0@ && pairs@[k].1@
                            == canonical(ms@[k].1@),
                decreases ms@.len() - i,
            {
                proof {
                    vstd::std_specs::vec::axiom_vec_index_decreases(*ms, i as int);
                }
                pairs.push((ms[i].0.clone(), canonical_value(&ms[i].1)));
                i += 1;
            }
            proof {
                assert(pair_views(pairs@) =~= member_pairs(v@));
            }
            write_object(&pairs)
        },
    }
}

/// Whether no object of `v`, at any depth, has a key twice.
pub fn is_well_formed(v: &Json) -> (ok: bool)
    ensures
        ok == well_formed(v@),
    decreases v,
{
    match v {
        Json::Array(xs) => {
            let mut i: usize = 0;
            while i < xs.len()
                invariant
                    i <= xs@.len(),
                    *v == Json::Array(*xs),
                    decreases_to!(*v => *xs),
                    forall|k: int| 0 <= k < i ==> #[trigger] well_formed(xs@[k]@),
                decreases xs@.len() - i,
            {
                proof {
                    vstd::std_specs::vec::axiom_vec_index_decreases(*xs, i as int);
                }
                if !is_well_formed(&xs[i]) {
                    proof {
                        assert(v@->Array_0[i as int] == xs@[i as int]@);
                        assert(!well_formed(v@->Array_0[i as int]));
                    }
                    return false;
                }
                i += 1;
            }
            proof {
                assert forall|k: int| 0 <= k < v@->Array_0.len() implies well_formed(
                    #[trigger] v@->Array_0[k],
                ) by {
                    assert(v@->Array_0[k] == xs@[k]@);
                    assert(well_formed(xs@[k]@));
                }
                assert(v@ is Array);
                assert(well_formed(v@));
            }
            true
        },
        Json::Object(ms) => {
            let mut i: usize = 0;
            while i < ms.len()
                invariant
                    i <= ms@.len(),
                    *v == Json::Object(*ms),
                    decreases_to!(*v => *ms),
                    forall|k: int| 0 <= k < i ==> #[trigger] well_formed(ms@[k].1@),
                    forall|a: int, b: int|
                        0 <= a < b < i ==> (#[trigger] ms@[a]).0@ != (#[trigger] ms@[b]).0@,
                decreases ms@.len() - i,
            {
                proof {
                    vstd::std_specs::vec::axiom_vec_index_decreases(*ms, i as int);
                }
                if !is_well_formed(&ms[i].1) {
                    proof {
                        assert(v@->Object_0[i as int] == (ms@[i as int].0@, ms@[i as int].1@));
                        assert(!well_formed(v@->Object_0[i as int].1));
                    }
                    return false;
                }
                let mut j: usize = 0;
                while j < i
                    invariant
                        j <= i < ms@.len(),
                        *v == Json::Object(*ms),
                        forall|a: int| 0 <= a < j ==> (#[trigger] ms@[a]).0@ != ms@[i as int].0@,
                    decreases i - j,
                {
                    if same_text(&ms[j].0, &ms[i].0) {
                        proof {
                            assert(v@->Object_0[j as int] == (ms@[j as int].0@, ms@[j as int].1@));
                            assert(v@->Object_0[i as int] == (ms@[i as int].0@, ms@[i as int].1@));
                        }
                        return false;
                    }
                    j += 1;
                }
                i += 1;
            }
            proof {
                assert forall|k: int| 0 <= k < v@->Object_0.len() implies well_formed(
                    (#[trigger] v@->Object_0[k]).1,
                ) by {
                    assert(v@->Object_0[k] == (ms@[k].0@, ms@[k].1@));
                    assert(well_formed(ms@[k].1@));
                }
                assert forall|a: int, b: int| 0 <= a < b < v@->Object_0.len() implies (
                #[trigger] v@->Object_0[a]).0 != (#[trigger] v@->Object_0[b]).0 by {
                    assert(v@->Object_0[a] == (ms@[a].0@, ms@[a].1@));
                    assert(v@->Object_0[b] == (ms@[b].0@, ms@[b].1@));
                }
            }
            true
        },
        _ => true,
    }
}

/// The canonical text of a signing block as it is hashed.
fn unsigned_text(v: &Json) -> (text: String)
    ensures
        text@ == canonical(unsigned(v@)),
{
    match v {
        Json::Object(sm) => {
            let ghost smv = v@->Object_0;
            let dropped = String::from_str("signature");
            let mut pairs: Vec<(String, String)> = Vec::new();
            let mut i: usize = 0;
            proof {
                assert(smv.take(0) =~= Seq::<(Seq<char>, Value)>::empty());
            }
            while i < sm.len()
                invariant
                    i <= sm@.len(),
                    *v == Json::Object(*sm),
                    smv == v@->Object_0,
                    dropped@ == "signature"@,
                    pairs@.len() == unsigned_members(smv.take(i as int)).len(),
                    forall|k: int|
                        0 <= k < pairs@.len() ==> (#[trigger] pairs@[k]).0@ == unsigned_members(
                            smv.take(i as int),
                        )[k].0 && pairs@[k].1@ == canonical(
                            unsigned_members(smv.take(i as int))[k].1,
                        ),
                decreases sm@.len() - i,
            {
                proof {
                    assert(smv.take(i + 1).drop_last() =~= smv.take(i as int));
                    assert(smv.take(i + 1).last() == smv[i as int]);
                    assert(smv[i as int] == (sm@[i as int].0@, sm@[i as int].1@));
                }
                if !same_text(&sm[i].0, &dropped) {
                    pairs.push((sm[i].0.clone(), canonical_value(&sm[i].1)));
                }
                i += 1;
            }
            proof {
                assert(smv.take(i as int) =~= smv);
                assert(pair_views(pairs@) =~= member_pairs(Value::Object(unsigned_members(smv))));
            }
            write_object(&pairs)
        },
        _ => canonical_value(v),
    }
}

/// The canonical text of `snapshot` as it is hashed and signed: without the
/// member `signature` of its signing block, with the members of every object
/// in ascending order of their keys. A snapshot in which an object has a key
/// twice is malformed.
pub fn canonical_json(snapshot: &Json) -> (r: Result<String, SnapshotError>)
    ensures
        r.is_ok() == well_formed(snapshot@),
        r.is_ok() ==> r.unwrap()@ == canonical(without_signature(snapshot@)),
        r.is_err() ==> r == Err::<String, SnapshotError>(SnapshotError::MalformedSnapshot),
{
    if !is_well_formed(snapshot) {
        return Err(SnapshotError::MalformedSnapshot);
    }
    match snapshot {
        Json::Object(ms) => {
            let ghost wv = without_signature(snapshot@)->Object_0;
            let signing = String::from_str("signing");
            let mut pairs: Vec<(String, String)> = Vec::new();
            let mut i: usize = 0;
            while i < ms.len()
                invariant
                    i <= ms@.len(),
                    *snapshot == Json::Object(*ms),
                    wv == without_signature(snapshot@)->Object_0,
                    signing@ == "signing"@,
                    pairs@.len() == i,
                    forall|k: int|
                        0 <= k < i ==> (#[trigger] pairs@[k]).0@ == wv[k].0 && pairs@[k].1@
                            == canonical(wv[k].1),
                decreases ms@.len() - i,
            {
                proof {
                    assert(snapshot@->Object_0[i as int] == (ms@[i as int].0@, ms@[i as int].1@));
                }
                let text = if same_text(&ms[i].0, &signing) {
                    unsigned_text(&ms[i].1)
                } else {
                    canonical_value(&ms[i].1)
                };
                pairs.push((ms[i].0.clone(), text));
                i += 1;
            }
            proof {
                assert(snapshot@->Object_0.len() == ms@.len());
                assert(pair_views(pairs@) =~= member_pairs(without_signature(snapshot@)));
            }
            Ok(write_object(&pairs))
        },
        _ => Ok(canonical_value(snapshot)),
    }
}

/// The digest of the canonical text of `snapshot`, in its text form.
pub fn payload_hash(snapshot: &Json) -> (r: Result<String, SnapshotError>)
    ensures
        r.is_ok() == well_formed(snapshot@),
        r.is_ok() ==> r.unwrap()@ == hash_text(
            encode_utf8(canonical(without_signature(snapshot@))),
        ) && r.unwrap()@.len() == 74,
        r.is_err() ==> r == Err::<String, SnapshotError>(SnapshotError::MalformedSnapshot),
{
    match canonical_json(snapshot) {
        Ok(canonical) => Ok(hash(canonical.as_str().as_bytes())),
        Err(e) => Err(e),
    }
}

/// Putting two pairs with different keys into a sequence gives the same
/// sequence whichever is put in first.
pub proof fn lemma_inserts_commute(s: Seq<Pair>, x: Pair, y: Pair)
    requires
        x.0 != y.0,
    ensures
        insert_pair(insert_pair(s, x), y) == insert_pair(insert_pair(s, y), x),
    decreases s.len(),
{
    lemma_text_order_total(x.0, y.0);
    lemma_text_order_strict(x.0, y.0);
    if s.len() == 0 {
        assert(seq![x].drop_last() =~= s);
        assert(seq![y].drop_last() =~= s);
        assert(seq![x].last() == x);
        assert(seq![y].last() == y);
    } else {
        let l = s.last();
        let rest = s.drop_last();
        let sx = insert_pair(s, x);
        let sy = insert_pair(s, y);
        if text_lt(x.0, l.0) && text_lt(y.0, l.0) {
            lemma_inserts_commute(rest, x, y);
            assert(sx.drop_last() =~= insert_pair(rest, x));
            assert(sy.drop_last() =~= insert_pair(rest, y));
            assert(sx.last() == l && sy.last() == l);
        } else if text_lt(x.0, l.0) {
            lemma_text_order_total(l.0, y.0);
            if l.0 != y.0 {
                lemma_text_order_transitive(x.0, l.0, y.0);
            }
            assert(sx.last() == l);
            assert(sy.drop_last() =~= s);
            assert(sy.last() == y);
        } else if text_lt(y.0, l.0) {
            lemma_text_order_total(l.0, x.0);
            if l.0 != x.0 {
                lemma_text_order_transitive(y.0, l.0, x.0);
            }
            assert(sy.last() == l);
            assert(sx.drop_last() =~= s);
            assert(sx.last() == x);
        } else {
            assert(sx.drop_last() =~= s);
            assert(sy.drop_last() =~= s);
            assert(sx.last() == x);
            assert(sy.last() == y);
        }
    }
}

/// `pairs` with the pairs at `i` and behind it exchanged.
pub open spec fn exchanged<T>(items: Seq<T>, i: int) -> Seq<T> {
    items.update(i, items[i + 1]).update(i + 1, items[i])
}

/// Exchanging two neighbouring pairs with different keys does not change
/// the order in which the pairs are written.
pub proof fn lemma_exchange_keeps_order(pairs: Seq<Pair>, i: int)
    requires
        0 <= i < pairs.len() - 1,
        pairs[i].0 != pairs[i + 1].0,
    ensures
        sorted_pairs(exchanged(pairs, i)) == sorted_pairs(pairs),
    decreases pairs.len(),
{
    let other = exchanged(pairs, i);
    if i == pairs.len() - 2 {
        let rest = pairs.drop_last().drop_last();
        assert(other.drop_last().drop_last() =~= rest);
        assert(other.last() == pairs[i]);
        assert(other.drop_last().last() == pairs[i + 1]);
        assert(pairs.drop_last().last() == pairs[i]);
        assert(pairs.last() == pairs[i + 1]);
        lemma_inserts_commute(sorted_pairs(rest), pairs[i], pairs[i + 1]);
        assert(sorted_pairs(pairs.drop_last()) == insert_pair(sorted_pairs(rest), pairs[i]));
        assert(sorted_pairs(pairs) == insert_pair(sorted_pairs(pairs.drop_last()), pairs[i + 1]));
        assert(sorted_pairs(other.drop_last()) == insert_pair(
            sorted_pairs(other.drop_last().drop_last()),
            pairs[i + 1],
        ));
        assert(sorted_pairs(other) == insert_pair(sorted_pairs(other.drop_last()), pairs[i]));
    } else {
        assert(other.drop_last() =~= exchanged(pairs.drop_last(), i));
        assert(other.last() == pairs.last());
        lemma_exchange_keeps_order(pairs.drop_last(), i);
        assert(sorted_pairs(other) == insert_pair(sorted_pairs(other.drop_last()), other.last()));
        assert(sorted_pairs(pairs) == insert_pair(sorted_pairs(pairs.drop_last()), pairs.last()));
    }
}

/// The order of keys is irrelevant: exchanging two neighbouring members of
/// an object, whose keys differ, does not change its canonical text. Every
/// reordering of members with different keys is a chain of such exchanges.
pub proof fn lemma_key_order_is_irrelevant(members: Seq<(Seq<char>, Value)>, i: int)
    requires
        0 <= i < members.len() - 1,
        members[i].0 != members[i + 1].0,
    ensures
        canonical(Value::Object(exchanged(members, i))) == canonical(Value::Object(members)),
{
    let a = member_pairs(Value::Object(members));
    let b = member_pairs(Value::Object(exchanged(members, i)));
    assert(b =~= exchanged(a, i));
    lemma_exchange_keeps_order(a, i);
}

/// A signature put anywhere among the members of a signing block is left
/// out again.
pub proof fn lemma_signature_is_dropped(members: Seq<(Seq<char>, Value)>, i: int, signature: Value)
    requires
        0 <= i <= members.len(),
    ensures
        unsigned_members(members.insert(i, ("signature"@, signature))) == unsigned_members(members),
    decreases members.len(),
{
    let with = members.insert(i, ("signature"@, signature));
    if i == members.len() {
        assert(with.drop_last() =~= members);
        assert(with.last() == ("signature"@, signature));
    } else {
        assert(with.drop_last() =~= members.drop_last().insert(i, ("signature"@, signature)));
        assert(with.last() == members.last());
        lemma_signature_is_dropped(members.drop_last(), i, signature);
    }
}

/// The signature is not part of what is hashed: a snapshot whose signing
/// block is given a signature, anywhere among its members and whatever it
/// is, has the same canonical text as without it.
pub proof fn lemma_signature_is_not_hashed(
    members: Seq<(Seq<char>, Value)>,
    k: int,
    block: Seq<(Seq<char>, Value)>,
    i: int,
    signature: Value,
)
    requires
        0 <= k < members.len(),
        members[k] == ("signing"@, Value::Object(block)),
        0 <= i <= block.len(),
    ensures
        canonical(
            without_signature(
                Value::Object(
                    members.update(
                        k,
                        ("signing"@, Value::Object(block.insert(i, ("signature"@, signature)))),
                    ),
                ),
            ),
        ) == canonical(without_signature(Value::Object(members))),
{
    lemma_signature_is_dropped(block, i, signature);
    let signed = members.update(
        k,
        ("signing"@, Value::Object(block.insert(i, ("signature"@, signature)))),
    );
    assert(without_signature(Value::Object(signed))->Object_0 =~= without_signature(
        Value::Object(members),
    )->Object_0);
}

/// The order of keys is irrelevant to what is hashed: exchanging two
/// neighbouring members of a snapshot, whose keys differ, does not change
/// the text that `canonical_json` gives.
pub proof fn lemma_snapshot_key_order_is_irrelevant(members: Seq<(Seq<char>, Value)>, i: int)
    requires
        0 <= i < members.len() - 1,
        members[i].0 != members[i + 1].0,
    ensures
        canonical(without_signature(Value::Object(exchanged(members, i)))) == canonical(
            without_signature(Value::Object(members)),
        ),
{
    let hashed = without_signature(Value::Object(members))->Object_0;
    assert(without_signature(Value::Object(exchanged(members, i)))->Object_0 =~= exchanged(
        hashed,
        i,
    ));
    lemma_key_order_is_irrelevant(hashed, i);
}

/// The text of an object depends on its members' values only through their
/// texts: a member whose value is replaced by one with the same canonical
/// text leaves the text of the object as it was. So the order of keys is
/// irrelevant at every depth.
pub proof fn lemma_same_text_in_object(
    members: Seq<(Seq<char>, Value)>,
    k: int,
    first: Value,
    second: Value,
)
    requires
        0 <= k < members.len(),
        canonical(first) == canonical(second),
    ensures
        canonical(Value::Object(members.update(k, (members[k].0, first)))) == canonical(
            Value::Object(members.update(k, (members[k].0, second))),
        ),
{
    assert(member_pairs(Value::Object(members.update(k, (members[k].0, first)))) =~= member_pairs(
        Value::Object(members.update(k, (members[k].0, second))),
    ));
}

/// The text of an array depends on its elements only through their texts.
pub proof fn lemma_same_text_in_array(items: Seq<Value>, k: int, first: Value, second: Value)
    requires
        0 <= k < items.len(),
        canonical(first) == canonical(second),
    ensures
        canonical(Value::Array(items.update(k, first))) == canonical(
            Value::Array(items.update(k, second)),
        ),
{
    assert(item_texts(Value::Array(items.update(k, first))) =~= item_texts(
        Value::Array(items.update(k, second)),
    ));
}

/// The place at which `p` is put into `sorted`.
pub open spec fn place_of(sorted: Seq<Pair>, p: Pair) -> int
    decreases sorted.len(),
{
    if sorted.len() == 0 {
        0
    } else if text_lt(p.0, sorted.last().0) {
        place_of(sorted.drop_last(), p)
    } else {
        sorted.len() as int
    }
}

/// Whether the keys of `pairs` differ from each other.
pub open spec fn distinct_pair_keys(pairs: Seq<Pair>) -> bool {
    forall|i: int, j: int|
        0 <= i < j < pairs.len() ==> (#[trigger] pairs[i]).0 != (#[trigger] pairs[j]).0
}

/// Whether the keys of `pairs` ascend strictly.
pub open spec fn ascending_keys(pairs: Seq<Pair>) -> bool {
    forall|i: int, j: int|
        0 <= i < j < pairs.len() ==> text_lt((#[trigger] pairs[i]).0, (#[trigger] pairs[j]).0)
}

/// The order of pairs: by key, then by text.
pub open spec fn pair_leq(x: Pair, y: Pair) -> bool {
    text_lt(x.0, y.0) || (x.0 == y.0 && (text_lt(x.1, y.1) || x.1 == y.1))
}

proof fn insert_pair_is_insert(sorted: Seq<Pair>, p: Pair)
    ensures
        0 <= place_of(sorted, p) <= sorted.len(),
        insert_pair(sorted, p) == sorted.insert(place_of(sorted, p), p),
    decreases sorted.len(),
{
    if sorted.len() == 0 {
        assert(sorted.insert(0, p) =~= seq![p]);
    } else if text_lt(p.0, sorted.last().0) {
        insert_pair_is_insert(sorted.drop_last(), p);
        let at = place_of(sorted.drop_last(), p);
        assert(sorted.insert(at, p) =~= sorted.drop_last().insert(at, p).push(sorted.last()));
    } else {
        assert(sorted.insert(sorted.len() as int, p) =~= sorted.push(p));
    }
}

proof fn place_splits(sorted: Seq<Pair>, p: Pair)
    requires
        ascending_keys(sorted),
        forall|k: int| 0 <= k < sorted.len() ==> (#[trigger] sorted[k]).0 != p.0,
    ensures
        forall|k: int|
            0 <= k < sorted.len() ==> if k < place_of(sorted, p) {
                text_lt((#[trigger] sorted[k]).0, p.0)
            } else {
                text_lt(p.0, sorted[k].0)
            },
    decreases sorted.len(),
{
    if sorted.len() > 0 {
        let shorter = sorted.drop_last();
        let last = sorted.last();
        assert(last == sorted[sorted.len() - 1]);
        assert forall|k: int| 0 <= k < shorter.len() implies #[trigger] shorter[k] == sorted[k] by {}
        if text_lt(p.0, last.0) {
            assert(ascending_keys(shorter)) by {
                assert forall|i: int, j: int| 0 <= i < j < shorter.len() implies text_lt(
                    (#[trigger] shorter[i]).0,
                    (#[trigger] shorter[j]).0,
                ) by {
                    assert(shorter[i] == sorted[i] && shorter[j] == sorted[j]);
                }
            }
            assert forall|k: int| 0 <= k < shorter.len() implies (#[trigger] shorter[k]).0
                != p.0 by {
                assert(shorter[k] == sorted[k]);
            }
            place_splits(shorter, p);
            insert_pair_is_insert(shorter, p);
            assert(place_of(sorted, p) == place_of(shorter, p));
            assert forall|k: int| 0 <= k < sorted.len() implies if k < place_of(sorted, p) {
                text_lt((#[trigger] sorted[k]).0, p.0)
            } else {
                text_lt(p.0, sorted[k].0)
            } by {
                if k < shorter.len() {
                    assert(shorter[k] == sorted[k]);
                }
            }
        } else {
            lemma_text_order_total(p.0, last.0);
            assert forall|k: int| 0 <= k < sorted.len() implies text_lt(
                (#[trigger] sorted[k]).0,
                p.0,
            ) by {
                if k < sorted.len() - 1 {
                    assert(text_lt(sorted[k].0, sorted[sorted.len() - 1].0));
                    lemma_text_order_transitive(sorted[k].0, last.0, p.0);
                }
            }
        }
    }
}

proof fn sorted_pairs_facts(pairs: Seq<Pair>)
    requires
        distinct_pair_keys(pairs),
    ensures
        sorted_pairs(pairs).to_multiset() == pairs.to_multiset(),
        sorted_pairs(pairs).len() == pairs.len(),
        ascending_keys(sorted_pairs(pairs)),
    decreases pairs.len(),
{
    if pairs.len() == 0 {
        assert(sorted_pairs(pairs) =~= pairs);
    } else {
        let shorter = pairs.drop_last();
        let x = pairs.last();
        assert(x == pairs[pairs.len() - 1]);
        assert(distinct_pair_keys(shorter)) by {
            assert forall|i: int, j: int| 0 <= i < j < shorter.len() implies (
            #[trigger] shorter[i]).0 != (#[trigger] shorter[j]).0 by {
                assert(shorter[i] == pairs[i] && shorter[j] == pairs[j]);
            }
        }
        sorted_pairs_facts(shorter);
        let before = sorted_pairs(shorter);
        insert_pair_is_insert(before, x);
        let at = place_of(before, x);
        let after = before.insert(at, x);
        assert(sorted_pairs(pairs) == after);
        to_multiset_insert(before, at, x);
        to_multiset_build(shorter, x);
        assert(pairs =~= shorter.push(x));
        assert(after.to_multiset() =~= before.to_multiset().insert(x));
        assert(pairs.to_multiset() =~= shorter.to_multiset().insert(x));
        assert(after.to_multiset() =~= pairs.to_multiset());
        assert forall|k: int| 0 <= k < before.len() implies (#[trigger] before[k]).0 != x.0 by {
            to_multiset_contains(before, before[k]);
            to_multiset_contains(shorter, before[k]);
            assert(before.contains(before[k]));
            assert(shorter.contains(before[k]));
            let m = choose|m: int| 0 <= m < shorter.len() && shorter[m] == before[k];
            assert(shorter[m] == pairs[m]);
            assert(pairs[m].0 != pairs[pairs.len() - 1].0);
        }
        place_splits(before, x);
        assert forall|i: int, j: int| 0 <= i < j < after.len() implies text_lt(
            (#[trigger] after[i]).0,
            (#[trigger] after[j]).0,
        ) by {
            if j < at {
                assert(after[i] == before[i] && after[j] == before[j]);
            } else if j == at {
                assert(after[i] == before[i]);
            } else if i < at {
                assert(after[i] == before[i] && after[j] == before[j - 1]);
            } else if i == at {
                assert(after[j] == before[j - 1]);
            } else {
                assert(after[i] == before[i - 1] && after[j] == before[j - 1]);
            }
        }
    }
}

proof fn pair_order_is_total(leq: spec_fn(Pair, Pair) -> bool)
    requires
        forall|x: Pair, y: Pair| #[trigger] leq(x, y) == pair_leq(x, y),
    ensures
        total_ordering(leq),
{
    assert forall|x: Pair, y: Pair| #[trigger] leq(x, y) && #[trigger] leq(y, x) implies x == y by {
        lemma_text_order_strict(x.0, y.0);
        lemma_text_order_strict(x.1, y.1);
    }
    assert forall|x: Pair, y: Pair| #[trigger] leq(x, y) || #[trigger] leq(y, x) by {
        lemma_text_order_total(x.0, y.0);
        lemma_text_order_total(x.1, y.1);
    }
    assert forall|x: Pair, y: Pair, z: Pair| #[trigger] leq(x, y) && #[trigger] leq(y, z) implies leq(
        x,
        z,
    ) by {
        if text_lt(x.0, y.0) && text_lt(y.0, z.0) {
            lemma_text_order_transitive(x.0, y.0, z.0);
        }
        if x.0 == y.0 && y.0 == z.0 && text_lt(x.1, y.1) && text_lt(y.1, z.1) {
            lemma_text_order_transitive(x.1, y.1, z.1);
        }
    }
}

/// The order of members is irrelevant: two lists of members that hold the
/// same keys with the same texts, each key once, in whatever order, are
/// written in the same order, strictly ascending in their keys, and give
/// the same text.
pub proof fn lemma_member_order_is_irrelevant(first: Seq<Pair>, second: Seq<Pair>)
    requires
        first.to_multiset() == second.to_multiset(),
        distinct_pair_keys(first),
        distinct_pair_keys(second),
    ensures
        ascending_keys(sorted_pairs(first)),
        sorted_pairs(first) == sorted_pairs(second),
        object_text(first) == object_text(second),
{
    sorted_pairs_facts(first);
    sorted_pairs_facts(second);
    let leq = |x: Pair, y: Pair| pair_leq(x, y);
    pair_order_is_total(leq);
    let a = sorted_pairs(first);
    let b = sorted_pairs(second);
    assert(sorted_by(a, leq)) by {
        assert forall|i: int, j: int| 0 <= i < j < a.len() implies #[trigger] leq(a[i], a[j]) by {
            assert(text_lt(a[i].0, a[j].0));
        }
    }
    assert(sorted_by(b, leq)) by {
        assert forall|i: int, j: int| 0 <= i < j < b.len() implies #[trigger] leq(b[i], b[j]) by {
            assert(text_lt(b[i].0, b[j].0));
        }
    }
    lemma_sorted_unique(a, b, leq);
}

/// The order of keys is irrelevant at every depth: two objects whose
/// members hold the same keys, each once, with values of the same canonical
/// text, in whatever order, have the same canonical text.
pub proof fn lemma_same_members_same_text(first: Value, second: Value)
    requires
        first is Object,
        second is Object,
        distinct_keys(first->Object_0),
        distinct_keys(second->Object_0),
        member_pairs(first).to_multiset() == member_pairs(second).to_multiset(),
    ensures
        canonical(first) == canonical(second),
{
    let a = member_pairs(first);
    let b = member_pairs(second);
    assert(distinct_pair_keys(a)) by {
        assert forall|i: int, j: int| 0 <= i < j < a.len() implies (#[trigger] a[i]).0 != (
        #[trigger] a[j]).0 by {
            assert(first->Object_0[i].0 != first->Object_0[j].0);
        }
    }
    assert(distinct_pair_keys(b)) by {
        assert forall|i: int, j: int| 0 <= i < j < b.len() implies (#[trigger] b[i]).0 != (
        #[trigger] b[j]).0 by {
            assert(second->Object_0[i].0 != second->Object_0[j].0);
        }
    }
    lemma_member_order_is_irrelevant(a, b);
}

} // verus!
