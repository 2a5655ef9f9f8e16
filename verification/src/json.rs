//! JSON values.
use vstd::prelude::*;
use vstd::utf8::encode_utf8;

use crate::bytes::copy_bytes;

use serde::Deserialize;

verus! {

/// A JSON value. Of a number that is no integer of 64 bits there is only the
/// text.
#[derive(Debug)]
pub enum Json {
    Null,
    Bool(bool),
    Number(u64),
    Negative(i64),
    OtherNumber(String),
    Text(String),
    List(Vec<Json>),
    Object(Vec<(String, Json)>),
}

pub enum JsonView {
    Null,
    Bool(bool),
    Number(u64),
    Negative(i64),
    OtherNumber(Seq<char>),
    Text(Seq<char>),
    List(Seq<JsonView>),
    Object(Seq<(Seq<char>, JsonView)>),
}

impl View for Json {
    type V = JsonView;

    open spec fn view(&self) -> JsonView {
        json_view(*self)
    }
}

pub open spec fn json_view(j: Json) -> JsonView
    decreases j,
{
    match j {
        Json::Null => JsonView::Null,
        Json::Bool(b) => JsonView::Bool(b),
        Json::Number(n) => JsonView::Number(n),
        Json::Negative(i) => JsonView::Negative(i),
        Json::OtherNumber(s) => JsonView::OtherNumber(s@),
        Json::Text(s) => JsonView::Text(s@),
        Json::List(items) => JsonView::List(
            Seq::new(
                items@.len(),
                |i: int|
                    if 0 <= i < items@.len() {
                        json_view(items@[i])
                    } else {
                        JsonView::Null
                    },
            ),
        ),
        Json::Object(fields) => JsonView::Object(
            Seq::new(
                fields@.len(),
                |i: int|
                    if 0 <= i < fields@.len() {
                        (fields@[i].0@, json_view(fields@[i].1))
                    } else {
                        (Seq::empty(), JsonView::Null)
                    },
            ),
        ),
    }
}

/// Why a text is not one JSON value.
#[derive(Debug)]
pub enum JsonFault {
    Malformed(String),
    Trailing(String),
}

pub enum JsonFaultView {
    Malformed(Seq<char>),
    Trailing(Seq<char>),
}

impl View for JsonFault {
    type V = JsonFaultView;

    open spec fn view(&self) -> JsonFaultView {
        match self {
            JsonFault::Malformed(m) => JsonFaultView::Malformed(m@),
            JsonFault::Trailing(m) => JsonFaultView::Trailing(m@),
        }
    }
}

/// What is wrong with a text that is no JSON.
pub open spec fn fault_text(f: JsonFaultView) -> Seq<char> {
    match f {
        JsonFaultView::Malformed(m) => m,
        JsonFaultView::Trailing(m) => m,
    }
}

/// What is wrong with a text that is no JSON.
pub fn fault_message(f: JsonFault) -> (r: String)
    ensures
        r@ == fault_text(f@),
{
    match f {
        JsonFault::Malformed(m) => m,
        JsonFault::Trailing(m) => m,
    }
}

/// A JSON value of `serde_json`.
#[verifier::external_type_specification]
#[verifier::external_body]
pub struct ExJsonValue(serde_json::Value);

/// What a value of `serde_json` holds.
pub uninterp spec fn value_content(v: serde_json::Value) -> JsonView;

/// What the parser of `serde_json` makes of a text.
pub uninterp spec fn json_of(text: Seq<u8>) -> Result<JsonView, JsonFaultView>;

/// Whether `text` is one JSON value, `v`.
pub open spec fn reads_as(text: Seq<u8>, v: JsonView) -> bool {
    json_of(text) matches Ok(c) && c == v
}

/// `serde_json::Deserializer`: reads one value, of which the last of several
/// fields with one name counts, and then asks for the end of the text.
#[verifier::external_body]
fn parse_value(text: &[u8]) -> (r: Result<serde_json::Value, JsonFault>)
    ensures
        match r {
            Ok(v) => reads_as(text@, value_content(v)),
            Err(e) => json_of(text@) matches Err(f) && f == e@,
        },
{
    let mut de = serde_json::Deserializer::from_slice(text);
    let value = serde_json::Value::deserialize(&mut de)
        .map_err(|e| JsonFault::Malformed(e.to_string()))?;
    de.end().map_err(|e| JsonFault::Trailing(e.to_string()))?;
    Ok(value)
}

/// The variants of `serde_json::Value`, one for one; a number is read with
/// `serde_json::Number::as_u64`, `as_i64` or, if it is neither, `to_string`.
#[verifier::external_body]
fn value_tree(v: serde_json::Value) -> (r: Json)
    ensures
        r@ == value_content(v),
{
    match v {
        serde_json::Value::Null => Json::Null,
        serde_json::Value::Bool(b) => Json::Bool(b),
        serde_json::Value::Number(n) => match (n.as_u64(), n.as_i64()) {
            (Some(u), _) => Json::Number(u),
            (None, Some(i)) => Json::Negative(i),
            (None, None) => Json::OtherNumber(n.to_string()),
        },
        serde_json::Value::String(s) => Json::Text(s),
        serde_json::Value::Array(a) => Json::List(a.into_iter().map(value_tree).collect()),
        serde_json::Value::Object(m) => {
            Json::Object(m.into_iter().map(|(k, v)| (k, value_tree(v))).collect())
        },
    }
}

/// Reads one JSON value.
pub fn parse(text: &[u8]) -> (r: Result<Json, JsonFault>)
    ensures
        match r {
            Ok(j) => reads_as(text@, j@),
            Err(e) => json_of(text@) matches Err(f) && f == e@,
        },
{
    match parse_value(text) {
        Ok(v) => Ok(value_tree(v)),
        Err(e) => Err(e),
    }
}

/// The first field of the given name.
pub open spec fn field(fields: Seq<(Seq<char>, JsonView)>, name: Seq<char>) -> Option<JsonView>
    decreases fields.len(),
{
    if fields.len() == 0 {
        None
    } else if fields[0].0 == name {
        Some(fields[0].1)
    } else {
        field(fields.drop_first(), name)
    }
}

/// The fields of an object, by view.
pub open spec fn fields_view(fields: Seq<(String, Json)>) -> Seq<(Seq<char>, JsonView)> {
    Seq::new(fields.len(), |i: int| (fields[i].0@, fields[i].1@))
}

pub proof fn lemma_object_view(fields: Vec<(String, Json)>)
    ensures
        Json::Object(fields)@ == JsonView::Object(fields_view(fields@)),
{
    match Json::Object(fields)@ {
        JsonView::Object(v) => {
            assert(v =~= fields_view(fields@));
        },
        _ => {},
    }
}

pub proof fn lemma_list_view(items: Vec<Json>)
    ensures
        Json::List(items)@ == JsonView::List(items@.map_values(|j: Json| j@)),
{
    match Json::List(items)@ {
        JsonView::List(v) => {
            assert(v =~= items@.map_values(|j: Json| j@));
        },
        _ => {},
    }
}

/// The first field of the given name.
pub fn get_field<'a>(fields: &'a Vec<(String, Json)>, name: &str) -> (r: Option<&'a Json>)
    ensures
        match r {
            Some(j) => field(fields_view(fields@), name@) == Some(j@),
            None => field(fields_view(fields@), name@) is None,
        },
{
    let ghost all = fields_view(fields@);
    let mut i: usize = 0;
    assert(all.skip(0) =~= all);
    while i < fields.len()
        invariant
            i <= fields@.len(),
            all == fields_view(fields@),
            field(all, name@) == field(all.skip(i as int), name@),
        decreases fields@.len() - i,
    {
        if crate::text::same_text(&fields[i].0, name) {
            return Some(&fields[i].1);
        }
        assert(all.skip(i as int).drop_first() =~= all.skip(i + 1));
        i = i + 1;
    }
    None
}

// ----------------------------------------------------------------- pieces
/// How many bytes of a text its first JSON value takes, with what is blank in
/// front of it, if it begins with one.
pub uninterp spec fn extent_of(text: Seq<u8>) -> Option<nat>;

/// `serde_json::Deserializer`, reading a value of which nothing is kept
/// (`serde::de::IgnoredAny`), and the offset that it has come to: a value takes
/// at least one byte of the text.
#[verifier::external_body]
fn extent(text: &[u8]) -> (r: Option<usize>)
    ensures
        match r {
            Some(n) => extent_of(text@) == Some(n as nat) && 0 < n <= text@.len(),
            None => extent_of(text@) is None,
        },
{
    let mut de = serde_json::Deserializer::from_slice(text);
    serde::de::IgnoredAny::deserialize(&mut de).ok()?;
    Some(de.into_iter::<serde::de::IgnoredAny>().byte_offset())
}

/// What JSON passes over between its parts.
pub open spec fn is_blank(b: u8) -> bool {
    b == 0x20 || b == 0x0a || b == 0x09 || b == 0x0d
}

/// The first place from `i` on that is not blank.
pub open spec fn after_blank(t: Seq<u8>, i: nat) -> nat
    decreases t.len() - i,
{
    if i < t.len() && is_blank(t[i as int]) {
        after_blank(t, i + 1)
    } else {
        i
    }
}

/// Where the value ends that begins at `i`.
pub open spec fn value_end(t: Seq<u8>, i: nat) -> Option<nat> {
    if i > t.len() {
        None
    } else {
        match extent_of(t.skip(i as int)) {
            Some(n) => if 0 < n && i + n <= t.len() {
                Some(i + n)
            } else {
                None
            },
            None => None,
        }
    }
}

/// The name in front of the value of a member at `i`, and where that value
/// begins. A value of a list has no name.
pub open spec fn value_start(t: Seq<u8>, i: nat, named: bool) -> Option<(Seq<char>, nat)> {
    if !named {
        Some((Seq::empty(), i))
    } else if i >= t.len() || t[i as int] != 0x22 {
        None
    } else {
        match value_end(t, i) {
            None => None,
            Some(e) => match json_of(t.subrange(i as int, e as int)) {
                Ok(JsonView::Text(name)) => {
                    let c = after_blank(t, e);
                    if c < t.len() && t[c as int] == 0x3a {
                        Some((name, c + 1))
                    } else {
                        None
                    }
                },
                _ => None,
            },
        }
    }
}

/// The values of an object or a list from `i` on, each with its name and as
/// the bytes that it is written with, if the text ends behind them. `first`
/// says whether none was read before.
pub open spec fn members(t: Seq<u8>, i: nat, named: bool, first: bool) -> Option<
    Seq<(Seq<char>, Seq<u8>)>,
>
    decreases t.len() - i,
{
    let j = after_blank(t, i);
    let k = if first {
        j
    } else {
        after_blank(t, j + 1)
    };
    if j >= t.len() {
        None
    } else if t[j as int] == closing(named) {
        if after_blank(t, j + 1) == t.len() {
            Some(Seq::empty())
        } else {
            None
        }
    } else if !first && t[j as int] != 0x2c {
        None
    } else {
        match value_start(t, k, named) {
            None => None,
            Some((name, s)) => match value_end(t, s) {
                None => None,
                Some(e) => if e <= i {
                    None
                } else {
                    match members(t, e, named, false) {
                        None => None,
                        Some(rest) => Some(
                            seq![(name, t.subrange(s as int, e as int))] + rest,
                        ),
                    }
                },
            },
        }
    }
}

/// The byte that ends an object or a list.
pub open spec fn closing(named: bool) -> u8 {
    if named {
        0x7d
    } else {
        0x5d
    }
}

/// The members of a text that is an object, or the values of one that is a
/// list, in order. A name may occur more than once.
pub open spec fn pieces(t: Seq<u8>, named: bool) -> Option<Seq<(Seq<char>, Seq<u8>)>> {
    let i = after_blank(t, 0);
    if i < t.len() && t[i as int] == opening(named) {
        members(t, i + 1, named, true)
    } else {
        None
    }
}

/// The byte that begins an object or a list.
pub open spec fn opening(named: bool) -> u8 {
    if named {
        0x7b
    } else {
        0x5b
    }
}

/// Pieces of a text, by view.
pub open spec fn pieces_view(s: Seq<(String, Vec<u8>)>) -> Seq<(Seq<char>, Seq<u8>)> {
    s.map_values(|p: (String, Vec<u8>)| (p.0@, p.1@))
}

/// Whether the pieces of `t` are an object of the given fields.
pub open spec fn written_as(t: Seq<u8>, fields: Seq<(Seq<char>, JsonView)>) -> bool {
    &&& pieces(t, true) matches Some(p)
    &&& p.len() == fields.len()
    &&& forall|i: int|
        0 <= i < p.len() ==> (#[trigger] p[i]).0 == fields[i].0 && json_of(p[i].1) == Ok::<
            JsonView,
            JsonFaultView,
        >(fields[i].1)
}

fn skip_blank(t: &[u8], from: usize) -> (r: usize)
    requires
        from <= t@.len(),
    ensures
        r == after_blank(t@, from as nat),
        from <= r <= t@.len(),
{
    let mut i: usize = from;
    while i < t.len() && (t[i] == 0x20 || t[i] == 0x0a || t[i] == 0x09 || t[i] == 0x0d)
        invariant
            from <= i <= t@.len(),
            after_blank(t@, from as nat) == after_blank(t@, i as nat),
        decreases t@.len() - i,
    {
        i = i + 1;
    }
    i
}

fn find_end(t: &[u8], from: usize) -> (r: Option<usize>)
    requires
        from <= t@.len(),
    ensures
        match r {
            Some(e) => value_end(t@, from as nat) == Some(e as nat) && from < e <= t@.len(),
            None => value_end(t@, from as nat) is None,
        },
{
    let rest: &[u8] = vstd::slice::slice_subrange(t, from, t.len());
    assert(rest@ =~= t@.skip(from as int));
    match extent(rest) {
        Some(n) => Some(from + n),
        None => None,
    }
}

fn part(t: &[u8], from: usize, to: usize) -> (r: Vec<u8>)
    requires
        from <= to <= t@.len(),
    ensures
        r@ == t@.subrange(from as int, to as int),
{
    copy_bytes(vstd::slice::slice_subrange(t, from, to))
}

fn find_start(t: &[u8], i: usize, named: bool) -> (r: Option<(String, usize)>)
    requires
        i <= t@.len(),
    ensures
        match r {
            Some(p) => value_start(t@, i as nat, named) == Some((p.0@, p.1 as nat)) && i <= p.1
                <= t@.len(),
            None => value_start(t@, i as nat, named) is None,
        },
{
    if !named {
        let none: String = "".to_owned();
        proof {
            reveal_strlit("");
            assert(none@ =~= Seq::<char>::empty());
        }
        return Some((none, i));
    }
    if i >= t.len() || t[i] != 0x22 {
        return None;
    }
    let e: usize = match find_end(t, i) {
        None => {
            return None;
        },
        Some(e) => e,
    };
    let name: String = match parse(&part(t, i, e)) {
        Ok(Json::Text(s)) => s,
        _ => {
            return None;
        },
    };
    let c: usize = skip_blank(t, e);
    if c < t.len() && t[c] == 0x3a {
        Some((name, c + 1))
    } else {
        None
    }
}

/// Reads the members of an object, or the values of a list.
pub fn read_pieces(t: &[u8], named: bool) -> (r: Option<Vec<(String, Vec<u8>)>>)
    ensures
        match r {
            Some(v) => pieces(t@, named) == Some(pieces_view(v@)),
            None => pieces(t@, named) is None,
        },
{
    let open: u8 = if named {
        0x7b
    } else {
        0x5b
    };
    let close: u8 = if named {
        0x7d
    } else {
        0x5d
    };
    let at: usize = skip_blank(t, 0);
    if at >= t.len() || t[at] != open {
        return None;
    }
    let ghost begin = (at + 1) as nat;
    let mut out: Vec<(String, Vec<u8>)> = Vec::new();
    let mut i: usize = at + 1;
    let mut first: bool = true;
    proof {
        match members(t@, begin, named, true) {
            Some(all) => {
                assert(pieces_view(out@) + all =~= all);
            },
            None => {},
        }
    }
    loop
        invariant
            i <= t@.len(),
            close == closing(named),
            pieces(t@, named) == members(t@, begin, named, true),
            members(t@, begin, named, true) == match members(t@, i as nat, named, first) {
                Some(rest) => Some(pieces_view(out@) + rest),
                None => None,
            },
        decreases t@.len() - i,
    {
        let j: usize = skip_blank(t, i);
        if j >= t.len() {
            return None;
        }
        if t[j] == close {
            if skip_blank(t, j + 1) == t.len() {
                assert(pieces_view(out@) + Seq::<(Seq<char>, Seq<u8>)>::empty() =~= pieces_view(
                    out@,
                ));
                return Some(out);
            }
            return None;
        }
        if !first && t[j] != 0x2c {
            return None;
        }
        let k: usize = if first {
            j
        } else {
            skip_blank(t, j + 1)
        };
        let (name, s) = match find_start(t, k, named) {
            None => {
                return None;
            },
            Some(p) => p,
        };
        let e: usize = match find_end(t, s) {
            None => {
                return None;
            },
            Some(e) => e,
        };
        let ghost before = pieces_view(out@);
        let ghost piece = (name@, t@.subrange(s as int, e as int));
        out.push((name, part(t, s, e)));
        proof {
            assert(pieces_view(out@) =~= before.push(piece));
            match members(t@, e as nat, named, false) {
                Some(rest) => {
                    assert(before + (seq![piece] + rest) =~= pieces_view(out@) + rest);
                },
                None => {},
            }
        }
        i = e;
        first = false;
    }
}

/// A text, a number or a truth value to be written.
#[derive(Debug)]
pub enum Scalar {
    Text(String),
    Number(u64),
    Bool(bool),
}

impl View for Scalar {
    type V = JsonView;

    open spec fn view(&self) -> JsonView {
        match self {
            Scalar::Text(s) => JsonView::Text(s@),
            Scalar::Number(n) => JsonView::Number(*n),
            Scalar::Bool(b) => JsonView::Bool(*b),
        }
    }
}

/// The fields to be written, by view.
pub open spec fn scalars_view(fields: Seq<(String, Scalar)>) -> Seq<(Seq<char>, JsonView)> {
    Seq::new(fields.len(), |i: int| (fields[i].0@, fields[i].1@))
}

/// Whether no two fields have one name.
pub open spec fn distinct_names(fields: Seq<(Seq<char>, JsonView)>) -> bool {
    forall|i: int, j: int|
        0 <= i < j < fields.len() ==> (#[trigger] fields[i]).0 != (#[trigger] fields[j]).0
}

/// The text that `serde_json` writes for an object of the given fields.
pub uninterp spec fn object_string(fields: Seq<(Seq<char>, JsonView)>) -> Seq<char>;

/// `serde_json::to_string` of a `serde_json::Map`, which keeps its fields in
/// the order in which they were put in: one object, whose UTF-8 reads back as
/// the fields that it was written from, and has them as its members in order.
#[verifier::external_body]
pub(crate) fn object_json(fields: Vec<(String, Scalar)>) -> (r: String)
    requires
        distinct_names(scalars_view(fields@)),
    ensures
        r@ == object_string(scalars_view(fields@)),
        reads_as(encode_utf8(r@), JsonView::Object(scalars_view(fields@))),
        written_as(encode_utf8(r@), scalars_view(fields@)),
{
    let mut map = serde_json::Map::new();
    for (name, value) in fields {
        let value = match value {
            Scalar::Text(s) => serde_json::Value::from(s),
            Scalar::Number(n) => serde_json::Value::from(n),
            Scalar::Bool(b) => serde_json::Value::from(b),
        };
        map.insert(name, value);
    }
    serde_json::to_string(&map).expect("an object of scalars can be written")
}

/// The bytes of the text of an object.
pub open spec fn object_text(fields: Seq<(Seq<char>, JsonView)>) -> Seq<u8> {
    encode_utf8(object_string(fields))
}

/// The bytes of the text of an object, which read back as its fields.
pub(crate) fn write_object(fields: Vec<(String, Scalar)>) -> (r: Vec<u8>)
    requires
        distinct_names(scalars_view(fields@)),
    ensures
        r@ == object_text(scalars_view(fields@)),
        reads_as(r@, JsonView::Object(scalars_view(fields@))),
        written_as(r@, scalars_view(fields@)),
{
    let text: String = object_json(fields);
    copy_bytes(text.as_str().as_bytes())
}

/// A field of an object is the first of its name, and there is none where no
/// field has the name.
pub proof fn law_field_is_the_first_of_its_name(
    fields: Seq<(Seq<char>, JsonView)>,
    name: Seq<char>,
)
    ensures
        field(fields, name) is None <==> forall|i: int|
            0 <= i < fields.len() ==> (#[trigger] fields[i]).0 != name,
        field(fields, name) matches Some(v) ==> exists|i: int|
            0 <= i < fields.len() && #[trigger] fields[i] == (name, v) && forall|j: int|
                0 <= j < i ==> (#[trigger] fields[j]).0 != name,
    decreases fields.len(),
{
    if fields.len() > 0 {
        let rest = fields.drop_first();
        law_field_is_the_first_of_its_name(rest, name);
        assert(forall|i: int| 0 <= i < rest.len() ==> #[trigger] rest[i] == fields[i + 1]);
        if fields[0].0 == name {
            assert(fields[0] == (name, fields[0].1));
        } else {
            match field(rest, name) {
                Some(v) => {
                    let i = choose|i: int|
                        0 <= i < rest.len() && #[trigger] rest[i] == (name, v) && forall|j: int|
                            0 <= j < i ==> (#[trigger] rest[j]).0 != name;
                    assert(fields[i + 1] == (name, v));
                    assert forall|j: int| 0 <= j < i + 1 implies (#[trigger] fields[j]).0 != name by {
                        if j > 0 {
                            assert(rest[j - 1].0 != name);
                        }
                    }
                },
                None => {
                    assert forall|i: int| 0 <= i < fields.len() implies (#[trigger] fields[i]).0
                        != name by {
                        if i > 0 {
                            assert(rest[i - 1].0 != name);
                        }
                    }
                },
            }
        }
    }
}

/// A member and what follows it are the members from there on: none is passed
/// over, and each is the text of its value.
pub proof fn law_members_are_in_order(
    t: Seq<u8>,
    i: nat,
    named: bool,
    name: Seq<char>,
    start: nat,
    end: nat,
    rest: Seq<(Seq<char>, Seq<u8>)>,
)
    requires
        i < t.len(),
        t[i as int] == 0x2c,
        value_start(t, after_blank(t, i + 1), named) == Some((name, start)),
        value_end(t, start) == Some(end),
        end > i,
        members(t, end, named, false) == Some(rest),
    ensures
        members(t, i, named, false) matches Some(all) && all.len() == rest.len() + 1 && all[0] == (
            name,
            t.subrange(start as int, end as int),
        ) && all.skip(1) == rest,
{
    assert(after_blank(t, i) == i);
    let all = seq![(name, t.subrange(start as int, end as int))] + rest;
    assert(all.skip(1) =~= rest);
}

} // verus!
