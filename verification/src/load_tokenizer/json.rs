//! JSON documents and the reading of their fields.
//!
//! A record is an object, its fields in any order and other members ignored, or
//! an array of the fields in the order of their declaration.

use crate::text;
use crate::utf8;
use sonic_rs::JsonValueTrait;
use vstd::prelude::*;
use vstd::utf8::*;

verus! {

/// A JSON document. A number is known only where it fits 64 bits unsigned.
#[derive(Debug)]
pub enum Json {
    /// A string, or an object with a name, that escapes what is no character.
    Garbled,
    Null,
    Bool(bool),
    Number(Option<u64>),
    Str(String),
    Arr(Vec<Json>),
    Obj(Vec<(String, Json)>),
}

/// A JSON document as a mathematical value. The members of an object keep their
/// order, repeated ones included.
pub enum Doc {
    Garbled,
    Null,
    Bool(bool),
    Number(Option<u64>),
    Str(Seq<char>),
    Arr(Seq<Doc>),
    Obj(Seq<(Seq<char>, Doc)>),
}

impl Json {
    /// The document as a mathematical value.
    pub open spec fn view(&self) -> Doc
        decreases self,
    {
        match self {
            Json::Garbled => Doc::Garbled,
            Json::Null => Doc::Null,
            Json::Bool(b) => Doc::Bool(*b),
            Json::Number(n) => Doc::Number(*n),
            Json::Str(s) => Doc::Str(s@),
            Json::Arr(v) => Doc::Arr(
                Seq::new(
                    v@.len(),
                    |i: int|
                        if 0 <= i < v@.len() {
                            v@[i].view()
                        } else {
                            Doc::Null
                        },
                ),
            ),
            Json::Obj(v) => Doc::Obj(
                Seq::new(
                    v@.len(),
                    |i: int|
                        if 0 <= i < v@.len() {
                            (v@[i].0@, v@[i].1.view())
                        } else {
                            (Seq::empty(), Doc::Null)
                        },
                ),
            ),
        }
    }
}

/// What a JSON text stands for at its outermost level.
#[derive(Clone, Copy, Debug, PartialEq, Eq, Structural)]
pub enum Kind {
    Null,
    Bool(bool),
    Number(Option<u64>),
    Str,
    Arr,
    Obj,
}

/// The kind of what a text stands for, or why it stands for nothing.
pub uninterp spec fn kind_of(text: Seq<char>) -> Result<Kind, Seq<char>>;

/// The characters of a string; none where it escapes what is no character.
pub uninterp spec fn string_in(text: Seq<char>) -> Option<Seq<char>>;

/// The texts of the items of an array.
pub uninterp spec fn items_in(text: Seq<char>) -> Option<Seq<Seq<char>>>;

/// The names of the members of an object and the texts of their values; none
/// where a name escapes what is no character.
pub uninterp spec fn members_in(text: Seq<char>) -> Option<Seq<(Seq<char>, Seq<char>)>>;

/// The views of texts.
pub open spec fn text_views(texts: Seq<String>) -> Seq<Seq<char>> {
    Seq::new(texts.len(), |i: int| texts[i]@)
}

/// The views of named texts.
pub open spec fn pair_views(pairs: Seq<(String, String)>) -> Seq<(Seq<char>, Seq<char>)> {
    Seq::new(pairs.len(), |i: int| (pairs[i].0@, pairs[i].1@))
}

/// How deeply arrays and objects may be nested. Parsing calls itself once for
/// every level.
pub const MAX_NESTING: usize = 254;

/// Where a scan of a JSON text stands.
#[derive(Clone, Copy, Debug, PartialEq, Eq, Structural)]
pub enum Place {
    /// Outside strings.
    Plain,
    /// In a string.
    Quoted,
    /// In a string, after a backslash.
    Escaped,
    /// In a string, after `\u`, with so many bytes of the number to come. These
    /// are not looked at, whatever they are.
    Number(u8),
}

/// Where a scan stands after one more byte.
pub open spec fn next_place(place: Place, b: u8) -> Place {
    match place {
        Place::Plain => if b == 0x22 {
            Place::Quoted
        } else {
            Place::Plain
        },
        Place::Quoted => if b == 0x22 {
            Place::Plain
        } else if b == 0x5C {
            Place::Escaped
        } else {
            Place::Quoted
        },
        Place::Escaped => if b == 0x75 {
            Place::Number(4)
        } else {
            Place::Quoted
        },
        Place::Number(left) => if left > 1 {
            Place::Number((left - 1) as u8)
        } else {
            Place::Quoted
        },
    }
}

/// Where a scan stands after the first `n` bytes.
pub open spec fn place_after(data: Seq<u8>, n: nat) -> Place
    decreases n,
{
    if n == 0 || n > data.len() {
        Place::Plain
    } else {
        next_place(place_after(data, (n - 1) as nat), data[n - 1])
    }
}

/// How many brackets and braces are open after the first `n` bytes, those in
/// strings aside.
pub open spec fn open_after(data: Seq<u8>, n: nat) -> nat
    decreases n,
{
    if n == 0 || n > data.len() {
        0
    } else {
        let before = open_after(data, (n - 1) as nat);
        let b = data[n - 1];
        if place_after(data, (n - 1) as nat) != Place::Plain {
            before
        } else if b == 0x5B || b == 0x7B {
            before + 1
        } else if (b == 0x5D || b == 0x7D) && before > 0 {
            (before - 1) as nat
        } else {
            before
        }
    }
}

/// Whether at no place more than `max` brackets and braces are open.
pub open spec fn nested_within(data: Seq<u8>, max: nat) -> bool {
    forall|n: nat| n <= data.len() ==> #[trigger] open_after(data, n) <= max
}

/// `sonic_rs::from_str::<sonic_rs::LazyValue>`, which checks the whole text, with
/// the kind of the value and the boolean or the number that it is: the text alone
/// decides them, or the text of the error. The check calls itself for every
/// level, without a limit of its own.
#[verifier::external_body]
fn sonic_kind(text: &str) -> (res: Result<Kind, String>)
    requires
        nested_within(encode_utf8(text@), MAX_NESTING as nat),
    ensures
        match res {
            Ok(kind) => kind_of(text@) == Ok::<Kind, Seq<char>>(kind),
            Err(e) => kind_of(text@) == Err::<Kind, Seq<char>>(e@),
        },
{
    let v = sonic_rs::from_str::<sonic_rs::LazyValue>(text).map_err(|e| e.to_string())?;
    Ok(match v.get_type() {
        sonic_rs::JsonType::Null => Kind::Null,
        sonic_rs::JsonType::Boolean => Kind::Bool(v.is_true()),
        sonic_rs::JsonType::Number => Kind::Number(v.as_u64()),
        sonic_rs::JsonType::String => Kind::Str,
        sonic_rs::JsonType::Array => Kind::Arr,
        sonic_rs::JsonType::Object => Kind::Obj,
    })
}

/// `sonic_rs::LazyValue::as_str`: the characters of a string, which the text
/// alone decides.
#[verifier::external_body]
fn sonic_string(text: &str) -> (res: Option<String>)
    requires
        nested_within(encode_utf8(text@), MAX_NESTING as nat),
    ensures
        match res {
            Some(s) => string_in(text@) == Some(s@),
            None => string_in(text@) is None,
        },
{
    let v = sonic_rs::from_str::<sonic_rs::LazyValue>(text).ok()?;
    v.as_str().map(|s| s.to_owned())
}

/// `sonic_rs::LazyValue::into_array_iter`: the texts of the items in order, which
/// the text alone decides. Each lies between the brackets.
#[verifier::external_body]
fn sonic_items(text: &str) -> (res: Option<Vec<String>>)
    requires
        nested_within(encode_utf8(text@), MAX_NESTING as nat),
    ensures
        match res {
            Some(items) => {
                &&& items_in(text@) == Some(text_views(items@))
                &&& forall|i: int|
                    0 <= i < items@.len() ==> (#[trigger] items@[i])@.len() < text@.len()
            },
            None => items_in(text@) is None,
        },
{
    let v = sonic_rs::from_str::<sonic_rs::LazyValue>(text).ok()?;
    v.into_array_iter()?.map(|item| Some(item.ok()?.as_raw_str().to_owned())).collect()
}

/// `sonic_rs::LazyValue::into_object_iter`: the names and the texts of the values
/// of the members in order, repeated ones included, which the text alone decides.
/// Each lies between the braces.
#[verifier::external_body]
fn sonic_members(text: &str) -> (res: Option<Vec<(String, String)>>)
    requires
        nested_within(encode_utf8(text@), MAX_NESTING as nat),
    ensures
        match res {
            Some(members) => {
                &&& members_in(text@) == Some(pair_views(members@))
                &&& forall|i: int|
                    0 <= i < members@.len() ==> (#[trigger] members@[i]).1@.len() < text@.len()
            },
            None => members_in(text@) is None,
        },
{
    let v = sonic_rs::from_str::<sonic_rs::LazyValue>(text).ok()?;
    let members = v.into_object_iter()?.map(|member| member.ok());
    members.map(|m| m.map(|(k, v)| (k.into_owned(), v.as_raw_str().to_owned()))).collect()
}

/// Are at most [`MAX_NESTING`] brackets and braces open at any place?
fn shallow(data: &[u8]) -> (res: bool)
    ensures
        res == nested_within(data@, MAX_NESTING as nat),
{
    let mut place = Place::Plain;
    let mut depth: usize = 0;
    let mut i: usize = 0;
    while i < data.len()
        invariant
            i <= data@.len(),
            place == place_after(data@, i as nat),
            depth == open_after(data@, i as nat),
            forall|n: nat| n <= i ==> #[trigger] open_after(data@, n) <= MAX_NESTING,
        decreases data@.len() - i,
    {
        let b: u8 = data[i];
        match place {
            Place::Plain => {
                if b == 0x22 {
                    place = Place::Quoted;
                } else if b == 0x5B || b == 0x7B {
                    depth += 1;
                } else if (b == 0x5D || b == 0x7D) && depth > 0 {
                    depth -= 1;
                }
            },
            Place::Quoted => {
                if b == 0x22 {
                    place = Place::Plain;
                } else if b == 0x5C {
                    place = Place::Escaped;
                }
            },
            Place::Escaped => {
                place = if b == 0x75 {
                    Place::Number(4)
                } else {
                    Place::Quoted
                };
            },
            Place::Number(left) => {
                place = if left > 1 {
                    Place::Number(left - 1)
                } else {
                    Place::Quoted
                };
            },
        }
        i += 1;
        assert(depth == open_after(data@, i as nat));
        if depth > MAX_NESTING {
            return false;
        }
    }
    true
}

/// The kind of what a text stands for; one that is nested too deeply stands for
/// nothing.
pub open spec fn outermost(text: Seq<char>) -> Result<Kind, Seq<char>> {
    if nested_within(encode_utf8(text), MAX_NESTING as nat) {
        kind_of(text)
    } else {
        Err("JSON is nested too deeply"@)
    }
}

/// The document that a text stands for, level by level.
pub open spec fn doc_of(text: Seq<char>) -> Doc
    decreases text.len(),
{
    match outermost(text) {
        Err(_) => Doc::Garbled,
        Ok(Kind::Null) => Doc::Null,
        Ok(Kind::Bool(b)) => Doc::Bool(b),
        Ok(Kind::Number(n)) => Doc::Number(n),
        Ok(Kind::Str) => match string_in(text) {
            Some(s) => Doc::Str(s),
            None => Doc::Garbled,
        },
        Ok(Kind::Arr) => match items_in(text) {
            Some(items) => Doc::Arr(
                Seq::new(
                    items.len(),
                    |i: int|
                        if items[i].len() < text.len() {
                            doc_of(items[i])
                        } else {
                            Doc::Garbled
                        },
                ),
            ),
            None => Doc::Garbled,
        },
        Ok(Kind::Obj) => match members_in(text) {
            Some(members) => Doc::Obj(
                Seq::new(
                    members.len(),
                    |i: int|
                        (
                            members[i].0,
                            if members[i].1.len() < text.len() {
                                doc_of(members[i].1)
                            } else {
                                Doc::Garbled
                            },
                        ),
                ),
            ),
            None => Doc::Garbled,
        },
    }
}

/// The document that a text stands for, or why its outermost level stands for
/// nothing.
fn read_doc(text: &str) -> (res: Result<Json, String>)
    ensures
        match res {
            Ok(j) => outermost(text@) is Ok && j@ == doc_of(text@),
            Err(e) => outermost(text@) == Err::<Kind, Seq<char>>(e@) && doc_of(text@) is Garbled,
        },
    decreases text@.len(), 1int,
{
    if !shallow(text.as_bytes()) {
        return Err("JSON is nested too deeply".to_owned());
    }
    let kind = sonic_kind(text)?;
    Ok(
        match kind {
            Kind::Null => Json::Null,
            Kind::Bool(b) => Json::Bool(b),
            Kind::Number(n) => Json::Number(n),
            Kind::Str => match sonic_string(text) {
                Some(s) => Json::Str(s),
                None => Json::Garbled,
            },
            Kind::Arr => match sonic_items(text) {
                Some(items) => read_items(text, &items),
                None => Json::Garbled,
            },
            Kind::Obj => match sonic_members(text) {
                Some(members) => read_members(text, &members),
                None => Json::Garbled,
            },
        },
    )
}

fn read_part(text: &str) -> (res: Json)
    ensures
        res@ == doc_of(text@),
    decreases text@.len(), 2int,
{
    match read_doc(text) {
        Ok(j) => j,
        Err(_) => Json::Garbled,
    }
}

fn read_items(text: &str, parts: &Vec<String>) -> (res: Json)
    requires
        outermost(text@) == Ok::<Kind, Seq<char>>(Kind::Arr),
        items_in(text@) == Some(text_views(parts@)),
        forall|i: int| 0 <= i < parts@.len() ==> (#[trigger] parts@[i])@.len() < text@.len(),
    ensures
        res@ == doc_of(text@),
    decreases text@.len(), 0int,
{
    let ghost items = doc_of(text@)->Arr_0;
    let mut out: Vec<Json> = Vec::new();
    let mut i: usize = 0;
    while i < parts.len()
        invariant
            i <= parts@.len(),
            out@.len() == i,
            outermost(text@) == Ok::<Kind, Seq<char>>(Kind::Arr),
            items_in(text@) == Some(text_views(parts@)),
            forall|k: int| 0 <= k < parts@.len() ==> (#[trigger] parts@[k])@.len() < text@.len(),
            doc_of(text@) == Doc::Arr(items),
            items.len() == parts@.len(),
            forall|k: int| 0 <= k < i ==> (#[trigger] out@[k])@ == items[k],
        decreases parts@.len() - i,
    {
        assert(text_views(parts@)[i as int] == parts@[i as int]@);
        let item = read_part(parts[i].as_str());
        out.push(item);
        i += 1;
    }
    let res = Json::Arr(out);
    assert(res@->Arr_0 =~= items);
    res
}

fn read_members(text: &str, parts: &Vec<(String, String)>) -> (res: Json)
    requires
        outermost(text@) == Ok::<Kind, Seq<char>>(Kind::Obj),
        members_in(text@) == Some(pair_views(parts@)),
        forall|i: int| 0 <= i < parts@.len() ==> (#[trigger] parts@[i]).1@.len() < text@.len(),
    ensures
        res@ == doc_of(text@),
    decreases text@.len(), 0int,
{
    let ghost members = doc_of(text@)->Obj_0;
    let mut out: Vec<(String, Json)> = Vec::new();
    let mut i: usize = 0;
    while i < parts.len()
        invariant
            i <= parts@.len(),
            out@.len() == i,
            outermost(text@) == Ok::<Kind, Seq<char>>(Kind::Obj),
            members_in(text@) == Some(pair_views(parts@)),
            forall|k: int| 0 <= k < parts@.len() ==> (#[trigger] parts@[k]).1@.len() < text@.len(),
            doc_of(text@) == Doc::Obj(members),
            members.len() == parts@.len(),
            forall|k: int| 0 <= k < i ==> ((#[trigger] out@[k]).0@, out@[k].1@) == members[k],
        decreases parts@.len() - i,
    {
        assert(pair_views(parts@)[i as int] == (parts@[i as int].0@, parts@[i as int].1@));
        let name = parts[i].0.as_str().to_owned();
        let value = read_part(parts[i].1.as_str());
        out.push((name, value));
        i += 1;
    }
    let res = Json::Obj(out);
    assert(res@->Obj_0 =~= members);
    res
}

/// The document that the contents of a file stand for, or why they stand for
/// none.
pub open spec fn document(data: Seq<u8>) -> Result<Doc, Seq<char>> {
    if !valid_utf8(data) {
        Err("Invalid UTF-8 characters in JSON"@)
    } else {
        match outermost(decode_utf8(data)) {
            Err(e) => Err(e),
            Ok(_) => Ok(doc_of(decode_utf8(data))),
        }
    }
}

/// Parses a JSON text.
pub fn parse(data: &[u8]) -> (res: Result<Json, String>)
    ensures
        match res {
            Ok(j) => document(data@) == Ok::<Doc, Seq<char>>(j@),
            Err(e) => document(data@) == Err::<Doc, Seq<char>>(e@),
        },
{
    match utf8::str_of_utf8(data) {
        None => Err("Invalid UTF-8 characters in JSON".to_owned()),
        Some(text) => {
            proof {
                encode_utf8_decode_utf8(text@);
            }
            read_doc(text)
        },
    }
}

/// The first of two faults.
pub open spec fn first(a: Option<Seq<char>>, b: Option<Seq<char>>) -> Option<Seq<char>> {
    match a {
        Some(_) => a,
        None => b,
    }
}

/// A message about a field.
pub open spec fn about(message: Seq<char>, name: Seq<char>) -> Seq<char> {
    message + "`"@ + name + "`"@
}

/// A message about a field.
pub fn message(text: &str, name: &str) -> (res: String)
    ensures
        res@ == about(text@, name@),
{
    let opened = text::join(text, "`");
    let named = text::join(opened.as_str(), name);
    text::join(named.as_str(), "`")
}

/// The value of the first member of a name from index `i` on.
pub open spec fn member(fields: Seq<(Seq<char>, Doc)>, name: Seq<char>, i: int) -> Option<Doc>
    decreases fields.len() - i,
{
    if i < 0 || i >= fields.len() {
        None
    } else if fields[i].0 == name {
        Some(fields[i].1)
    } else {
        member(fields, name, i + 1)
    }
}

/// How many of the first `n` members have a name.
pub open spec fn times(fields: Seq<(Seq<char>, Doc)>, name: Seq<char>, n: nat) -> nat
    decreases n,
{
    if n == 0 || n > fields.len() {
        0
    } else {
        times(fields, name, (n - 1) as nat) + (if fields[n - 1].0 == name {
            1nat
        } else {
            0nat
        })
    }
}

/// The field of a name, which is the `k`-th of the record.
pub open spec fn field(j: Doc, name: Seq<char>, k: int) -> Option<Doc> {
    match j {
        Doc::Obj(fields) => member(fields, name, 0),
        Doc::Arr(items) => if 0 <= k < items.len() {
            Some(items[k])
        } else {
            None
        },
        _ => None,
    }
}

/// What is wrong with a field as such: an object must not repeat it.
pub open spec fn field_fault(j: Doc, name: Seq<char>) -> Option<Seq<char>> {
    match j {
        Doc::Obj(fields) if times(fields, name, fields.len()) > 1 => Some(
            about("duplicate field "@, name),
        ),
        _ => None,
    }
}

/// What is wrong with the shape of a record of `n` fields.
pub open spec fn record_fault(j: Doc, name: Seq<char>, n: nat) -> Option<Seq<char>> {
    match j {
        Doc::Obj(_) => None,
        Doc::Arr(items) if items.len() <= n => None,
        _ => Some(about("expected a record for "@, name)),
    }
}

proof fn lemma_member_smaller(fields: Seq<(Seq<char>, Doc)>, name: Seq<char>, i: int)
    requires
        0 <= i,
    ensures
        match member(fields, name, i) {
            Some(v) => decreases_to!(fields => v),
            None => true,
        },
    decreases fields.len() - i,
{
    if i < fields.len() {
        if fields[i].0 == name {
            assert(decreases_to!(fields => fields[i]));
            assert(decreases_to!(fields[i] => fields[i].1));
        } else {
            lemma_member_smaller(fields, name, i + 1);
        }
    }
}

/// A field is smaller than its record.
pub proof fn lemma_field_smaller(j: Doc, name: Seq<char>, k: int)
    ensures
        match field(j, name, k) {
            Some(v) => decreases_to!(j => v),
            None => true,
        },
{
    match j {
        Doc::Obj(fields) => {
            lemma_member_smaller(fields, name, 0);
            assert(decreases_to!(j => fields));
        },
        Doc::Arr(items) => {
            if 0 <= k < items.len() {
                assert(decreases_to!(j => items));
                assert(decreases_to!(items => items[k]));
            }
        },
        _ => {},
    }
}

proof fn lemma_times(fields: Seq<(Seq<char>, Doc)>, name: Seq<char>, i: nat, n: nat)
    requires
        i <= n <= fields.len(),
    ensures
        times(fields, name, i) <= times(fields, name, n),
    decreases n,
{
    if i < n {
        lemma_times(fields, name, i, (n - 1) as nat);
    }
}

/// Checks that a value is a record of at most `n` fields.
pub fn check_record(j: &Json, name: &str, n: usize) -> (res: Result<(), String>)
    ensures
        match res {
            Ok(_) => record_fault(j@, name@, n as nat) is None,
            Err(e) => record_fault(j@, name@, n as nat) == Some(e@),
        },
{
    match j {
        Json::Obj(_) => Ok(()),
        Json::Arr(items) => if items.len() <= n {
            Ok(())
        } else {
            Err(message("expected a record for ", name))
        },
        _ => Err(message("expected a record for ", name)),
    }
}

/// The view of an optional document.
pub open spec fn opt_view(v: Option<&Json>) -> Option<Doc> {
    match v {
        Some(v) => Some(v@),
        None => None,
    }
}

/// The field of a record, where it has it.
pub fn get<'a>(j: &'a Json, name: &str, k: usize) -> (res: Result<Option<&'a Json>, String>)
    ensures
        match res {
            Ok(v) => {
                &&& field_fault(j@, name@) is None
                &&& opt_view(v) == field(j@, name@, k as int)
            },
            Err(e) => field_fault(j@, name@) == Some(e@),
        },
{
    match j {
        Json::Obj(fields) => {
            let ghost members = j@->Obj_0;
            let mut value: Option<&'a Json> = None;
            let mut i: usize = 0;
            let name_string = name.to_owned();
            while i < fields.len()
                invariant
                    j@ == Doc::Obj(members),
                    members.len() == fields@.len(),
                    forall|m: int|
                        0 <= m < fields@.len() ==> #[trigger] members[m] == (
                            fields@[m].0@,
                            fields@[m].1@,
                        ),
                    name_string@ == name@,
                    i <= fields@.len(),
                    match value {
                        None => {
                            &&& times(members, name@, i as nat) == 0
                            &&& member(members, name@, 0) == member(members, name@, i as int)
                        },
                        Some(v) => {
                            &&& times(members, name@, i as nat) == 1
                            &&& member(members, name@, 0) == Some(v@)
                        },
                    },
                decreases fields@.len() - i,
            {
                assert(members[i as int].0 == fields@[i as int].0@);
                if fields[i].0 == name_string {
                    if value.is_some() {
                        proof {
                            lemma_times(members, name@, (i + 1) as nat, members.len());
                        }
                        return Err(message("duplicate field ", name));
                    }
                    value = Some(&fields[i].1);
                }
                i += 1;
            }
            Ok(value)
        },
        Json::Arr(items) => if k < items.len() {
            Ok(Some(&items[k]))
        } else {
            Ok(None)
        },
        _ => Ok(None),
    }
}

/// The view of an optional string.
pub open spec fn opt_text(s: Option<String>) -> Option<Seq<char>> {
    match s {
        Some(s) => Some(s@),
        None => None,
    }
}

/// The text of a string field; none where the field is absent or no string.
pub open spec fn text_at(j: Doc, name: Seq<char>, k: int) -> Option<Seq<char>> {
    match field(j, name, k) {
        Some(Doc::Str(s)) => Some(s),
        _ => None,
    }
}

/// The value of a boolean field; none where the field is absent or no boolean.
pub open spec fn bool_at(j: Doc, name: Seq<char>, k: int) -> Option<bool> {
    match field(j, name, k) {
        Some(Doc::Bool(b)) => Some(b),
        _ => None,
    }
}

/// The value of a number field; none where the field is absent or no number
/// that fits.
pub open spec fn number_at(j: Doc, name: Seq<char>, k: int) -> Option<u64> {
    match field(j, name, k) {
        Some(Doc::Number(n)) => n,
        _ => None,
    }
}

/// The items of an array field; empty where the field is absent or no array.
pub open spec fn items_at(j: Doc, name: Seq<char>, k: int) -> Seq<Doc> {
    match field(j, name, k) {
        Some(Doc::Arr(items)) => items,
        _ => Seq::empty(),
    }
}

/// Whether a field is absent or null.
pub open spec fn blank(j: Doc, name: Seq<char>, k: int) -> bool {
    match field(j, name, k) {
        None => true,
        Some(Doc::Null) => true,
        _ => false,
    }
}

/// What is wrong with a field that is there and of the wrong kind.
pub open spec fn kind_fault(ok: bool, message: Seq<char>, name: Seq<char>) -> Option<Seq<char>> {
    if ok {
        None
    } else {
        Some(about(message, name))
    }
}

/// What is wrong with a string field that may be absent or null.
pub open spec fn opt_text_fault(j: Doc, name: Seq<char>, k: int) -> Option<Seq<char>> {
    first(
        field_fault(j, name),
        kind_fault(
            blank(j, name, k) || text_at(j, name, k) is Some,
            "expected a string for "@,
            name,
        ),
    )
}

/// What is wrong with a string field that must be there.
pub open spec fn text_fault(j: Doc, name: Seq<char>, k: int) -> Option<Seq<char>> {
    first(
        field_fault(j, name),
        first(
            kind_fault(field(j, name, k) is Some, "missing field "@, name),
            kind_fault(text_at(j, name, k) is Some, "expected a string for "@, name),
        ),
    )
}

/// What is wrong with a boolean field that may be absent or null.
pub open spec fn opt_bool_fault(j: Doc, name: Seq<char>, k: int) -> Option<Seq<char>> {
    first(
        field_fault(j, name),
        kind_fault(
            blank(j, name, k) || bool_at(j, name, k) is Some,
            "expected a boolean for "@,
            name,
        ),
    )
}

/// What is wrong with a boolean field that may be absent.
pub open spec fn flag_fault(j: Doc, name: Seq<char>, k: int) -> Option<Seq<char>> {
    first(
        field_fault(j, name),
        kind_fault(
            field(j, name, k) is None || bool_at(j, name, k) is Some,
            "expected a boolean for "@,
            name,
        ),
    )
}

/// What is wrong with a number field that may be absent or null and is at most
/// `max`.
pub open spec fn opt_number_fault(j: Doc, name: Seq<char>, k: int, max: u64) -> Option<Seq<char>> {
    first(
        field_fault(j, name),
        kind_fault(
            blank(j, name, k) || (number_at(j, name, k) matches Some(n) && n <= max),
            "expected a number for "@,
            name,
        ),
    )
}

/// What is wrong with a number field that must be there and is at most `max`.
pub open spec fn number_fault(j: Doc, name: Seq<char>, k: int, max: u64) -> Option<Seq<char>> {
    first(
        field_fault(j, name),
        first(
            kind_fault(field(j, name, k) is Some, "missing field "@, name),
            kind_fault(
                number_at(j, name, k) matches Some(n) && n <= max,
                "expected a number for "@,
                name,
            ),
        ),
    )
}

/// What is wrong with an array field that may be absent.
pub open spec fn items_fault(j: Doc, name: Seq<char>, k: int) -> Option<Seq<char>> {
    first(
        field_fault(j, name),
        kind_fault(
            field(j, name, k) is None || field(j, name, k)->0 is Arr,
            "expected an array for "@,
            name,
        ),
    )
}

/// Reads a string field that may be absent or null.
pub fn opt_string(j: &Json, name: &str, k: usize) -> (res: Result<Option<String>, String>)
    ensures
        match res {
            Ok(v) => {
                &&& opt_text_fault(j@, name@, k as int) is None
                &&& opt_text(v) == text_at(j@, name@, k as int)
            },
            Err(e) => opt_text_fault(j@, name@, k as int) == Some(e@),
        },
{
    match get(j, name, k) {
        Err(e) => Err(e),
        Ok(None) => Ok(None),
        Ok(Some(v)) => match v {
            Json::Null => Ok(None),
            Json::Str(s) => Ok(Some(s.as_str().to_owned())),
            _ => Err(message("expected a string for ", name)),
        },
    }
}

/// Reads a string field that must be there.
pub fn string(j: &Json, name: &str, k: usize) -> (res: Result<String, String>)
    ensures
        match res {
            Ok(v) => {
                &&& text_fault(j@, name@, k as int) is None
                &&& text_at(j@, name@, k as int) == Some(v@)
            },
            Err(e) => text_fault(j@, name@, k as int) == Some(e@),
        },
{
    match get(j, name, k) {
        Err(e) => Err(e),
        Ok(None) => Err(message("missing field ", name)),
        Ok(Some(v)) => match v {
            Json::Str(s) => Ok(s.as_str().to_owned()),
            _ => Err(message("expected a string for ", name)),
        },
    }
}

/// Reads a boolean field that may be absent or null.
pub fn opt_bool(j: &Json, name: &str, k: usize) -> (res: Result<Option<bool>, String>)
    ensures
        match res {
            Ok(v) => {
                &&& opt_bool_fault(j@, name@, k as int) is None
                &&& v == bool_at(j@, name@, k as int)
            },
            Err(e) => opt_bool_fault(j@, name@, k as int) == Some(e@),
        },
{
    match get(j, name, k) {
        Err(e) => Err(e),
        Ok(None) => Ok(None),
        Ok(Some(v)) => match v {
            Json::Null => Ok(None),
            Json::Bool(b) => Ok(Some(*b)),
            _ => Err(message("expected a boolean for ", name)),
        },
    }
}

/// Reads a boolean field that may be absent, and is then false.
pub fn flag(j: &Json, name: &str, k: usize) -> (res: Result<bool, String>)
    ensures
        match res {
            Ok(v) => {
                &&& flag_fault(j@, name@, k as int) is None
                &&& v == (bool_at(j@, name@, k as int) == Some(true))
            },
            Err(e) => flag_fault(j@, name@, k as int) == Some(e@),
        },
{
    match get(j, name, k) {
        Err(e) => Err(e),
        Ok(None) => Ok(false),
        Ok(Some(v)) => match v {
            Json::Bool(b) => Ok(*b),
            _ => Err(message("expected a boolean for ", name)),
        },
    }
}

/// Reads a number field that may be absent or null.
pub fn opt_number(j: &Json, name: &str, k: usize, max: u64) -> (res: Result<Option<u64>, String>)
    ensures
        match res {
            Ok(v) => {
                &&& opt_number_fault(j@, name@, k as int, max) is None
                &&& v == number_at(j@, name@, k as int)
                &&& v matches Some(n) ==> n <= max
            },
            Err(e) => opt_number_fault(j@, name@, k as int, max) == Some(e@),
        },
{
    match get(j, name, k) {
        Err(e) => Err(e),
        Ok(None) => Ok(None),
        Ok(Some(v)) => match v {
            Json::Null => Ok(None),
            Json::Number(Some(n)) => if *n <= max {
                Ok(Some(*n))
            } else {
                Err(message("expected a number for ", name))
            },
            _ => Err(message("expected a number for ", name)),
        },
    }
}

/// Reads a number field that must be there.
pub fn number(j: &Json, name: &str, k: usize, max: u64) -> (res: Result<u64, String>)
    ensures
        match res {
            Ok(v) => {
                &&& number_fault(j@, name@, k as int, max) is None
                &&& number_at(j@, name@, k as int) == Some(v)
                &&& v <= max
            },
            Err(e) => number_fault(j@, name@, k as int, max) == Some(e@),
        },
{
    match get(j, name, k) {
        Err(e) => Err(e),
        Ok(None) => Err(message("missing field ", name)),
        Ok(Some(v)) => match v {
            Json::Number(Some(n)) => if *n <= max {
                Ok(*n)
            } else {
                Err(message("expected a number for ", name))
            },
            _ => Err(message("expected a number for ", name)),
        },
    }
}

/// The views of documents.
pub open spec fn docs(items: Seq<Json>) -> Seq<Doc> {
    Seq::new(items.len(), |i: int| items[i]@)
}

/// Reads an array field that may be absent; none is then returned.
pub fn items<'a>(j: &'a Json, name: &str, k: usize) -> (res: Result<Option<&'a Vec<Json>>, String>)
    ensures
        match res {
            Ok(v) => {
                &&& items_fault(j@, name@, k as int) is None
                &&& items_at(j@, name@, k as int) == (match v {
                    Some(v) => docs(v@),
                    None => Seq::empty(),
                })
                &&& v matches Some(v) ==> field(j@, name@, k as int) == Some(Doc::Arr(docs(v@)))
            },
            Err(e) => items_fault(j@, name@, k as int) == Some(e@),
        },
{
    match get(j, name, k) {
        Err(e) => Err(e),
        Ok(None) => Ok(None),
        Ok(Some(v)) => match v {
            Json::Arr(items) => {
                assert(v@->Arr_0 =~= docs(items@));
                Ok(Some(items))
            },
            _ => Err(message("expected an array for ", name)),
        },
    }
}

/// The items of an array field are smaller than the record.
pub proof fn lemma_items_smaller(j: Doc, name: Seq<char>, k: int, i: int)
    requires
        0 <= i < items_at(j, name, k).len(),
    ensures
        decreases_to!(j => items_at(j, name, k)[i]),
{
    lemma_field_smaller(j, name, k);
    let v = field(j, name, k)->0;
    let items = items_at(j, name, k);
    assert(decreases_to!(v => v->Arr_0));
    assert(decreases_to!(items => items[i]));
}

} // verus!
