//! Board model construction: the merged document, checked and turned into
//! the typed model.
//!
//! Keyed-list sections (boards, LEDs, buttons, UARTs) are mappings from a
//! unique name to an object; they come out as ordered vectors whose elements
//! carry that name as a field, in the mapping's own (lexicographic) order.
//! A missing required key or a value of the wrong shape is a `SchemaError`
//! naming the place; unrecognized keys are ignored.

use vstd::prelude::*;

use crate::doc::{Doc, DocValue, Document, ScalarV, ScalarVal, doc_entries_view, doc_view, doc_wf,
    lemma_doc_entries_view_index};
use crate::kvmap::kv_get;
use crate::model::{Board, Button, Led, PinLevel, Quirk, SetPinOp, Uart};

verus! {

/// A required key absent, or a value whose shape its place does not allow.
#[derive(Debug, PartialEq, Eq)]
pub struct SchemaError {
    pub message: String,
}

/// The mapping entries of a document node, where it is a mapping.
pub open spec fn doc_map_of(d: Doc) -> Option<Seq<(Seq<char>, Doc)>> {
    match d {
        Doc::Mapping(es) => Some(es),
        _ => None,
    }
}

/// The string under `k`, where the mapping holds a string there.
pub open spec fn get_str(es: Seq<(Seq<char>, Doc)>, k: Seq<char>) -> Option<Seq<char>> {
    match kv_get(es, k) {
        Some(Doc::Scalar(ScalarV::Str(s))) => Some(s),
        _ => None,
    }
}

/// The boolean under `k`, where the mapping holds one there.
pub open spec fn get_bool(es: Seq<(Seq<char>, Doc)>, k: Seq<char>) -> Option<bool> {
    match kv_get(es, k) {
        Some(Doc::Scalar(ScalarV::Bool(b))) => Some(b),
        _ => None,
    }
}

/// Whether the mapping holds anything under `k` other than an explicit
/// null: an absent key and a null value read the same.
pub open spec fn has_value(es: Seq<(Seq<char>, Doc)>, k: Seq<char>) -> bool {
    match kv_get(es, k) {
        Some(Doc::Scalar(ScalarV::Null)) => false,
        Some(_) => true,
        None => false,
    }
}

/// An optional string field is well-shaped: absent, null, or a string.
pub open spec fn opt_str_ok(es: Seq<(Seq<char>, Doc)>, k: Seq<char>) -> bool {
    !has_value(es, k) || get_str(es, k) is Some
}

/// The value of an optional string field.
pub open spec fn opt_str_val(es: Seq<(Seq<char>, Doc)>, k: Seq<char>) -> Option<Seq<char>> {
    if has_value(es, k) {
        get_str(es, k)
    } else {
        None
    }
}

/// An optional boolean field is well-shaped: absent, null, or a boolean.
pub open spec fn opt_bool_ok(es: Seq<(Seq<char>, Doc)>, k: Seq<char>) -> bool {
    !has_value(es, k) || get_bool(es, k) is Some
}

/// The value of an optional boolean field.
pub open spec fn opt_bool_val(es: Seq<(Seq<char>, Doc)>, k: Seq<char>) -> Option<bool> {
    if has_value(es, k) {
        get_bool(es, k)
    } else {
        None
    }
}

/// The view of an optional name.
pub open spec fn opt_str_view(o: Option<String>) -> Option<Seq<char>> {
    match o {
        Some(s) => Some(s@),
        None => None,
    }
}

/// The mapping entries of a document value, where it is a mapping.
fn doc_entries<'a>(d: &'a DocValue) -> (r: Option<&'a Vec<(String, DocValue)>>)
    ensures
        match r {
            Some(es) => doc_view(*d) == Doc::Mapping(doc_entries_view(es@)),
            None => doc_map_of(doc_view(*d)) is None,
        },
{
    match d {
        DocValue::Mapping(es) => Some(es),
        _ => None,
    }
}

/// The value under the first entry whose key is `k`.
fn doc_lookup<'a>(es: &'a Vec<(String, DocValue)>, k: &str) -> (r: Option<&'a DocValue>)
    ensures
        match r {
            Some(v) => kv_get(doc_entries_view(es@), k@) == Some(doc_view(*v)),
            None => kv_get(doc_entries_view(es@), k@) is None,
        },
{
    proof {
        lemma_doc_entries_view_index(es@);
    }
    let mut i: usize = 0;
    while i < es.len()
        invariant
            i <= es@.len(),
            forall|j: int| 0 <= j < i ==> (#[trigger] es@[j].0@) != k@,
            doc_entries_view(es@).len() == es@.len(),
            forall|j: int|
                0 <= j < es@.len() ==> #[trigger] doc_entries_view(es@)[j] == (es@[j].0@,
                doc_view(es@[j].1)),
        decreases es@.len() - i,
    {
        let e = &es[i];
        if crate::strutil::str_eq(e.0.as_str(), k) {
            proof {
                assert(forall|j: int|
                    0 <= j < i ==> (#[trigger] doc_entries_view(es@)[j]).0 != k@);
                crate::kvmap::lemma_kv_get_at(doc_entries_view(es@), k@, i as int);
            }
            return Some(&es[i].1);
        }
        i += 1;
    }
    proof {
        assert(forall|j: int|
            0 <= j < es@.len() ==> (#[trigger] doc_entries_view(es@)[j]).0 != k@);
        crate::kvmap::lemma_kv_get_none(doc_entries_view(es@), k@);
    }
    None
}

fn schema_err(path: &str, what: &str) -> (r: SchemaError)
{
    let mut message = path.to_owned();
    message.append(": ");
    message.append(what);
    SchemaError { message }
}

/// The string under `k`, where the mapping holds a string there.
fn lookup_str<'a>(es: &'a Vec<(String, DocValue)>, k: &str) -> (r: Option<&'a String>)
    ensures
        match r {
            Some(s) => get_str(doc_entries_view(es@), k@) == Some(s@),
            None => get_str(doc_entries_view(es@), k@) is None,
        },
{
    match doc_lookup(es, k) {
        Some(DocValue::Scalar(ScalarVal::Str(s))) => Some(s),
        _ => None,
    }
}

/// Whether the mapping holds anything but null under `k`.
fn lookup_has(es: &Vec<(String, DocValue)>, k: &str) -> (r: bool)
    ensures
        r == has_value(doc_entries_view(es@), k@),
{
    match doc_lookup(es, k) {
        Some(DocValue::Scalar(ScalarVal::Null)) => false,
        Some(_) => true,
        None => false,
    }
}

/// An optional string field: absent or null reads as nothing; any other
/// shape than a string is refused.
fn parse_opt_str(es: &Vec<(String, DocValue)>, k: &str, path: &str) -> (r: Result<
    Option<String>,
    SchemaError,
>)
    ensures
        match r {
            Ok(o) => opt_str_ok(doc_entries_view(es@), k@) && opt_str_view(o) == opt_str_val(
                doc_entries_view(es@),
                k@,
            ),
            Err(_) => !opt_str_ok(doc_entries_view(es@), k@),
        },
{
    if !lookup_has(es, k) {
        return Ok(None);
    }
    match lookup_str(es, k) {
        Some(s) => Ok(Some(s.clone())),
        None => Err(schema_err(path, "expected a string")),
    }
}

/// An optional boolean field: absent or null reads as nothing; any other
/// shape than a boolean is refused.
fn parse_opt_bool(es: &Vec<(String, DocValue)>, k: &str, path: &str) -> (r: Result<
    Option<bool>,
    SchemaError,
>)
    ensures
        match r {
            Ok(o) => opt_bool_ok(doc_entries_view(es@), k@) && o == opt_bool_val(
                doc_entries_view(es@),
                k@,
            ),
            Err(_) => !opt_bool_ok(doc_entries_view(es@), k@),
        },
{
    if !lookup_has(es, k) {
        return Ok(None);
    }
    match doc_lookup(es, k) {
        Some(DocValue::Scalar(ScalarVal::Bool(b))) => Ok(Some(*b)),
        _ => Err(schema_err(path, "expected a boolean")),
    }
}

/// A required string field.
fn parse_req_str(es: &Vec<(String, DocValue)>, k: &str, path: &str) -> (r: Result<
    String,
    SchemaError,
>)
    ensures
        match r {
            Ok(s) => get_str(doc_entries_view(es@), k@) == Some(s@),
            Err(_) => get_str(doc_entries_view(es@), k@) is None,
        },
{
    match lookup_str(es, k) {
        Some(s) => Ok(s.clone()),
        None => Err(schema_err(path, "missing or malformed required string")),
    }
}

/// A document list whose items are all strings.
pub open spec fn str_list_ok(d: Doc) -> bool {
    match d {
        Doc::List(items) => forall|i: int|
            0 <= i < items.len() ==> (#[trigger] items[i]) matches Doc::Scalar(ScalarV::Str(_)),
        _ => false,
    }
}

/// The strings of a document list, in order.
pub open spec fn str_items(items: Seq<Doc>) -> Seq<Seq<char>>
    decreases items.len(),
{
    if items.len() == 0 {
        Seq::empty()
    } else {
        str_items(items.drop_last()).push(
            match items.last() {
                Doc::Scalar(ScalarV::Str(s)) => s,
                _ => Seq::empty(),
            },
        )
    }
}

/// `str_items` is pointwise.
pub proof fn lemma_str_items_index(items: Seq<Doc>)
    ensures
        str_items(items).len() == items.len(),
        forall|i: int|
            0 <= i < items.len() ==> str_items(items)[i] == (match items[i] {
                Doc::Scalar(ScalarV::Str(s)) => s,
                _ => Seq::empty(),
            }),
    decreases items.len(),
{
    if items.len() > 0 {
        lemma_str_items_index(items.drop_last());
    }
}

/// A plain list of strings, in list order.
fn parse_str_list(d: &DocValue, path: &str) -> (r: Result<Vec<String>, SchemaError>)
    ensures
        match r {
            Ok(v) => str_list_ok(doc_view(*d)) && v.deep_view() == str_items(
                doc_view(*d)->List_0,
            ),
            Err(_) => !str_list_ok(doc_view(*d)),
        },
{
    let items = match d {
        DocValue::List(items) => items,
        _ => {
            return Err(schema_err(path, "expected a list"));
        },
    };
    let ghost iv = crate::doc::doc_list_view(items@);
    proof {
        crate::doc::lemma_doc_list_view_index(items@);
        lemma_str_items_index(iv);
    }
    let mut out: Vec<String> = Vec::new();
    let mut i: usize = 0;
    while i < items.len()
        invariant
            i <= items@.len(),
            iv == crate::doc::doc_list_view(items@),
            doc_view(*d) == Doc::List(iv),
            iv.len() == items@.len(),
            forall|j: int| 0 <= j < items@.len() ==> iv[j] == doc_view(#[trigger] items@[j]),
            out@.len() == i,
            forall|j: int| 0 <= j < i ==> (#[trigger] iv[j]) matches Doc::Scalar(ScalarV::Str(_)),
            forall|j: int|
                0 <= j < i ==> (#[trigger] out@[j]@) == iv[j]->Scalar_0->Str_0,
        decreases items@.len() - i,
    {
        match &items[i] {
            DocValue::Scalar(ScalarVal::Str(s)) => {
                out.push(s.clone());
            },
            _ => {
                proof {
                    assert(iv[i as int] == doc_view(items@[i as int]));
                    assert(!(doc_view(items@[i as int]) matches Doc::Scalar(
                        ScalarV::Str(_),
                    )));
                }
                return Err(schema_err(path, "expected a list of strings"));
            },
        }
        i += 1;
    }
    proof {
        lemma_str_items_index(iv);
        assert(out.deep_view() =~= str_items(iv));
    }
    Ok(out)
}

/// A list of strings read as a sorted name set.
fn parse_str_set(d: &DocValue, path: &str) -> (r: Result<Vec<String>, SchemaError>)
    ensures
        match r {
            Ok(v) => str_list_ok(doc_view(*d)) && v.deep_view()
                == crate::kvmap::strs_insert_all(
                Seq::empty(),
                str_items(doc_view(*d)->List_0),
            ) && crate::kvmap::strs_sorted(v.deep_view()),
            Err(_) => !str_list_ok(doc_view(*d)),
        },
{
    let items = parse_str_list(d, path)?;
    let ghost ksv = items.deep_view();
    let mut out: Vec<String> = Vec::new();
    proof {
        assert(out.deep_view() =~= Seq::<Seq<char>>::empty());
        assert(ksv.skip(0) =~= ksv);
    }
    let mut i: usize = 0;
    while i < items.len()
        invariant
            i <= items@.len(),
            ksv == items.deep_view(),
            ksv.len() == items@.len(),
            forall|j: int| 0 <= j < items@.len() ==> ksv[j] == #[trigger] items@[j]@,
            crate::kvmap::strs_sorted(out.deep_view()),
            crate::kvmap::strs_insert_all(out.deep_view(), ksv.skip(i as int))
                == crate::kvmap::strs_insert_all(Seq::empty(), ksv),
        decreases items@.len() - i,
    {
        proof {
            assert(ksv.skip(i as int)[0] == ksv[i as int]);
            assert(ksv.skip(i as int).skip(1) =~= ksv.skip(i + 1));
        }
        let e = &items[i];
        crate::kvmap::strset_insert(&mut out, e.clone());
        i += 1;
    }
    proof {
        assert(ksv.skip(items@.len() as int) =~= Seq::<Seq<char>>::empty());
    }
    Ok(out)
}

/// What one LED entry must look like.
pub open spec fn led_ok(d: Doc) -> bool {
    match doc_map_of(d) {
        Some(es) => get_str(es, "pin"@) is Some && opt_str_ok(es, "color"@) && opt_bool_ok(
            es,
            "inverted"@,
        ),
        None => false,
    }
}

/// How an LED relates to its mapping key and entry.
pub open spec fn led_matches(l: Led, key: Seq<char>, d: Doc) -> bool {
    match doc_map_of(d) {
        Some(es) => l.name@ == key && Some(l.pin@) == get_str(es, "pin"@) && opt_str_view(
            l.color,
        ) == opt_str_val(es, "color"@) && l.inverted == opt_bool_val(es, "inverted"@),
        None => false,
    }
}

fn parse_led(key: &String, d: &DocValue, path: &str) -> (r: Result<Led, SchemaError>)
    ensures
        match r {
            Ok(l) => led_ok(doc_view(*d)) && led_matches(l, key@, doc_view(*d)),
            Err(_) => !led_ok(doc_view(*d)),
        },
{
    let es = match doc_entries(d) {
        Some(es) => es,
        None => {
            return Err(schema_err(path, "expected a mapping"));
        },
    };
    let pin = parse_req_str(es, "pin", path)?;
    let color = parse_opt_str(es, "color", path)?;
    let inverted = parse_opt_bool(es, "inverted", path)?;
    Ok(Led { name: key.clone(), pin, color, inverted })
}

/// What one button entry must look like.
pub open spec fn button_ok(d: Doc) -> bool {
    match doc_map_of(d) {
        Some(es) => get_str(es, "pin"@) is Some && opt_bool_ok(es, "active_low"@),
        None => false,
    }
}

/// How a button relates to its mapping key and entry.
pub open spec fn button_matches(b: Button, key: Seq<char>, d: Doc) -> bool {
    match doc_map_of(d) {
        Some(es) => b.name@ == key && Some(b.pin@) == get_str(es, "pin"@) && b.active_low
            == opt_bool_val(es, "active_low"@),
        None => false,
    }
}

fn parse_button(key: &String, d: &DocValue, path: &str) -> (r: Result<Button, SchemaError>)
    ensures
        match r {
            Ok(b) => button_ok(doc_view(*d)) && button_matches(b, key@, doc_view(*d)),
            Err(_) => !button_ok(doc_view(*d)),
        },
{
    let es = match doc_entries(d) {
        Some(es) => es,
        None => {
            return Err(schema_err(path, "expected a mapping"));
        },
    };
    let pin = parse_req_str(es, "pin", path)?;
    let active_low = parse_opt_bool(es, "active_low", path)?;
    Ok(Button { name: key.clone(), pin, active_low })
}

/// What one UART entry must look like.
pub open spec fn uart_ok(d: Doc) -> bool {
    match doc_map_of(d) {
        Some(es) => get_str(es, "rx_pin"@) is Some && get_str(es, "tx_pin"@) is Some
            && opt_str_ok(es, "cts_pin"@) && opt_str_ok(es, "rts_pin"@),
        None => false,
    }
}

/// How a UART relates to its name and entry.
pub open spec fn uart_matches(u: Uart, name: Option<Seq<char>>, d: Doc) -> bool {
    match doc_map_of(d) {
        Some(es) => opt_str_view(u.name) == name && Some(u.rx_pin@) == get_str(es, "rx_pin"@)
            && Some(u.tx_pin@) == get_str(es, "tx_pin"@) && opt_str_view(u.cts_pin)
            == opt_str_val(es, "cts_pin"@) && opt_str_view(u.rts_pin) == opt_str_val(
            es,
            "rts_pin"@,
        ),
        None => false,
    }
}

fn parse_uart(name: Option<String>, d: &DocValue, path: &str) -> (r: Result<Uart, SchemaError>)
    ensures
        match r {
            Ok(u) => uart_ok(doc_view(*d)) && uart_matches(
                u,
                opt_str_view(name),
                doc_view(*d),
            ),
            Err(_) => !uart_ok(doc_view(*d)),
        },
{
    let es = match doc_entries(d) {
        Some(es) => es,
        None => {
            return Err(schema_err(path, "expected a mapping"));
        },
    };
    let rx_pin = parse_req_str(es, "rx_pin", path)?;
    let tx_pin = parse_req_str(es, "tx_pin", path)?;
    let cts_pin = parse_opt_str(es, "cts_pin", path)?;
    let rts_pin = parse_opt_str(es, "rts_pin", path)?;
    Ok(Uart { name, rx_pin, tx_pin, cts_pin, rts_pin })
}

/// What one quirk entry must look like: tagged `set_pin`, with a pin, an
/// optional level (`high` unless `low` is said), and an optional note.
pub open spec fn quirk_ok(d: Doc) -> bool {
    match doc_map_of(d) {
        Some(es) => get_str(es, "type"@) == Some("set_pin"@) && get_str(es, "pin"@) is Some
            && opt_str_ok(es, "description"@) && (!has_value(es, "level"@) || get_str(
            es,
            "level"@,
        ) == Some("high"@) || get_str(es, "level"@) == Some("low"@)),
        None => false,
    }
}

/// The level a quirk entry sets: `High` unless it says `low`.
pub open spec fn quirk_level(es: Seq<(Seq<char>, Doc)>) -> PinLevel {
    if get_str(es, "level"@) == Some("low"@) {
        PinLevel::Low
    } else {
        PinLevel::High
    }
}

/// How a quirk relates to its entry.
pub open spec fn quirk_matches(q: Quirk, d: Doc) -> bool {
    match doc_map_of(d) {
        Some(es) => match q {
            Quirk::SetPin(op) => Some(op.pin@) == get_str(es, "pin"@) && opt_str_view(
                op.description,
            ) == opt_str_val(es, "description"@) && op.level == quirk_level(es),
        },
        None => false,
    }
}

fn parse_quirk(d: &DocValue, path: &str) -> (r: Result<Quirk, SchemaError>)
    ensures
        match r {
            Ok(q) => quirk_ok(doc_view(*d)) && quirk_matches(q, doc_view(*d)),
            Err(_) => !quirk_ok(doc_view(*d)),
        },
{
    let es = match doc_entries(d) {
        Some(es) => es,
        None => {
            return Err(schema_err(path, "expected a mapping"));
        },
    };
    match lookup_str(es, "type") {
        Some(t) => {
            if !crate::strutil::str_eq(t.as_str(), "set_pin") {
                return Err(schema_err(path, "unknown quirk type"));
            }
        },
        None => {
            return Err(schema_err(path, "missing quirk type tag"));
        },
    }
    let pin = parse_req_str(es, "pin", path)?;
    let description = parse_opt_str(es, "description", path)?;
    let level = if lookup_has(es, "level") {
        match lookup_str(es, "level") {
            Some(s) => {
                if crate::strutil::str_eq(s.as_str(), "high") {
                    PinLevel::High
                } else if crate::strutil::str_eq(s.as_str(), "low") {
                    PinLevel::Low
                } else {
                    return Err(schema_err(path, "unknown pin level"));
                }
            },
            None => {
                return Err(schema_err(path, "expected a pin level name"));
            },
        }
    } else {
        PinLevel::High
    };
    let q = Quirk::SetPin(SetPinOp { description, pin, level });
    proof {
        let esv = doc_entries_view(es@);
        assert(doc_map_of(doc_view(*d)) == Some(esv));
        assert(get_str(esv, "type"@) == Some("set_pin"@));
        assert(get_str(esv, "pin"@) is Some);
        assert(opt_str_ok(esv, "description"@));
        assert(!has_value(esv, "level"@) || get_str(esv, "level"@) == Some("high"@) || get_str(
            esv,
            "level"@,
        ) == Some("low"@));
        assert(quirk_ok(doc_view(*d)));
        reveal_strlit("high");
        reveal_strlit("low");
        assert("high"@.len() == 4);
        assert("low"@.len() == 3);
        assert("high"@ != "low"@);
        assert(q->SetPin_0.level == quirk_level(esv));
        assert(quirk_matches(q, doc_view(*d)));
    }
    Ok(q)
}

/// A value looked up in a well-formed mapping is itself well-formed.
proof fn lemma_wf_value(es: Seq<(Seq<char>, Doc)>, k: Seq<char>)
    requires
        doc_wf(Doc::Mapping(es)),
        kv_get(es, k) is Some,
    ensures
        doc_wf(kv_get(es, k)->0),
    decreases es.len(),
{
    crate::doc::lemma_entries_vals_wf_iff(es);
    if es.len() > 0 {
        if es[0].0 == k {
            assert(doc_wf(es[0].1));
        } else {
            assert(forall|j: int| 0 <= j < es.len() - 1 ==> es.skip(1)[j] == es[j + 1]);
            crate::doc::lemma_skip_mapping_wf(es);
            lemma_wf_value(es.skip(1), k);
        }
    }
}

/// What one keyed LED section must look like, and how a parsed list
/// relates to it: names from keys, order kept.
pub open spec fn leds_ok(es: Seq<(Seq<char>, Doc)>) -> bool {
    forall|i: int| 0 <= i < es.len() ==> led_ok((#[trigger] es[i]).1)
}

pub open spec fn leds_match(v: Seq<Led>, es: Seq<(Seq<char>, Doc)>) -> bool {
    v.len() == es.len() && forall|i: int|
        0 <= i < es.len() ==> led_matches(v[i], (#[trigger] es[i]).0, es[i].1)
}

fn parse_leds(es: &Vec<(String, DocValue)>, path: &str) -> (r: Result<Vec<Led>, SchemaError>)
    ensures
        match r {
            Ok(v) => leds_ok(doc_entries_view(es@)) && leds_match(v@, doc_entries_view(es@)),
            Err(_) => !leds_ok(doc_entries_view(es@)),
        },
{
    let ghost esv = doc_entries_view(es@);
    proof {
        lemma_doc_entries_view_index(es@);
    }
    let mut out: Vec<Led> = Vec::new();
    let mut i: usize = 0;
    while i < es.len()
        invariant
            i <= es@.len(),
            esv == doc_entries_view(es@),
            esv.len() == es@.len(),
            forall|j: int|
                0 <= j < es@.len() ==> #[trigger] esv[j] == (es@[j].0@, doc_view(es@[j].1)),
            out@.len() == i,
            forall|j: int| 0 <= j < i ==> led_ok((#[trigger] esv[j]).1),
            forall|j: int| 0 <= j < i ==> led_matches(out@[j], (#[trigger] esv[j]).0, esv[j].1),
        decreases es@.len() - i,
    {
        let e = &es[i];
        let led = match parse_led(&e.0, &e.1, path) {
            Ok(l) => l,
            Err(err) => {
                proof {
                    assert(!led_ok(esv[i as int].1));
                }
                return Err(err);
            },
        };
        out.push(led);
        i += 1;
    }
    Ok(out)
}

/// The keyed button section.
pub open spec fn buttons_ok(es: Seq<(Seq<char>, Doc)>) -> bool {
    forall|i: int| 0 <= i < es.len() ==> button_ok((#[trigger] es[i]).1)
}

pub open spec fn buttons_match(v: Seq<Button>, es: Seq<(Seq<char>, Doc)>) -> bool {
    v.len() == es.len() && forall|i: int|
        0 <= i < es.len() ==> button_matches(v[i], (#[trigger] es[i]).0, es[i].1)
}

fn parse_buttons(es: &Vec<(String, DocValue)>, path: &str) -> (r: Result<
    Vec<Button>,
    SchemaError,
>)
    ensures
        match r {
            Ok(v) => buttons_ok(doc_entries_view(es@)) && buttons_match(
                v@,
                doc_entries_view(es@),
            ),
            Err(_) => !buttons_ok(doc_entries_view(es@)),
        },
{
    let ghost esv = doc_entries_view(es@);
    proof {
        lemma_doc_entries_view_index(es@);
    }
    let mut out: Vec<Button> = Vec::new();
    let mut i: usize = 0;
    while i < es.len()
        invariant
            i <= es@.len(),
            esv == doc_entries_view(es@),
            esv.len() == es@.len(),
            forall|j: int|
                0 <= j < es@.len() ==> #[trigger] esv[j] == (es@[j].0@, doc_view(es@[j].1)),
            out@.len() == i,
            forall|j: int| 0 <= j < i ==> button_ok((#[trigger] esv[j]).1),
            forall|j: int|
                0 <= j < i ==> button_matches(out@[j], (#[trigger] esv[j]).0, esv[j].1),
        decreases es@.len() - i,
    {
        let e = &es[i];
        let b = match parse_button(&e.0, &e.1, path) {
            Ok(b) => b,
            Err(err) => {
                proof {
                    assert(!button_ok(esv[i as int].1));
                }
                return Err(err);
            },
        };
        out.push(b);
        i += 1;
    }
    Ok(out)
}

/// The keyed UART section: each element's name is its key.
pub open spec fn uarts_ok(es: Seq<(Seq<char>, Doc)>) -> bool {
    forall|i: int| 0 <= i < es.len() ==> uart_ok((#[trigger] es[i]).1)
}

pub open spec fn uarts_match(v: Seq<Uart>, es: Seq<(Seq<char>, Doc)>) -> bool {
    v.len() == es.len() && forall|i: int|
        0 <= i < es.len() ==> uart_matches(v[i], Some((#[trigger] es[i]).0), es[i].1)
}

fn parse_uarts(es: &Vec<(String, DocValue)>, path: &str) -> (r: Result<Vec<Uart>, SchemaError>)
    ensures
        match r {
            Ok(v) => uarts_ok(doc_entries_view(es@)) && uarts_match(v@, doc_entries_view(es@)),
            Err(_) => !uarts_ok(doc_entries_view(es@)),
        },
{
    let ghost esv = doc_entries_view(es@);
    proof {
        lemma_doc_entries_view_index(es@);
    }
    let mut out: Vec<Uart> = Vec::new();
    let mut i: usize = 0;
    while i < es.len()
        invariant
            i <= es@.len(),
            esv == doc_entries_view(es@),
            esv.len() == es@.len(),
            forall|j: int|
                0 <= j < es@.len() ==> #[trigger] esv[j] == (es@[j].0@, doc_view(es@[j].1)),
            out@.len() == i,
            forall|j: int| 0 <= j < i ==> uart_ok((#[trigger] esv[j]).1),
            forall|j: int|
                0 <= j < i ==> uart_matches(out@[j], Some((#[trigger] esv[j]).0), esv[j].1),
        decreases es@.len() - i,
    {
        let e = &es[i];
        let u = match parse_uart(Some(e.0.clone()), &e.1, path) {
            Ok(u) => u,
            Err(err) => {
                proof {
                    assert(!uart_ok(esv[i as int].1));
                }
                return Err(err);
            },
        };
        out.push(u);
        i += 1;
    }
    Ok(out)
}

/// The quirk list of a board: every item a quirk entry.
pub open spec fn quirks_ok(items: Seq<Doc>) -> bool {
    forall|i: int| 0 <= i < items.len() ==> quirk_ok(#[trigger] items[i])
}

/// How the quirk vector relates to the list items, in order.
pub open spec fn quirks_match(v: Seq<Quirk>, items: Seq<Doc>) -> bool {
    v.len() == items.len() && forall|i: int|
        0 <= i < items.len() ==> quirk_matches(v[i], #[trigger] items[i])
}

fn parse_quirks(d: &DocValue, path: &str) -> (r: Result<Vec<Quirk>, SchemaError>)
    ensures
        match r {
            Ok(v) => doc_view(*d) matches Doc::List(items) && quirks_ok(items) && quirks_match(
                v@,
                items,
            ),
            Err(_) => !(doc_view(*d) matches Doc::List(items) && quirks_ok(items)),
        },
{
    let items = match d {
        DocValue::List(items) => items,
        _ => {
            return Err(schema_err(path, "expected a list"));
        },
    };
    let ghost iv = crate::doc::doc_list_view(items@);
    proof {
        crate::doc::lemma_doc_list_view_index(items@);
    }
    let mut out: Vec<Quirk> = Vec::new();
    let mut i: usize = 0;
    while i < items.len()
        invariant
            i <= items@.len(),
            iv == crate::doc::doc_list_view(items@),
            doc_view(*d) == Doc::List(iv),
            iv.len() == items@.len(),
            forall|j: int| 0 <= j < items@.len() ==> iv[j] == doc_view(#[trigger] items@[j]),
            out@.len() == i,
            forall|j: int| 0 <= j < i ==> quirk_ok(#[trigger] iv[j]),
            forall|j: int| 0 <= j < i ==> quirk_matches(out@[j], #[trigger] iv[j]),
        decreases items@.len() - i,
    {
        let q = match parse_quirk(&items[i], path) {
            Ok(q) => q,
            Err(err) => {
                proof {
                    assert(!quirk_ok(iv[i as int]));
                    assert(doc_view(*d) == Doc::List(iv));
                    assert(!quirks_ok(iv));
                }
                return Err(err);
            },
        };
        out.push(q);
        i += 1;
    }
    Ok(out)
}

/// A value that is one string or a list of strings.
pub open spec fn sovs_ok(d: Doc) -> bool {
    match d {
        Doc::Scalar(ScalarV::Str(_)) => true,
        Doc::List(items) => str_list_ok(Doc::List(items)),
        _ => false,
    }
}

pub open spec fn sovs_matches(s: crate::model::StrOrStrs, d: Doc) -> bool {
    match d {
        Doc::Scalar(ScalarV::Str(x)) => s == crate::model::StrOrStrs::One(x),
        Doc::List(items) => s == crate::model::StrOrStrs::Many(str_items(items)),
        _ => false,
    }
}

fn parse_sovs(d: &DocValue, path: &str) -> (r: Result<
    crate::model::StringOrVecString,
    SchemaError,
>)
    ensures
        match r {
            Ok(v) => sovs_ok(doc_view(*d)) && sovs_matches(v.deep_view(), doc_view(*d)),
            Err(_) => !sovs_ok(doc_view(*d)),
        },
{
    match d {
        DocValue::Scalar(ScalarVal::Str(s)) => Ok(
            crate::model::StringOrVecString::String(s.clone()),
        ),
        DocValue::List(_) => {
            let items = parse_str_list(d, path)?;
            Ok(crate::model::StringOrVecString::VecString(items))
        },
        _ => Err(schema_err(path, "expected a string or a list of strings")),
    }
}

/// An environment mapping: every value one string or a list of strings.
pub open spec fn env_ok(ees: Seq<(Seq<char>, Doc)>) -> bool {
    forall|i: int| 0 <= i < ees.len() ==> sovs_ok((#[trigger] ees[i]).1)
}

pub open spec fn env_matches(
    m: Seq<(String, crate::model::StringOrVecString)>,
    ees: Seq<(Seq<char>, Doc)>,
) -> bool {
    m.len() == ees.len() && forall|i: int|
        0 <= i < ees.len() ==> m[i].0@ == (#[trigger] ees[i]).0 && sovs_matches(
            m[i].1.deep_view(),
            ees[i].1,
        )
}

fn parse_env(es: &Vec<(String, DocValue)>, path: &str) -> (r: Result<
    Vec<(String, crate::model::StringOrVecString)>,
    SchemaError,
>)
    ensures
        match r {
            Ok(m) => env_ok(doc_entries_view(es@)) && env_matches(m@, doc_entries_view(es@)),
            Err(_) => !env_ok(doc_entries_view(es@)),
        },
{
    let ghost esv = doc_entries_view(es@);
    proof {
        lemma_doc_entries_view_index(es@);
    }
    let mut out: Vec<(String, crate::model::StringOrVecString)> = Vec::new();
    let mut i: usize = 0;
    while i < es.len()
        invariant
            i <= es@.len(),
            esv == doc_entries_view(es@),
            esv.len() == es@.len(),
            forall|j: int|
                0 <= j < es@.len() ==> #[trigger] esv[j] == (es@[j].0@, doc_view(es@[j].1)),
            out@.len() == i,
            forall|j: int| 0 <= j < i ==> sovs_ok((#[trigger] esv[j]).1),
            forall|j: int|
                0 <= j < i ==> out@[j].0@ == (#[trigger] esv[j]).0 && sovs_matches(
                    out@[j].1.deep_view(),
                    esv[j].1,
                ),
        decreases es@.len() - i,
    {
        let e = &es[i];
        let v = match parse_sovs(&e.1, path) {
            Ok(v) => v,
            Err(err) => {
                proof {
                    assert(!sovs_ok(esv[i as int].1));
                }
                return Err(err);
            },
        };
        out.push((e.0.clone(), v));
        i += 1;
    }
    Ok(out)
}

/// The first backend's per-board extension.
pub open spec fn ariel_ext_ok(aes: Seq<(Seq<char>, Doc)>) -> bool {
    &&& (!has_value(aes, "flags"@) || (kv_get(aes, "flags"@) matches Some(fl) && str_list_ok(fl)))
    &&& (!has_value(aes, "global_env"@) || (kv_get(aes, "global_env"@) matches Some(
        Doc::Mapping(ees),
    ) && env_ok(ees)))
    &&& opt_str_ok(aes, "swi"@)
}

pub open spec fn ariel_ext_flags(aes: Seq<(Seq<char>, Doc)>) -> Seq<Seq<char>> {
    if has_value(aes, "flags"@) {
        match kv_get(aes, "flags"@) {
            Some(Doc::List(items)) => crate::kvmap::strs_insert_all(
                Seq::empty(),
                str_items(items),
            ),
            _ => Seq::empty(),
        }
    } else {
        Seq::empty()
    }
}

pub open spec fn ariel_ext_matches(x: crate::model::ArielBoardExt, aes: Seq<(Seq<char>, Doc)>) -> bool {
    &&& x.flags.deep_view() == ariel_ext_flags(aes)
    &&& (if has_value(aes, "global_env"@) {
        kv_get(aes, "global_env"@) matches Some(Doc::Mapping(ees)) && env_matches(
            x.global_env@,
            ees,
        )
    } else {
        x.global_env@.len() == 0
    })
    &&& opt_str_view(x.swi) == opt_str_val(aes, "swi"@)
}

fn parse_ariel_ext(es: &Vec<(String, DocValue)>, path: &str) -> (r: Result<
    crate::model::ArielBoardExt,
    SchemaError,
>)
    ensures
        match r {
            Ok(x) => ariel_ext_ok(doc_entries_view(es@)) && ariel_ext_matches(
                x,
                doc_entries_view(es@),
            ),
            Err(_) => !ariel_ext_ok(doc_entries_view(es@)),
        },
{
    let flags = if lookup_has(es, "flags") {
        match doc_lookup(es, "flags") {
            Some(fl) => parse_str_set(fl, path)?,
            None => Vec::new(),
        }
    } else {
        Vec::new()
    };
    proof {
        assert(flags.deep_view() =~= ariel_ext_flags(doc_entries_view(es@)));
    }
    let global_env = if lookup_has(es, "global_env") {
        match doc_lookup(es, "global_env") {
            Some(ge) => match doc_entries(ge) {
                Some(ees) => parse_env(ees, path)?,
                None => {
                    return Err(schema_err(path, "expected a mapping"));
                },
            },
            None => Vec::new(),
        }
    } else {
        Vec::new()
    };
    let swi = parse_opt_str(es, "swi", path)?;
    Ok(crate::model::ArielBoardExt { flags, global_env, swi })
}

/// The debugger entry of a board.
pub open spec fn debugger_ok(des: Seq<(Seq<char>, Doc)>) -> bool {
    get_str(des, "type"@) is Some && (!has_value(des, "uart"@) || (kv_get(des, "uart"@) matches
    Some(u) && uart_ok(u)))
}

pub open spec fn debugger_matches(dg: crate::model::Debugger, des: Seq<(Seq<char>, Doc)>) -> bool {
    &&& Some(dg.type_@) == get_str(des, "type"@)
    &&& (if has_value(des, "uart"@) {
        dg.uart matches Some(u) && (kv_get(des, "uart"@) matches Some(ud) && uart_matches(
            u,
            None,
            ud,
        ))
    } else {
        dg.uart is None
    })
}

fn parse_debugger(es: &Vec<(String, DocValue)>, path: &str) -> (r: Result<
    crate::model::Debugger,
    SchemaError,
>)
    ensures
        match r {
            Ok(dg) => debugger_ok(doc_entries_view(es@)) && debugger_matches(
                dg,
                doc_entries_view(es@),
            ),
            Err(_) => !debugger_ok(doc_entries_view(es@)),
        },
{
    let type_ = parse_req_str(es, "type", path)?;
    let uart = if lookup_has(es, "uart") {
        match doc_lookup(es, "uart") {
            Some(ud) => Some(parse_uart(None, ud, path)?),
            None => None,
        }
    } else {
        None
    };
    Ok(crate::model::Debugger { type_, uart })
}

/// A configuration mapping: every value a string.
pub open spec fn config_ok(ces: Seq<(Seq<char>, Doc)>) -> bool {
    forall|i: int| 0 <= i < ces.len() ==> (#[trigger] ces[i]).1 matches Doc::Scalar(
        ScalarV::Str(_),
    )
}

pub open spec fn config_matches(m: Seq<(String, String)>, ces: Seq<(Seq<char>, Doc)>) -> bool {
    m.len() == ces.len() && forall|i: int|
        0 <= i < ces.len() ==> m[i].0@ == (#[trigger] ces[i]).0 && ces[i].1 == Doc::Scalar(
            ScalarV::Str(m[i].1@),
        )
}

fn parse_config(es: &Vec<(String, DocValue)>, path: &str) -> (r: Result<
    Vec<(String, String)>,
    SchemaError,
>)
    ensures
        match r {
            Ok(m) => config_ok(doc_entries_view(es@)) && config_matches(
                m@,
                doc_entries_view(es@),
            ) && (crate::doc::entries_sorted(doc_entries_view(es@))
                ==> crate::kvmap::kv_sorted(crate::kvmap::kv_view(m@))),
            Err(_) => !config_ok(doc_entries_view(es@)),
        },
{
    let ghost esv = doc_entries_view(es@);
    proof {
        lemma_doc_entries_view_index(es@);
    }
    let mut out: Vec<(String, String)> = Vec::new();
    let mut i: usize = 0;
    while i < es.len()
        invariant
            i <= es@.len(),
            esv == doc_entries_view(es@),
            esv.len() == es@.len(),
            forall|j: int|
                0 <= j < es@.len() ==> #[trigger] esv[j] == (es@[j].0@, doc_view(es@[j].1)),
            out@.len() == i,
            forall|j: int|
                0 <= j < i ==> (#[trigger] esv[j]).1 matches Doc::Scalar(ScalarV::Str(_)),
            forall|j: int|
                0 <= j < i ==> out@[j].0@ == (#[trigger] esv[j]).0 && esv[j].1 == Doc::Scalar(
                    ScalarV::Str(out@[j].1@),
                ),
        decreases es@.len() - i,
    {
        let e = &es[i];
        match &e.1 {
            DocValue::Scalar(ScalarVal::Str(s)) => {
                out.push((e.0.clone(), s.clone()));
            },
            _ => {
                proof {
                    assert(esv[i as int].1 == doc_view(es@[i as int].1));
                    assert(!(esv[i as int].1 matches Doc::Scalar(ScalarV::Str(_))));
                }
                return Err(schema_err(path, "expected a string value"));
            },
        }
        i += 1;
    }
    proof {
        crate::kvmap::lemma_kv_view_index(out@);
        if crate::doc::entries_sorted(esv) {
            assert forall|a: int, b: int|
                0 <= a < b < crate::kvmap::kv_view(out@).len() implies crate::strutil::lex_lt(
                crate::kvmap::kv_view(out@)[a].0,
                crate::kvmap::kv_view(out@)[b].0,
            ) by {
                assert(crate::kvmap::kv_view(out@)[a].0 == esv[a].0);
                assert(crate::kvmap::kv_view(out@)[b].0 == esv[b].0);
            }
        }
    }
    Ok(out)
}

/// One UART peripheral declaration of a chip.
pub open spec fn up_ok(d: Doc) -> bool {
    match doc_map_of(d) {
        Some(pes) => (!has_value(pes, "config"@) || (kv_get(pes, "config"@) matches Some(
            Doc::Mapping(ces),
        ) && config_ok(ces))) && opt_str_ok(pes, "isr"@),
        None => false,
    }
}

pub open spec fn up_matches(u: crate::model::RiotChipUartPeripheral, d: Doc) -> bool {
    match doc_map_of(d) {
        Some(pes) => {
            &&& (if has_value(pes, "config"@) {
                kv_get(pes, "config"@) matches Some(Doc::Mapping(ces)) && config_matches(
                    u.config@,
                    ces,
                )
            } else {
                u.config@.len() == 0
            })
            &&& opt_str_view(u.isr) == opt_str_val(pes, "isr"@)
        },
        None => false,
    }
}

/// Whether a peripheral's configuration map is sorted, where the entry it
/// was read from is well-formed.
pub open spec fn up_cfg_sorted(u: crate::model::RiotChipUartPeripheral) -> bool {
    crate::kvmap::kv_sorted(crate::kvmap::kv_view(u.config@))
}

fn parse_up(d: &DocValue, path: &str) -> (r: Result<
    crate::model::RiotChipUartPeripheral,
    SchemaError,
>)
    ensures
        match r {
            Ok(u) => up_ok(doc_view(*d)) && up_matches(u, doc_view(*d)) && (doc_wf(doc_view(*d))
                ==> up_cfg_sorted(u)),
            Err(_) => !up_ok(doc_view(*d)),
        },
{
    let es = match doc_entries(d) {
        Some(es) => es,
        None => {
            return Err(schema_err(path, "expected a mapping"));
        },
    };
    let config = if lookup_has(es, "config") {
        match doc_lookup(es, "config") {
            Some(cd) => match doc_entries(cd) {
                Some(ces) => {
                    let m = parse_config(ces, path)?;
                    proof {
                        if doc_wf(doc_view(*d)) {
                            lemma_wf_value(doc_entries_view(es@), "config"@);
                            assert(doc_wf(doc_view(*cd)));
                            assert(crate::doc::entries_sorted(doc_entries_view(ces@)));
                        }
                    }
                    m
                },
                None => {
                    return Err(schema_err(path, "expected a mapping"));
                },
            },
            None => Vec::new(),
        }
    } else {
        Vec::new()
    };
    proof {
        if config@.len() == 0 {
            crate::kvmap::lemma_kv_view_index(config@);
        }
    }
    let isr = parse_opt_str(es, "isr", path)?;
    Ok(crate::model::RiotChipUartPeripheral { config, isr })
}

/// The UART pool of a chip, keyed by instance name.
pub open spec fn pool_ok(pes: Seq<(Seq<char>, Doc)>) -> bool {
    forall|i: int| 0 <= i < pes.len() ==> up_ok((#[trigger] pes[i]).1)
}

pub open spec fn pool_matches(
    p: Seq<(String, crate::model::RiotChipUartPeripheral)>,
    pes: Seq<(Seq<char>, Doc)>,
) -> bool {
    p.len() == pes.len() && forall|i: int|
        0 <= i < pes.len() ==> p[i].0@ == (#[trigger] pes[i]).0 && up_matches(p[i].1, pes[i].1)
}

fn parse_pool(es: &Vec<(String, DocValue)>, path: &str) -> (r: Result<
    Vec<(String, crate::model::RiotChipUartPeripheral)>,
    SchemaError,
>)
    ensures
        match r {
            Ok(p) => pool_ok(doc_entries_view(es@)) && pool_matches(p@, doc_entries_view(es@))
                && (doc_wf(Doc::Mapping(doc_entries_view(es@))) ==> forall|i: int|
                0 <= i < p@.len() ==> up_cfg_sorted((#[trigger] p@[i]).1)),
            Err(_) => !pool_ok(doc_entries_view(es@)),
        },
{
    let ghost esv = doc_entries_view(es@);
    proof {
        lemma_doc_entries_view_index(es@);
        crate::doc::lemma_entries_vals_wf_iff(esv);
    }
    let mut out: Vec<(String, crate::model::RiotChipUartPeripheral)> = Vec::new();
    let mut i: usize = 0;
    while i < es.len()
        invariant
            i <= es@.len(),
            esv == doc_entries_view(es@),
            esv.len() == es@.len(),
            forall|j: int|
                0 <= j < es@.len() ==> #[trigger] esv[j] == (es@[j].0@, doc_view(es@[j].1)),
            out@.len() == i,
            forall|j: int| 0 <= j < i ==> up_ok((#[trigger] esv[j]).1),
            forall|j: int|
                0 <= j < i ==> out@[j].0@ == (#[trigger] esv[j]).0 && up_matches(
                    out@[j].1,
                    esv[j].1,
                ),
            forall|j: int|
                0 <= j < i && doc_wf(Doc::Mapping(esv)) ==> up_cfg_sorted(
                    (#[trigger] out@[j]).1,
                ),
        decreases es@.len() - i,
    {
        let e = &es[i];
        let u = match parse_up(&e.1, path) {
            Ok(u) => u,
            Err(err) => {
                proof {
                    assert(!up_ok(esv[i as int].1));
                }
                return Err(err);
            },
        };
        proof {
            if doc_wf(Doc::Mapping(esv)) {
                crate::doc::lemma_entries_vals_wf_iff(esv);
                assert(doc_wf(esv[i as int].1));
            }
        }
        out.push((e.0.clone(), u));
        i += 1;
    }
    Ok(out)
}

/// A snippet quirk entry of a chip.
pub open spec fn qirk_ok(d: Doc) -> bool {
    match doc_map_of(d) {
        Some(qes) => !has_value(qes, "body"@) || (kv_get(qes, "body"@) matches Some(bl)
            && str_list_ok(bl)),
        None => false,
    }
}

pub open spec fn qirk_matches(q: crate::model::RiotQirkEntry, d: Doc) -> bool {
    match doc_map_of(d) {
        Some(qes) => if has_value(qes, "body"@) {
            kv_get(qes, "body"@) matches Some(Doc::List(items)) && q.body.deep_view()
                == str_items(items)
        } else {
            q.body@.len() == 0
        },
        None => false,
    }
}

fn parse_qirk(d: &DocValue, path: &str) -> (r: Result<crate::model::RiotQirkEntry, SchemaError>)
    ensures
        match r {
            Ok(q) => qirk_ok(doc_view(*d)) && qirk_matches(q, doc_view(*d)),
            Err(_) => !qirk_ok(doc_view(*d)),
        },
{
    let es = match doc_entries(d) {
        Some(es) => es,
        None => {
            return Err(schema_err(path, "expected a mapping"));
        },
    };
    let body = if lookup_has(es, "body") {
        match doc_lookup(es, "body") {
            Some(bl) => parse_str_list(bl, path)?,
            None => Vec::new(),
        }
    } else {
        Vec::new()
    };
    proof {
        if body@.len() == 0 {
            assert(body.deep_view() =~= Seq::<Seq<char>>::empty());
        }
    }
    Ok(crate::model::RiotQirkEntry { body })
}

/// The filename-keyed quirk map of a chip.
pub open spec fn chip_quirks_ok(qes: Seq<(Seq<char>, Doc)>) -> bool {
    forall|i: int| 0 <= i < qes.len() ==> qirk_ok((#[trigger] qes[i]).1)
}

pub open spec fn chip_quirks_match(
    m: Seq<(String, crate::model::RiotQirkEntry)>,
    qes: Seq<(Seq<char>, Doc)>,
) -> bool {
    m.len() == qes.len() && forall|i: int|
        0 <= i < qes.len() ==> m[i].0@ == (#[trigger] qes[i]).0 && qirk_matches(
            m[i].1,
            qes[i].1,
        )
}

fn parse_chip_quirks(es: &Vec<(String, DocValue)>, path: &str) -> (r: Result<
    Vec<(String, crate::model::RiotQirkEntry)>,
    SchemaError,
>)
    ensures
        match r {
            Ok(m) => chip_quirks_ok(doc_entries_view(es@)) && chip_quirks_match(
                m@,
                doc_entries_view(es@),
            ),
            Err(_) => !chip_quirks_ok(doc_entries_view(es@)),
        },
{
    let ghost esv = doc_entries_view(es@);
    proof {
        lemma_doc_entries_view_index(es@);
    }
    let mut out: Vec<(String, crate::model::RiotQirkEntry)> = Vec::new();
    let mut i: usize = 0;
    while i < es.len()
        invariant
            i <= es@.len(),
            esv == doc_entries_view(es@),
            esv.len() == es@.len(),
            forall|j: int|
                0 <= j < es@.len() ==> #[trigger] esv[j] == (es@[j].0@, doc_view(es@[j].1)),
            out@.len() == i,
            forall|j: int| 0 <= j < i ==> qirk_ok((#[trigger] esv[j]).1),
            forall|j: int|
                0 <= j < i ==> out@[j].0@ == (#[trigger] esv[j]).0 && qirk_matches(
                    out@[j].1,
                    esv[j].1,
                ),
        decreases es@.len() - i,
    {
        let e = &es[i];
        let q = match parse_qirk(&e.1, path) {
            Ok(q) => q,
            Err(err) => {
                proof {
                    assert(!qirk_ok(esv[i as int].1));
                }
                return Err(err);
            },
        };
        out.push((e.0.clone(), q));
        i += 1;
    }
    Ok(out)
}

/// One chip entry of the second backend's catalog.
pub open spec fn chip_entry_ok(d: Doc) -> bool {
    match doc_map_of(d) {
        Some(ces) => {
            &&& get_str(ces, "cpu"@) is Some
            &&& get_str(ces, "cpu_model"@) is Some
            &&& (!has_value(ces, "quirks"@) || (kv_get(ces, "quirks"@) matches Some(
                Doc::Mapping(qes),
            ) && chip_quirks_ok(qes)))
            &&& (!has_value(ces, "peripherals"@) || (kv_get(ces, "peripherals"@) matches Some(
                Doc::Mapping(pes),
            ) && (!has_value(pes, "uarts"@) || (kv_get(pes, "uarts"@) matches Some(
                Doc::Mapping(ues),
            ) && pool_ok(ues)))))
        },
        None => false,
    }
}

pub open spec fn chip_entry_matches(e: crate::model::RiotChipMapEntry, d: Doc) -> bool {
    match doc_map_of(d) {
        Some(ces) => {
            &&& Some(e.cpu@) == get_str(ces, "cpu"@)
            &&& Some(e.cpu_model@) == get_str(ces, "cpu_model"@)
            &&& (if has_value(ces, "quirks"@) {
                kv_get(ces, "quirks"@) matches Some(Doc::Mapping(qes)) && chip_quirks_match(
                    e.quirks@,
                    qes,
                )
            } else {
                e.quirks@.len() == 0
            })
            &&& (if has_value(ces, "peripherals"@) {
                e.peripherals matches Some(p) && (kv_get(ces, "peripherals"@) matches Some(
                    Doc::Mapping(pes),
                ) && (if has_value(pes, "uarts"@) {
                    kv_get(pes, "uarts"@) matches Some(Doc::Mapping(ues)) && pool_matches(
                        p.uarts@,
                        ues,
                    )
                } else {
                    p.uarts@.len() == 0
                }))
            } else {
                e.peripherals is None
            })
        },
        None => false,
    }
}

fn parse_chip_entry(d: &DocValue, path: &str) -> (r: Result<
    crate::model::RiotChipMapEntry,
    SchemaError,
>)
    ensures
        match r {
            Ok(e) => chip_entry_ok(doc_view(*d)) && chip_entry_matches(e, doc_view(*d)) && (
            doc_wf(doc_view(*d)) ==> crate::riot::spec_chip_cfgs_sorted(e)),
            Err(_) => !chip_entry_ok(doc_view(*d)),
        },
{
    let es = match doc_entries(d) {
        Some(es) => es,
        None => {
            return Err(schema_err(path, "expected a mapping"));
        },
    };
    let cpu = parse_req_str(es, "cpu", path)?;
    let cpu_model = parse_req_str(es, "cpu_model", path)?;
    let quirks = if lookup_has(es, "quirks") {
        match doc_lookup(es, "quirks") {
            Some(qd) => match doc_entries(qd) {
                Some(qes) => parse_chip_quirks(qes, path)?,
                None => {
                    return Err(schema_err(path, "expected a mapping"));
                },
            },
            None => Vec::new(),
        }
    } else {
        Vec::new()
    };
    let peripherals = if lookup_has(es, "peripherals") {
        match doc_lookup(es, "peripherals") {
            Some(pd) => match doc_entries(pd) {
                Some(pes) => {
                    let uarts = if lookup_has(pes, "uarts") {
                        match doc_lookup(pes, "uarts") {
                            Some(ud) => match doc_entries(ud) {
                                Some(ues) => {
                                    let p = parse_pool(ues, path)?;
                                    proof {
                                        if doc_wf(doc_view(*d)) {
                                            lemma_wf_value(
                                                doc_entries_view(es@),
                                                "peripherals"@,
                                            );
                                            lemma_wf_value(
                                                doc_entries_view(pes@),
                                                "uarts"@,
                                            );
                                            assert(doc_wf(doc_view(*ud)));
                                        }
                                    }
                                    p
                                },
                                None => {
                                    return Err(schema_err(path, "expected a mapping"));
                                },
                            },
                            None => Vec::new(),
                        }
                    } else {
                        Vec::new()
                    };
                    Some(crate::model::RiotChipPeripherals { uarts })
                },
                None => {
                    return Err(schema_err(path, "expected a mapping"));
                },
            },
            None => None,
        }
    } else {
        None
    };
    let e = crate::model::RiotChipMapEntry { cpu, cpu_model, quirks, peripherals };
    proof {
        if doc_wf(doc_view(*d)) {
            assert forall|i: int|
                0 <= i < crate::riot::spec_pool_of(e).len() implies crate::kvmap::kv_sorted(
                crate::kvmap::kv_view(
                    (#[trigger] crate::riot::spec_pool_of(e)[i]).1.config@,
                ),
            ) by {
                assert(up_cfg_sorted(crate::riot::spec_pool_of(e)[i].1));
            }
        }
    }
    Ok(e)
}

/// The name-keyed chip catalog of the second backend.
pub open spec fn catalog_ok(ces: Seq<(Seq<char>, Doc)>) -> bool {
    forall|i: int| 0 <= i < ces.len() ==> chip_entry_ok((#[trigger] ces[i]).1)
}

pub open spec fn catalog_matches(
    c: Seq<(String, crate::model::RiotChipMapEntry)>,
    ces: Seq<(Seq<char>, Doc)>,
) -> bool {
    c.len() == ces.len() && forall|i: int|
        0 <= i < ces.len() ==> c[i].0@ == (#[trigger] ces[i]).0 && chip_entry_matches(
            c[i].1,
            ces[i].1,
        )
}

fn parse_catalog(es: &Vec<(String, DocValue)>, path: &str) -> (r: Result<
    Vec<(String, crate::model::RiotChipMapEntry)>,
    SchemaError,
>)
    ensures
        match r {
            Ok(c) => catalog_ok(doc_entries_view(es@)) && catalog_matches(
                c@,
                doc_entries_view(es@),
            ) && (doc_wf(Doc::Mapping(doc_entries_view(es@))) ==> forall|i: int|
                0 <= i < c@.len() ==> crate::riot::spec_chip_cfgs_sorted(
                    (#[trigger] c@[i]).1,
                )),
            Err(_) => !catalog_ok(doc_entries_view(es@)),
        },
{
    let ghost esv = doc_entries_view(es@);
    proof {
        lemma_doc_entries_view_index(es@);
    }
    let mut out: Vec<(String, crate::model::RiotChipMapEntry)> = Vec::new();
    let mut i: usize = 0;
    while i < es.len()
        invariant
            i <= es@.len(),
            esv == doc_entries_view(es@),
            esv.len() == es@.len(),
            forall|j: int|
                0 <= j < es@.len() ==> #[trigger] esv[j] == (es@[j].0@, doc_view(es@[j].1)),
            out@.len() == i,
            forall|j: int| 0 <= j < i ==> chip_entry_ok((#[trigger] esv[j]).1),
            forall|j: int|
                0 <= j < i ==> out@[j].0@ == (#[trigger] esv[j]).0 && chip_entry_matches(
                    out@[j].1,
                    esv[j].1,
                ),
            forall|j: int|
                0 <= j < i && doc_wf(Doc::Mapping(esv)) ==> crate::riot::spec_chip_cfgs_sorted(
                    (#[trigger] out@[j]).1,
                ),
        decreases es@.len() - i,
    {
        let e = &es[i];
        let entry = match parse_chip_entry(&e.1, path) {
            Ok(entry) => entry,
            Err(err) => {
                proof {
                    assert(!chip_entry_ok(esv[i as int].1));
                }
                return Err(err);
            },
        };
        proof {
            if doc_wf(Doc::Mapping(esv)) {
                crate::doc::lemma_entries_vals_wf_iff(esv);
                assert(doc_wf(esv[i as int].1));
            }
        }
        out.push((e.0.clone(), entry));
        i += 1;
    }
    Ok(out)
}

/// The second backend's section: its chip catalog, which it must declare.
pub open spec fn riot_ok(d: Doc) -> bool {
    match doc_map_of(d) {
        Some(res) => kv_get(res, "chips"@) matches Some(Doc::Mapping(ces)) && catalog_ok(ces),
        None => false,
    }
}

pub open spec fn riot_matches(r: crate::model::Riot, d: Doc) -> bool {
    match doc_map_of(d) {
        Some(res) => kv_get(res, "chips"@) matches Some(Doc::Mapping(ces)) && catalog_matches(
            r.chips@,
            ces,
        ),
        None => false,
    }
}

fn parse_riot(d: &DocValue, path: &str) -> (r: Result<crate::model::Riot, SchemaError>)
    ensures
        match r {
            Ok(rr) => riot_ok(doc_view(*d)) && riot_matches(rr, doc_view(*d)) && (doc_wf(
                doc_view(*d),
            ) ==> forall|i: int|
                0 <= i < rr.chips@.len() ==> crate::riot::spec_chip_cfgs_sorted(
                    (#[trigger] rr.chips@[i]).1,
                )),
            Err(_) => !riot_ok(doc_view(*d)),
        },
{
    let es = match doc_entries(d) {
        Some(es) => es,
        None => {
            return Err(schema_err(path, "expected a mapping"));
        },
    };
    match doc_lookup(es, "chips") {
        Some(cd) => match doc_entries(cd) {
            Some(ces) => {
                let chips = parse_catalog(ces, path)?;
                proof {
                    if doc_wf(doc_view(*d)) {
                        lemma_wf_value(doc_entries_view(es@), "chips"@);
                        assert(doc_wf(doc_view(*cd)));
                    }
                }
                Ok(crate::model::Riot { chips })
            },
            None => Err(schema_err(path, "expected a mapping of chips")),
        },
        None => Err(schema_err(path, "missing chip catalog")),
    }
}

/// The first backend's section: the chips it supports, where it says.
pub open spec fn ariel_sec_ok(d: Doc) -> bool {
    match doc_map_of(d) {
        Some(aes) => !has_value(aes, "chips"@) || (kv_get(aes, "chips"@) matches Some(cl)
            && str_list_ok(cl)),
        None => false,
    }
}

pub open spec fn ariel_sec_matches(a: crate::model::Ariel, d: Doc) -> bool {
    match doc_map_of(d) {
        Some(aes) => if has_value(aes, "chips"@) {
            a.chips matches Some(v) && (kv_get(aes, "chips"@) matches Some(Doc::List(items))
                && v.deep_view() == str_items(items))
        } else {
            a.chips is None
        },
        None => false,
    }
}

fn parse_ariel_sec(d: &DocValue, path: &str) -> (r: Result<crate::model::Ariel, SchemaError>)
    ensures
        match r {
            Ok(a) => ariel_sec_ok(doc_view(*d)) && ariel_sec_matches(a, doc_view(*d)),
            Err(_) => !ariel_sec_ok(doc_view(*d)),
        },
{
    let es = match doc_entries(d) {
        Some(es) => es,
        None => {
            return Err(schema_err(path, "expected a mapping"));
        },
    };
    let chips = if lookup_has(es, "chips") {
        match doc_lookup(es, "chips") {
            Some(cl) => Some(parse_str_list(cl, path)?),
            None => None,
        }
    } else {
        None
    };
    Ok(crate::model::Ariel { chips })
}

/// One board entry: its chip is required; everything else is optional and
/// defaults to nothing.
pub open spec fn board_ok(d: Doc) -> bool {
    match doc_map_of(d) {
        Some(es) => {
            &&& get_str(es, "chip"@) is Some
            &&& opt_str_ok(es, "description"@)
            &&& (!has_value(es, "flags"@) || (kv_get(es, "flags"@) matches Some(fl)
                && str_list_ok(fl)))
            &&& (!has_value(es, "quirks"@) || (kv_get(es, "quirks"@) matches Some(
                Doc::List(items),
            ) && quirks_ok(items)))
            &&& (!has_value(es, "ariel"@) || (kv_get(es, "ariel"@) matches Some(
                Doc::Mapping(aes),
            ) && ariel_ext_ok(aes)))
            &&& (!has_value(es, "riot"@) || kv_get(es, "riot"@) matches Some(Doc::Mapping(_)))
            &&& (!has_value(es, "debugger"@) || (kv_get(es, "debugger"@) matches Some(
                Doc::Mapping(des),
            ) && debugger_ok(des)))
            &&& (!has_value(es, "leds"@) || (kv_get(es, "leds"@) matches Some(Doc::Mapping(les))
                && leds_ok(les)))
            &&& (!has_value(es, "buttons"@) || (kv_get(es, "buttons"@) matches Some(
                Doc::Mapping(bes),
            ) && buttons_ok(bes)))
            &&& (!has_value(es, "uarts"@) || (kv_get(es, "uarts"@) matches Some(
                Doc::Mapping(ues),
            ) && uarts_ok(ues)))
        },
        None => false,
    }
}

/// The flag set a board entry declares.
pub open spec fn board_flags(es: Seq<(Seq<char>, Doc)>) -> Seq<Seq<char>> {
    if has_value(es, "flags"@) {
        match kv_get(es, "flags"@) {
            Some(Doc::List(items)) => crate::kvmap::strs_insert_all(
                Seq::empty(),
                str_items(items),
            ),
            _ => Seq::empty(),
        }
    } else {
        Seq::empty()
    }
}

pub open spec fn board_matches(b: Board, key: Seq<char>, d: Doc) -> bool {
    match doc_map_of(d) {
        Some(es) => {
            &&& b.name@ == key
            &&& Some(b.chip@) == get_str(es, "chip"@)
            &&& opt_str_view(b.description) == opt_str_val(es, "description"@)
            &&& b.flags.deep_view() == board_flags(es)
            &&& (if has_value(es, "quirks"@) {
                kv_get(es, "quirks"@) matches Some(Doc::List(items)) && quirks_match(
                    b.quirks@,
                    items,
                )
            } else {
                b.quirks@.len() == 0
            })
            &&& (if has_value(es, "ariel"@) {
                kv_get(es, "ariel"@) matches Some(Doc::Mapping(aes)) && ariel_ext_matches(
                    b.ariel,
                    aes,
                )
            } else {
                b.ariel.flags@.len() == 0 && b.ariel.global_env@.len() == 0 && b.ariel.swi
                    is None
            })
            &&& (if has_value(es, "debugger"@) {
                b.debugger matches Some(dg) && (kv_get(es, "debugger"@) matches Some(
                    Doc::Mapping(des),
                ) && debugger_matches(dg, des))
            } else {
                b.debugger is None
            })
            &&& (if has_value(es, "leds"@) {
                b.leds matches Some(v) && (kv_get(es, "leds"@) matches Some(Doc::Mapping(les))
                    && leds_match(v@, les))
            } else {
                b.leds is None
            })
            &&& (if has_value(es, "buttons"@) {
                b.buttons matches Some(v) && (kv_get(es, "buttons"@) matches Some(
                    Doc::Mapping(bes),
                ) && buttons_match(v@, bes))
            } else {
                b.buttons is None
            })
            &&& (if has_value(es, "uarts"@) {
                b.uarts matches Some(v) && (kv_get(es, "uarts"@) matches Some(Doc::Mapping(ues))
                    && uarts_match(v@, ues))
            } else {
                b.uarts is None
            })
        },
        None => false,
    }
}

fn parse_board(key: &String, d: &DocValue, path: &str) -> (r: Result<Board, SchemaError>)
    ensures
        match r {
            Ok(b) => board_ok(doc_view(*d)) && board_matches(b, key@, doc_view(*d)),
            Err(_) => !board_ok(doc_view(*d)),
        },
{
    let es = match doc_entries(d) {
        Some(es) => es,
        None => {
            return Err(schema_err(path, "expected a mapping"));
        },
    };
    let chip = parse_req_str(es, "chip", path)?;
    let description = parse_opt_str(es, "description", path)?;
    let flags = if lookup_has(es, "flags") {
        match doc_lookup(es, "flags") {
            Some(fl) => parse_str_set(fl, path)?,
            None => Vec::new(),
        }
    } else {
        Vec::new()
    };
    proof {
        assert(flags.deep_view() =~= board_flags(doc_entries_view(es@)));
    }
    let quirks = if lookup_has(es, "quirks") {
        match doc_lookup(es, "quirks") {
            Some(qd) => parse_quirks(qd, path)?,
            None => Vec::new(),
        }
    } else {
        Vec::new()
    };
    let ariel = if lookup_has(es, "ariel") {
        match doc_lookup(es, "ariel") {
            Some(ad) => match doc_entries(ad) {
                Some(aes) => parse_ariel_ext(aes, path)?,
                None => {
                    return Err(schema_err(path, "expected a mapping"));
                },
            },
            None => crate::model::ArielBoardExt {
                flags: Vec::new(),
                global_env: Vec::new(),
                swi: None,
            },
        }
    } else {
        crate::model::ArielBoardExt { flags: Vec::new(), global_env: Vec::new(), swi: None }
    };
    proof {
        if !has_value(doc_entries_view(es@), "ariel"@) {
            assert(ariel.flags.deep_view() =~= ariel_ext_flags(
                Seq::<(Seq<char>, Doc)>::empty(),
            ));
        }
    }
    if lookup_has(es, "riot") {
        match doc_lookup(es, "riot") {
            Some(DocValue::Mapping(_)) => {
            },
            _ => {
                return Err(schema_err(path, "expected a mapping"));
            },
        }
    }
    let debugger = if lookup_has(es, "debugger") {
        match doc_lookup(es, "debugger") {
            Some(dd) => match doc_entries(dd) {
                Some(des) => Some(parse_debugger(des, path)?),
                None => {
                    return Err(schema_err(path, "expected a mapping"));
                },
            },
            None => None,
        }
    } else {
        None
    };
    let leds = if lookup_has(es, "leds") {
        match doc_lookup(es, "leds") {
            Some(ld) => match doc_entries(ld) {
                Some(les) => Some(parse_leds(les, path)?),
                None => {
                    return Err(schema_err(path, "expected a mapping"));
                },
            },
            None => None,
        }
    } else {
        None
    };
    let buttons = if lookup_has(es, "buttons") {
        match doc_lookup(es, "buttons") {
            Some(bd) => match doc_entries(bd) {
                Some(bes) => Some(parse_buttons(bes, path)?),
                None => {
                    return Err(schema_err(path, "expected a mapping"));
                },
            },
            None => None,
        }
    } else {
        None
    };
    let uarts = if lookup_has(es, "uarts") {
        match doc_lookup(es, "uarts") {
            Some(ud) => match doc_entries(ud) {
                Some(ues) => Some(parse_uarts(ues, path)?),
                None => {
                    return Err(schema_err(path, "expected a mapping"));
                },
            },
            None => None,
        }
    } else {
        None
    };
    Ok(
        Board {
            name: key.clone(),
            chip,
            description,
            flags,
            quirks,
            ariel,
            riot: crate::model::RiotBoardExt {  },
            debugger,
            leds,
            buttons,
            uarts,
        },
    )
}

/// The name-keyed board section.
pub open spec fn boards_ok(bes: Seq<(Seq<char>, Doc)>) -> bool {
    forall|i: int| 0 <= i < bes.len() ==> board_ok((#[trigger] bes[i]).1)
}

pub open spec fn boards_match(v: Seq<Board>, bes: Seq<(Seq<char>, Doc)>) -> bool {
    v.len() == bes.len() && forall|i: int|
        0 <= i < bes.len() ==> board_matches(v[i], (#[trigger] bes[i]).0, bes[i].1)
}

fn parse_boards(es: &Vec<(String, DocValue)>, path: &str) -> (r: Result<Vec<Board>, SchemaError>)
    ensures
        match r {
            Ok(v) => boards_ok(doc_entries_view(es@)) && boards_match(
                v@,
                doc_entries_view(es@),
            ),
            Err(_) => !boards_ok(doc_entries_view(es@)),
        },
{
    let ghost esv = doc_entries_view(es@);
    proof {
        lemma_doc_entries_view_index(es@);
    }
    let mut out: Vec<Board> = Vec::new();
    let mut i: usize = 0;
    while i < es.len()
        invariant
            i <= es@.len(),
            esv == doc_entries_view(es@),
            esv.len() == es@.len(),
            forall|j: int|
                0 <= j < es@.len() ==> #[trigger] esv[j] == (es@[j].0@, doc_view(es@[j].1)),
            out@.len() == i,
            forall|j: int| 0 <= j < i ==> board_ok((#[trigger] esv[j]).1),
            forall|j: int|
                0 <= j < i ==> board_matches(out@[j], (#[trigger] esv[j]).0, esv[j].1),
        decreases es@.len() - i,
    {
        let e = &es[i];
        let b = match parse_board(&e.0, &e.1, path) {
            Ok(b) => b,
            Err(err) => {
                proof {
                    assert(!board_ok(esv[i as int].1));
                }
                return Err(err);
            },
        };
        out.push(b);
        i += 1;
    }
    Ok(out)
}

/// The whole merged document.
pub open spec fn sbd_ok(d: Doc) -> bool {
    match doc_map_of(d) {
        Some(ses) => {
            &&& opt_str_ok(ses, "description"@)
            &&& (!has_value(ses, "boards"@) || (kv_get(ses, "boards"@) matches Some(
                Doc::Mapping(bes),
            ) && boards_ok(bes)))
            &&& (!has_value(ses, "ariel"@) || (kv_get(ses, "ariel"@) matches Some(ad)
                && ariel_sec_ok(ad)))
            &&& (!has_value(ses, "riot"@) || (kv_get(ses, "riot"@) matches Some(rd) && riot_ok(
                rd,
            )))
        },
        None => false,
    }
}

pub open spec fn sbd_matches(s: crate::model::SbdFile, d: Doc) -> bool {
    match doc_map_of(d) {
        Some(ses) => {
            &&& opt_str_view(s.description) == opt_str_val(ses, "description"@)
            &&& (if has_value(ses, "boards"@) {
                s.boards matches Some(v) && (kv_get(ses, "boards"@) matches Some(
                    Doc::Mapping(bes),
                ) && boards_match(v@, bes))
            } else {
                s.boards is None
            })
            &&& (if has_value(ses, "ariel"@) {
                s.ariel matches Some(a) && (kv_get(ses, "ariel"@) matches Some(ad)
                    && ariel_sec_matches(a, ad))
            } else {
                s.ariel is None
            })
            &&& (if has_value(ses, "riot"@) {
                s.riot matches Some(rr) && (kv_get(ses, "riot"@) matches Some(rd)
                    && riot_matches(rr, rd))
            } else {
                s.riot is None
            })
        },
        None => false,
    }
}

/// Builds the board model from a merged document: the keyed-list sections
/// come out ordered by name, and every name-keyed map of the model is in
/// the document's own sorted order.  Succeeds exactly on a well-shaped
/// document.
pub fn sbd_from_doc(d: &Document) -> (r: Result<crate::model::SbdFile, SchemaError>)
    ensures
        match r {
            Ok(s) => sbd_ok(d@) && sbd_matches(s, d@) && (s.riot matches Some(rr)
                ==> forall|i: int|
                0 <= i < rr.chips@.len() ==> crate::riot::spec_chip_cfgs_sorted(
                    (#[trigger] rr.chips@[i]).1,
                )),
            Err(_) => !sbd_ok(d@),
        },
{
    let dv = d.as_value();
    let es = match doc_entries(dv) {
        Some(es) => es,
        None => {
            return Err(schema_err("document", "expected a mapping"));
        },
    };
    let description = parse_opt_str(es, "description", "document")?;
    let boards = if lookup_has(es, "boards") {
        match doc_lookup(es, "boards") {
            Some(bd) => match doc_entries(bd) {
                Some(bes) => Some(parse_boards(bes, "boards")?),
                None => {
                    return Err(schema_err("boards", "expected a mapping"));
                },
            },
            None => None,
        }
    } else {
        None
    };
    let ariel = if lookup_has(es, "ariel") {
        match doc_lookup(es, "ariel") {
            Some(ad) => Some(parse_ariel_sec(ad, "ariel")?),
            None => None,
        }
    } else {
        None
    };
    let riot = if lookup_has(es, "riot") {
        match doc_lookup(es, "riot") {
            Some(rd) => {
                let rr = parse_riot(rd, "riot")?;
                proof {
                    lemma_wf_value(crate::doc::doc_entries_view(es@), "riot"@);
                    assert(doc_wf(doc_view(*rd)));
                }
                Some(rr)
            },
            None => None,
        }
    } else {
        None
    };
    Ok(crate::model::SbdFile { description, boards, ariel, riot })
}

/// Elements that carry the keys of a sorted mapping as their names, in
/// entry order, come out in strictly ascending name order: what the
/// keyed-list conversion of any section (boards, LEDs, buttons, UARTs)
/// yields, independent of any iteration order an input producer used.
pub proof fn lemma_keyed_names_sorted(names: Seq<Seq<char>>, es: Seq<(Seq<char>, Doc)>)
    requires
        crate::doc::entries_sorted(es),
        names.len() == es.len(),
        forall|i: int| 0 <= i < es.len() ==> names[i] == (#[trigger] es[i]).0,
    ensures
        forall|i: int, j: int|
            0 <= i < j < names.len() ==> crate::strutil::lex_lt(names[i], names[j]),
{
    assert forall|i: int, j: int|
        0 <= i < j < names.len() implies crate::strutil::lex_lt(names[i], names[j]) by {
        assert(names[i] == es[i].0);
        assert(names[j] == es[j].0);
    }
}

/// The keyed-list conversion is deterministic: in a model built from a
/// well-formed document, the boards carry the mapping keys as their names,
/// in the mapping's own order — strictly ascending lexicographically,
/// whatever order any earlier iteration produced them in.
pub proof fn lemma_keyed_conversion_deterministic(s: crate::model::SbdFile, d: Doc)
    requires
        doc_wf(d),
        sbd_matches(s, d),
        s.boards is Some,
        has_value(doc_map_of(d)->0, "boards"@),
    ensures
        forall|i: int, j: int|
            0 <= i < j < s.boards->0@.len() ==> crate::strutil::lex_lt(
                (#[trigger] s.boards->0@[i]).name@,
                (#[trigger] s.boards->0@[j]).name@,
            ),
{
    let ses = doc_map_of(d)->0;
    let bd = kv_get(ses, "boards"@)->0;
    lemma_wf_value(ses, "boards"@);
    let bes = bd->Mapping_0;
    assert(crate::doc::entries_sorted(bes));
    let names = Seq::new(s.boards->0@.len() as nat, |i: int| s.boards->0@[i].name@);
    assert forall|i: int| 0 <= i < bes.len() implies names[i] == (#[trigger] bes[i]).0 by {
        assert(board_matches(s.boards->0@[i], bes[i].0, bes[i].1));
    }
    lemma_keyed_names_sorted(names, bes);
    assert forall|i: int, j: int|
        0 <= i < j < s.boards->0@.len() implies crate::strutil::lex_lt(
        (#[trigger] s.boards->0@[i]).name@,
        (#[trigger] s.boards->0@[j]).name@,
    ) by {
        assert(names[i] == s.boards->0@[i].name@);
        assert(names[j] == s.boards->0@[j].name@);
        assert(crate::strutil::lex_lt(names[i], names[j]));
    }
}

} // verus!
