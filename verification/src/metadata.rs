//! Readers for the recognized keys of a service's metadata object.
//!
//! Metadata travels with a service as an opaque JSON object; the system
//! reads a handful of keys out of it: `type` (which engine owns the
//! service), `static` (immune to sync-driven removal), `models` (the model
//! ids served), `models_list` (full model objects), and `cache_type`.

use vstd::prelude::*;

use crate::json::{jm_as_arr, jm_as_bool, jm_as_str, jm_get, jm_get_str, jview_items, JModel, Json};
use crate::bindings::str_to_chars;
use crate::strutil::chars_to_string;

verus! {

/// The `type` tag of a metadata object.
pub open spec fn spec_meta_type(m: JModel) -> Option<Seq<char>> {
    jm_get_str(m, "type"@)
}

/// True when the metadata marks an inference worker's OpenAI surface.
pub open spec fn spec_is_openai_api(m: JModel) -> bool {
    spec_meta_type(m) == Some("openai-api"@)
}

/// True when the metadata pins the service against sync-driven removal.
pub open spec fn spec_meta_static(m: JModel) -> bool {
    match jm_get(m, "static"@) {
        Some(v) => jm_as_bool(v) == Some(true),
        None => false,
    }
}

/// The `cache_type` tag of a metadata object.
pub open spec fn spec_meta_cache_type(m: JModel) -> Option<Seq<char>> {
    jm_get_str(m, "cache_type"@)
}

/// The strings among a sequence of JSON values, in order.
pub open spec fn spec_str_items(items: Seq<JModel>) -> Seq<Seq<char>>
    decreases items.len(),
{
    if items.len() == 0 {
        Seq::empty()
    } else {
        let rest = spec_str_items(items.drop_first());
        match jm_as_str(items[0]) {
            Some(t) => seq![t] + rest,
            None => rest,
        }
    }
}

/// The model ids named by the `models` key: the strings of its array, or
/// nothing when the key is missing or not an array.
pub open spec fn spec_meta_models(m: JModel) -> Seq<Seq<char>> {
    match jm_get(m, "models"@) {
        Some(v) => match jm_as_arr(v) {
            Some(items) => spec_str_items(items),
            None => Seq::empty(),
        },
        None => Seq::empty(),
    }
}

pub fn meta_type(m: &Json) -> (r: Option<String>)
    ensures
        match r {
            Some(s) => spec_meta_type(m@) == Some(s@),
            None => spec_meta_type(m@) is None,
        },
{
    let key = str_to_chars("type");
    m.get_str_field(key.as_slice())
}

pub fn is_openai_api(m: &Json) -> (r: bool)
    ensures
        r == spec_is_openai_api(m@),
{
    let key = str_to_chars("type");
    match m.get_str_field(key.as_slice()) {
        Some(t) => {
            let tag: String = String::from_str("openai-api");
            t.eq(&tag)
        },
        None => false,
    }
}

pub fn is_static_meta(m: &Json) -> (r: bool)
    ensures
        r == spec_meta_static(m@),
{
    let key = str_to_chars("static");
    match m.obj_get(key.as_slice()) {
        Some(v) => match v.as_bool() {
            Some(b) => b,
            None => false,
        },
        None => false,
    }
}

pub fn meta_cache_type(m: &Json) -> (r: Option<String>)
    ensures
        match r {
            Some(s) => spec_meta_cache_type(m@) == Some(s@),
            None => spec_meta_cache_type(m@) is None,
        },
{
    let key = str_to_chars("cache_type");
    m.get_str_field(key.as_slice())
}

/// The strings among an array of JSON values, in order.
pub fn str_items(items: &Vec<Json>) -> (r: Vec<String>)
    ensures
        r.deep_view() == spec_str_items(jview_items(items@)),
{
    let mut r: Vec<String> = Vec::new();
    let mut i: usize = 0;
    proof {
        crate::json::lemma_jview_items_len(items@);
        assert(jview_items(items@).subrange(0, items@.len() as int) =~= jview_items(items@));
        assert(r.deep_view() =~= Seq::<Seq<char>>::empty());
        assert(r.deep_view() + spec_str_items(jview_items(items@)) =~= spec_str_items(
            jview_items(items@),
        ));
    }
    while i < items.len()
        invariant
            0 <= i <= items@.len(),
            jview_items(items@).len() == items@.len(),
            r.deep_view() + spec_str_items(jview_items(items@).subrange(i as int, items@.len() as int))
                =~= spec_str_items(jview_items(items@)),
        decreases items@.len() - i,
    {
        proof {
            crate::json::lemma_jview_items_index(items@, i as int);
            assert(jview_items(items@).subrange(i as int, items@.len() as int).drop_first()
                =~= jview_items(items@).subrange(i as int + 1, items@.len() as int));
            assert(jview_items(items@).subrange(i as int, items@.len() as int)[0] == jview_items(
                items@,
            )[i as int]);
        }
        let ghost old_r = r.deep_view();
        match items[i].as_str_chars() {
            Some(t) => {
                let s = chars_to_string(t.as_slice());
                r.push(s);
                proof {
                    assert(r.deep_view() =~= old_r.push(t@));
                    assert(old_r.push(t@) + spec_str_items(
                        jview_items(items@).subrange(i as int + 1, items@.len() as int),
                    ) =~= old_r + (seq![t@] + spec_str_items(
                        jview_items(items@).subrange(i as int + 1, items@.len() as int),
                    )));
                }
            },
            None => {},
        }
        i += 1;
    }
    proof {
        assert(jview_items(items@).subrange(items@.len() as int, items@.len() as int)
            =~= Seq::<JModel>::empty());
        assert(r.deep_view() + Seq::<Seq<char>>::empty() =~= r.deep_view());
    }
    r
}

/// The model ids named by the `models` key of a metadata object.
pub fn meta_models(m: &Json) -> (r: Vec<String>)
    ensures
        r.deep_view() == spec_meta_models(m@),
{
    let key = str_to_chars("models");
    match m.obj_get(key.as_slice()) {
        Some(v) => match v.as_arr() {
            Some(items) => str_items(items),
            None => Vec::new(),
        },
        None => Vec::new(),
    }
}

} // verus!
