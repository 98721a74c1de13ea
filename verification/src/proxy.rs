//! The proxy hot path's decisions: routing hints pulled out of a request
//! body without a full schema, session identity, hop-by-hop header
//! hygiene, size-based cache routing, target selection across the three
//! tiers, and the bounded retry policy with its error mapping.

use vstd::prelude::*;

use crate::balancer::{
    spec_at, spec_bump, spec_bump_request, spec_cands, spec_choice, spec_fnv1a64, spec_matches,
    spec_proxy_failure, LoadBalancer,
};
use crate::instance::InstanceModel;
use crate::json::{
    jm_as_arr, jm_as_str, jm_get, jm_get_str, jview_items, spec_parse_json_bytes, JModel, Json,
};
use crate::strutil::{chars_to_string, spec_digits_value, spec_is_numeral};
use crate::{DEFAULT_CACHE_TYPE_ROUTING_THRESHOLD, MAX_PROXY_RETRIES};

verus! {

broadcast use vstd::utf8::char_is_scalar;

/// A message's content: one string, or typed parts carrying `text` and
/// `content` fragments.
pub enum Content {
    Str(String),
    Parts(Vec<ContentPart>),
}

/// One part of a structured message content.
pub struct ContentPart {
    pub text: Option<String>,
    pub content: Option<String>,
}

/// One chat message; only its content weighs into routing.
pub struct Message {
    pub content: Option<Content>,
}

/// A completion prompt: one string or several.
pub enum Prompt {
    Str(String),
    Arr(Vec<String>),
}

/// The three routing-relevant fields of a request body.
pub struct RoutingFields {
    pub model_id: Option<String>,
    pub prompt_cache_key: Option<String>,
    pub message_size: Option<usize>,
}

/// UTF-8 length in bytes of a character sequence.
pub open spec fn spec_byte_len(s: Seq<char>) -> int {
    vstd::utf8::encode_utf8(s).len() as int
}

/// Encoding distributes over concatenation.
pub proof fn lemma_encode_utf8_concat(a: Seq<char>, b: Seq<char>)
    ensures
        vstd::utf8::encode_utf8(a + b) =~= vstd::utf8::encode_utf8(a) + vstd::utf8::encode_utf8(
            b,
        ),
    decreases a.len(),
{
    if a.len() == 0 {
        assert(a + b =~= b);
        assert(vstd::utf8::encode_utf8(a) =~= Seq::<u8>::empty());
    } else {
        lemma_encode_utf8_concat(a.drop_first(), b);
        assert((a + b).drop_first() =~= a.drop_first() + b);
        assert((a + b)[0] == a[0]);
        assert((a + b).len() > 0);
    }
}

/// The bytes one character takes in UTF-8.
pub open spec fn spec_char_width(c: char) -> int {
    vstd::utf8::encode_scalar(c as u32).len() as int
}

fn char_width(c: char) -> (r: usize)
    ensures
        r as int == spec_char_width(c),
{
    let u = c as u32;
    if u < 0x80 {
        1
    } else if u < 0x800 {
        2
    } else if u < 0x10000 {
        3
    } else {
        4
    }
}

/// The clamp every on-the-wire size computation saturates to.
pub open spec fn spec_clamp_usize(n: int) -> int {
    if n > usize::MAX {
        usize::MAX as int
    } else {
        n
    }
}

/// The UTF-8 byte length of characters, stopping at the integer's ceiling.
pub fn chars_byte_len(v: &[char]) -> (r: usize)
    ensures
        r as int == spec_clamp_usize(spec_byte_len(v@)),
{
    let mut acc: usize = 0;
    let mut i: usize = 0;
    proof {
        assert(v@.subrange(0, 0) =~= Seq::<char>::empty());
        assert(vstd::utf8::encode_utf8(v@.subrange(0, 0)) =~= Seq::<u8>::empty());
    }
    while i < v.len()
        invariant
            0 <= i <= v@.len(),
            acc as int == spec_clamp_usize(spec_byte_len(v@.subrange(0, i as int))),
        decreases v@.len() - i,
    {
        let w = char_width(v[i]);
        proof {
            let pre = v@.subrange(0, i as int);
            let ext = v@.subrange(0, i as int + 1);
            assert(ext =~= pre + seq![v@[i as int]]);
            lemma_encode_utf8_concat(pre, seq![v@[i as int]]);
            assert(seq![v@[i as int]].drop_first() =~= Seq::<char>::empty());
            assert(seq![v@[i as int]].len() == 1 && seq![v@[i as int]][0] == v@[i as int]);
            assert(vstd::utf8::encode_utf8(seq![v@[i as int]]) =~= vstd::utf8::encode_scalar(
                v@[i as int] as u32,
            ) + vstd::utf8::encode_utf8(Seq::<char>::empty()));
            assert(vstd::utf8::encode_utf8(Seq::<char>::empty()) =~= Seq::<u8>::empty());
            assert(vstd::utf8::encode_scalar(v@[i as int] as u32) + Seq::<u8>::empty()
                =~= vstd::utf8::encode_scalar(v@[i as int] as u32));
            assert(spec_byte_len(ext) == spec_byte_len(pre) + spec_char_width(v@[i as int]));
        }
        acc = acc.saturating_add(w);
        i += 1;
    }
    proof {
        assert(v@.subrange(0, v@.len() as int) =~= v@);
    }
    acc
}

/// The UTF-8 byte length of a string, stopping at the integer's ceiling.
/// This is the measure every routing size decision uses.
pub fn string_byte_len(s: &String) -> (r: usize)
    ensures
        r as int == spec_clamp_usize(spec_byte_len(s@)),
{
    let v = crate::bindings::str_to_chars(s.as_str());
    chars_byte_len(v.as_slice())
}

impl Content {
    /// The text weight of this content in bytes: the string itself, or the
    /// summed `text` and `content` fragments of its parts.
    pub open spec fn spec_text_len(&self) -> int {
        match self {
            Content::Str(s) => spec_byte_len(s@),
            Content::Parts(parts) => spec_parts_len(parts@),
        }
    }

    /// The text weight, stopping at the integer's ceiling.
    pub fn text_len(&self) -> (r: usize)
        ensures
            r as int == spec_clamp_usize(self.spec_text_len()),
    {
        match self {
            Content::Str(s) => string_byte_len(s),
            Content::Parts(parts) => {
                let mut acc: usize = 0;
                let mut i: usize = 0;
                proof {
                    assert(parts@.subrange(0, 0) =~= Seq::<ContentPart>::empty());
                }
                while i < parts.len()
                    invariant
                        0 <= i <= parts@.len(),
                        acc as int == spec_clamp_usize(spec_parts_len(parts@.subrange(0, i as int))),
                    decreases parts@.len() - i,
                {
                    proof {
                        assert(parts@.subrange(0, i as int + 1).drop_last() =~= parts@.subrange(
                            0,
                            i as int,
                        ));
                        assert(parts@.subrange(0, i as int + 1).last() == parts@[i as int]);
                        lemma_parts_len_nonneg(parts@.subrange(0, i as int));
                    }
                    let p = &parts[i];
                    let t = match &p.text {
                        Some(s) => string_byte_len(s),
                        None => 0,
                    };
                    let c = match &p.content {
                        Some(s) => string_byte_len(s),
                        None => 0,
                    };
                    acc = acc.saturating_add(t).saturating_add(c);
                    i += 1;
                }
                proof {
                    assert(parts@.subrange(0, parts@.len() as int) =~= parts@);
                }
                acc
            },
        }
    }
}

/// The summed text weight of content parts, in order.
pub open spec fn spec_parts_len(parts: Seq<ContentPart>) -> int
    decreases parts.len(),
{
    if parts.len() == 0 {
        0
    } else {
        spec_parts_len(parts.drop_last()) + spec_part_len(parts.last())
    }
}

/// One part's text weight: its `text` and `content` fragments together.
pub open spec fn spec_part_len(p: ContentPart) -> int {
    (match p.text {
        Some(s) => spec_byte_len(s@),
        None => 0,
    }) + (match p.content {
        Some(s) => spec_byte_len(s@),
        None => 0,
    })
}

/// Text weights never fall below zero.
pub proof fn lemma_parts_len_nonneg(parts: Seq<ContentPart>)
    ensures
        spec_parts_len(parts) >= 0,
    decreases parts.len(),
{
    if parts.len() > 0 {
        lemma_parts_len_nonneg(parts.drop_last());
    }
}

impl Prompt {
    /// The prompt's text weight in bytes: the string, or the sum of them.
    pub open spec fn spec_text_len(&self) -> int {
        match self {
            Prompt::Str(s) => spec_byte_len(s@),
            Prompt::Arr(items) => spec_strings_len(items.deep_view()),
        }
    }

    /// The text weight, stopping at the integer's ceiling.
    pub fn text_len(&self) -> (r: usize)
        ensures
            r as int == spec_clamp_usize(self.spec_text_len()),
    {
        match self {
            Prompt::Str(s) => string_byte_len(s),
            Prompt::Arr(items) => {
                let mut acc: usize = 0;
                let mut i: usize = 0;
                proof {
                    assert(items.deep_view().subrange(0, 0) =~= Seq::<Seq<char>>::empty());
                }
                while i < items.len()
                    invariant
                        0 <= i <= items@.len(),
                        items.deep_view().len() == items@.len(),
                        forall|k: int|
                            0 <= k < items@.len() ==> items.deep_view()[k] == (
                            #[trigger] items@[k])@,
                        acc as int == spec_clamp_usize(
                            spec_strings_len(items.deep_view().subrange(0, i as int)),
                        ),
                    decreases items@.len() - i,
                {
                    proof {
                        assert(items.deep_view().subrange(0, i as int + 1).drop_last()
                            =~= items.deep_view().subrange(0, i as int));
                        assert(items.deep_view().subrange(0, i as int + 1).last()
                            == items.deep_view()[i as int]);
                        lemma_strings_len_nonneg(items.deep_view().subrange(0, i as int));
                    }
                    let w = string_byte_len(&items[i]);
                    acc = acc.saturating_add(w);
                    i += 1;
                }
                proof {
                    assert(items.deep_view().subrange(0, items@.len() as int)
                        =~= items.deep_view());
                }
                acc
            },
        }
    }
}

/// The summed byte length of strings, in order.
pub open spec fn spec_strings_len(items: Seq<Seq<char>>) -> int
    decreases items.len(),
{
    if items.len() == 0 {
        0
    } else {
        spec_strings_len(items.drop_last()) + spec_byte_len(items.last())
    }
}

pub proof fn lemma_strings_len_nonneg(items: Seq<Seq<char>>)
    ensures
        spec_strings_len(items) >= 0,
    decreases items.len(),
{
    if items.len() > 0 {
        lemma_strings_len_nonneg(items.drop_last());
    }
}

} // verus!

verus! {

/// The `model` hint of a parsed body.
pub open spec fn spec_model_hint(m: JModel) -> Option<Seq<char>> {
    jm_get_str(m, "model"@)
}

/// The `prompt_cache_key` hint of a parsed body.
pub open spec fn spec_cache_key_hint(m: JModel) -> Option<Seq<char>> {
    jm_get_str(m, "prompt_cache_key"@)
}

/// One structured content part's weight in a parsed body: its `text` and
/// `content` string members together.
pub open spec fn spec_jpart_len(p: JModel) -> int {
    (match jm_get_str(p, "text"@) {
        Some(t) => spec_byte_len(t),
        None => 0,
    }) + (match jm_get_str(p, "content"@) {
        Some(t) => spec_byte_len(t),
        None => 0,
    })
}

/// The summed weight of structured content parts.
pub open spec fn spec_jparts_len(items: Seq<JModel>) -> int
    decreases items.len(),
{
    if items.len() == 0 {
        0
    } else {
        spec_jparts_len(items.drop_last()) + spec_jpart_len(items.last())
    }
}

/// A content value's weight: a string's bytes, or its parts' weights.
pub open spec fn spec_jcontent_len(c: JModel) -> int {
    match c {
        JModel::Str(t) => spec_byte_len(t),
        JModel::Arr(items) => spec_jparts_len(items),
        _ => 0,
    }
}

/// One message's weight: that of its `content` member.
pub open spec fn spec_jmessage_len(m: JModel) -> int {
    match jm_get(m, "content"@) {
        Some(c) => spec_jcontent_len(c),
        None => 0,
    }
}

/// The summed weight of a `messages` array.
pub open spec fn spec_jmsgs_len(items: Seq<JModel>) -> int
    decreases items.len(),
{
    if items.len() == 0 {
        0
    } else {
        spec_jmsgs_len(items.drop_last()) + spec_jmessage_len(items.last())
    }
}

/// The summed weight of the strings of a `prompt` array.
pub open spec fn spec_jstrs_len(items: Seq<JModel>) -> int
    decreases items.len(),
{
    if items.len() == 0 {
        0
    } else {
        spec_jstrs_len(items.drop_last()) + (match jm_as_str(items.last()) {
            Some(t) => spec_byte_len(t),
            None => 0,
        })
    }
}

/// A `prompt` value's weight: one string, or the sum of an array's strings.
pub open spec fn spec_jprompt_len(p: JModel) -> int {
    match p {
        JModel::Str(t) => spec_byte_len(t),
        JModel::Arr(items) => spec_jstrs_len(items),
        _ => 0,
    }
}

/// The size hint of a parsed body: the summed `messages[*].content` weight
/// when a `messages` array stands there, else the `prompt` weight when a
/// `prompt` member stands there, else nothing.
pub open spec fn spec_size_hint(m: JModel) -> Option<int> {
    match jm_get(m, "messages"@) {
        Some(v) => match jm_as_arr(v) {
            Some(items) => Some(spec_jmsgs_len(items)),
            None => spec_size_hint_prompt(m),
        },
        None => spec_size_hint_prompt(m),
    }
}

pub open spec fn spec_size_hint_prompt(m: JModel) -> Option<int> {
    match jm_get(m, "prompt"@) {
        Some(p) => Some(spec_jprompt_len(p)),
        None => None,
    }
}

pub proof fn lemma_jparts_len_nonneg(items: Seq<JModel>)
    ensures
        spec_jparts_len(items) >= 0,
    decreases items.len(),
{
    if items.len() > 0 {
        lemma_jparts_len_nonneg(items.drop_last());
    }
}

pub proof fn lemma_jmsgs_len_nonneg(items: Seq<JModel>)
    ensures
        spec_jmsgs_len(items) >= 0,
    decreases items.len(),
{
    if items.len() > 0 {
        lemma_jmsgs_len_nonneg(items.drop_last());
        lemma_jcontent_len_nonneg(items.last());
        match jm_get(items.last(), "content"@) {
            Some(c) => {},
            None => {},
        }
    }
}

pub proof fn lemma_jcontent_len_nonneg(m: JModel)
    ensures
        spec_jmessage_len(m) >= 0,
        spec_jcontent_len(m) >= 0,
        spec_jprompt_len(m) >= 0,
{
    match m {
        JModel::Arr(items) => {
            lemma_jparts_len_nonneg(items);
            lemma_jstrs_len_nonneg(items);
        },
        _ => {},
    }
    match jm_get(m, "content"@) {
        Some(c) => {
            match c {
                JModel::Arr(items) => {
                    lemma_jparts_len_nonneg(items);
                },
                _ => {},
            }
        },
        None => {},
    }
}

pub proof fn lemma_jstrs_len_nonneg(items: Seq<JModel>)
    ensures
        spec_jstrs_len(items) >= 0,
    decreases items.len(),
{
    if items.len() > 0 {
        lemma_jstrs_len_nonneg(items.drop_last());
    }
}

/// The weight of one structured part, stopping at the integer's ceiling.
fn jpart_len(p: &Json) -> (r: usize)
    ensures
        r as int == spec_clamp_usize(spec_jpart_len(p@)),
{
    let text_key = crate::bindings::str_to_chars("text");
    let content_key = crate::bindings::str_to_chars("content");
    let t: usize = match p.obj_get(text_key.as_slice()) {
        Some(v) => match v.as_str_chars() {
            Some(chars) => chars_byte_len(chars.as_slice()),
            None => 0,
        },
        None => 0,
    };
    let c: usize = match p.obj_get(content_key.as_slice()) {
        Some(v) => match v.as_str_chars() {
            Some(chars) => chars_byte_len(chars.as_slice()),
            None => 0,
        },
        None => 0,
    };
    t.saturating_add(c)
}

/// A content value's weight, stopping at the integer's ceiling.
fn jcontent_len(c: &Json) -> (r: usize)
    ensures
        r as int == spec_clamp_usize(spec_jcontent_len(c@)),
{
    match c {
        Json::Str(t) => chars_byte_len(t.as_slice()),
        Json::Arr(items) => {
            let mut acc: usize = 0;
            let mut i: usize = 0;
            proof {
                crate::json::lemma_jview_items_len(items@);
                assert(jview_items(items@).subrange(0, 0) =~= Seq::<JModel>::empty());
            }
            while i < items.len()
                invariant
                    0 <= i <= items@.len(),
                    jview_items(items@).len() == items@.len(),
                    acc as int == spec_clamp_usize(
                        spec_jparts_len(jview_items(items@).subrange(0, i as int)),
                    ),
                decreases items@.len() - i,
            {
                proof {
                    crate::json::lemma_jview_items_index(items@, i as int);
                    assert(jview_items(items@).subrange(0, i as int + 1).drop_last()
                        =~= jview_items(items@).subrange(0, i as int));
                    assert(jview_items(items@).subrange(0, i as int + 1).last() == jview_items(
                        items@,
                    )[i as int]);
                    lemma_jparts_len_nonneg(jview_items(items@).subrange(0, i as int));
                    lemma_jcontent_len_nonneg(jview_items(items@)[i as int]);
                    match jm_get_str(jview_items(items@)[i as int], "text"@) {
                        Some(t) => {},
                        None => {},
                    }
                    match jm_get_str(jview_items(items@)[i as int], "content"@) {
                        Some(t) => {},
                        None => {},
                    }
                }
                let w = jpart_len(&items[i]);
                acc = acc.saturating_add(w);
                i += 1;
            }
            proof {
                assert(jview_items(items@).subrange(0, items@.len() as int) =~= jview_items(
                    items@,
                ));
            }
            acc
        },
        _ => 0,
    }
}

/// One message's weight, stopping at the integer's ceiling.
fn jmessage_len(m: &Json) -> (r: usize)
    ensures
        r as int == spec_clamp_usize(spec_jmessage_len(m@)),
{
    let content_key = crate::bindings::str_to_chars("content");
    match m.obj_get(content_key.as_slice()) {
        Some(c) => jcontent_len(c),
        None => 0,
    }
}

/// The summed weight of a `messages` array, stopping at the ceiling.
fn jmsgs_len(items: &Vec<Json>) -> (r: usize)
    ensures
        r as int == spec_clamp_usize(spec_jmsgs_len(jview_items(items@))),
{
    let mut acc: usize = 0;
    let mut i: usize = 0;
    proof {
        crate::json::lemma_jview_items_len(items@);
        assert(jview_items(items@).subrange(0, 0) =~= Seq::<JModel>::empty());
    }
    while i < items.len()
        invariant
            0 <= i <= items@.len(),
            jview_items(items@).len() == items@.len(),
            acc as int == spec_clamp_usize(
                spec_jmsgs_len(jview_items(items@).subrange(0, i as int)),
            ),
        decreases items@.len() - i,
    {
        proof {
            crate::json::lemma_jview_items_index(items@, i as int);
            assert(jview_items(items@).subrange(0, i as int + 1).drop_last() =~= jview_items(
                items@,
            ).subrange(0, i as int));
            assert(jview_items(items@).subrange(0, i as int + 1).last() == jview_items(
                items@,
            )[i as int]);
            lemma_jmsgs_len_nonneg(jview_items(items@).subrange(0, i as int));
            lemma_jcontent_len_nonneg(jview_items(items@)[i as int]);
        }
        let w = jmessage_len(&items[i]);
        acc = acc.saturating_add(w);
        i += 1;
    }
    proof {
        assert(jview_items(items@).subrange(0, items@.len() as int) =~= jview_items(items@));
    }
    acc
}

/// A `prompt` value's weight, stopping at the ceiling.
fn jprompt_len(p: &Json) -> (r: usize)
    ensures
        r as int == spec_clamp_usize(spec_jprompt_len(p@)),
{
    match p {
        Json::Str(t) => chars_byte_len(t.as_slice()),
        Json::Arr(items) => {
            let mut acc: usize = 0;
            let mut i: usize = 0;
            proof {
                crate::json::lemma_jview_items_len(items@);
                assert(jview_items(items@).subrange(0, 0) =~= Seq::<JModel>::empty());
            }
            while i < items.len()
                invariant
                    0 <= i <= items@.len(),
                    jview_items(items@).len() == items@.len(),
                    acc as int == spec_clamp_usize(
                        spec_jstrs_len(jview_items(items@).subrange(0, i as int)),
                    ),
                decreases items@.len() - i,
            {
                proof {
                    crate::json::lemma_jview_items_index(items@, i as int);
                    assert(jview_items(items@).subrange(0, i as int + 1).drop_last()
                        =~= jview_items(items@).subrange(0, i as int));
                    assert(jview_items(items@).subrange(0, i as int + 1).last() == jview_items(
                        items@,
                    )[i as int]);
                    lemma_jstrs_len_nonneg(jview_items(items@).subrange(0, i as int));
                }
                let w: usize = match items[i].as_str_chars() {
                    Some(chars) => chars_byte_len(chars.as_slice()),
                    None => 0,
                };
                acc = acc.saturating_add(w);
                i += 1;
            }
            proof {
                assert(jview_items(items@).subrange(0, items@.len() as int) =~= jview_items(
                    items@,
                ));
            }
            acc
        },
        _ => 0,
    }
}

/// Extracts the `model` hint from a request body, without a full schema.
pub fn extract_model_from_body(body: &[u8]) -> (r: Option<String>)
    ensures
        match spec_parse_json_bytes(body@) {
            Some(m) => match r {
                Some(s) => spec_model_hint(m) == Some(s@),
                None => spec_model_hint(m) is None,
            },
            None => r is None,
        },
{
    match crate::json::parse_json_bytes(body) {
        Some(j) => {
            let key = crate::bindings::str_to_chars("model");
            j.get_str_field(key.as_slice())
        },
        None => None,
    }
}

/// Extracts the `prompt_cache_key` hint from a request body.
pub fn extract_prompt_cache_key_from_body(body: &[u8]) -> (r: Option<String>)
    ensures
        match spec_parse_json_bytes(body@) {
            Some(m) => match r {
                Some(s) => spec_cache_key_hint(m) == Some(s@),
                None => spec_cache_key_hint(m) is None,
            },
            None => r is None,
        },
{
    match crate::json::parse_json_bytes(body) {
        Some(j) => {
            let key = crate::bindings::str_to_chars("prompt_cache_key");
            j.get_str_field(key.as_slice())
        },
        None => None,
    }
}

/// Extracts the three routing hints from a request body. A body that is
/// not JSON yields nothing, and that is no request error: routing then
/// falls back to round robin.
pub fn extract_routing_fields(body: &[u8]) -> (r: Option<RoutingFields>)
    ensures
        match spec_parse_json_bytes(body@) {
            Some(m) => match r {
                Some(f) => {
                    &&& (match f.model_id {
                        Some(ref s) => spec_model_hint(m) == Some(s@),
                        None => spec_model_hint(m) is None,
                    })
                    &&& (match f.prompt_cache_key {
                        Some(ref s) => spec_cache_key_hint(m) == Some(s@),
                        None => spec_cache_key_hint(m) is None,
                    })
                    &&& (match f.message_size {
                        Some(n) => spec_size_hint(m) is Some && n as int == spec_clamp_usize(
                            spec_size_hint(m)->0,
                        ),
                        None => spec_size_hint(m) is None,
                    })
                },
                None => false,
            },
            None => r is None,
        },
{
    let j = match crate::json::parse_json_bytes(body) {
        Some(j) => j,
        None => {
            return None;
        },
    };
    let model_key = crate::bindings::str_to_chars("model");
    let cache_key = crate::bindings::str_to_chars("prompt_cache_key");
    let messages_key = crate::bindings::str_to_chars("messages");
    let prompt_key = crate::bindings::str_to_chars("prompt");
    let model_id = j.get_str_field(model_key.as_slice());
    let prompt_cache_key = j.get_str_field(cache_key.as_slice());
    let message_size: Option<usize> = match j.obj_get(messages_key.as_slice()) {
        Some(v) => match v.as_arr() {
            Some(items) => Some(jmsgs_len(items)),
            None => match j.obj_get(prompt_key.as_slice()) {
                Some(p) => Some(jprompt_len(p)),
                None => None,
            },
        },
        None => match j.obj_get(prompt_key.as_slice()) {
            Some(p) => Some(jprompt_len(p)),
            None => None,
        },
    };
    Some(RoutingFields { model_id, prompt_cache_key, message_size })
}

} // verus!

verus! {

/// Everything up to the first comma.
pub open spec fn spec_until_comma(s: Seq<char>) -> Seq<char>
    decreases s.len(),
{
    if s.len() == 0 {
        s
    } else if s[0] == ',' {
        Seq::empty()
    } else {
        seq![s[0]] + spec_until_comma(s.drop_first())
    }
}

/// ASCII whitespace stripped from both ends.
pub open spec fn spec_trim(s: Seq<char>) -> Seq<char>
    decreases s.len(),
{
    if s.len() == 0 {
        s
    } else if crate::json::spec_is_ws(s[0]) {
        spec_trim(s.drop_first())
    } else if crate::json::spec_is_ws(s.last()) {
        spec_trim(s.drop_last())
    } else {
        s
    }
}

/// The client address a request is attributed to: the first entry of the
/// forwarding header, trimmed, when the header is there; else the peer
/// address. An empty outcome counts as none.
pub open spec fn spec_client_ip(
    xff: Option<Seq<char>>,
    remote: Option<Seq<char>>,
) -> Option<Seq<char>> {
    match xff {
        Some(h) => {
            let t = spec_trim(spec_until_comma(h));
            if t.len() > 0 {
                Some(t)
            } else {
                None
            }
        },
        None => match remote {
            Some(r) => if r.len() > 0 {
                Some(r)
            } else {
                None
            },
            None => None,
        },
    }
}

fn until_comma(s: &[char]) -> (r: Vec<char>)
    ensures
        r@ == spec_until_comma(s@),
{
    let mut out: Vec<char> = Vec::new();
    let mut i: usize = 0;
    proof {
        assert(s@.subrange(0, s@.len() as int) =~= s@);
        assert(out@ + spec_until_comma(s@) =~= spec_until_comma(s@));
    }
    loop
        invariant
            0 <= i <= s@.len(),
            spec_until_comma(s@) =~= out@ + spec_until_comma(s@.subrange(i as int, s@.len() as int)),
        decreases s@.len() - i,
    {
        let ghost tail = s@.subrange(i as int, s@.len() as int);
        proof {
            assert(tail.len() > 0 ==> tail[0] == s@[i as int]);
            assert(tail.len() > 0 ==> tail.drop_first() =~= s@.subrange(
                i as int + 1,
                s@.len() as int,
            ));
        }
        if i >= s.len() {
            proof {
                assert(out@ + spec_until_comma(tail) =~= out@);
            }
            return out;
        }
        let c = s[i];
        if c == ',' {
            proof {
                assert(out@ + spec_until_comma(tail) =~= out@);
            }
            return out;
        }
        let ghost old_out = out@;
        out.push(c);
        proof {
            assert(old_out + (seq![c] + spec_until_comma(tail.drop_first())) =~= out@
                + spec_until_comma(tail.drop_first()));
        }
        i += 1;
    }
}

fn trim_chars(s: Vec<char>) -> (r: Vec<char>)
    ensures
        r@ == spec_trim(s@),
{
    let mut v = s;
    loop
        invariant
            spec_trim(v@) == spec_trim(s@),
        decreases v@.len(),
    {
        if v.len() == 0 {
            return v;
        }
        let first = v[0];
        if first == ' ' || first == '\t' || first == '\n' || first == '\r' {
            let ghost before = v@;
            v.remove(0);
            proof {
                assert(v@ =~= before.drop_first());
            }
        } else {
            let last = v[v.len() - 1];
            if last == ' ' || last == '\t' || last == '\n' || last == '\r' {
                let ghost before = v@;
                v.pop();
                proof {
                    assert(v@ =~= before.drop_last());
                }
            } else {
                return v;
            }
        }
    }
}

/// The IP session hash: the first 16 hexadecimal characters of the SHA-256
/// digest of the client address followed by the user agent.
pub open spec fn spec_ip_session_hash(ip: Seq<char>, ua: Seq<char>) -> Seq<char> {
    crate::bindings::sha256_hex_of(
        vstd::utf8::encode_utf8(ip) + vstd::utf8::encode_utf8(ua),
    ).subrange(0, 16)
}

/// The IP-derived session tag of a request, if any client address shows.
pub open spec fn spec_session_from_ip(
    xff: Option<Seq<char>>,
    ua: Option<Seq<char>>,
    remote: Option<Seq<char>>,
) -> Option<Seq<char>> {
    match spec_client_ip(xff, remote) {
        Some(ip) => Some(
            spec_ip_session_hash(
                ip,
                match ua {
                    Some(u) => u,
                    None => Seq::empty(),
                },
            ),
        ),
        None => None,
    }
}

/// Derives a session tag from the forwarding header or peer address plus
/// the user agent; none when no client address shows.
pub fn generate_session_from_ip(
    x_forwarded_for: Option<&String>,
    user_agent: Option<&String>,
    remote_addr: Option<&String>,
) -> (r: Option<String>)
    ensures
        match r {
            Some(s) => spec_session_from_ip(
                match x_forwarded_for {
                    Some(h) => Some(h@),
                    None => None,
                },
                match user_agent {
                    Some(u) => Some(u@),
                    None => None,
                },
                match remote_addr {
                    Some(a) => Some(a@),
                    None => None,
                },
            ) == Some(s@),
            None => spec_session_from_ip(
                match x_forwarded_for {
                    Some(h) => Some(h@),
                    None => None,
                },
                match user_agent {
                    Some(u) => Some(u@),
                    None => None,
                },
                match remote_addr {
                    Some(a) => Some(a@),
                    None => None,
                },
            ) is None,
        },
{
    let ip: Vec<char> = match x_forwarded_for {
        Some(h) => {
            let chars = crate::bindings::str_to_chars(h.as_str());
            let first = until_comma(chars.as_slice());
            let t = trim_chars(first);
            if t.len() == 0 {
                return None;
            }
            t
        },
        None => match remote_addr {
            Some(a) => {
                let chars = crate::bindings::str_to_chars(a.as_str());
                if chars.len() == 0 {
                    return None;
                }
                chars
            },
            None => {
                return None;
            },
        },
    };
    let ua_chars: Vec<char> = match user_agent {
        Some(u) => crate::bindings::str_to_chars(u.as_str()),
        None => Vec::new(),
    };
    let ip_s = chars_to_string(ip.as_slice());
    let ua_s = chars_to_string(ua_chars.as_slice());
    let mut input: Vec<u8> = Vec::new();
    append_bytes(&mut input, ip_s.as_str().as_bytes());
    append_bytes(&mut input, ua_s.as_str().as_bytes());
    let hex = crate::bindings::sha256_hex(input.as_slice());
    let prefix = hex.as_str().substring_char(0, 16);
    proof {
        assert(input@ =~= vstd::utf8::encode_utf8(ip@) + vstd::utf8::encode_utf8(ua_chars@));
    }
    Some(prefix.to_owned())
}

/// Appends a byte slice to a byte vector.
fn append_bytes(out: &mut Vec<u8>, bytes: &[u8])
    ensures
        final(out)@ == old(out)@ + bytes@,
{
    let mut i: usize = 0;
    while i < bytes.len()
        invariant
            0 <= i <= bytes@.len(),
            out@ =~= old(out)@ + bytes@.subrange(0, i as int),
        decreases bytes@.len() - i,
    {
        out.push(bytes[i]);
        proof {
            assert(old(out)@ + bytes@.subrange(0, i as int + 1) =~= (old(out)@ + bytes@.subrange(
                0,
                i as int,
            )).push(bytes@[i as int]));
        }
        i += 1;
    }
    proof {
        assert(old(out)@ + bytes@.subrange(0, bytes@.len() as int) =~= old(out)@ + bytes@);
    }
}

/// The session identity of a request: the cache key first, then the
/// IP-derived tag, each prefixed with the model (or `default`) and its
/// category.
pub open spec fn spec_session_id(
    model: Option<Seq<char>>,
    cache_key: Option<Seq<char>>,
    ip_hash: Option<Seq<char>>,
) -> Option<Seq<char>> {
    let prefix = match model {
        Some(m) => m,
        None => "default"@,
    };
    match cache_key {
        Some(k) => Some(prefix + ":prompt_cache:"@ + k),
        None => match ip_hash {
            Some(h) => Some(prefix + ":ip:"@ + h),
            None => None,
        },
    }
}

/// Builds the session identity from the extracted hints.
pub fn compute_session_id(
    model_id: Option<&String>,
    prompt_cache_key: Option<&String>,
    ip_hash: Option<&String>,
) -> (r: Option<String>)
    ensures
        ({
            let expected = spec_session_id(
                match model_id {
                    Some(m) => Some(m@),
                    None => None,
                },
                match prompt_cache_key {
                    Some(k) => Some(k@),
                    None => None,
                },
                match ip_hash {
                    Some(h) => Some(h@),
                    None => None,
                },
            );
            match r {
                Some(s) => expected == Some(s@),
                None => expected is None,
            }
        }),
{
    let prefix: &str = match model_id {
        Some(m) => m.as_str(),
        None => "default",
    };
    match prompt_cache_key {
        Some(k) => {
            let mut out = String::new();
            out.append(prefix);
            out.append(":prompt_cache:");
            out.append(k.as_str());
            Some(out)
        },
        None => match ip_hash {
            Some(h) => {
                let mut out = String::new();
                out.append(prefix);
                out.append(":ip:");
                out.append(h.as_str());
                Some(out)
            },
            None => None,
        },
    }
}

} // verus!

verus! {

/// The hop-by-hop header names: they never cross the proxy, in either
/// direction. Comparison is on the ASCII-lower-cased name.
pub open spec fn spec_is_hop_by_hop(name: Seq<char>) -> bool {
    let n = crate::strutil::spec_lower(name);
    ||| n == "connection"@
    ||| n == "keep-alive"@
    ||| n == "proxy-authenticate"@
    ||| n == "proxy-authorization"@
    ||| n == "te"@
    ||| n == "trailers"@
    ||| n == "transfer-encoding"@
    ||| n == "upgrade"@
    ||| n == "host"@
    ||| n == "content-length"@
}

/// Whether a header name must be dropped at the proxy boundary.
pub fn is_hop_by_hop(name: &str) -> (r: bool)
    ensures
        r == spec_is_hop_by_hop(name@),
{
    let lower = crate::strutil::ascii_lower(name);
    let mut hit = lower.eq(&String::from_str("connection"));
    hit = hit || lower.eq(&String::from_str("keep-alive"));
    hit = hit || lower.eq(&String::from_str("proxy-authenticate"));
    hit = hit || lower.eq(&String::from_str("proxy-authorization"));
    hit = hit || lower.eq(&String::from_str("te"));
    hit = hit || lower.eq(&String::from_str("trailers"));
    hit = hit || lower.eq(&String::from_str("transfer-encoding"));
    hit = hit || lower.eq(&String::from_str("upgrade"));
    hit = hit || lower.eq(&String::from_str("host"));
    hit = hit || lower.eq(&String::from_str("content-length"));
    hit
}

/// The headers that cross the proxy: all but the hop-by-hop set, in order.
pub open spec fn spec_forward_headers(headers: Seq<(Seq<char>, Seq<char>)>) -> Seq<
    (Seq<char>, Seq<char>),
>
    decreases headers.len(),
{
    if headers.len() == 0 {
        Seq::empty()
    } else {
        let rest = spec_forward_headers(headers.drop_first());
        if spec_is_hop_by_hop(headers[0].0) {
            rest
        } else {
            seq![headers[0]] + rest
        }
    }
}

/// Drops the hop-by-hop headers; the rest keep their order.
pub fn filter_forward_headers(headers: Vec<(String, String)>) -> (r: Vec<(String, String)>)
    ensures
        Seq::new(r@.len(), |k: int| ((r@[k]).0@, r@[k].1@)) =~= spec_forward_headers(
            Seq::new(headers@.len(), |k: int| ((headers@[k]).0@, headers@[k].1@)),
        ),
{
    let ghost hview = Seq::new(headers@.len(), |k: int| ((headers@[k]).0@, headers@[k].1@));
    let mut rest = headers;
    let mut out: Vec<(String, String)> = Vec::new();
    proof {
        assert(Seq::new(rest@.len(), |k: int| ((rest@[k]).0@, rest@[k].1@)) =~= hview);
        assert(Seq::new(out@.len(), |k: int| ((out@[k]).0@, out@[k].1@)) + spec_forward_headers(
            hview,
        ) =~= spec_forward_headers(hview));
    }
    while rest.len() > 0
        invariant
            spec_forward_headers(hview) =~= Seq::new(
                out@.len(),
                |k: int| ((out@[k]).0@, out@[k].1@),
            ) + spec_forward_headers(
                Seq::new(rest@.len(), |k: int| ((rest@[k]).0@, rest@[k].1@)),
            ),
        decreases rest@.len(),
    {
        let ghost rview = Seq::new(rest@.len(), |k: int| ((rest@[k]).0@, rest@[k].1@));
        let ghost oview = Seq::new(out@.len(), |k: int| ((out@[k]).0@, out@[k].1@));
        let ghost old_rest = rest@;
        let h = rest.remove(0);
        proof {
            assert(rest@ =~= old_rest.drop_first());
            assert(Seq::new(rest@.len(), |k: int| ((rest@[k]).0@, rest@[k].1@)) =~= rview.drop_first());
            assert(rview[0] == (h.0@, h.1@));
        }
        if !is_hop_by_hop(h.0.as_str()) {
            let ghost hv = (h.0@, h.1@);
            out.push(h);
            proof {
                assert(Seq::new(out@.len(), |k: int| ((out@[k]).0@, out@[k].1@)) =~= oview.push(
                    hv,
                ));
                assert(oview + (seq![hv] + spec_forward_headers(rview.drop_first())) =~= oview.push(
                    hv,
                ) + spec_forward_headers(rview.drop_first()));
            }
        }
    }
    proof {
        assert(spec_forward_headers(Seq::new(rest@.len(), |k: int| ((rest@[k]).0@, rest@[k].1@)))
            =~= Seq::<(Seq<char>, Seq<char>)>::empty());
        assert(Seq::new(out@.len(), |k: int| ((out@[k]).0@, out@[k].1@)) + Seq::<(
            Seq<char>,
            Seq<char>,
        )>::empty() =~= Seq::new(out@.len(), |k: int| ((out@[k]).0@, out@[k].1@)));
    }
    out
}

/// The cache tier a request belongs to by its size: big bodies go to
/// instances with a standing cache, small ones to paged instances.
pub open spec fn spec_cache_tag(message_size: int, threshold: int) -> Seq<char> {
    if message_size > threshold {
        "static"@
    } else {
        "paged"@
    }
}

/// Chooses the cache tier tag for a request size.
pub fn choose_cache_type(message_size: usize, threshold: usize) -> (r: String)
    ensures
        r@ == spec_cache_tag(message_size as int, threshold as int),
{
    if message_size > threshold {
        String::from_str("static")
    } else {
        String::from_str("paged")
    }
}

/// The routing threshold: the overriding value when it parses as a number
/// that fits the machine, else the default.
pub open spec fn spec_threshold_of(over: Option<Seq<char>>) -> int {
    match over {
        Some(s) => if spec_is_numeral(s) && spec_digits_value(s) <= usize::MAX {
            spec_digits_value(s) as int
        } else {
            DEFAULT_CACHE_TYPE_ROUTING_THRESHOLD as int
        },
        None => DEFAULT_CACHE_TYPE_ROUTING_THRESHOLD as int,
    }
}

/// Reads the cache-routing threshold from an optional override.
pub fn routing_threshold(over: Option<&String>) -> (r: usize)
    ensures
        r as int == spec_threshold_of(
            match over {
                Some(s) => Some(s@),
                None => None,
            },
        ),
{
    match over {
        Some(s) => {
            let chars = crate::bindings::str_to_chars(s.as_str());
            match crate::strutil::parse_u64(chars.as_slice()) {
                Some(v) => {
                    if v <= (usize::MAX as u64) {
                        v as usize
                    } else {
                        DEFAULT_CACHE_TYPE_ROUTING_THRESHOLD
                    }
                },
                None => DEFAULT_CACHE_TYPE_ROUTING_THRESHOLD,
            }
        },
        None => DEFAULT_CACHE_TYPE_ROUTING_THRESHOLD,
    }
}

/// The overall proxy timeout in seconds: the override when it parses, else
/// half an hour.
pub open spec fn spec_proxy_timeout_of(over: Option<Seq<char>>) -> u64 {
    match over {
        Some(s) => if spec_is_numeral(s) && spec_digits_value(s) <= u64::MAX {
            spec_digits_value(s) as u64
        } else {
            1800u64
        },
        None => 1800u64,
    }
}

/// Reads the proxy timeout from an optional override.
pub fn proxy_timeout_secs(over: Option<&String>) -> (r: u64)
    ensures
        r == spec_proxy_timeout_of(
            match over {
                Some(s) => Some(s@),
                None => None,
            },
        ),
{
    match over {
        Some(s) => {
            let chars = crate::bindings::str_to_chars(s.as_str());
            match crate::strutil::parse_u64(chars.as_slice()) {
                Some(v) => v,
                None => 1800,
            }
        },
        None => 1800,
    }
}

/// How sending a proxied request to a worker failed, at the transport.
#[derive(Clone, Copy, PartialEq, Eq, Structural, Debug)]
pub enum TransportError {
    Timeout,
    ConnectionRefused,
    Other,
}

/// The status reported when the last retry fails this way.
pub open spec fn spec_error_status(e: TransportError) -> u16 {
    match e {
        TransportError::Timeout => 504,
        TransportError::ConnectionRefused => 503,
        TransportError::Other => 502,
    }
}

/// Maps a transport failure to the status the client sees: gateway timeout,
/// service unavailable, or bad gateway.
pub fn error_status(e: TransportError) -> (r: u16)
    ensures
        r == spec_error_status(e),
{
    match e {
        TransportError::Timeout => 504,
        TransportError::ConnectionRefused => 503,
        TransportError::Other => 502,
    }
}

/// The message sent with a failed last retry.
pub fn error_message(e: TransportError) -> (r: &'static str)
    ensures
        e == TransportError::Timeout ==> r@ == "Service timeout"@,
        e == TransportError::ConnectionRefused ==> r@
            == "Service unavailable - connection refused"@,
        e == TransportError::Other ==> r@ == "Bad gateway - error communicating with service"@,
{
    match e {
        TransportError::Timeout => "Service timeout",
        TransportError::ConnectionRefused => "Service unavailable - connection refused",
        TransportError::Other => "Bad gateway - error communicating with service",
    }
}

/// The router's error cases and what the client is told.
pub enum RouterError {
    NoHealthyService,
    ServiceNotFound(String),
    RegistryError(String),
    JsonError(String),
    IoError(String),
    ConfigError(String),
    Internal(String),
}

impl RouterError {
    /// The status each error case answers with.
    pub fn status_code(&self) -> (r: u16)
        ensures
            r == (match self {
                RouterError::NoHealthyService => 503u16,
                RouterError::ServiceNotFound(_) => 404u16,
                RouterError::RegistryError(_) => 502u16,
                RouterError::JsonError(_) => 400u16,
                RouterError::IoError(_) => 500u16,
                RouterError::ConfigError(_) => 500u16,
                RouterError::Internal(_) => 500u16,
            }),
    {
        match self {
            RouterError::NoHealthyService => 503,
            RouterError::ServiceNotFound(_) => 404,
            RouterError::RegistryError(_) => 502,
            RouterError::JsonError(_) => 400,
            RouterError::IoError(_) => 500,
            RouterError::ConfigError(_) => 500,
            RouterError::Internal(_) => 500,
        }
    }
}

} // verus!

verus! {

/// The retry ledger of one proxied request: how many sends were attempted
/// and how the last one failed. A send happens only behind `can_attempt`,
/// so no request is sent more than `MAX_PROXY_RETRIES` times.
pub struct ProxyAttempts {
    pub attempt: u32,
    pub last_error: Option<TransportError>,
}

impl ProxyAttempts {
    /// A fresh ledger: nothing attempted, nothing failed.
    pub fn new() -> (r: ProxyAttempts)
        ensures
            r.attempt == 0,
            r.last_error is None,
    {
        ProxyAttempts { attempt: 0, last_error: None }
    }

    /// Whether another send may be attempted.
    pub fn can_attempt(&self) -> (r: bool)
        ensures
            r == (self.attempt < MAX_PROXY_RETRIES),
    {
        self.attempt < MAX_PROXY_RETRIES
    }

    /// Counts one failed send; the count never passes the retry bound.
    pub fn record_failure(&mut self, e: TransportError)
        requires
            old(self).attempt < MAX_PROXY_RETRIES,
        ensures
            final(self).attempt == old(self).attempt + 1,
            final(self).attempt <= MAX_PROXY_RETRIES,
            final(self).last_error == Some(e),
    {
        self.attempt = self.attempt + 1;
        self.last_error = Some(e);
    }

    /// The status returned when every retry failed: the last transport
    /// error's mapping, or unavailability when nothing was ever sendable.
    pub fn final_status(&self) -> (r: u16)
        ensures
            r == (match self.last_error {
                Some(e) => spec_error_status(e),
                None => 503u16,
            }),
    {
        match self.last_error {
            Some(e) => error_status(e),
            None => 503,
        }
    }
}

/// The model hint of extracted routing fields.
pub open spec fn spec_rf_model(f: Option<RoutingFields>) -> Option<Seq<char>> {
    match f {
        Some(ff) => match ff.model_id {
            Some(s) => Some(s@),
            None => None,
        },
        None => None,
    }
}

/// The size of extracted routing fields, where one is known.
pub open spec fn spec_rf_size(f: Option<RoutingFields>) -> int {
    match f {
        Some(ff) => match ff.message_size {
            Some(n) => n as int,
            None => 0,
        },
        None => 0,
    }
}

/// Whether the extracted fields carry a size: only then does the cache
/// tier apply.
pub open spec fn spec_rf_size_known(f: Option<RoutingFields>) -> bool {
    match f {
        Some(ff) => ff.message_size is Some,
        None => false,
    }
}

/// Selects the target of one proxied request through the three tiers:
/// size-based cache routing when the body's size is known, then session
/// affinity when a session identity exists, then weighted round robin.
/// `None` exactly when no healthy instance serves the model.
pub fn select_target(
    lb: &mut LoadBalancer,
    fields: &Option<RoutingFields>,
    session_id: Option<&String>,
    threshold: usize,
) -> (r: Option<usize>)
    ensures
        ({
            let model = spec_rf_model(*fields);
            let tag = spec_cache_tag(spec_rf_size(*fields), threshold as int);
            let c1 = spec_cands(old(lb)@.pool, model, Some(tag));
            let c2 = spec_cands(old(lb)@.pool, model, None);
            if spec_rf_size_known(*fields) && c1.len() > 0 {
                // Cache tier: a counted weighted-round-robin pick among the
                // candidates of the matching cache type.
                {
                    let k = spec_choice(spec_at(old(lb)@.pool, c1), old(lb)@.current_index);
                    &&& r is Some
                    &&& 0 <= k < c1.len()
                    &&& r->0 as int == c1[k]
                    &&& final(lb)@.pool =~= old(lb)@.pool.update(
                        r->0 as int,
                        spec_bump_request(old(lb)@.pool[r->0 as int]),
                    )
                    &&& final(lb)@.current_index == spec_bump(old(lb)@.current_index)
                    &&& final(lb)@.grace == old(lb)@.grace
                }
            } else if session_id is Some && c2.len() > 0 {
                // Session tier: the consistent hash of the session key.
                &&& r is Some
                &&& r->0 as int == c2[spec_fnv1a64(
                    vstd::utf8::encode_utf8(session_id->0@),
                ) as int % c2.len() as int]
                &&& final(lb)@ == old(lb)@
            } else if c2.len() > 0 {
                // Round-robin tier.
                {
                    let k = spec_choice(spec_at(old(lb)@.pool, c2), old(lb)@.current_index);
                    &&& r is Some
                    &&& 0 <= k < c2.len()
                    &&& r->0 as int == c2[k]
                    &&& final(lb)@.pool =~= old(lb)@.pool.update(
                        r->0 as int,
                        spec_bump_request(old(lb)@.pool[r->0 as int]),
                    )
                    &&& final(lb)@.current_index == spec_bump(old(lb)@.current_index)
                    &&& final(lb)@.grace == old(lb)@.grace
                }
            } else {
                r is None && final(lb)@ == old(lb)@
            }
        }),
{
    let model: Option<&String> = match fields {
        Some(f) => match &f.model_id {
            Some(m) => Some(m),
            None => None,
        },
        None => None,
    };
    match fields {
        Some(f) => match f.message_size {
            Some(size) => {
                let tag = choose_cache_type(size, threshold);
                match lb.get_service_by_cache_type(&tag, model) {
                    Some(idx) => {
                        return Some(idx);
                    },
                    None => {},
                }
            },
            None => {},
        },
        None => {},
    }
    match session_id {
        Some(key) => {
            match lb.get_service_by_session(key, model) {
                Some(idx) => {
                    return Some(idx);
                },
                None => {},
            }
        },
        None => {},
    }
    lb.get_next_healthy_service_by_model(model)
}

/// A failed instance is not selected again: once it is marked unhealthy,
/// no candidate set of any tier names it.
pub proof fn lemma_failed_instance_not_reselected(
    pool: Seq<InstanceModel>,
    model: Option<Seq<char>>,
    cache: Option<Seq<char>>,
    idx: int,
)
    requires
        0 <= idx < pool.len(),
        !pool[idx].healthy,
    ensures
        forall|k: int|
            0 <= k < spec_cands(pool, model, cache).len() ==> (#[trigger] spec_cands(
                pool,
                model,
                cache,
            )[k]) != idx,
{
    crate::balancer::lemma_cands_props(pool, model, cache);
}

/// With at least two candidates, failing the chosen one still leaves a
/// candidate, and every remaining candidate is a different instance: a
/// retry is sent to a distinct instance.
pub proof fn lemma_retry_uses_distinct_instance(
    pool: Seq<InstanceModel>,
    model: Option<Seq<char>>,
    cache: Option<Seq<char>>,
    idx: int,
)
    requires
        0 <= idx < pool.len(),
        spec_cands(pool, model, cache).len() >= 2,
    ensures
        ({
            let after = pool.update(idx, spec_proxy_failure(pool[idx]));
            &&& spec_cands(after, model, cache).len() >= 1
            &&& forall|k: int|
                0 <= k < spec_cands(after, model, cache).len() ==> (#[trigger] spec_cands(
                    after,
                    model,
                    cache,
                )[k]) != idx
        }),
{
    let after = pool.update(idx, spec_proxy_failure(pool[idx]));
    crate::balancer::lemma_cands_props(pool, model, cache);
    crate::balancer::lemma_cands_props(after, model, cache);
    let c = spec_cands(pool, model, cache);
    let i1 = c[0];
    let i2 = c[1];
    assert(i1 != i2);
    let other = if i1 != idx {
        i1
    } else {
        i2
    };
    assert(after[other] == pool[other]);
    assert(spec_matches(after[other], model, cache));
    assert(spec_cands(after, model, cache).contains(other));
}

} // verus!

verus! {

/// The session identity of a request, from its raw ingredients: the body's
/// cache key first, else the IP-derived tag, each prefixed with the model
/// (or `default`) and its category; none when neither source yields one.
pub fn extract_session_id(
    x_forwarded_for: Option<&String>,
    user_agent: Option<&String>,
    body: &[u8],
    remote_addr: Option<&String>,
    model_id: Option<&String>,
) -> (r: Option<String>)
    ensures
        ({
            let key = match spec_parse_json_bytes(body@) {
                Some(m) => spec_cache_key_hint(m),
                None => None,
            };
            let ip = spec_session_from_ip(
                match x_forwarded_for {
                    Some(h) => Some(h@),
                    None => None,
                },
                match user_agent {
                    Some(u) => Some(u@),
                    None => None,
                },
                match remote_addr {
                    Some(a) => Some(a@),
                    None => None,
                },
            );
            let expected = spec_session_id(
                match model_id {
                    Some(m) => Some(m@),
                    None => None,
                },
                key,
                ip,
            );
            match r {
                Some(s) => expected == Some(s@),
                None => expected is None,
            }
        }),
{
    let key = extract_prompt_cache_key_from_body(body);
    match key {
        Some(k) => compute_session_id(model_id, Some(&k), None),
        None => {
            let ip = generate_session_from_ip(x_forwarded_for, user_agent, remote_addr);
            match ip {
                Some(h) => compute_session_id(model_id, None, Some(&h)),
                None => compute_session_id(model_id, None, None),
            }
        },
    }
}

} // verus!
