//! A verified partial JSON decoder.
//!
//! The proxy hot path, the static services file and the model-list replies
//! all need a handful of fields out of JSON text without a full schema, so
//! the library carries its own small decoder: `parse_json_chars` follows
//! RFC 8259 (objects, arrays, strings with escapes, numbers kept as their
//! raw text, literals), and its result is pinned exactly to the spec-level
//! parser `spec_parse_value`. Numbers are carried as raw text: the fields
//! this system reads are strings and small integers, never floats.

use vstd::prelude::*;

use crate::strutil::spec_is_digit;

verus! {

broadcast use {vstd::std_specs::vec::axiom_vec_decreases_to_view, vstd::seq::axiom_seq_index_decreases};

/// A decoded JSON document.
pub enum Json {
    Null,
    Bool(bool),
    /// A number, as the raw characters that spelled it.
    Num(Vec<char>),
    Str(Vec<char>),
    Arr(Vec<Json>),
    Obj(Vec<(Vec<char>, Json)>),
}

/// The mathematical shape of a decoded JSON document.
pub ghost enum JModel {
    Null,
    Bool(bool),
    Num(Seq<char>),
    Str(Seq<char>),
    Arr(Seq<JModel>),
    Obj(Seq<(Seq<char>, JModel)>),
}

/// The model of a decoded document.
pub open spec fn jview(j: Json) -> JModel
    decreases j,
{
    match j {
        Json::Null => JModel::Null,
        Json::Bool(b) => JModel::Bool(b),
        Json::Num(t) => JModel::Num(t@),
        Json::Str(t) => JModel::Str(t@),
        Json::Arr(items) => JModel::Arr(jview_items(items@)),
        Json::Obj(fields) => JModel::Obj(jview_fields(fields@)),
    }
}

/// The models of a sequence of documents, in order.
pub open spec fn jview_items(items: Seq<Json>) -> Seq<JModel>
    decreases items,
{
    if items.len() == 0 {
        Seq::empty()
    } else {
        seq![jview(items[0])] + jview_items(items.drop_first())
    }
}

/// The models of a sequence of keyed documents, in order.
pub open spec fn jview_fields(fields: Seq<(Vec<char>, Json)>) -> Seq<(Seq<char>, JModel)>
    decreases fields,
{
    if fields.len() == 0 {
        Seq::empty()
    } else {
        seq![(fields[0].0@, jview(fields[0].1))] + jview_fields(fields.drop_first())
    }
}

impl View for Json {
    type V = JModel;

    open spec fn view(&self) -> JModel {
        jview(*self)
    }
}

/// JSON insignificant whitespace.
pub open spec fn spec_is_ws(c: char) -> bool {
    c == ' ' || c == '\t' || c == '\n' || c == '\r'
}

/// The first position at or after `pos` that does not hold whitespace.
pub open spec fn spec_skip_ws(s: Seq<char>, pos: int) -> int
    decreases s.len() - pos,
    when 0 <= pos <= s.len()
{
    if pos < s.len() && spec_is_ws(s[pos]) {
        spec_skip_ws(s, pos + 1)
    } else {
        pos
    }
}

/// True when `c` may start a JSON number.
pub open spec fn spec_is_num_start(c: char) -> bool {
    c == '-' || spec_is_digit(c)
}

/// The digits starting at `pos`: the first position at or after `pos` that
/// holds no decimal digit.
pub open spec fn spec_skip_digits(s: Seq<char>, pos: int) -> int
    decreases s.len() - pos,
    when 0 <= pos <= s.len()
{
    if pos < s.len() && spec_is_digit(s[pos]) {
        spec_skip_digits(s, pos + 1)
    } else {
        pos
    }
}

pub proof fn lemma_skip_digits_bounds(s: Seq<char>, pos: int)
    requires
        0 <= pos <= s.len(),
    ensures
        pos <= spec_skip_digits(s, pos) <= s.len(),
    decreases s.len() - pos,
{
    if pos < s.len() && spec_is_digit(s[pos]) {
        lemma_skip_digits_bounds(s, pos + 1);
    }
}

/// The integer part of a number after an optional sign: `0`, or a nonzero
/// digit followed by digits. Returns the position after it, or `None` when
/// the text there is not a well-formed integer part.
pub open spec fn spec_scan_int(s: Seq<char>, pos: int) -> Option<int> {
    if pos < s.len() && s[pos] == '0' {
        Some(pos + 1)
    } else if pos < s.len() && spec_is_digit(s[pos]) {
        Some(spec_skip_digits(s, pos))
    } else {
        None
    }
}

/// The fraction part: nothing, or `.` followed by one or more digits.
pub open spec fn spec_scan_frac(s: Seq<char>, pos: int) -> Option<int> {
    if pos < s.len() && s[pos] == '.' {
        if pos + 1 < s.len() && spec_is_digit(s[pos + 1]) {
            Some(spec_skip_digits(s, pos + 1))
        } else {
            None
        }
    } else {
        Some(pos)
    }
}

/// The exponent part: nothing, or `e`/`E`, an optional sign, and digits.
pub open spec fn spec_scan_exp(s: Seq<char>, pos: int) -> Option<int> {
    if pos < s.len() && (s[pos] == 'e' || s[pos] == 'E') {
        let q = if pos + 1 < s.len() && (s[pos + 1] == '+' || s[pos + 1] == '-') {
            pos + 2
        } else {
            pos + 1
        };
        if q < s.len() && spec_is_digit(s[q]) {
            Some(spec_skip_digits(s, q))
        } else {
            None
        }
    } else {
        Some(pos)
    }
}

/// A whole JSON number starting at `pos` (which must hold `-` or a digit):
/// the position just after it, or `None` when malformed.
pub open spec fn spec_scan_number(s: Seq<char>, pos: int) -> Option<int> {
    let p0 = if pos < s.len() && s[pos] == '-' {
        pos + 1
    } else {
        pos
    };
    match spec_scan_int(s, p0) {
        None => None,
        Some(p1) => match spec_scan_frac(s, p1) {
            None => None,
            Some(p2) => spec_scan_exp(s, p2),
        },
    }
}

/// The value of four hexadecimal digits, or `None`.
pub open spec fn spec_hex4(s: Seq<char>, pos: int) -> Option<u32> {
    if pos + 4 <= s.len() && spec_is_hex(s[pos]) && spec_is_hex(s[pos + 1]) && spec_is_hex(
        s[pos + 2],
    ) && spec_is_hex(s[pos + 3]) {
        Some(
            (spec_hex_val(s[pos]) * 0x1000 + spec_hex_val(s[pos + 1]) * 0x100 + spec_hex_val(
                s[pos + 2],
            ) * 0x10 + spec_hex_val(s[pos + 3])) as u32,
        )
    } else {
        None
    }
}

pub open spec fn spec_is_hex(c: char) -> bool {
    spec_is_digit(c) || ('a' <= c && c <= 'f') || ('A' <= c && c <= 'F')
}

pub open spec fn spec_hex_val(c: char) -> nat {
    if spec_is_digit(c) {
        ((c as nat) - ('0' as nat)) as nat
    } else if 'a' <= c && c <= 'f' {
        ((c as nat) - ('a' as nat) + 10) as nat
    } else {
        ((c as nat) - ('A' as nat) + 10) as nat
    }
}

/// One escape sequence after a backslash, at `pos` (the character after the
/// backslash): the decoded character and the position after the escape.
/// `\u` escapes outside the basic plane come as surrogate pairs.
pub open spec fn spec_parse_escape(s: Seq<char>, pos: int) -> Option<(char, int)> {
    if pos >= s.len() {
        None
    } else if s[pos] == '"' {
        Some(('"', pos + 1))
    } else if s[pos] == '\\' {
        Some(('\\', pos + 1))
    } else if s[pos] == '/' {
        Some(('/', pos + 1))
    } else if s[pos] == 'b' {
        Some(('\u{0008}', pos + 1))
    } else if s[pos] == 'f' {
        Some(('\u{000C}', pos + 1))
    } else if s[pos] == 'n' {
        Some(('\n', pos + 1))
    } else if s[pos] == 'r' {
        Some(('\r', pos + 1))
    } else if s[pos] == 't' {
        Some(('\t', pos + 1))
    } else if s[pos] == 'u' {
        match spec_hex4(s, pos + 1) {
            None => None,
            Some(u) => if 0xD800 <= u && u <= 0xDBFF {
                // A high surrogate must be followed by an escaped low one.
                if pos + 6 < s.len() && s[pos + 5] == '\\' && s[pos + 6] == 'u' {
                    match spec_hex4(s, pos + 7) {
                        None => None,
                        Some(lo) => if 0xDC00 <= lo && lo <= 0xDFFF {
                            Some(
                                (
                                    spec_scalar_char(
                                        (0x10000 + (u - 0xD800) * 0x400 + (lo - 0xDC00)) as u32,
                                    ),
                                    pos + 11,
                                ),
                            )
                        } else {
                            None
                        },
                    }
                } else {
                    None
                }
            } else if 0xDC00 <= u && u <= 0xDFFF {
                None
            } else {
                Some((spec_scalar_char(u), pos + 5))
            },
        }
    } else {
        None
    }
}

/// The character with the given Unicode scalar value.
pub open spec fn spec_scalar_char(u: u32) -> char
    recommends
        vstd::utf8::is_scalar(u),
{
    choose|c: char| (#[trigger] (c as u32)) == u
}

/// The rest of a JSON string starting at `pos` (just inside the quotes):
/// the decoded characters and the position after the closing quote.
pub open spec fn spec_parse_string(s: Seq<char>, pos: int) -> Option<(Seq<char>, int)>
    decreases s.len() - pos,
    when 0 <= pos <= s.len()
{
    if pos >= s.len() {
        None
    } else if s[pos] == '"' {
        Some((Seq::empty(), pos + 1))
    } else if s[pos] == '\\' {
        match spec_parse_escape(s, pos + 1) {
            None => None,
            Some((c, p)) => if pos + 2 <= p <= s.len() {
                match spec_parse_string(s, p) {
                    None => None,
                    Some((rest, q)) => Some((seq![c] + rest, q)),
                }
            } else {
                None
            },
        }
    } else if (s[pos] as u32) < 0x20 {
        None
    } else {
        match spec_parse_string(s, pos + 1) {
            None => None,
            Some((rest, q)) => Some((seq![s[pos]] + rest, q)),
        }
    }
}

pub proof fn lemma_parse_string_bounds(s: Seq<char>, pos: int)
    requires
        0 <= pos <= s.len(),
    ensures
        match spec_parse_string(s, pos) {
            Some((t, p)) => pos < p <= s.len(),
            None => true,
        },
    decreases s.len() - pos,
{
    if pos >= s.len() {
    } else if s[pos] == '"' {
    } else if s[pos] == '\\' {
        match spec_parse_escape(s, pos + 1) {
            None => {},
            Some((c, p)) => {
                if pos + 2 <= p <= s.len() {
                    lemma_parse_string_bounds(s, p);
                }
            },
        }
    } else if (s[pos] as u32) < 0x20 {
    } else {
        lemma_parse_string_bounds(s, pos + 1);
    }
}

/// True when the characters at `pos` are exactly `lit`.
pub open spec fn spec_match_lit(s: Seq<char>, pos: int, lit: Seq<char>) -> bool {
    pos + lit.len() <= s.len() && s.subrange(pos, pos + lit.len()) =~= lit
}

/// One JSON value starting at `pos` (no leading whitespace): its model and
/// the position just after it. `fuel` bounds the recursion; the public
/// entry point supplies more than any input can consume.
pub open spec fn spec_parse_value(s: Seq<char>, pos: int, fuel: nat) -> Option<(JModel, int)>
    decreases fuel,
{
    if fuel == 0 || !(0 <= pos < s.len()) {
        None
    } else if s[pos] == 'n' {
        if spec_match_lit(s, pos, seq!['n', 'u', 'l', 'l']) {
            Some((JModel::Null, pos + 4))
        } else {
            None
        }
    } else if s[pos] == 't' {
        if spec_match_lit(s, pos, seq!['t', 'r', 'u', 'e']) {
            Some((JModel::Bool(true), pos + 4))
        } else {
            None
        }
    } else if s[pos] == 'f' {
        if spec_match_lit(s, pos, seq!['f', 'a', 'l', 's', 'e']) {
            Some((JModel::Bool(false), pos + 5))
        } else {
            None
        }
    } else if s[pos] == '"' {
        match spec_parse_string(s, pos + 1) {
            None => None,
            Some((t, p)) => Some((JModel::Str(t), p)),
        }
    } else if spec_is_num_start(s[pos]) {
        match spec_scan_number(s, pos) {
            None => None,
            Some(p) => if pos < p <= s.len() {
                Some((JModel::Num(s.subrange(pos, p)), p))
            } else {
                None
            },
        }
    } else if s[pos] == '[' {
        let p0 = spec_skip_ws(s, pos + 1);
        if p0 < s.len() && s[p0] == ']' {
            Some((JModel::Arr(Seq::empty()), p0 + 1))
        } else {
            match spec_parse_items(s, p0, (fuel - 1) as nat) {
                None => None,
                Some((items, p)) => Some((JModel::Arr(items), p)),
            }
        }
    } else if s[pos] == '{' {
        let p0 = spec_skip_ws(s, pos + 1);
        if p0 < s.len() && s[p0] == '}' {
            Some((JModel::Obj(Seq::empty()), p0 + 1))
        } else {
            match spec_parse_members(s, p0, (fuel - 1) as nat) {
                None => None,
                Some((fields, p)) => Some((JModel::Obj(fields), p)),
            }
        }
    } else {
        None
    }
}

/// One or more comma-separated array items starting at `pos`, up to and
/// including the closing bracket.
pub open spec fn spec_parse_items(s: Seq<char>, pos: int, fuel: nat) -> Option<
    (Seq<JModel>, int),
>
    decreases fuel,
{
    if fuel == 0 {
        None
    } else {
        match spec_parse_value(s, pos, (fuel - 1) as nat) {
            None => None,
            Some((v, p1)) => if 0 <= p1 <= s.len() {
                let p2 = spec_skip_ws(s, p1);
                if p2 < s.len() && s[p2] == ',' {
                    match spec_parse_items(s, spec_skip_ws(s, p2 + 1), (fuel - 1) as nat) {
                        None => None,
                        Some((rest, p3)) => Some((seq![v] + rest, p3)),
                    }
                } else if p2 < s.len() && s[p2] == ']' {
                    Some((seq![v], p2 + 1))
                } else {
                    None
                }
            } else {
                None
            },
        }
    }
}

/// One or more comma-separated object members starting at `pos`, up to and
/// including the closing brace.
pub open spec fn spec_parse_members(s: Seq<char>, pos: int, fuel: nat) -> Option<
    (Seq<(Seq<char>, JModel)>, int),
>
    decreases fuel,
{
    if fuel == 0 {
        None
    } else if !(0 <= pos < s.len() && s[pos] == '"') {
        None
    } else {
        match spec_parse_string(s, pos + 1) {
            None => None,
            Some((key, pk)) => {
                let pc = spec_skip_ws(s, pk);
                if pc < s.len() && s[pc] == ':' {
                    match spec_parse_value(s, spec_skip_ws(s, pc + 1), (fuel - 1) as nat) {
                        None => None,
                        Some((v, p1)) => if 0 <= p1 <= s.len() {
                            let p2 = spec_skip_ws(s, p1);
                            if p2 < s.len() && s[p2] == ',' {
                                match spec_parse_members(
                                    s,
                                    spec_skip_ws(s, p2 + 1),
                                    (fuel - 1) as nat,
                                ) {
                                    None => None,
                                    Some((rest, p3)) => Some((seq![(key, v)] + rest, p3)),
                                }
                            } else if p2 < s.len() && s[p2] == '}' {
                                Some((seq![(key, v)], p2 + 1))
                            } else {
                                None
                            }
                        } else {
                            None
                        },
                    }
                } else {
                    None
                }
            },
        }
    }
}

/// The fuel that the public parser hands to `spec_parse_value`: ample for
/// any input of this length.
pub open spec fn spec_fuel(len: nat) -> nat {
    2 * len + 4
}

/// The model of a whole JSON document: one value with whitespace around it
/// and nothing after it.
pub open spec fn spec_parse_json(s: Seq<char>) -> Option<JModel> {
    let p0 = spec_skip_ws(s, 0);
    match spec_parse_value(s, p0, spec_fuel(s.len())) {
        None => None,
        Some((v, p)) => if 0 <= p <= s.len() && spec_skip_ws(s, p) == s.len() {
            Some(v)
        } else {
            None
        },
    }
}

/// The model of a JSON document carried as bytes: decoded as UTF-8 first,
/// as the wire format requires.
pub open spec fn spec_parse_json_bytes(b: Seq<u8>) -> Option<JModel> {
    if vstd::utf8::valid_utf8(b) {
        spec_parse_json(vstd::utf8::decode_utf8(b))
    } else {
        None
    }
}

} // verus!

use vstd::slice::{slice_subrange, slice_to_vec};
use crate::bindings::{char_from_u32, str_to_chars, utf8_to_str};

verus! {

/// Models of a sequence of documents: as many as the documents.
pub proof fn lemma_jview_items_len(items: Seq<Json>)
    ensures
        jview_items(items).len() == items.len(),
    decreases items,
{
    if items.len() > 0 {
        lemma_jview_items_len(items.drop_first());
    }
}

/// The model of each document in a sequence stands at its index.
pub proof fn lemma_jview_items_index(items: Seq<Json>, i: int)
    requires
        0 <= i < items.len(),
    ensures
        jview_items(items).len() == items.len(),
        jview_items(items)[i] == jview(items[i]),
    decreases items,
{
    lemma_jview_items_len(items);
    if i > 0 {
        lemma_jview_items_index(items.drop_first(), i - 1);
    }
}

/// Models of a sequence of keyed documents: as many as the members.
pub proof fn lemma_jview_fields_len(fields: Seq<(Vec<char>, Json)>)
    ensures
        jview_fields(fields).len() == fields.len(),
    decreases fields,
{
    if fields.len() > 0 {
        lemma_jview_fields_len(fields.drop_first());
    }
}

/// The model of each member of an object stands at its index.
pub proof fn lemma_jview_fields_index(fields: Seq<(Vec<char>, Json)>, i: int)
    requires
        0 <= i < fields.len(),
    ensures
        jview_fields(fields).len() == fields.len(),
        jview_fields(fields)[i] == (fields[i].0@, jview(fields[i].1)),
    decreases fields,
{
    lemma_jview_fields_len(fields);
    if i > 0 {
        lemma_jview_fields_index(fields.drop_first(), i - 1);
    }
}

fn is_ws(c: char) -> (r: bool)
    ensures
        r == spec_is_ws(c),
{
    c == ' ' || c == '\t' || c == '\n' || c == '\r'
}

fn is_digit(c: char) -> (r: bool)
    ensures
        r == spec_is_digit(c),
{
    c >= '0' && c <= '9'
}

fn skip_ws(s: &[char], pos: usize) -> (r: usize)
    requires
        pos <= s@.len(),
    ensures
        r == spec_skip_ws(s@, pos as int),
        pos <= r <= s@.len(),
{
    let mut i = pos;
    while i < s.len() && is_ws(s[i])
        invariant
            pos <= i <= s@.len(),
            spec_skip_ws(s@, pos as int) == spec_skip_ws(s@, i as int),
        decreases s@.len() - i,
    {
        i += 1;
    }
    i
}

fn skip_digits(s: &[char], pos: usize) -> (r: usize)
    requires
        pos <= s@.len(),
    ensures
        r == spec_skip_digits(s@, pos as int),
        pos <= r <= s@.len(),
{
    let mut i = pos;
    while i < s.len() && is_digit(s[i])
        invariant
            pos <= i <= s@.len(),
            spec_skip_digits(s@, pos as int) == spec_skip_digits(s@, i as int),
        decreases s@.len() - i,
    {
        i += 1;
    }
    i
}

fn scan_number(s: &[char], pos: usize) -> (r: Option<usize>)
    requires
        pos < s@.len(),
    ensures
        match r {
            Some(p) => spec_scan_number(s@, pos as int) == Some(p as int) && pos < p <= s@.len(),
            None => spec_scan_number(s@, pos as int) is None,
        },
{
    let p0 = if s[pos] == '-' {
        pos + 1
    } else {
        pos
    };
    if p0 >= s.len() {
        return None;
    }
    let p1 = if s[p0] == '0' {
        p0 + 1
    } else if is_digit(s[p0]) {
        let d = skip_digits(s, p0);
        assert(spec_skip_digits(s@, p0 as int) == spec_skip_digits(s@, p0 as int + 1));
        proof {
            lemma_skip_digits_bounds(s@, p0 as int + 1);
        }
        d
    } else {
        return None;
    };
    assert(p0 < p1);
    let p2 = if p1 < s.len() && s[p1] == '.' {
        if p1 + 1 < s.len() && is_digit(s[p1 + 1]) {
            skip_digits(s, p1 + 1)
        } else {
            return None;
        }
    } else {
        p1
    };
    if p2 < s.len() && (s[p2] == 'e' || s[p2] == 'E') {
        let q = if p2 + 1 < s.len() && (s[p2 + 1] == '+' || s[p2 + 1] == '-') {
            p2 + 2
        } else {
            p2 + 1
        };
        if q < s.len() && is_digit(s[q]) {
            Some(skip_digits(s, q))
        } else {
            None
        }
    } else {
        Some(p2)
    }
}

fn hex_val(c: char) -> (r: Option<u32>)
    ensures
        match r {
            Some(v) => spec_is_hex(c) && v == spec_hex_val(c) && v < 16,
            None => !spec_is_hex(c),
        },
{
    if c >= '0' && c <= '9' {
        Some((c as u32) - ('0' as u32))
    } else if c >= 'a' && c <= 'f' {
        Some((c as u32) - ('a' as u32) + 10)
    } else if c >= 'A' && c <= 'F' {
        Some((c as u32) - ('A' as u32) + 10)
    } else {
        None
    }
}

fn hex4(s: &[char], pos: usize) -> (r: Option<u32>)
    requires
        pos <= s@.len(),
    ensures
        r == spec_hex4(s@, pos as int),
        match r {
            Some(u) => u < 0x10000,
            None => true,
        },
{
    if s.len() - pos < 4 {
        return None;
    }
    let d0 = match hex_val(s[pos]) {
        Some(v) => v,
        None => {
            return None;
        },
    };
    let d1 = match hex_val(s[pos + 1]) {
        Some(v) => v,
        None => {
            return None;
        },
    };
    let d2 = match hex_val(s[pos + 2]) {
        Some(v) => v,
        None => {
            return None;
        },
    };
    let d3 = match hex_val(s[pos + 3]) {
        Some(v) => v,
        None => {
            return None;
        },
    };
    Some(d0 * 0x1000 + d1 * 0x100 + d2 * 0x10 + d3)
}

fn parse_escape(s: &[char], pos: usize) -> (r: Option<(char, usize)>)
    requires
        pos <= s@.len(),
    ensures
        match r {
            Some((c, p)) => spec_parse_escape(s@, pos as int) == Some((c, p as int)) && pos + 1
                <= p <= s@.len(),
            None => spec_parse_escape(s@, pos as int) is None,
        },
{
    if pos >= s.len() {
        return None;
    }
    let c = s[pos];
    if c == '"' {
        Some(('"', pos + 1))
    } else if c == '\\' {
        Some(('\\', pos + 1))
    } else if c == '/' {
        Some(('/', pos + 1))
    } else if c == 'b' {
        Some(('\u{0008}', pos + 1))
    } else if c == 'f' {
        Some(('\u{000C}', pos + 1))
    } else if c == 'n' {
        Some(('\n', pos + 1))
    } else if c == 'r' {
        Some(('\r', pos + 1))
    } else if c == 't' {
        Some(('\t', pos + 1))
    } else if c == 'u' {
        let u = match hex4(s, pos + 1) {
            Some(u) => u,
            None => {
                return None;
            },
        };
        if 0xD800 <= u && u <= 0xDBFF {
            if s.len() - pos > 6 && s[pos + 5] == '\\' && s[pos + 6] == 'u' {
                let lo = match hex4(s, pos + 7) {
                    Some(lo) => lo,
                    None => {
                        return None;
                    },
                };
                if 0xDC00 <= lo && lo <= 0xDFFF {
                    let scalar: u32 = 0x10000 + (u - 0xD800) * 0x400 + (lo - 0xDC00);
                    let c = char_from_u32(scalar);
                    assert(c == spec_scalar_char(scalar));
                    Some((c, pos + 11))
                } else {
                    None
                }
            } else {
                None
            }
        } else if 0xDC00 <= u && u <= 0xDFFF {
            None
        } else {
            let c = char_from_u32(u);
            assert(c == spec_scalar_char(u));
            Some((c, pos + 5))
        }
    } else {
        None
    }
}

fn parse_string_chars(s: &[char], pos: usize) -> (r: Option<(Vec<char>, usize)>)
    requires
        pos <= s@.len(),
    ensures
        match r {
            Some((t, p)) => spec_parse_string(s@, pos as int) == Some((t@, p as int)) && pos < p
                <= s@.len(),
            None => spec_parse_string(s@, pos as int) is None,
        },
{
    proof {
        lemma_parse_string_bounds(s@, pos as int);
    }
    let mut acc: Vec<char> = Vec::new();
    let mut i = pos;
    loop
        invariant
            pos <= i <= s@.len(),
            spec_parse_string(s@, pos as int) == (match spec_parse_string(s@, i as int) {
                Some((rest, q)) => Some((acc@ + rest, q)),
                None => None::<(Seq<char>, int)>,
            }),
        decreases s@.len() - i,
    {
        proof {
            lemma_parse_string_bounds(s@, i as int);
        }
        if i >= s.len() {
            return None;
        }
        let c = s[i];
        if c == '"' {
            proof {
                assert(acc@ + Seq::<char>::empty() =~= acc@);
            }
            return Some((acc, i + 1));
        } else if c == '\\' {
            match parse_escape(s, i + 1) {
                None => {
                    return None;
                },
                Some((ch, p)) => {
                    proof {
                        let ghost old_acc = acc@;
                        assert forall|rest: Seq<char>|
                            true implies old_acc + (seq![ch] + rest) =~= old_acc.push(ch)
                            + rest by {}
                    }
                    let ghost old_acc = acc@;
                    acc.push(ch);
                    proof {
                        assert forall|rest: Seq<char>, q: int|
                            spec_parse_string(s@, p as int) == Some::<(Seq<char>, int)>(
                                (rest, q),
                            ) implies old_acc + (seq![ch] + rest) =~= acc@ + rest by {}
                    }
                    i = p;
                },
            }
        } else if (c as u32) < 0x20 {
            return None;
        } else {
            let ghost old_acc = acc@;
            acc.push(c);
            proof {
                assert forall|rest: Seq<char>, q: int|
                    spec_parse_string(s@, (i + 1) as int) == Some::<(Seq<char>, int)>(
                        (rest, q),
                    ) implies old_acc + (seq![c] + rest) =~= acc@ + rest by {}
            }
            i = i + 1;
        }
    }
}

} // verus!

verus! {

/// One JSON value starting at `pos`, no leading whitespace.
pub fn parse_value(s: &[char], pos: usize, fuel: u128) -> (r: Option<(Json, usize)>)
    requires
        pos <= s@.len(),
    ensures
        match r {
            Some((j, p)) => spec_parse_value(s@, pos as int, fuel as nat) == Some(
                (j@, p as int),
            ) && pos < p <= s@.len(),
            None => spec_parse_value(s@, pos as int, fuel as nat) is None,
        },
    decreases fuel,
{
    if fuel == 0 || pos >= s.len() {
        return None;
    }
    let c = s[pos];
    if c == 'n' {
        if s.len() - pos >= 4 && s[pos + 1] == 'u' && s[pos + 2] == 'l' && s[pos + 3] == 'l' {
            proof {
                assert(s@.subrange(pos as int, pos as int + 4) =~= seq!['n', 'u', 'l', 'l']);
            }
            Some((Json::Null, pos + 4))
        } else {
            proof {
                if spec_match_lit(s@, pos as int, seq!['n', 'u', 'l', 'l']) {
                    assert(s@[pos as int + 1] == 'u');
                    assert(s@[pos as int + 2] == 'l');
                    assert(s@[pos as int + 3] == 'l');
                }
            }
            None
        }
    } else if c == 't' {
        if s.len() - pos >= 4 && s[pos + 1] == 'r' && s[pos + 2] == 'u' && s[pos + 3] == 'e' {
            proof {
                assert(s@.subrange(pos as int, pos as int + 4) =~= seq!['t', 'r', 'u', 'e']);
            }
            Some((Json::Bool(true), pos + 4))
        } else {
            proof {
                if spec_match_lit(s@, pos as int, seq!['t', 'r', 'u', 'e']) {
                    assert(s@[pos as int + 1] == 'r');
                    assert(s@[pos as int + 2] == 'u');
                    assert(s@[pos as int + 3] == 'e');
                }
            }
            None
        }
    } else if c == 'f' {
        if s.len() - pos >= 5 && s[pos + 1] == 'a' && s[pos + 2] == 'l' && s[pos + 3] == 's' && s[
            pos + 4] == 'e' {
            proof {
                assert(s@.subrange(pos as int, pos as int + 5) =~= seq!['f', 'a', 'l', 's', 'e']);
            }
            Some((Json::Bool(false), pos + 5))
        } else {
            proof {
                if spec_match_lit(s@, pos as int, seq!['f', 'a', 'l', 's', 'e']) {
                    assert(s@[pos as int + 1] == 'a');
                    assert(s@[pos as int + 2] == 'l');
                    assert(s@[pos as int + 3] == 's');
                    assert(s@[pos as int + 4] == 'e');
                }
            }
            None
        }
    } else if c == '"' {
        match parse_string_chars(s, pos + 1) {
            None => None,
            Some((t, p)) => Some((Json::Str(t), p)),
        }
    } else if c == '-' || (c >= '0' && c <= '9') {
        match scan_number(s, pos) {
            None => None,
            Some(p) => {
                let raw = slice_to_vec(slice_subrange(s, pos, p));
                Some((Json::Num(raw), p))
            },
        }
    } else if c == '[' {
        let p0 = skip_ws(s, pos + 1);
        if p0 < s.len() && s[p0] == ']' {
            let items: Vec<Json> = Vec::new();
            proof {
                assert(jview_items(items@) =~= Seq::<JModel>::empty());
            }
            Some((Json::Arr(items), p0 + 1))
        } else {
            match parse_items(s, p0, fuel - 1) {
                None => None,
                Some((items, p)) => Some((Json::Arr(items), p)),
            }
        }
    } else if c == '{' {
        let p0 = skip_ws(s, pos + 1);
        if p0 < s.len() && s[p0] == '}' {
            let fields: Vec<(Vec<char>, Json)> = Vec::new();
            proof {
                assert(jview_fields(fields@) =~= Seq::<(Seq<char>, JModel)>::empty());
            }
            Some((Json::Obj(fields), p0 + 1))
        } else {
            match parse_members(s, p0, fuel - 1) {
                None => None,
                Some((fields, p)) => Some((Json::Obj(fields), p)),
            }
        }
    } else {
        None
    }
}

/// One or more comma-separated array items, through the closing bracket.
pub fn parse_items(s: &[char], pos: usize, fuel: u128) -> (r: Option<(Vec<Json>, usize)>)
    requires
        pos <= s@.len(),
    ensures
        match r {
            Some((items, p)) => spec_parse_items(s@, pos as int, fuel as nat) == Some(
                (jview_items(items@), p as int),
            ) && pos < p <= s@.len(),
            None => spec_parse_items(s@, pos as int, fuel as nat) is None,
        },
    decreases fuel,
{
    if fuel == 0 {
        return None;
    }
    match parse_value(s, pos, fuel - 1) {
        None => None,
        Some((v, p1)) => {
            let p2 = skip_ws(s, p1);
            if p2 < s.len() && s[p2] == ',' {
                let pn = skip_ws(s, p2 + 1);
                match parse_items(s, pn, fuel - 1) {
                    None => None,
                    Some((rest, p3)) => {
                        let ghost old_rest = rest@;
                        let mut rest = rest;
                        rest.insert(0, v);
                        proof {
                            assert(rest@.drop_first() =~= old_rest);
                            assert(jview_items(rest@) =~= seq![jview(v)] + jview_items(old_rest));
                        }
                        Some((rest, p3))
                    },
                }
            } else if p2 < s.len() && s[p2] == ']' {
                let mut items: Vec<Json> = Vec::new();
                items.push(v);
                proof {
                    assert(items@.drop_first() =~= Seq::<Json>::empty());
                    assert(jview_items(items@) =~= seq![jview(v)]) by {
                        reveal_with_fuel(jview_items, 2);
                    }
                }
                Some((items, p2 + 1))
            } else {
                None
            }
        },
    }
}

/// One or more comma-separated object members, through the closing brace.
pub fn parse_members(s: &[char], pos: usize, fuel: u128) -> (r: Option<
    (Vec<(Vec<char>, Json)>, usize),
>)
    requires
        pos <= s@.len(),
    ensures
        match r {
            Some((fields, p)) => spec_parse_members(s@, pos as int, fuel as nat) == Some(
                (jview_fields(fields@), p as int),
            ) && pos < p <= s@.len(),
            None => spec_parse_members(s@, pos as int, fuel as nat) is None,
        },
    decreases fuel,
{
    if fuel == 0 {
        return None;
    }
    if !(pos < s.len() && s[pos] == '"') {
        return None;
    }
    match parse_string_chars(s, pos + 1) {
        None => None,
        Some((key, pk)) => {
            let pc = skip_ws(s, pk);
            if pc < s.len() && s[pc] == ':' {
                let pv = skip_ws(s, pc + 1);
                match parse_value(s, pv, fuel - 1) {
                    None => None,
                    Some((v, p1)) => {
                        let p2 = skip_ws(s, p1);
                        if p2 < s.len() && s[p2] == ',' {
                            let pn = skip_ws(s, p2 + 1);
                            match parse_members(s, pn, fuel - 1) {
                                None => None,
                                Some((rest, p3)) => {
                                    let ghost old_rest = rest@;
                                    let ghost kv = (key@, jview(v));
                                    let mut rest = rest;
                                    rest.insert(0, (key, v));
                                    proof {
                                        assert(rest@.drop_first() =~= old_rest);
                                        assert(jview_fields(rest@) =~= seq![kv] + jview_fields(
                                            old_rest,
                                        ));
                                    }
                                    Some((rest, p3))
                                },
                            }
                        } else if p2 < s.len() && s[p2] == '}' {
                            let ghost kv = (key@, jview(v));
                            let mut fields: Vec<(Vec<char>, Json)> = Vec::new();
                            fields.push((key, v));
                            proof {
                                assert(fields@.drop_first() =~= Seq::<(Vec<char>, Json)>::empty());
                                assert(jview_fields(fields@) =~= seq![kv]) by {
                                    reveal_with_fuel(jview_fields, 2);
                                }
                            }
                            Some((fields, p2 + 1))
                        } else {
                            None
                        }
                    },
                }
            } else {
                None
            }
        },
    }
}

/// Parses a whole JSON document from characters.
pub fn parse_json_chars(s: &[char]) -> (r: Option<Json>)
    ensures
        match r {
            Some(j) => spec_parse_json(s@) == Some(j@),
            None => spec_parse_json(s@) is None,
        },
{
    let fuel: u128 = 2 * (s.len() as u128) + 4;
    let p0 = skip_ws(s, 0);
    match parse_value(s, p0, fuel) {
        None => None,
        Some((j, p)) => {
            let pe = skip_ws(s, p);
            if pe == s.len() {
                Some(j)
            } else {
                None
            }
        },
    }
}

/// Parses a whole JSON document from bytes, decoding UTF-8 first.
pub fn parse_json_bytes(b: &[u8]) -> (r: Option<Json>)
    ensures
        match r {
            Some(j) => spec_parse_json_bytes(b@) == Some(j@),
            None => spec_parse_json_bytes(b@) is None,
        },
{
    match utf8_to_str(b) {
        None => None,
        Some(st) => {
            let chars = str_to_chars(st);
            parse_json_chars(chars.as_slice())
        },
    }
}

} // verus!

verus! {

/// Looks a key up among object members; with a repeated key the later
/// member wins, as in the outside decoders this system talks to.
pub open spec fn jm_fields_get(fields: Seq<(Seq<char>, JModel)>, key: Seq<char>) -> Option<
    JModel,
>
    decreases fields.len(),
{
    if fields.len() == 0 {
        None
    } else if fields.last().0 == key {
        Some(fields.last().1)
    } else {
        jm_fields_get(fields.drop_last(), key)
    }
}

/// The member of an object at a key, or `None` off objects.
pub open spec fn jm_get(m: JModel, key: Seq<char>) -> Option<JModel> {
    match m {
        JModel::Obj(fields) => jm_fields_get(fields, key),
        _ => None,
    }
}

/// The characters of a string value.
pub open spec fn jm_as_str(m: JModel) -> Option<Seq<char>> {
    match m {
        JModel::Str(t) => Some(t),
        _ => None,
    }
}

/// The value of an integer number that fits in `u64`.
pub open spec fn jm_as_u64(m: JModel) -> Option<u64> {
    match m {
        JModel::Num(t) => if crate::strutil::spec_is_numeral(t) && crate::strutil::spec_digits_value(
            t,
        ) <= u64::MAX {
            Some(crate::strutil::spec_digits_value(t) as u64)
        } else {
            None
        },
        _ => None,
    }
}

pub open spec fn jm_as_bool(m: JModel) -> Option<bool> {
    match m {
        JModel::Bool(b) => Some(b),
        _ => None,
    }
}

/// The items of an array value.
pub open spec fn jm_as_arr(m: JModel) -> Option<Seq<JModel>> {
    match m {
        JModel::Arr(items) => Some(items),
        _ => None,
    }
}

/// The string at a key of an object, if the member is a string.
pub open spec fn jm_get_str(m: JModel, key: Seq<char>) -> Option<Seq<char>> {
    match jm_get(m, key) {
        Some(v) => jm_as_str(v),
        None => None,
    }
}

impl Json {
    /// The member at a key; later members win among repeats.
    pub fn obj_get<'a>(&'a self, key: &[char]) -> (r: Option<&'a Json>)
        ensures
            match r {
                Some(v) => jm_get(self@, key@) == Some(v@),
                None => jm_get(self@, key@) is None,
            },
    {
        match self {
            Json::Obj(fields) => {
                proof {
                    lemma_jview_fields_len(fields@);
                }
                let mut i = fields.len();
                proof {
                    assert(jview_fields(fields@).subrange(0, i as int) =~= jview_fields(fields@));
                }
                while i > 0
                    invariant
                        0 <= i <= fields@.len(),
                        jview_fields(fields@).len() == fields@.len(),
                        self@ == JModel::Obj(jview_fields(fields@)),
                        jm_fields_get(jview_fields(fields@), key@) == jm_fields_get(
                            jview_fields(fields@).subrange(0, i as int),
                            key@,
                        ),
                    decreases i,
                {
                    i = i - 1;
                    proof {
                        lemma_jview_fields_index(fields@, i as int);
                        assert(jview_fields(fields@).subrange(0, i as int + 1).last()
                            == jview_fields(fields@)[i as int]);
                        assert(jview_fields(fields@).subrange(0, i as int + 1).drop_last()
                            =~= jview_fields(fields@).subrange(0, i as int));
                    }
                    if crate::strutil::chars_eq(fields[i].0.as_slice(), key) {
                        return Some(&fields[i].1);
                    }
                }
                proof {
                    assert(jview_fields(fields@).subrange(0, 0) =~= Seq::<(
                        Seq<char>,
                        JModel,
                    )>::empty());
                }
                None
            },
            _ => None,
        }
    }

    /// The characters of a string value.
    pub fn as_str_chars<'a>(&'a self) -> (r: Option<&'a Vec<char>>)
        ensures
            match r {
                Some(t) => jm_as_str(self@) == Some(t@),
                None => jm_as_str(self@) is None,
            },
    {
        match self {
            Json::Str(t) => Some(t),
            _ => None,
        }
    }

    /// The value of an integer number that fits in `u64`.
    pub fn as_u64(&self) -> (r: Option<u64>)
        ensures
            r == jm_as_u64(self@),
    {
        match self {
            Json::Num(t) => crate::strutil::parse_u64(t.as_slice()),
            _ => None,
        }
    }

    pub fn as_bool(&self) -> (r: Option<bool>)
        ensures
            r == jm_as_bool(self@),
    {
        match self {
            Json::Bool(b) => Some(*b),
            _ => None,
        }
    }

    /// The items of an array value.
    pub fn as_arr<'a>(&'a self) -> (r: Option<&'a Vec<Json>>)
        ensures
            match r {
                Some(items) => jm_as_arr(self@) == Some(jview_items(items@)),
                None => jm_as_arr(self@) is None,
            },
    {
        match self {
            Json::Arr(items) => Some(items),
            _ => None,
        }
    }

    /// The string at a key, as a `String`.
    pub fn get_str_field(&self, key: &[char]) -> (r: Option<String>)
        ensures
            match r {
                Some(s) => jm_get_str(self@, key@) == Some(s@),
                None => jm_get_str(self@, key@) is None,
            },
    {
        match self.obj_get(key) {
            None => None,
            Some(v) => match v.as_str_chars() {
                None => None,
                Some(t) => Some(crate::strutil::chars_to_string(t.as_slice())),
            },
        }
    }
}

} // verus!

verus! {

/// Sequences of documents with equal models have equal model sequences.
pub proof fn lemma_jview_items_pointwise(a: Seq<Json>, b: Seq<Json>)
    requires
        a.len() == b.len(),
        forall|k: int| 0 <= k < a.len() ==> jview(#[trigger] a[k]) == jview(b[k]),
    ensures
        jview_items(a) == jview_items(b),
{
    lemma_jview_items_len(a);
    lemma_jview_items_len(b);
    assert forall|k: int| 0 <= k < a.len() implies #[trigger] jview_items(a)[k] == jview_items(
        b,
    )[k] by {
        lemma_jview_items_index(a, k);
        lemma_jview_items_index(b, k);
    }
    assert(jview_items(a) =~= jview_items(b));
}

/// Keyed sequences with equal keys and models have equal member sequences.
pub proof fn lemma_jview_fields_pointwise(a: Seq<(Vec<char>, Json)>, b: Seq<(Vec<char>, Json)>)
    requires
        a.len() == b.len(),
        forall|k: int|
            0 <= k < a.len() ==> (#[trigger] a[k]).0@ == b[k].0@ && jview(a[k].1) == jview(
                b[k].1,
            ),
    ensures
        jview_fields(a) == jview_fields(b),
{
    lemma_jview_fields_len(a);
    lemma_jview_fields_len(b);
    assert forall|k: int| 0 <= k < a.len() implies #[trigger] jview_fields(a)[k] == jview_fields(
        b,
    )[k] by {
        lemma_jview_fields_index(a, k);
        lemma_jview_fields_index(b, k);
    }
    assert(jview_fields(a) =~= jview_fields(b));
}

impl Json {
    /// A copy of the document with the same model.
    pub fn deep_clone(&self) -> (r: Json)
        ensures
            r@ == self@,
        decreases *self,
    {
        match self {
            Json::Null => Json::Null,
            Json::Bool(b) => Json::Bool(*b),
            Json::Num(t) => Json::Num(vstd::slice::slice_to_vec(t.as_slice())),
            Json::Str(t) => Json::Str(vstd::slice::slice_to_vec(t.as_slice())),
            Json::Arr(items) => Json::Arr(deep_clone_items(items)),
            Json::Obj(fields) => Json::Obj(deep_clone_fields(fields)),
        }
    }
}

/// Copies of a sequence of documents, each with the same model.
fn deep_clone_items(items: &Vec<Json>) -> (r: Vec<Json>)
    ensures
        jview_items(r@) == jview_items(items@),
    decreases items@,
{
    let mut out: Vec<Json> = Vec::new();
    let mut i: usize = 0;
    while i < items.len()
        invariant
            0 <= i <= items@.len(),
            out@.len() == i,
            forall|k: int| 0 <= k < i ==> jview(#[trigger] out@[k]) == jview(items@[k]),
        decreases items@.len() - i,
    {
        proof {
            vstd::seq::axiom_seq_index_decreases::<Json>(items@, i as int);
        }
        let c = items[i].deep_clone();
        out.push(c);
        i += 1;
    }
    proof {
        lemma_jview_items_pointwise(out@, items@);
    }
    out
}

/// Copies of a sequence of keyed documents.
fn deep_clone_fields(fields: &Vec<(Vec<char>, Json)>) -> (r: Vec<(Vec<char>, Json)>)
    ensures
        jview_fields(r@) == jview_fields(fields@),
    decreases fields@,
{
    let mut out: Vec<(Vec<char>, Json)> = Vec::new();
    let mut i: usize = 0;
    while i < fields.len()
        invariant
            0 <= i <= fields@.len(),
            out@.len() == i,
            forall|k: int|
                0 <= k < i ==> (#[trigger] out@[k]).0@ == fields@[k].0@ && jview(out@[k].1)
                    == jview(fields@[k].1),
        decreases fields@.len() - i,
    {
        proof {
            vstd::seq::axiom_seq_index_decreases::<(Vec<char>, Json)>(fields@, i as int);
        }
        let key = vstd::slice::slice_to_vec(fields[i].0.as_slice());
        let val = fields[i].1.deep_clone();
        out.push((key, val));
        i += 1;
    }
    proof {
        lemma_jview_fields_pointwise(out@, fields@);
    }
    out
}

} // verus!

verus! {

/// Appending one document appends its model.
pub proof fn lemma_jview_items_push(s: Seq<Json>, p: Json)
    ensures
        jview_items(s.push(p)) =~= jview_items(s).push(jview(p)),
{
    lemma_jview_items_len(s.push(p));
    lemma_jview_items_len(s);
    assert forall|k: int|
        0 <= k < s.push(p).len() implies #[trigger] jview_items(s.push(p))[k] == jview_items(
        s,
    ).push(jview(p))[k] by {
        lemma_jview_items_index(s.push(p), k);
        if k < s.len() {
            lemma_jview_items_index(s, k);
        }
    }
}

/// Appending one member appends its keyed model.
pub proof fn lemma_jview_fields_push(s: Seq<(Vec<char>, Json)>, p: (Vec<char>, Json))
    ensures
        jview_fields(s.push(p)) =~= jview_fields(s).push((p.0@, jview(p.1))),
{
    lemma_jview_fields_len(s.push(p));
    lemma_jview_fields_len(s);
    assert forall|k: int|
        0 <= k < s.push(p).len() implies #[trigger] jview_fields(s.push(p))[k] == jview_fields(
        s,
    ).push((p.0@, jview(p.1)))[k] by {
        lemma_jview_fields_index(s.push(p), k);
        if k < s.len() {
            lemma_jview_fields_index(s, k);
        }
    }
}

/// Inserting one member inserts its keyed model.
pub proof fn lemma_jview_fields_insert(s: Seq<(Vec<char>, Json)>, pos: int, p: (Vec<char>, Json))
    requires
        0 <= pos <= s.len(),
    ensures
        jview_fields(s.insert(pos, p)) =~= jview_fields(s).insert(pos, (p.0@, jview(p.1))),
{
    lemma_jview_fields_len(s.insert(pos, p));
    lemma_jview_fields_len(s);
    assert forall|k: int|
        0 <= k < s.insert(pos, p).len() implies #[trigger] jview_fields(s.insert(pos, p))[k]
        == jview_fields(s).insert(pos, (p.0@, jview(p.1)))[k] by {
        lemma_jview_fields_index(s.insert(pos, p), k);
        if k < pos {
            lemma_jview_fields_index(s, k);
        } else if k > pos {
            lemma_jview_fields_index(s, k - 1);
        }
    }
}

} // verus!
