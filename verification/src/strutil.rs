//! Verified string helpers: decimal rendering and parsing, ASCII case
//! mapping, lexicographic order, and small sequence utilities.

use vstd::prelude::*;

verus! {

/// The character for one decimal digit.
pub open spec fn digit_char(d: nat) -> char {
    if d == 0 {
        '0'
    } else if d == 1 {
        '1'
    } else if d == 2 {
        '2'
    } else if d == 3 {
        '3'
    } else if d == 4 {
        '4'
    } else if d == 5 {
        '5'
    } else if d == 6 {
        '6'
    } else if d == 7 {
        '7'
    } else if d == 8 {
        '8'
    } else {
        '9'
    }
}

/// Decimal rendering of a natural number, most significant digit first.
pub open spec fn spec_decimal(n: nat) -> Seq<char>
    decreases n,
{
    if n < 10 {
        seq![digit_char(n)]
    } else {
        spec_decimal(n / 10).push(digit_char(n % 10))
    }
}

fn digit_str(d: u64) -> (r: &'static str)
    requires
        d < 10,
    ensures
        r@ == seq![digit_char(d as nat)],
{
    proof {
        reveal_strlit("0");
        reveal_strlit("1");
        reveal_strlit("2");
        reveal_strlit("3");
        reveal_strlit("4");
        reveal_strlit("5");
        reveal_strlit("6");
        reveal_strlit("7");
        reveal_strlit("8");
        reveal_strlit("9");
    }
    if d == 0 {
        "0"
    } else if d == 1 {
        "1"
    } else if d == 2 {
        "2"
    } else if d == 3 {
        "3"
    } else if d == 4 {
        "4"
    } else if d == 5 {
        "5"
    } else if d == 6 {
        "6"
    } else if d == 7 {
        "7"
    } else if d == 8 {
        "8"
    } else {
        "9"
    }
}

/// Renders a number in decimal.
pub fn u64_to_string(n: u64) -> (r: String)
    ensures
        r@ == spec_decimal(n as nat),
    decreases n,
{
    if n < 10 {
        digit_str(n).to_owned()
    } else {
        let prefix = u64_to_string(n / 10);
        let r = prefix.concat(digit_str(n % 10));
        proof {
            assert(r@ =~= spec_decimal(n as nat));
        }
        r
    }
}

/// The numeric value of a string of decimal digits, most significant first.
pub open spec fn spec_digits_value(s: Seq<char>) -> nat
    decreases s.len(),
{
    if s.len() == 0 {
        0
    } else {
        spec_digits_value(s.drop_last()) * 10 + spec_digit_of(s.last())
    }
}

/// The numeric value of one digit character.
pub open spec fn spec_digit_of(c: char) -> nat {
    ((c as nat) - ('0' as nat)) as nat
}

/// True when `c` is a decimal digit.
pub open spec fn spec_is_digit(c: char) -> bool {
    '0' <= c && c <= '9'
}

/// True when `s` is a well-formed decimal numeral: non-empty, digits only.
pub open spec fn spec_is_numeral(s: Seq<char>) -> bool {
    s.len() > 0 && forall|i: int| 0 <= i < s.len() ==> spec_is_digit(s[i])
}

/// Parses a string of decimal digits into a number; `None` when the string
/// is not a numeral or its value does not fit in `u64`.
pub fn parse_u64(s: &[char]) -> (r: Option<u64>)
    ensures
        match r {
            Some(v) => spec_is_numeral(s@) && v == spec_digits_value(s@) && spec_digits_value(s@)
                <= u64::MAX,
            None => !spec_is_numeral(s@) || spec_digits_value(s@) > u64::MAX,
        },
{
    if s.len() == 0 {
        return None;
    }
    let mut acc: u64 = 0;
    let mut i: usize = 0;
    while i < s.len()
        invariant
            0 <= i <= s.len(),
            s@.len() > 0,
            acc == spec_digits_value(s@.subrange(0, i as int)),
            forall|j: int| 0 <= j < i ==> spec_is_digit(s@[j]),
        decreases s.len() - i,
    {
        let c = s[i];
        if !(c >= '0' && c <= '9') {
            return None;
        }
        let d: u64 = (c as u32 as u64) - ('0' as u32 as u64);
        assert(d == spec_digit_of(c)) by {
            assert(c as u32 as u64 == c as nat);
        }
        assert(s@.subrange(0, i as int + 1).drop_last() =~= s@.subrange(0, i as int));
        let scaled = acc.checked_mul(10);
        let next = match scaled {
            Some(v) => v.checked_add(d),
            None => None,
        };
        match next {
            Some(v) => {
                acc = v;
            },
            None => {
                proof {
                    lemma_digits_value_grows(s@, i as int + 1);
                }
                return None;
            },
        }
        i += 1;
    }
    assert(s@.subrange(0, s@.len() as int) =~= s@);
    Some(acc)
}

/// The value of a numeral only gets larger as digits are appended.
proof fn lemma_digits_value_grows(s: Seq<char>, k: int)
    requires
        0 < k <= s.len(),
    ensures
        spec_digits_value(s) >= spec_digits_value(s.subrange(0, k)),
    decreases s.len() - k,
{
    if k == s.len() {
        assert(s.subrange(0, k) =~= s);
    } else {
        lemma_digits_value_grows(s, k + 1);
        assert(s.subrange(0, k + 1).drop_last() =~= s.subrange(0, k));
    }
}

/// ASCII lower case of one character; other characters are unchanged.
pub open spec fn spec_lower_char(c: char) -> char {
    if 'A' <= c && c <= 'Z' {
        (((c as u8) + 32) as char)
    } else {
        c
    }
}

/// ASCII lower case of a character sequence.
pub open spec fn spec_lower(s: Seq<char>) -> Seq<char> {
    s.map_values(|c: char| spec_lower_char(c))
}

fn lower_char(c: char) -> (r: char)
    ensures
        r == spec_lower_char(c),
{
    if c >= 'A' && c <= 'Z' {
        (((c as u8) + 32) as char)
    } else {
        c
    }
}

/// True when the two character slices hold the same characters.
pub fn chars_eq(a: &[char], b: &[char]) -> (r: bool)
    ensures
        r == (a@ =~= b@),
{
    if a.len() != b.len() {
        return false;
    }
    let mut i: usize = 0;
    while i < a.len()
        invariant
            0 <= i <= a.len(),
            a@.len() == b@.len(),
            forall|j: int| 0 <= j < i ==> a@[j] == b@[j],
        decreases a.len() - i,
    {
        if a[i] != b[i] {
            return false;
        }
        i += 1;
    }
    true
}

} // verus!

verus! {

/// Builds a `String` from characters.
pub fn chars_to_string(v: &[char]) -> (r: String)
    ensures
        r@ == v@,
{
    let mut r = String::new();
    let mut i: usize = 0;
    while i < v.len()
        invariant
            0 <= i <= v@.len(),
            r@ =~= v@.subrange(0, i as int),
        decreases v@.len() - i,
    {
        crate::bindings::push_char(&mut r, v[i]);
        i += 1;
    }
    proof {
        assert(v@.subrange(0, v@.len() as int) =~= v@);
    }
    r
}

/// ASCII lower case of a string, with spaces mapped to dashes: the shape of
/// generated service names.
pub open spec fn spec_name_fold(s: Seq<char>) -> Seq<char> {
    s.map_values(|c: char| if c == ' ' { '-' } else { spec_lower_char(c) })
}

/// Lower-cases ASCII letters and replaces spaces with dashes.
pub fn name_fold(s: &str) -> (r: String)
    ensures
        r@ == spec_name_fold(s@),
{
    let v = crate::bindings::str_to_chars(s);
    let mut r = String::new();
    let mut i: usize = 0;
    while i < v.len()
        invariant
            0 <= i <= v@.len(),
            v@ == s@,
            r@ =~= spec_name_fold(s@).subrange(0, i as int),
        decreases v@.len() - i,
    {
        let c = v[i];
        let m = if c == ' ' {
            '-'
        } else {
            lower_char(c)
        };
        crate::bindings::push_char(&mut r, m);
        proof {
            assert(r@ =~= spec_name_fold(s@).subrange(0, i as int + 1));
        }
        i += 1;
    }
    proof {
        assert(spec_name_fold(s@).subrange(0, s@.len() as int) =~= spec_name_fold(s@));
    }
    r
}

/// ASCII lower case of a string.
pub fn ascii_lower(s: &str) -> (r: String)
    ensures
        r@ == spec_lower(s@),
{
    let v = crate::bindings::str_to_chars(s);
    let mut r = String::new();
    let mut i: usize = 0;
    while i < v.len()
        invariant
            0 <= i <= v@.len(),
            v@ == s@,
            r@ =~= spec_lower(s@).subrange(0, i as int),
        decreases v@.len() - i,
    {
        crate::bindings::push_char(&mut r, lower_char(v[i]));
        proof {
            assert(r@ =~= spec_lower(s@).subrange(0, i as int + 1));
        }
        i += 1;
    }
    proof {
        assert(spec_lower(s@).subrange(0, s@.len() as int) =~= spec_lower(s@));
    }
    r
}

} // verus!

verus! {

/// The advertised endpoint of a host and port.
pub open spec fn spec_http_url(host: Seq<char>, port: u16) -> Seq<char> {
    "http://"@ + host + ":"@ + spec_decimal(port as nat)
}

/// Renders `http://{host}:{port}`.
pub fn http_url(host: &str, port: u16) -> (r: String)
    ensures
        r@ == spec_http_url(host@, port),
{
    let mut r = String::new();
    r.append("http://");
    r.append(host);
    r.append(":");
    let p = u64_to_string(port as u64);
    r.append(p.as_str());
    r
}

/// `{a}{b}` for two strings.
pub fn concat2(a: &str, b: &str) -> (r: String)
    ensures
        r@ == a@ + b@,
{
    let mut r = String::new();
    r.append(a);
    r.append(b);
    r
}

/// `{a}{b}{c}` for three strings.
pub fn concat3(a: &str, b: &str, c: &str) -> (r: String)
    ensures
        r@ == a@ + b@ + c@,
{
    let mut r = String::new();
    r.append(a);
    r.append(b);
    r.append(c);
    r
}

} // verus!

verus! {

/// The given strings joined by a separator.
pub open spec fn spec_join(items: Seq<Seq<char>>, sep: Seq<char>) -> Seq<char>
    decreases items.len(),
{
    if items.len() == 0 {
        Seq::empty()
    } else if items.len() == 1 {
        items[0]
    } else {
        spec_join(items.drop_last(), sep) + sep + items.last()
    }
}

/// Joins strings with a separator.
pub fn join_strings(items: &Vec<String>, sep: &str) -> (r: String)
    ensures
        r@ == spec_join(items.deep_view(), sep@),
{
    let mut out = String::new();
    let mut i: usize = 0;
    proof {
        assert(items.deep_view().subrange(0, 0) =~= Seq::<Seq<char>>::empty());
    }
    while i < items.len()
        invariant
            0 <= i <= items@.len(),
            items.deep_view().len() == items@.len(),
            forall|k: int| 0 <= k < items@.len() ==> items.deep_view()[k] == (#[trigger] items@[k])@,
            out@ =~= spec_join(items.deep_view().subrange(0, i as int), sep@),
        decreases items@.len() - i,
    {
        if i > 0 {
            out.append(sep);
        }
        out.append(items[i].as_str());
        proof {
            assert(items.deep_view().subrange(0, i as int + 1).drop_last() =~= items.deep_view()
                .subrange(0, i as int));
            assert(items.deep_view().subrange(0, i as int + 1).last() == items.deep_view()[
                i as int]);
            assert(out@ =~= spec_join(items.deep_view().subrange(0, i as int + 1), sep@));
        }
        i += 1;
    }
    proof {
        assert(items.deep_view().subrange(0, items@.len() as int) =~= items.deep_view());
    }
    out
}

/// The maximal whitespace-free words of a string, in order: how a command
/// line is cut into a program and its arguments.
pub open spec fn spec_split_ws(s: Seq<char>) -> Seq<Seq<char>>
    decreases s.len(),
{
    if s.len() == 0 {
        Seq::empty()
    } else if crate::json::spec_is_ws(s[0]) {
        spec_split_ws(s.drop_first())
    } else {
        let w = seq![s[0]] + spec_take_word(s.drop_first());
        let cut = if w.len() <= s.len() {
            w.len() as int
        } else {
            s.len() as int
        };
        seq![w] + spec_split_ws(s.subrange(cut, s.len() as int))
    }
}

/// The leading whitespace-free word.
pub open spec fn spec_take_word(s: Seq<char>) -> Seq<char>
    decreases s.len(),
{
    if s.len() == 0 || crate::json::spec_is_ws(s[0]) {
        Seq::empty()
    } else {
        seq![s[0]] + spec_take_word(s.drop_first())
    }
}

/// Words never outrun their string.
pub proof fn lemma_take_word_len(s: Seq<char>)
    ensures
        spec_take_word(s).len() <= s.len(),
        s.len() > 0 && !crate::json::spec_is_ws(s[0]) ==> spec_take_word(s).len() >= 1,
    decreases s.len(),
{
    if s.len() > 0 && !crate::json::spec_is_ws(s[0]) {
        lemma_take_word_len(s.drop_first());
    }
}

/// Splits a string on whitespace.
pub fn split_whitespace_words(s: &str) -> (r: Vec<String>)
    ensures
        r.deep_view() == spec_split_ws(s@),
{
    let chars = crate::bindings::str_to_chars(s);
    let mut out: Vec<String> = Vec::new();
    let mut i: usize = 0;
    proof {
        assert(chars@.subrange(0, chars@.len() as int) =~= s@);
        assert(out.deep_view() + spec_split_ws(s@) =~= spec_split_ws(s@));
    }
    loop
        invariant
            0 <= i <= chars@.len(),
            chars@ == s@,
            spec_split_ws(s@) =~= out.deep_view() + spec_split_ws(
                chars@.subrange(i as int, chars@.len() as int),
            ),
        decreases chars@.len() - i,
    {
        let ghost tail = chars@.subrange(i as int, chars@.len() as int);
        if i >= chars.len() {
            proof {
                assert(out.deep_view() + spec_split_ws(tail) =~= out.deep_view());
            }
            return out;
        }
        proof {
            assert(tail[0] == chars@[i as int]);
            assert(tail.drop_first() =~= chars@.subrange(i as int + 1, chars@.len() as int));
        }
        let c = chars[i];
        if c == ' ' || c == '\t' || c == '\n' || c == '\r' {
            i += 1;
        } else {
            // Collect one word.
            let ghost w = spec_take_word(tail);
            proof {
                lemma_take_word_len(tail);
            }
            let mut word: Vec<char> = Vec::new();
            let mut j = i;
            proof {
                assert(spec_take_word(chars@.subrange(j as int, chars@.len() as int)) =~= word@
                    + spec_take_word(chars@.subrange(j as int, chars@.len() as int)));
                assert(w =~= word@ + spec_take_word(chars@.subrange(j as int, chars@.len() as int)));
            }
            loop
                invariant
                    i <= j <= chars@.len(),
                    chars@ == s@,
                    w =~= word@ + spec_take_word(chars@.subrange(j as int, chars@.len() as int)),
                ensures
                    w =~= word@,
                    i <= j <= chars@.len(),
                decreases chars@.len() - j,
            {
                let ghost wtail = chars@.subrange(j as int, chars@.len() as int);
                proof {
                    assert(wtail.len() > 0 ==> wtail[0] == chars@[j as int]);
                    assert(wtail.len() > 0 ==> wtail.drop_first() =~= chars@.subrange(
                        j as int + 1,
                        chars@.len() as int,
                    ));
                }
                if j >= chars.len() {
                    proof {
                        assert(w =~= word@);
                    }
                    break;
                }
                let d = chars[j];
                if d == ' ' || d == '\t' || d == '\n' || d == '\r' {
                    proof {
                        assert(w =~= word@);
                    }
                    break;
                }
                let ghost old_word = word@;
                word.push(d);
                proof {
                    assert(old_word + (seq![d] + spec_take_word(wtail.drop_first())) =~= word@
                        + spec_take_word(wtail.drop_first()));
                }
                j += 1;
            }
            let ghost old_out = out.deep_view();
            let wstr = chars_to_string(word.as_slice());
            out.push(wstr);
            proof {
                assert(out.deep_view() =~= old_out.push(w));
                assert(w.len() >= 1);
                assert(i + w.len() <= chars@.len());
                assert(tail.subrange(w.len() as int, tail.len() as int) =~= chars@.subrange(
                    i as int + w.len() as int,
                    chars@.len() as int,
                ));
                assert(w =~= seq![tail[0]] + spec_take_word(tail.drop_first()));
                assert(w.len() <= tail.len());
                assert(spec_split_ws(tail) =~= seq![w] + spec_split_ws(
                    tail.subrange(w.len() as int, tail.len() as int),
                ));
                assert(spec_split_ws(tail) =~= seq![w] + spec_split_ws(
                    chars@.subrange(i as int + w.len() as int, chars@.len() as int),
                ));
                assert(old_out + (seq![w] + spec_split_ws(
                    chars@.subrange(i as int + w.len() as int, chars@.len() as int),
                )) =~= out.deep_view() + spec_split_ws(
                    chars@.subrange(i as int + w.len() as int, chars@.len() as int),
                ));
            }
            let step = word.len();
            i += step;
            proof {
                assert(word@ == w);
            }
        }
    }
}

} // verus!
