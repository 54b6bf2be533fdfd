//! The record decoder: best-effort extraction of the known fields from one
//! record fragment, with XML entity unescaping of field text.

use vstd::prelude::*;
use vstd::string::StrSliceExecFns;
use vstd::string::StringExecFns;
use crate::extract::record_starts_at;
use crate::text::{matches_at, push_char};
use crate::transaction::{opt_view, Event, EventModel};

verus! {

/// A character that may follow an element name inside its opening tag.
pub open spec fn is_tag_name_end(c: char) -> bool {
    c == '>' || c == '/' || c == ' ' || c == '\t' || c == '\r' || c == '\n'
}

/// An element with the given name opens at `i`.
pub open spec fn elem_starts_at(s: Seq<char>, name: Seq<char>, i: int) -> bool {
    &&& 0 <= i
    &&& i + 2 + name.len() <= s.len()
    &&& s[i] == '<'
    &&& s.subrange(i + 1, i + 1 + name.len() as int) == name
    &&& is_tag_name_end(s[i + 1 + name.len()])
}

/// The first opening of the named element at or after `i`.
pub open spec fn next_elem(s: Seq<char>, name: Seq<char>, i: int) -> Option<int>
    decreases s.len() - i,
{
    if i < 0 || i + 2 + name.len() > s.len() {
        Option::None
    } else if elem_starts_at(s, name, i) {
        Option::Some(i)
    } else {
        next_elem(s, name, i + 1)
    }
}

/// The first `>` at or after `i`.
pub open spec fn next_gt(s: Seq<char>, i: int) -> Option<int>
    decreases s.len() - i,
{
    if i < 0 || i >= s.len() {
        Option::None
    } else if s[i] == '>' {
        Option::Some(i)
    } else {
        next_gt(s, i + 1)
    }
}

/// The closing tag of the named element stands at `i`.
pub open spec fn close_at(s: Seq<char>, name: Seq<char>, i: int) -> bool {
    &&& 0 <= i
    &&& i + 3 + name.len() <= s.len()
    &&& s[i] == '<'
    &&& s[i + 1] == '/'
    &&& s.subrange(i + 2, i + 2 + name.len() as int) == name
    &&& s[i + 2 + name.len()] == '>'
}

/// The first closing tag of the named element at or after `i`.
pub open spec fn next_close(s: Seq<char>, name: Seq<char>, i: int) -> Option<int>
    decreases s.len() - i,
{
    if i < 0 || i + 3 + name.len() > s.len() {
        Option::None
    } else if close_at(s, name, i) {
        Option::Some(i)
    } else {
        next_close(s, name, i + 1)
    }
}

/// The `&amp;` entity stands at the head of `s`.
pub open spec fn amp_at(s: Seq<char>) -> bool {
    s.len() >= 5 && s[0] == '&' && s[1] == 'a' && s[2] == 'm' && s[3] == 'p' && s[4] == ';'
}

/// The `&lt;` entity stands at the head of `s`.
pub open spec fn lt_at(s: Seq<char>) -> bool {
    s.len() >= 4 && s[0] == '&' && s[1] == 'l' && s[2] == 't' && s[3] == ';'
}

/// The `&gt;` entity stands at the head of `s`.
pub open spec fn gt_at(s: Seq<char>) -> bool {
    s.len() >= 4 && s[0] == '&' && s[1] == 'g' && s[2] == 't' && s[3] == ';'
}

/// The `&quot;` entity stands at the head of `s`.
pub open spec fn quot_at(s: Seq<char>) -> bool {
    s.len() >= 6 && s[0] == '&' && s[1] == 'q' && s[2] == 'u' && s[3] == 'o' && s[4] == 't'
        && s[5] == ';'
}

/// The `&apos;` entity stands at the head of `s`.
pub open spec fn apos_at(s: Seq<char>) -> bool {
    s.len() >= 6 && s[0] == '&' && s[1] == 'a' && s[2] == 'p' && s[3] == 'o' && s[4] == 's'
        && s[5] == ';'
}

/// A decimal digit.
pub open spec fn is_dec_digit(c: char) -> bool {
    '0' <= c && c <= '9'
}

/// A hexadecimal digit.
pub open spec fn is_hex_digit(c: char) -> bool {
    is_dec_digit(c) || ('a' <= c && c <= 'f') || ('A' <= c && c <= 'F')
}

/// Whether `c` is a digit of the reference's base.
pub open spec fn digit_ok(c: char, hex: bool) -> bool {
    if hex {
        is_hex_digit(c)
    } else {
        is_dec_digit(c)
    }
}

/// The numeric value of one digit.
pub open spec fn digit_value(c: char) -> int {
    if is_dec_digit(c) {
        c as u32 - '0' as u32
    } else if 'a' <= c && c <= 'f' {
        c as u32 - 'a' as u32 + 10
    } else {
        c as u32 - 'A' as u32 + 10
    }
}

/// The index just past the digit run that starts at `i`.
pub open spec fn digits_end(s: Seq<char>, i: int, hex: bool) -> int
    decreases s.len() - i,
{
    if i < 0 || i >= s.len() {
        s.len() as int
    } else if digit_ok(s[i], hex) {
        digits_end(s, i + 1, hex)
    } else {
        i
    }
}

/// The value of the digits in `[i, j)`, most significant first.
pub open spec fn digits_value(s: Seq<char>, i: int, j: int, hex: bool) -> int
    decreases j - i,
{
    if j <= i {
        0
    } else {
        digits_value(s, i, j - 1, hex) * (if hex {
            16int
        } else {
            10int
        }) + digit_value(s[j - 1])
    }
}

/// A Unicode scalar value: in range and not a surrogate code.
pub open spec fn valid_scalar(v: int) -> bool {
    (0 <= v && v < 0xD800) || (0xE000 <= v && v <= 0x10FFFF)
}

/// Whether a numeric reference at the head of `s` is hexadecimal.
pub open spec fn char_ref_hex(s: Seq<char>) -> bool {
    s.len() >= 3 && s[2] == 'x'
}

/// The start of a numeric reference's digits.
pub open spec fn char_ref_digits_start(s: Seq<char>) -> int {
    if char_ref_hex(s) {
        3
    } else {
        2
    }
}

/// The index just past a numeric reference's digits.
pub open spec fn char_ref_digits_end(s: Seq<char>) -> int {
    digits_end(s, char_ref_digits_start(s), char_ref_hex(s))
}

/// The value of a numeric reference at the head of `s`.
pub open spec fn char_ref_value(s: Seq<char>) -> int {
    digits_value(s, char_ref_digits_start(s), char_ref_digits_end(s), char_ref_hex(s))
}

/// A well-formed numeric character reference stands at the head of `s`:
/// `&#` and decimal digits, or `&#x` and hexadecimal digits, a closing
/// `;`, and a value that is a Unicode scalar.
pub open spec fn char_ref_at(s: Seq<char>) -> bool {
    &&& s.len() >= 2
    &&& s[0] == '&'
    &&& s[1] == '#'
    &&& char_ref_digits_end(s) > char_ref_digits_start(s)
    &&& char_ref_digits_end(s) < s.len()
    &&& s[char_ref_digits_end(s)] == ';'
    &&& valid_scalar(char_ref_value(s))
}

/// XML entity unescaping of element text: numeric character references and
/// the five named entities become their characters, everything else is
/// copied through.
pub open spec fn unescape(s: Seq<char>) -> Seq<char>
    decreases s.len(),
{
    if s.len() == 0 {
        Seq::empty()
    } else if char_ref_at(s) {
        seq![(char_ref_value(s) as u32) as char] + unescape(s.skip(char_ref_digits_end(s) + 1))
    } else if amp_at(s) {
        seq!['&'] + unescape(s.skip(5))
    } else if lt_at(s) {
        seq!['<'] + unescape(s.skip(4))
    } else if gt_at(s) {
        seq!['>'] + unescape(s.skip(4))
    } else if quot_at(s) {
        seq!['"'] + unescape(s.skip(6))
    } else if apos_at(s) {
        seq!['\''] + unescape(s.skip(6))
    } else {
        seq![s[0]] + unescape(s.skip(1))
    }
}

/// The text of the first element with the given name: the content between
/// its opening tag's `>` and its closing tag, unescaped; an empty-element
/// tag yields the empty string; a missing or unterminated element yields
/// nothing.
pub open spec fn field_value(s: Seq<char>, name: Seq<char>) -> Option<Seq<char>> {
    match next_elem(s, name, 0) {
        Option::None => Option::None,
        Option::Some(i) => match next_gt(s, i + 1 + name.len()) {
            Option::None => Option::None,
            Option::Some(g) => if s[g - 1] == '/' {
                Option::Some(Seq::empty())
            } else {
                match next_close(s, name, g + 1) {
                    Option::None => Option::None,
                    Option::Some(c) => Option::Some(unescape(s.subrange(g + 1, c))),
                }
            },
        },
    }
}

/// The model of a decoded fragment: a fragment that begins with the record
/// start marker yields an event made of its field values; anything else is
/// dropped.
pub open spec fn decode_model(s: Seq<char>) -> Option<EventModel> {
    if record_starts_at(s, 0) {
        Option::Some(
            EventModel {
                timestamp: field_value(s, "Timestamp"@),
                packet_type: field_value(s, "Packet-Type"@),
                class: field_value(s, "Class"@),
                acct_session_id: field_value(s, "Acct-Session-Id"@),
                server: field_value(s, "Computer-Name"@),
                ap_ip: field_value(s, "Client-IP-Address"@),
                ap_name: field_value(s, "NAS-Identifier"@),
                client_friendly_name: field_value(s, "Client-Friendly-Name"@),
                mac: field_value(s, "Calling-Station-Id"@),
                user_name: field_value(s, "User-Name"@),
                sam_account: field_value(s, "SAM-Account-Name"@),
                reason_code: field_value(s, "Reason-Code"@),
            },
        )
    } else {
        Option::None
    }
}

/// What `next_elem` finds: the least opening at or after `i`.
proof fn lemma_next_elem(s: Seq<char>, name: Seq<char>, i: int)
    requires
        0 <= i,
    ensures
        next_elem(s, name, i) matches Option::Some(e) ==> i <= e && elem_starts_at(s, name, e)
            && (forall|k: int| i <= k < e ==> !elem_starts_at(s, name, k)),
        next_elem(s, name, i) is None ==> forall|k: int| k >= i ==> !elem_starts_at(s, name, k),
    decreases s.len() - i,
{
    if !(i < 0 || i + 2 + name.len() > s.len()) && !elem_starts_at(s, name, i) {
        lemma_next_elem(s, name, i + 1);
    }
}

/// What `next_gt` finds: the least `>` at or after `i`.
proof fn lemma_next_gt(s: Seq<char>, i: int)
    requires
        0 <= i,
    ensures
        next_gt(s, i) matches Option::Some(g) ==> i <= g < s.len() && s[g] == '>' && (forall|
            k: int,
        | i <= k < g ==> s[k] != '>'),
        next_gt(s, i) is None ==> forall|k: int| i <= k < s.len() ==> s[k] != '>',
    decreases s.len() - i,
{
    if !(i < 0 || i >= s.len()) && s[i] != '>' {
        lemma_next_gt(s, i + 1);
    }
}

/// What `next_close` finds: the least closing tag at or after `i`.
proof fn lemma_next_close(s: Seq<char>, name: Seq<char>, i: int)
    requires
        0 <= i,
    ensures
        next_close(s, name, i) matches Option::Some(c) ==> i <= c && close_at(s, name, c) && (
        forall|k: int| i <= k < c ==> !close_at(s, name, k)),
        next_close(s, name, i) is None ==> forall|k: int| k >= i ==> !close_at(s, name, k),
    decreases s.len() - i,
{
    if !(i < 0 || i + 3 + name.len() > s.len()) && !close_at(s, name, i) {
        lemma_next_close(s, name, i + 1);
    }
}

/// What `digits_end` finds: the end of the maximal digit run from `i`.
proof fn lemma_digits_end(s: Seq<char>, i: int, f: int, hex: bool)
    requires
        0 <= i <= f <= s.len(),
        forall|k: int| i <= k < f ==> digit_ok(s[k], hex),
        f == s.len() || !digit_ok(s[f], hex),
    ensures
        digits_end(s, i, hex) == f,
    decreases f - i,
{
    if i < f {
        lemma_digits_end(s, i + 1, f, hex);
    }
}

/// A digit run's value is non-negative and only grows with more digits.
proof fn lemma_digits_value_grows(s: Seq<char>, i: int, j: int, hex: bool)
    requires
        0 <= i <= j <= s.len(),
        forall|k: int| i <= k < j ==> digit_ok(s[k], hex),
    ensures
        digits_value(s, i, j, hex) >= 0,
        i < j ==> digits_value(s, i, j, hex) >= digits_value(s, i, j - 1, hex),
    decreases j - i,
{
    if i < j {
        lemma_digits_value_grows(s, i, j - 1, hex);
    }
}

/// Relies on char::from_u32 of std: yields the character with the given
/// code for every Unicode scalar value, and nothing for surrogate codes
/// and values above the Unicode range.
#[verifier::external_body]
fn scalar_to_char(v: u32) -> (r: Option<char>)
    ensures
        r matches Option::Some(c) ==> c as u32 == v,
        (r is Some) == valid_scalar(v as int),
{
    char::from_u32(v)
}

/// The value of one digit of the given base, if it is one.
fn digit_of(c: char, hex: bool) -> (r: Option<u32>)
    ensures
        r matches Option::Some(v) ==> digit_ok(c, hex) && v == digit_value(c) && v < 16,
        r is None ==> !digit_ok(c, hex),
{
    if '0' <= c && c <= '9' {
        Option::Some(c as u32 - '0' as u32)
    } else if hex && 'a' <= c && c <= 'f' {
        Option::Some(c as u32 - 'a' as u32 + 10)
    } else if hex && 'A' <= c && c <= 'F' {
        Option::Some(c as u32 - 'A' as u32 + 10)
    } else {
        Option::None
    }
}

/// Unescape the element text between positions `from` and `to` of `s`.
fn unescape_range(s: &str, from: usize, to: usize) -> (r: String)
    requires
        s@.len() <= usize::MAX,
        from <= to <= s@.len(),
    ensures
        r@ == unescape(s@.subrange(from as int, to as int)),
{
    let ghost whole = s@.subrange(from as int, to as int);
    let mut r = String::new();
    let mut i: usize = from;
    proof {
        assert(whole.skip(0) =~= whole);
    }
    while i < to
        invariant
            s@.len() <= usize::MAX,
            from <= i <= to <= s@.len(),
            whole == s@.subrange(from as int, to as int),
            r@ + unescape(whole.skip(i - from)) =~= unescape(whole),
        decreases to - i,
    {
        let ghost rem = whole.skip(i - from);
        proof {
            assert(rem.len() == to - i);
            assert(forall|k: int| 0 <= k < rem.len() ==> rem[k] == s@[i + k]);
        }
        let c0 = s.get_char(i);
        let mut step: usize = 1;
        if c0 == '&' && to - i >= 2 && s.get_char(i + 1) == '#' {
            // A numeric character reference, if well formed.
            let hex = to - i >= 3 && s.get_char(i + 2) == 'x';
            proof {
                assert(char_ref_hex(rem) == hex);
            }
            let dstart: usize = if hex {
                3
            } else {
                2
            };
            let mut j = i + dstart;
            let mut value: u32 = 0;
            let mut too_big = false;
            proof {
                assert(digits_value(rem, dstart as int, 0, hex) == 0);
            }
            while j < to
                invariant
                    s@.len() <= usize::MAX,
                    from <= i < to <= s@.len(),
                    rem.len() == to - i,
                    forall|k: int| 0 <= k < rem.len() ==> rem[k] == s@[i + k],
                    dstart == if hex {
                        3int
                    } else {
                        2int
                    },
                    i + dstart <= j <= to,
                    forall|k: int| dstart <= k < j - i ==> digit_ok(rem[k], hex),
                    too_big == (digits_value(rem, dstart as int, j - i, hex) > 0x10FFFF),
                    !too_big ==> value == digits_value(rem, dstart as int, j - i, hex),
                ensures
                    i + dstart <= j <= to,
                    forall|k: int| dstart <= k < j - i ==> digit_ok(rem[k], hex),
                    j < to ==> !digit_ok(rem[j - i], hex),
                    too_big == (digits_value(rem, dstart as int, j - i, hex) > 0x10FFFF),
                    !too_big ==> value == digits_value(rem, dstart as int, j - i, hex),
                decreases to - j,
            {
                let dc = digit_of(s.get_char(j), hex);
                if let Option::Some(d) = dc {
                    proof {
                        assert(rem[j - i] == s@[j as int]);
                        assert(digits_value(rem, dstart as int, j - i + 1, hex) == digits_value(
                            rem,
                            dstart as int,
                            j - i,
                            hex,
                        ) * (if hex {
                            16int
                        } else {
                            10int
                        }) + digit_value(rem[j - i]));
                        lemma_digits_value_grows(rem, dstart as int, j - i, hex);
                    }
                    if !too_big {
                        let nv = value * (if hex {
                            16
                        } else {
                            10
                        }) + d;
                        if nv > 0x10FFFF {
                            too_big = true;
                        }
                        value = nv;
                    }
                    j += 1;
                } else {
                    break;
                }
            }
            proof {
                lemma_digits_end(rem, dstart as int, j - i, hex);
                assert(char_ref_digits_end(rem) == j - i);
            }
            let is_ref = j > i + dstart && j < to && s.get_char(j) == ';' && !too_big && (value
                < 0xD800 || (0xE000 <= value && value <= 0x10FFFF));
            if is_ref {
                proof {
                    assert(rem[j - i] == s@[j as int]);
                    assert(char_ref_at(rem));
                }
                match scalar_to_char(value) {
                    Option::Some(ch) => {
                        proof {
                            vstd::utf8::char_u32_cast(ch, value);
                            assert(ch == (char_ref_value(rem) as u32) as char);
                        }
                        push_char(&mut r, ch);
                    },
                    Option::None => {
                        proof {
                            assert(false);
                        }
                    },
                }
                step = j - i + 1;
            } else {
                proof {
                    assert(!char_ref_at(rem)) by {
                        if char_ref_at(rem) {
                            assert(j - i > dstart && j - i < rem.len() && rem[j - i] == ';'
                                && valid_scalar(char_ref_value(rem)));
                            assert(rem[j - i] == s@[j as int]);
                        }
                    }
                    assert(rem[0] == s@[i as int] && rem[1] == s@[i + 1]);
                    assert(!amp_at(rem) && !lt_at(rem) && !gt_at(rem) && !quot_at(rem)
                        && !apos_at(rem));
                }
                push_char(&mut r, c0);
                step = 1;
            }
        } else if c0 == '&' && to - i >= 4 {
            let c1 = s.get_char(i + 1);
            let c2 = s.get_char(i + 2);
            let c3 = s.get_char(i + 3);
            proof {
                assert(rem[1] != '#');
                assert(!char_ref_at(rem));
            }
            if to - i >= 5 && c1 == 'a' && c2 == 'm' && c3 == 'p' && s.get_char(i + 4) == ';' {
                proof {
                    assert(amp_at(rem));
                }
                push_char(&mut r, '&');
                step = 5;
            } else if c1 == 'l' && c2 == 't' && c3 == ';' {
                proof {
                    assert(lt_at(rem) && !amp_at(rem));
                }
                push_char(&mut r, '<');
                step = 4;
            } else if c1 == 'g' && c2 == 't' && c3 == ';' {
                proof {
                    assert(gt_at(rem) && !amp_at(rem) && !lt_at(rem));
                }
                push_char(&mut r, '>');
                step = 4;
            } else if to - i >= 6 && c1 == 'q' && c2 == 'u' && c3 == 'o' && s.get_char(i + 4)
                == 't' && s.get_char(i + 5) == ';' {
                proof {
                    assert(quot_at(rem) && !amp_at(rem) && !lt_at(rem) && !gt_at(rem));
                }
                push_char(&mut r, '"');
                step = 6;
            } else if to - i >= 6 && c1 == 'a' && c2 == 'p' && c3 == 'o' && s.get_char(i + 4)
                == 's' && s.get_char(i + 5) == ';' {
                proof {
                    assert(apos_at(rem) && !amp_at(rem) && !lt_at(rem) && !gt_at(rem)
                        && !quot_at(rem));
                }
                push_char(&mut r, '\'');
                step = 6;
            } else {
                proof {
                    assert(rem[0] == s@[i as int]);
                    assert(!amp_at(rem) && !lt_at(rem) && !gt_at(rem) && !quot_at(rem)
                        && !apos_at(rem));
                }
                push_char(&mut r, c0);
                step = 1;
            }
        } else {
            proof {
                assert(rem[0] == s@[i as int]);
                assert(!char_ref_at(rem)) by {
                    if char_ref_at(rem) {
                        assert(rem[1] == s@[i + 1]);
                    }
                }
                assert(!amp_at(rem) && !lt_at(rem) && !gt_at(rem) && !quot_at(rem) && !apos_at(
                    rem,
                ));
            }
            push_char(&mut r, c0);
            step = 1;
        }
        proof {
            assert(rem.skip(step as int) =~= whole.skip(i + step - from));
            assert(unescape(rem) =~= seq![r@.last()] + unescape(rem.skip(step as int)));
            assert(r@ + unescape(whole.skip(i + step - from)) =~= unescape(whole));
        }
        i += step;
    }
    proof {
        assert(whole.skip(to - from) =~= Seq::<char>::empty());
        assert(r@ =~= unescape(whole));
    }
    r
}

/// Whether the named element opens at position `i`.
fn elem_at_exec(frag: &str, name: &str, i: usize) -> (r: bool)
    requires
        frag@.len() <= usize::MAX,
        name@.len() <= usize::MAX,
        i + 2 + name@.len() <= frag@.len(),
    ensures
        r == elem_starts_at(frag@, name@, i as int),
{
    let nlen = name.unicode_len();
    if frag.get_char(i) != '<' {
        return false;
    }
    if !matches_at(frag, name, i + 1) {
        proof {
            assert(frag@.subrange(i + 1, i + 1 + name@.len() as int) != name@);
        }
        return false;
    }
    let c = frag.get_char(i + 1 + nlen);
    c == '>' || c == '/' || c == ' ' || c == '\t' || c == '\r' || c == '\n'
}

/// Whether the named element closes at position `i`.
fn close_at_exec(frag: &str, name: &str, i: usize) -> (r: bool)
    requires
        frag@.len() <= usize::MAX,
        name@.len() <= usize::MAX,
        i + 3 + name@.len() <= frag@.len(),
    ensures
        r == close_at(frag@, name@, i as int),
{
    let nlen = name.unicode_len();
    if frag.get_char(i) != '<' || frag.get_char(i + 1) != '/' {
        return false;
    }
    if !matches_at(frag, name, i + 2) {
        proof {
            assert(frag@.subrange(i + 2, i + 2 + name@.len() as int) != name@);
        }
        return false;
    }
    frag.get_char(i + 2 + nlen) == '>'
}

/// Extract the text of the first element with the given name, if the
/// element is present and well formed.
fn field_value_exec(frag: &str, name: &str) -> (r: Option<String>)
    ensures
        opt_view(r) == field_value(frag@, name@),
{
    let len = frag.unicode_len();
    let nlen = name.unicode_len();
    let ghost fv = frag@;
    let ghost nv = name@;

    // Find the element's opening tag.
    let mut e: usize = 0;
    let mut found_e = false;
    while !found_e && len >= 2 && nlen <= len - 2 && e <= len - 2 - nlen
        invariant
            fv == frag@,
            nv == name@,
            len == fv.len(),
            nlen == nv.len(),
            0 <= e <= len,
            found_e ==> e + 2 + nlen <= len && elem_starts_at(fv, nv, e as int),
            forall|k: int| 0 <= k < e ==> !elem_starts_at(fv, nv, k),
        decreases len - e + if found_e {
            0int
        } else {
            1int
        },
    {
        if elem_at_exec(frag, name, e) {
            found_e = true;
        } else {
            e += 1;
        }
    }
    if !found_e {
        proof {
            assert(forall|k: int| k >= 0 ==> !elem_starts_at(fv, nv, k));
            lemma_next_elem(fv, nv, 0);
            match next_elem(fv, nv, 0) {
                Option::None => {
                },
                Option::Some(w) => {
                    assert(elem_starts_at(fv, nv, w));
                },
            }
        }
        return Option::None;
    }
    proof {
        assert(next_elem(fv, nv, 0) == Option::Some(e as int)) by {
            lemma_next_elem(fv, nv, 0);
            match next_elem(fv, nv, 0) {
                Option::None => {
                    assert(!elem_starts_at(fv, nv, e as int));
                },
                Option::Some(w) => {
                    if w < e {
                        assert(!elem_starts_at(fv, nv, w));
                    }
                    if w > e {
                        assert(!elem_starts_at(fv, nv, e as int));
                    }
                },
            }
        }
    }

    // Find the end of the opening tag.
    let after = e + 1 + nlen;
    let mut g = after;
    let mut found_g = false;
    while !found_g && g < len
        invariant
            fv == frag@,
            len == fv.len(),
            after <= g <= len,
            found_g ==> g < len && fv[g as int] == '>',
            forall|k: int| after <= k < g ==> fv[k] != '>',
        decreases len - g + if found_g {
            0int
        } else {
            1int
        },
    {
        if frag.get_char(g) == '>' {
            found_g = true;
        } else {
            g += 1;
        }
    }
    if !found_g {
        proof {
            lemma_next_gt(fv, after as int);
            match next_gt(fv, after as int) {
                Option::None => {
                },
                Option::Some(w) => {
                    assert(fv[w] == '>');
                },
            }
        }
        return Option::None;
    }
    proof {
        assert(next_gt(fv, after as int) == Option::Some(g as int)) by {
            lemma_next_gt(fv, after as int);
            match next_gt(fv, after as int) {
                Option::None => {
                    assert(fv[g as int] != '>');
                },
                Option::Some(w) => {
                    if w < g {
                        assert(fv[w] != '>');
                    }
                    if w > g {
                        assert(fv[g as int] != '>');
                    }
                },
            }
        }
    }

    // An empty-element tag carries an empty value.
    if frag.get_char(g - 1) == '/' {
        let r = String::new();
        return Option::Some(r);
    }

    // Find the closing tag.
    let mut c = g + 1;
    let mut found_c = false;
    while !found_c && len >= 3 && nlen <= len - 3 && c <= len - 3 - nlen
        invariant
            fv == frag@,
            nv == name@,
            len == fv.len(),
            nlen == nv.len(),
            g + 1 <= c <= len,
            found_c ==> c + 3 + nlen <= len && close_at(fv, nv, c as int),
            forall|k: int| g + 1 <= k < c ==> !close_at(fv, nv, k),
        decreases len - c + if found_c {
            0int
        } else {
            1int
        },
    {
        if close_at_exec(frag, name, c) {
            found_c = true;
        } else {
            c += 1;
        }
    }
    if !found_c {
        proof {
            assert(forall|k: int| k >= g + 1 ==> !close_at(fv, nv, k));
            lemma_next_close(fv, nv, g + 1);
            match next_close(fv, nv, g + 1) {
                Option::None => {
                },
                Option::Some(w) => {
                    assert(close_at(fv, nv, w));
                },
            }
        }
        return Option::None;
    }
    proof {
        assert(next_close(fv, nv, g + 1) == Option::Some(c as int)) by {
            lemma_next_close(fv, nv, g + 1);
            match next_close(fv, nv, g + 1) {
                Option::None => {
                    assert(!close_at(fv, nv, c as int));
                },
                Option::Some(w) => {
                    if w < c {
                        assert(!close_at(fv, nv, w));
                    }
                    if w > c {
                        assert(!close_at(fv, nv, c as int));
                    }
                },
            }
        }
    }
    Option::Some(unescape_range(frag, g + 1, c))
}

/// The view of an optional decoded event.
pub open spec fn opt_event_view(r: Option<Event>) -> Option<EventModel> {
    match r {
        Option::Some(e) => Option::Some(e@),
        Option::None => Option::None,
    }
}

/// Decode one record fragment into an event; a fragment that does not begin
/// with the record start marker is dropped.
pub fn decode_record(frag: &str) -> (r: Option<Event>)
    ensures
        opt_event_view(r) == decode_model(frag@),
{
    let len = frag.unicode_len();
    if len < 7 || !crate::extract::starts_at_exec(frag, 0) {
        return Option::None;
    }
    let e = Event {
        timestamp: field_value_exec(frag, "Timestamp"),
        packet_type: field_value_exec(frag, "Packet-Type"),
        class: field_value_exec(frag, "Class"),
        acct_session_id: field_value_exec(frag, "Acct-Session-Id"),
        server: field_value_exec(frag, "Computer-Name"),
        ap_ip: field_value_exec(frag, "Client-IP-Address"),
        ap_name: field_value_exec(frag, "NAS-Identifier"),
        client_friendly_name: field_value_exec(frag, "Client-Friendly-Name"),
        mac: field_value_exec(frag, "Calling-Station-Id"),
        user_name: field_value_exec(frag, "User-Name"),
        sam_account: field_value_exec(frag, "SAM-Account-Name"),
        reason_code: field_value_exec(frag, "Reason-Code"),
    };
    proof {
        reveal_strlit("Timestamp");
        reveal_strlit("Packet-Type");
        reveal_strlit("Class");
        reveal_strlit("Acct-Session-Id");
        reveal_strlit("Computer-Name");
        reveal_strlit("Client-IP-Address");
        reveal_strlit("NAS-Identifier");
        reveal_strlit("Client-Friendly-Name");
        reveal_strlit("Calling-Station-Id");
        reveal_strlit("User-Name");
        reveal_strlit("SAM-Account-Name");
        reveal_strlit("Reason-Code");
    }
    Option::Some(e)
}

} // verus!
