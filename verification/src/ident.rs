//! Identifier pasting and case conversion: the rules by which generated
//! names are assembled from segments and reshaped between lower, upper,
//! snake and camel case. Conversions are ASCII-based.

use vstd::prelude::*;
use vstd::string::StrSliceExecFns;
use vstd::string::StringExecFns;
use crate::text::{lower, lower_char, lower_char_exec, matches_at, push_char};

verus! {

/// ASCII uppercasing of a single character; other characters are unchanged.
pub open spec fn upper_char(c: char) -> char {
    if 'a' <= c && c <= 'z' {
        (((c as u8) - 32) as char)
    } else {
        c
    }
}

/// ASCII uppercasing of a character sequence.
pub open spec fn upper(s: Seq<char>) -> Seq<char> {
    s.map_values(|c: char| upper_char(c))
}

/// Uppercase one character.
pub fn upper_char_exec(c: char) -> (r: char)
    ensures
        r == upper_char(c),
{
    if 'a' <= c && c <= 'z' {
        ((c as u8) - 32) as char
    } else {
        c
    }
}

/// Whether a character is an ASCII capital.
pub open spec fn is_upper(c: char) -> bool {
    'A' <= c && c <= 'Z'
}

/// Snake case: every letter lowercased, with an underscore inserted before
/// each capital that does not already follow an underscore or start the
/// name.
pub open spec fn snake_of(s: Seq<char>) -> Seq<char>
    decreases s.len(),
{
    if s.len() == 0 {
        Seq::empty()
    } else {
        snake_of(s.drop_last()) + (if is_upper(s.last()) && s.len() > 1 && s[s.len() - 2] != '_' {
            seq!['_', lower_char(s.last())]
        } else {
            seq![lower_char(s.last())]
        })
    }
}

/// Camel case: underscores dropped, and the character after each dropped
/// underscore — as well as the first character — capitalized.
pub open spec fn camel_of(s: Seq<char>) -> Seq<char>
    decreases s.len(),
{
    if s.len() == 0 {
        Seq::empty()
    } else {
        camel_of(s.drop_last()) + (if s.last() == '_' {
            Seq::empty()
        } else if s.len() == 1 || s[s.len() - 2] == '_' {
            seq![upper_char(s.last())]
        } else {
            seq![s.last()]
        })
    }
}

/// A sequence with its first character lowercased.
pub open spec fn lower_first(s: Seq<char>) -> Seq<char> {
    if s.len() == 0 {
        s
    } else {
        seq![lower_char(s[0])] + s.drop_first()
    }
}

/// Lower camel case: camel case with the leading character lowercased.
pub open spec fn lower_camel_of(s: Seq<char>) -> Seq<char> {
    lower_first(camel_of(s))
}

/// The index of the first character that is not an underscore.
pub open spec fn first_non_underscore(s: Seq<char>, i: int) -> int
    decreases s.len() - i,
{
    if i < 0 || i >= s.len() {
        s.len() as int
    } else if s[i] == '_' {
        first_non_underscore(s, i + 1)
    } else {
        i
    }
}

/// The edge-preserving camel conversion of the characters from `i` on: an
/// underscore survives exactly when another underscore follows it, and a
/// character at the start or after an underscore is capitalized.
pub open spec fn edge_from(s: Seq<char>, i: int) -> Seq<char>
    decreases s.len() - i,
{
    if i < 0 || i >= s.len() {
        Seq::empty()
    } else {
        (if s[i] == '_' {
            if i + 1 < s.len() && s[i + 1] == '_' {
                seq!['_']
            } else {
                Seq::<char>::empty()
            }
        } else if i == 0 || s[i - 1] == '_' {
            seq![upper_char(s[i])]
        } else {
            seq![s[i]]
        }) + edge_from(s, i + 1)
    }
}

/// Edge-preserving camel case: leading underscores are kept verbatim, an
/// interior run of underscores keeps all but its last one, and segment
/// starts are capitalized.
pub open spec fn camel_edge_of(s: Seq<char>) -> Seq<char> {
    let f = first_non_underscore(s, 0);
    s.subrange(0, f) + edge_from(s, f)
}

/// The views of a vector of name segments.
pub open spec fn seg_views(v: Seq<String>) -> Seq<Seq<char>> {
    v.map_values(|f: String| f@)
}

/// The concatenation of name segments.
pub open spec fn pasted(parts: Seq<Seq<char>>) -> Seq<char>
    decreases parts.len(),
{
    if parts.len() == 0 {
        Seq::empty()
    } else {
        pasted(parts.drop_last()) + parts.last()
    }
}

/// Lowercase a whole name.
pub fn to_lower(s: &str) -> (r: String)
    ensures
        r@ == lower(s@),
{
    let len = s.unicode_len();
    let mut r = String::new();
    let mut i: usize = 0;
    proof {
        assert(r@ =~= lower(s@.take(0)));
    }
    while i < len
        invariant
            len == s@.len(),
            0 <= i <= len,
            r@ == lower(s@.take(i as int)),
        decreases len - i,
    {
        push_char(&mut r, lower_char_exec(s.get_char(i)));
        proof {
            assert(lower(s@.take(i + 1)) =~= lower(s@.take(i as int)).push(
                lower_char(s@[i as int]),
            ));
        }
        i += 1;
    }
    proof {
        assert(s@.take(len as int) =~= s@);
    }
    r
}

/// Uppercase a whole name.
pub fn to_upper(s: &str) -> (r: String)
    ensures
        r@ == upper(s@),
{
    let len = s.unicode_len();
    let mut r = String::new();
    let mut i: usize = 0;
    proof {
        assert(r@ =~= upper(s@.take(0)));
    }
    while i < len
        invariant
            len == s@.len(),
            0 <= i <= len,
            r@ == upper(s@.take(i as int)),
        decreases len - i,
    {
        push_char(&mut r, upper_char_exec(s.get_char(i)));
        proof {
            assert(upper(s@.take(i + 1)) =~= upper(s@.take(i as int)).push(
                upper_char(s@[i as int]),
            ));
        }
        i += 1;
    }
    proof {
        assert(s@.take(len as int) =~= s@);
    }
    r
}

/// Convert a name to snake case.
pub fn to_snake(s: &str) -> (r: String)
    ensures
        r@ == snake_of(s@),
{
    let len = s.unicode_len();
    let mut r = String::new();
    let mut i: usize = 0;
    proof {
        assert(r@ =~= snake_of(s@.take(0)));
    }
    while i < len
        invariant
            len == s@.len(),
            0 <= i <= len,
            r@ == snake_of(s@.take(i as int)),
        decreases len - i,
    {
        proof {
            assert(s@.take(i + 1).drop_last() =~= s@.take(i as int));
            assert(s@.take(i + 1).last() == s@[i as int]);
        }
        let c = s.get_char(i);
        if 'A' <= c && c <= 'Z' && i > 0 && s.get_char(i - 1) != '_' {
            push_char(&mut r, '_');
        }
        push_char(&mut r, lower_char_exec(c));
        i += 1;
    }
    proof {
        assert(s@.take(len as int) =~= s@);
    }
    r
}

/// Convert a name to camel case.
pub fn to_camel(s: &str) -> (r: String)
    ensures
        r@ == camel_of(s@),
{
    let len = s.unicode_len();
    let mut r = String::new();
    let mut i: usize = 0;
    proof {
        assert(r@ =~= camel_of(s@.take(0)));
    }
    while i < len
        invariant
            len == s@.len(),
            0 <= i <= len,
            r@ == camel_of(s@.take(i as int)),
        decreases len - i,
    {
        proof {
            assert(s@.take(i + 1).drop_last() =~= s@.take(i as int));
            assert(s@.take(i + 1).last() == s@[i as int]);
        }
        let c = s.get_char(i);
        if c != '_' {
            if i == 0 || s.get_char(i - 1) == '_' {
                push_char(&mut r, upper_char_exec(c));
            } else {
                push_char(&mut r, c);
            }
        }
        i += 1;
    }
    proof {
        assert(s@.take(len as int) =~= s@);
    }
    r
}

/// Convert a name to lower camel case.
pub fn to_lower_camel(s: &str) -> (r: String)
    ensures
        r@ == lower_camel_of(s@),
{
    let camel = to_camel(s);
    let clen = camel.as_str().unicode_len();
    if clen == 0 {
        return camel;
    }
    let mut r = String::new();
    push_char(&mut r, lower_char_exec(camel.as_str().get_char(0)));
    let mut i: usize = 1;
    while i < clen
        invariant
            clen == camel@.len(),
            clen > 0,
            1 <= i <= clen,
            r@ == seq![lower_char(camel@[0])] + camel@.subrange(1, i as int),
        decreases clen - i,
    {
        push_char(&mut r, camel.as_str().get_char(i));
        proof {
            assert(seq![lower_char(camel@[0])] + camel@.subrange(1, i + 1) =~= (seq![
                lower_char(camel@[0]),
            ] + camel@.subrange(1, i as int)).push(camel@[i as int]));
        }
        i += 1;
    }
    proof {
        assert(camel@.subrange(1, clen as int) =~= camel@.drop_first());
        assert(r@ =~= lower_first(camel_of(s@)));
    }
    r
}

/// Convert a name to edge-preserving camel case.
pub fn to_camel_edge(s: &str) -> (r: String)
    ensures
        r@ == camel_edge_of(s@),
{
    let len = s.unicode_len();
    let mut r = String::new();
    let mut f: usize = 0;
    while f < len && s.get_char(f) == '_'
        invariant
            len == s@.len(),
            0 <= f <= len,
            forall|k: int| 0 <= k < f ==> s@[k] == '_',
            r@ == s@.subrange(0, f as int),
        decreases len - f,
    {
        push_char(&mut r, '_');
        proof {
            assert(r@ =~= s@.subrange(0, f + 1));
        }
        f += 1;
    }
    proof {
        assert(first_non_underscore(s@, 0) == f as int) by {
            lemma_first_non_underscore(s@, 0, f as int);
        }
    }
    let mut i: usize = f;
    proof {
        assert(r@ + edge_from(s@, f as int) =~= camel_edge_of(s@));
    }
    while i < len
        invariant
            len == s@.len(),
            f <= i <= len,
            r@ + edge_from(s@, i as int) =~= camel_edge_of(s@),
        decreases len - i,
    {
        let c = s.get_char(i);
        let ghost before = r@;
        if c == '_' {
            if i + 1 < len && s.get_char(i + 1) == '_' {
                push_char(&mut r, '_');
            }
        } else if i == 0 || s.get_char(i - 1) == '_' {
            push_char(&mut r, upper_char_exec(c));
        } else {
            push_char(&mut r, c);
        }
        proof {
            assert(edge_from(s@, i as int) =~= (r@.skip(before.len() as int)) + edge_from(
                s@,
                i + 1,
            ));
            assert(r@ + edge_from(s@, i + 1) =~= camel_edge_of(s@));
        }
        i += 1;
    }
    proof {
        assert(edge_from(s@, len as int) =~= Seq::<char>::empty());
        assert(r@ =~= camel_edge_of(s@));
    }
    r
}

/// The index where the leading underscores end.
proof fn lemma_first_non_underscore(s: Seq<char>, i: int, f: int)
    requires
        0 <= i <= f <= s.len(),
        forall|k: int| i <= k < f ==> s[k] == '_',
        f == s.len() || s[f] != '_',
    ensures
        first_non_underscore(s, i) == f,
    decreases f - i,
{
    if i < f {
        lemma_first_non_underscore(s, i + 1, f);
    }
}

/// Whether `p` stands at the head of `s`.
pub open spec fn prefix_at(s: Seq<char>, p: Seq<char>) -> bool {
    p.len() <= s.len() && s.subrange(0, p.len() as int) == p
}

/// Every occurrence of `from` replaced by `to`, scanning left to right; an
/// empty pattern replaces nothing.
pub open spec fn replaced(s: Seq<char>, from: Seq<char>, to: Seq<char>) -> Seq<char>
    decreases s.len(),
{
    if from.len() == 0 || s.len() == 0 {
        s
    } else if prefix_at(s, from) {
        to + replaced(s.skip(from.len() as int), from, to)
    } else {
        seq![s[0]] + replaced(s.skip(1), from, to)
    }
}

/// Replace every occurrence of one pattern in a name.
pub fn replace_all(s: &str, from: &str, to: &str) -> (r: String)
    ensures
        r@ == replaced(s@, from@, to@),
{
    let len = s.unicode_len();
    let flen = from.unicode_len();
    if flen == 0 {
        let r = String::from_str(s);
        return r;
    }
    let mut r = String::new();
    let mut i: usize = 0;
    proof {
        assert(s@.skip(0) =~= s@);
    }
    while i < len
        invariant
            len == s@.len(),
            flen == from@.len(),
            flen > 0,
            0 <= i <= len,
            r@ + replaced(s@.skip(i as int), from@, to@) =~= replaced(s@, from@, to@),
        decreases len - i,
    {
        let ghost rem = s@.skip(i as int);
        let ghost before = r@;
        if flen <= len - i && matches_at(s, from, i) {
            proof {
                assert(rem.subrange(0, flen as int) =~= s@.subrange(i as int, i + flen));
                assert(prefix_at(rem, from@));
                assert(rem.skip(flen as int) =~= s@.skip(i + flen));
            }
            StringExecFns::append(&mut r, to);
            proof {
                assert(replaced(rem, from@, to@) =~= to@ + replaced(
                    s@.skip(i + flen),
                    from@,
                    to@,
                ));
                assert(r@ + replaced(s@.skip(i + flen), from@, to@) =~= replaced(
                    s@,
                    from@,
                    to@,
                ));
            }
            i += flen;
        } else {
            proof {
                assert(!prefix_at(rem, from@)) by {
                    if prefix_at(rem, from@) {
                        assert(rem.subrange(0, flen as int) =~= s@.subrange(i as int, i + flen));
                        assert(crate::text::match_at(s@, from@, i as int));
                    }
                }
                assert(rem[0] == s@[i as int]);
                assert(rem.skip(1) =~= s@.skip(i + 1));
            }
            push_char(&mut r, s.get_char(i));
            proof {
                assert(replaced(rem, from@, to@) =~= seq![s@[i as int]] + replaced(
                    s@.skip(i + 1),
                    from@,
                    to@,
                ));
                assert(r@ + replaced(s@.skip(i + 1), from@, to@) =~= replaced(s@, from@, to@));
            }
            i += 1;
        }
    }
    proof {
        assert(s@.skip(len as int) =~= Seq::<char>::empty());
        assert(r@ =~= replaced(s@, from@, to@));
    }
    r
}

/// Paste name segments into one name.
pub fn paste_segments(parts: &Vec<String>) -> (r: String)
    ensures
        r@ == pasted(seg_views(parts@)),
{
    let ghost views = seg_views(parts@);
    let mut r = String::new();
    let n = parts.len();
    let mut i: usize = 0;
    proof {
        assert(r@ =~= pasted(views.take(0)));
    }
    while i < n
        invariant
            n == parts@.len(),
            views == seg_views(parts@),
            views.len() == n,
            0 <= i <= n,
            r@ == pasted(views.take(i as int)),
        decreases n - i,
    {
        proof {
            assert(views.take(i + 1).drop_last() =~= views.take(i as int));
            assert(views.take(i + 1).last() == parts@[i as int]@);
        }
        vstd::string::StringExecFns::append(&mut r, parts[i].as_str());
        i += 1;
    }
    proof {
        assert(views.take(n as int) =~= views);
    }
    r
}

} // verus!
