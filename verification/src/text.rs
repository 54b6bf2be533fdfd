//! Character and string utilities: ASCII lowercasing, substring search,
//! lexicographic comparison, and trimming, each with an exact specification
//! over `Seq<char>` views.

use vstd::prelude::*;
use vstd::string::StrSliceExecFns;

verus! {

/// ASCII lowercasing of a single character; other characters are unchanged.
pub open spec fn lower_char(c: char) -> char {
    if 'A' <= c && c <= 'Z' {
        (((c as u8) + 32) as char)
    } else {
        c
    }
}

/// ASCII lowercasing of a character sequence.
pub open spec fn lower(s: Seq<char>) -> Seq<char> {
    s.map_values(|c: char| lower_char(c))
}

/// Lowercase one character.
pub fn lower_char_exec(c: char) -> (r: char)
    ensures
        r == lower_char(c),
{
    if 'A' <= c && c <= 'Z' {
        ((c as u8) + 32) as char
    } else {
        c
    }
}

/// `needle` occurs in `hay` starting at position `i`.
pub open spec fn match_at(hay: Seq<char>, needle: Seq<char>, i: int) -> bool {
    &&& 0 <= i
    &&& i + needle.len() <= hay.len()
    &&& hay.subrange(i, i + needle.len() as int) == needle
}

/// `needle` occurs somewhere in `hay`.
pub open spec fn contains_seq(hay: Seq<char>, needle: Seq<char>) -> bool {
    exists|i: int| match_at(hay, needle, i)
}

/// Whether `needle` occurs in `hay` at position `i`.
pub fn matches_at(hay: &str, needle: &str, i: usize) -> (r: bool)
    requires
        i + needle@.len() <= hay@.len(),
        hay@.len() <= usize::MAX,
    ensures
        r == match_at(hay@, needle@, i as int),
{
    let n = needle.unicode_len();
    let mut j: usize = 0;
    while j < n
        invariant
            n == needle@.len(),
            i + n <= hay@.len(),
            hay@.len() <= usize::MAX,
            0 <= j <= n,
            forall|k: int| 0 <= k < j ==> hay@[i + k] == needle@[k],
        decreases n - j,
    {
        if hay.get_char(i + j) != needle.get_char(j) {
            assert(hay@.subrange(i as int, i + needle@.len() as int)[j as int] != needle@[j as int]);
            return false;
        }
        j += 1;
    }
    assert(hay@.subrange(i as int, i + needle@.len() as int) =~= needle@);
    true
}

/// String equality on views.
pub fn str_eq(a: &str, b: &str) -> (r: bool)
    ensures
        r == (a@ == b@),
{
    let la = a.unicode_len();
    let lb = b.unicode_len();
    if la != lb {
        assert(a@ != b@) by {
            assert(a@.len() != b@.len());
        }
        return false;
    }
    let mut i: usize = 0;
    while i < la
        invariant
            la == a@.len(),
            la == b@.len(),
            0 <= i <= la,
            forall|k: int| 0 <= k < i ==> a@[k] == b@[k],
        decreases la - i,
    {
        if a.get_char(i) != b.get_char(i) {
            return false;
        }
        i += 1;
    }
    assert(a@ =~= b@);
    true
}

/// Lexicographic order on character sequences, by code point.
pub open spec fn lex_le(a: Seq<char>, b: Seq<char>) -> bool
    decreases a.len(),
{
    if a.len() == 0 {
        true
    } else if b.len() == 0 {
        false
    } else if a[0] != b[0] {
        a[0] < b[0]
    } else {
        lex_le(a.drop_first(), b.drop_first())
    }
}

/// The lexicographic order is total.
pub proof fn lemma_lex_total(a: Seq<char>, b: Seq<char>)
    ensures
        lex_le(a, b) || lex_le(b, a),
    decreases a.len(),
{
    if a.len() != 0 && b.len() != 0 && a[0] == b[0] {
        lemma_lex_total(a.drop_first(), b.drop_first());
    }
}

/// The lexicographic order is transitive.
pub proof fn lemma_lex_trans(a: Seq<char>, b: Seq<char>, c: Seq<char>)
    requires
        lex_le(a, b),
        lex_le(b, c),
    ensures
        lex_le(a, c),
    decreases a.len(),
{
    if a.len() != 0 && b.len() != 0 && c.len() != 0 {
        if a[0] == b[0] && b[0] == c[0] {
            lemma_lex_trans(a.drop_first(), b.drop_first(), c.drop_first());
        }
    }
}

/// Lexicographic comparison of two strings.
pub fn str_le(a: &str, b: &str) -> (r: bool)
    ensures
        r == lex_le(a@, b@),
{
    let la = a.unicode_len();
    let lb = b.unicode_len();
    let m = if la < lb {
        la
    } else {
        lb
    };
    proof {
        assert(a@.skip(0) =~= a@);
        assert(b@.skip(0) =~= b@);
    }
    let mut i: usize = 0;
    while i < m
        invariant
            la == a@.len(),
            lb == b@.len(),
            m == if la < lb {
                la as int
            } else {
                lb as int
            },
            0 <= i <= m,
            lex_le(a@, b@) == lex_le(a@.skip(i as int), b@.skip(i as int)),
        decreases m - i,
    {
        let ca = a.get_char(i);
        let cb = b.get_char(i);
        if ca != cb {
            assert(a@.skip(i as int)[0] == ca && b@.skip(i as int)[0] == cb);
            return ca < cb;
        }
        proof {
            assert(a@.skip(i as int).drop_first() =~= a@.skip(i + 1));
            assert(b@.skip(i as int).drop_first() =~= b@.skip(i + 1));
        }
        i += 1;
    }
    proof {
        if la <= lb {
            assert(a@.skip(m as int).len() == 0);
        } else {
            assert(b@.skip(m as int).len() == 0);
            assert(a@.skip(m as int).len() > 0);
        }
    }
    la <= lb
}

/// Whether `needle` occurs at position `i` of `hay` after ASCII lowercasing
/// of `hay`; `needle` is assumed to be lowercase already.
fn match_ci_at(hay: &str, needle: &str, i: usize) -> (r: bool)
    requires
        i + needle@.len() <= hay@.len(),
        hay@.len() <= usize::MAX,
    ensures
        r == match_at(lower(hay@), needle@, i as int),
{
    let n = needle.unicode_len();
    let mut j: usize = 0;
    while j < n
        invariant
            n == needle@.len(),
            i + n <= hay@.len(),
            hay@.len() <= usize::MAX,
            0 <= j <= n,
            forall|k: int| 0 <= k < j ==> lower(hay@)[i + k] == needle@[k],
        decreases n - j,
    {
        if lower_char_exec(hay.get_char(i + j)) != needle.get_char(j) {
            assert(lower(hay@).subrange(i as int, i + needle@.len() as int)[j as int] != needle@[j as int]);
            return false;
        }
        j += 1;
    }
    assert(lower(hay@).subrange(i as int, i + needle@.len() as int) =~= needle@);
    true
}

/// Case-insensitive substring search: does the already-lowercase `needle`
/// occur in `hay`, comparing ASCII letters without regard to case?
pub fn contains_ci(hay: &str, needle: &str) -> (r: bool)
    ensures
        r == contains_seq(lower(hay@), needle@),
{
    let h = hay.unicode_len();
    let n = needle.unicode_len();
    if n > h {
        assert(forall|i: int| !match_at(lower(hay@), needle@, i));
        return false;
    }
    if n == 0 {
        assert(lower(hay@).subrange(0, 0) =~= needle@);
        assert(match_at(lower(hay@), needle@, 0));
        return true;
    }
    let mut i: usize = 0;
    while i <= h - n
        invariant
            h == hay@.len(),
            n == needle@.len(),
            1 <= n <= h,
            0 <= i <= h - n + 1,
            forall|k: int| 0 <= k < i ==> !match_at(lower(hay@), needle@, k),
        decreases h - n + 1 - i,
    {
        if match_ci_at(hay, needle, i) {
            return true;
        }
        i += 1;
    }
    assert(forall|k: int| match_at(lower(hay@), needle@, k) ==> 0 <= k <= h - n);
    false
}

/// The whitespace characters stripped by trimming.
pub open spec fn is_space(c: char) -> bool {
    c == ' ' || c == '\t' || c == '\r' || c == '\n'
}

/// Index of the first character at or after `i` that is not whitespace, or
/// the length of `s` if all of them are.
pub open spec fn first_non_space(s: Seq<char>, i: int) -> int
    decreases s.len() - i,
{
    if i < 0 || i >= s.len() {
        s.len() as int
    } else if is_space(s[i]) {
        first_non_space(s, i + 1)
    } else {
        i
    }
}

/// Index one past the last character before `i` that is not whitespace, or 0
/// if all of them are whitespace.
pub open spec fn last_non_space_end(s: Seq<char>, i: int) -> int
    decreases i,
{
    if i <= 0 || i > s.len() {
        0
    } else if is_space(s[i - 1]) {
        last_non_space_end(s, i - 1)
    } else {
        i
    }
}

/// The trimmed form of `s`: leading and trailing whitespace removed.
pub open spec fn trim_spec(s: Seq<char>) -> Seq<char> {
    let f = first_non_space(s, 0);
    let l = last_non_space_end(s, s.len() as int);
    if f >= l {
        Seq::empty()
    } else {
        s.subrange(f, l)
    }
}

/// If every character in `[i, f)` is whitespace and `f` is the length or a
/// non-whitespace position, then `f` is the first non-whitespace index.
proof fn lemma_first_non_space(s: Seq<char>, i: int, f: int)
    requires
        0 <= i <= f <= s.len(),
        forall|k: int| i <= k < f ==> is_space(s[k]),
        f == s.len() || !is_space(s[f]),
    ensures
        first_non_space(s, i) == f,
    decreases f - i,
{
    if i < f {
        lemma_first_non_space(s, i + 1, f);
    }
}

/// If every character in `[l, i)` is whitespace and `l` is 0 or follows a
/// non-whitespace character, then `l` ends the non-whitespace prefix.
proof fn lemma_last_non_space_end(s: Seq<char>, l: int, i: int)
    requires
        0 <= l <= i <= s.len(),
        forall|k: int| l <= k < i ==> is_space(s[k]),
        l == 0 || !is_space(s[l - 1]),
    ensures
        last_non_space_end(s, i) == l,
    decreases i - l,
{
    if l < i {
        lemma_last_non_space_end(s, l, i - 1);
    }
}

/// The end of the non-whitespace prefix never exceeds the scan start.
proof fn lemma_last_non_space_end_le(s: Seq<char>, i: int)
    requires
        0 <= i <= s.len(),
    ensures
        last_non_space_end(s, i) <= i,
    decreases i,
{
    if 0 < i <= s.len() && is_space(s[i - 1]) {
        lemma_last_non_space_end_le(s, i - 1);
    }
}

/// Relies on String::push of std: appends exactly the given character.
#[verifier::external_body]
pub(crate) fn push_char(s: &mut String, c: char)
    ensures
        final (s)@ == old(s)@.push(c),
{
    s.push(c);
}

/// Trim whitespace from both ends of `s` and lowercase ASCII letters.
pub fn lower_trim(s: &str) -> (r: String)
    ensures
        r@ == lower(trim_spec(s@)),
{
    let len = s.unicode_len();
    let mut f: usize = 0;
    while f < len && is_space_exec(s.get_char(f))
        invariant
            len == s@.len(),
            0 <= f <= len,
            forall|k: int| 0 <= k < f ==> is_space(s@[k]),
        decreases len - f,
    {
        f += 1;
    }
    let mut l: usize = len;
    while l > f && is_space_exec(s.get_char(l - 1))
        invariant
            len == s@.len(),
            f <= l <= len,
            forall|k: int| l <= k < len ==> is_space(s@[k]),
        decreases l,
    {
        l -= 1;
    }
    proof {
        if l == f {
            // The whole string is whitespace: the trimmed form is empty.
            lemma_first_non_space(s@, 0, len as int);
            lemma_last_non_space_end_le(s@, len as int);
            assert(trim_spec(s@) =~= Seq::<char>::empty());
        } else {
            assert(!is_space(s@[l - 1]));
            assert(f < len && !is_space(s@[f as int]));
            lemma_first_non_space(s@, 0, f as int);
            lemma_last_non_space_end(s@, l as int, len as int);
            assert(trim_spec(s@) == s@.subrange(f as int, l as int));
        }
    }
    let mut r = String::new();
    let mut i: usize = f;
    while i < l
        invariant
            len == s@.len(),
            f <= i <= l <= len,
            trim_spec(s@) == if f >= l {
                Seq::<char>::empty()
            } else {
                s@.subrange(f as int, l as int)
            },
            r@ =~= lower(s@.subrange(f as int, i as int)),
        decreases l - i,
    {
        let c = lower_char_exec(s.get_char(i));
        push_char(&mut r, c);
        proof {
            assert(s@.subrange(f as int, i + 1) =~= s@.subrange(f as int, i as int).push(
                s@[i as int],
            ));
            assert(lower(s@.subrange(f as int, i + 1)) =~= lower(
                s@.subrange(f as int, i as int),
            ).push(lower_char(s@[i as int])));
        }
        i += 1;
    }
    proof {
        if f >= l {
            assert(lower(Seq::<char>::empty()) =~= Seq::<char>::empty());
        }
    }
    r
}

/// Whether `c` is one of the trimmed whitespace characters.
pub fn is_space_exec(c: char) -> (r: bool)
    ensures
        r == is_space(c),
{
    c == ' ' || c == '\t' || c == '\r' || c == '\n'
}

/// Whether `c` is a Unicode directional-isolate mark, as localization
/// machinery inserts around interpolated values.
pub open spec fn is_isolate_mark(c: char) -> bool {
    '\u{2066}' <= c && c <= '\u{2069}'
}

/// A string with every directional-isolate mark removed.
pub open spec fn without_isolates(s: Seq<char>) -> Seq<char>
    decreases s.len(),
{
    if s.len() == 0 {
        Seq::empty()
    } else if is_isolate_mark(s.last()) {
        without_isolates(s.drop_last())
    } else {
        without_isolates(s.drop_last()).push(s.last())
    }
}

/// Strip the directional-isolate marks that localized text carries around
/// interpolated values.
pub fn clean_tr(s: &str) -> (r: String)
    ensures
        r@ == without_isolates(s@),
{
    let len = s.unicode_len();
    let mut r = String::new();
    let mut i: usize = 0;
    proof {
        assert(r@ =~= without_isolates(s@.take(0)));
    }
    while i < len
        invariant
            len == s@.len(),
            0 <= i <= len,
            r@ == without_isolates(s@.take(i as int)),
        decreases len - i,
    {
        proof {
            assert(s@.take(i + 1).drop_last() =~= s@.take(i as int));
            assert(s@.take(i + 1).last() == s@[i as int]);
        }
        let c = s.get_char(i);
        if !('\u{2066}' <= c && c <= '\u{2069}') {
            push_char(&mut r, c);
        }
        i += 1;
    }
    proof {
        assert(s@.take(len as int) =~= s@);
    }
    r
}

} // verus!
