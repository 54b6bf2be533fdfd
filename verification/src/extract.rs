//! The record extractor: a tokenizing scan that finds complete record
//! elements in raw log text.
//!
//! The grammar is the library's own, chosen for the fixed shape of the logs
//! it reads: a record begins at the start marker `<Event` followed by a tag
//! end or whitespace, and runs through the next occurrence of the end marker
//! `</Event>`. Content between records is wrapper material and ignored. A
//! structurally unterminated record stops extraction; what was extracted so
//! far is still returned.

use vstd::prelude::*;
use vstd::string::StrSliceExecFns;
use vstd::string::StringExecFns;

verus! {

/// A character that may follow an element name inside its tag.
pub open spec fn is_name_end(c: char) -> bool {
    c == '>' || c == ' ' || c == '\t' || c == '\r' || c == '\n'
}

/// A record element starts at `i`.
pub open spec fn record_starts_at(s: Seq<char>, i: int) -> bool {
    &&& 0 <= i
    &&& i + 7 <= s.len()
    &&& s.subrange(i, i + 6) == "<Event"@
    &&& is_name_end(s[i + 6])
}

/// The record end marker stands at `i`.
pub open spec fn end_marker_at(s: Seq<char>, i: int) -> bool {
    &&& 0 <= i
    &&& i + 8 <= s.len()
    &&& s.subrange(i, i + 8) == "</Event>"@
}

/// The first record start at or after `i`.
pub open spec fn next_start(s: Seq<char>, i: int) -> Option<int>
    decreases s.len() - i,
{
    if i < 0 || i + 7 > s.len() {
        Option::None
    } else if record_starts_at(s, i) {
        Option::Some(i)
    } else {
        next_start(s, i + 1)
    }
}

/// The first end marker at or after `i`.
pub open spec fn next_end(s: Seq<char>, i: int) -> Option<int>
    decreases s.len() - i,
{
    if i < 0 || i + 8 > s.len() {
        Option::None
    } else if end_marker_at(s, i) {
        Option::Some(i)
    } else {
        next_end(s, i + 1)
    }
}

/// What `next_start` finds: the least record start at or after `i`.
pub proof fn lemma_next_start(s: Seq<char>, i: int)
    requires
        0 <= i,
    ensures
        next_start(s, i) matches Option::Some(st) ==> i <= st && record_starts_at(s, st) && (
        forall|k: int| i <= k < st ==> !record_starts_at(s, k)),
        next_start(s, i) is None ==> forall|k: int| k >= i ==> !record_starts_at(s, k),
    decreases s.len() - i,
{
    if !(i < 0 || i + 7 > s.len()) && !record_starts_at(s, i) {
        lemma_next_start(s, i + 1);
    }
}

/// What `next_end` finds: the least end marker at or after `i`.
pub proof fn lemma_next_end(s: Seq<char>, i: int)
    requires
        0 <= i,
    ensures
        next_end(s, i) matches Option::Some(en) ==> i <= en && end_marker_at(s, en) && (
        forall|k: int| i <= k < en ==> !end_marker_at(s, k)),
        next_end(s, i) is None ==> forall|k: int| k >= i ==> !end_marker_at(s, k),
    decreases s.len() - i,
{
    if !(i < 0 || i + 8 > s.len()) && !end_marker_at(s, i) {
        lemma_next_end(s, i + 1);
    }
}

/// The record fragments found from position `i` on: each spans one start
/// marker through its end marker; a start with no end marker is dropped and
/// the scan stops.
pub open spec fn records_from(s: Seq<char>, i: int) -> Seq<Seq<char>>
    decreases s.len() - i,
    via records_from_dec
{
    match next_start(s, i) {
        Option::None => Seq::empty(),
        Option::Some(st) => match next_end(s, st) {
            Option::None => Seq::empty(),
            Option::Some(en) => seq![s.subrange(st, en + 8)] + records_from(s, en + 8),
        },
    }
}

#[via_fn]
proof fn records_from_dec(s: Seq<char>, i: int) {
    if 0 <= i {
        lemma_next_start(s, i);
        match next_start(s, i) {
            Option::None => {
            },
            Option::Some(st) => {
                lemma_next_end(s, st);
            },
        }
    }
}

/// All record fragments of a source text.
pub open spec fn extracted_records(s: Seq<char>) -> Seq<Seq<char>> {
    records_from(s, 0)
}

/// The views of a vector of fragments.
pub open spec fn frag_views(v: Seq<String>) -> Seq<Seq<char>> {
    v.map_values(|f: String| f@)
}

/// Whether a record starts at character position `i`.
pub(crate) fn starts_at_exec(content: &str, i: usize) -> (r: bool)
    requires
        content@.len() <= usize::MAX,
        i + 7 <= content@.len(),
    ensures
        r == record_starts_at(content@, i as int),
{
    proof {
        reveal_strlit("<Event");
    }
    if !crate::text::matches_at(content, "<Event", i) {
        return false;
    }
    let c = content.get_char(i + 6);
    c == '>' || c == ' ' || c == '\t' || c == '\r' || c == '\n'
}

/// Whether the end marker stands at character position `i`.
fn end_at_exec(content: &str, i: usize) -> (r: bool)
    requires
        content@.len() <= usize::MAX,
        i + 8 <= content@.len(),
    ensures
        r == end_marker_at(content@, i as int),
{
    proof {
        reveal_strlit("</Event>");
    }
    crate::text::matches_at(content, "</Event>", i)
}

/// Extract every complete record fragment of the source text, in order.
/// Extraction is fail-soft: a truncated final record is dropped and what was
/// found before it is returned.
pub fn extract_records(content: &str) -> (out: Vec<String>)
    ensures
        frag_views(out@) == extracted_records(content@),
{
    let len = content.unicode_len();
    let mut out: Vec<String> = Vec::new();
    if len < 8 {
        proof {
            lemma_next_start(content@, 0);
            match next_start(content@, 0) {
                Option::None => {
                },
                Option::Some(st) => {
                    lemma_next_end(content@, st);
                    match next_end(content@, st) {
                        Option::None => {
                        },
                        Option::Some(en) => {
                            assert(end_marker_at(content@, en));
                        },
                    }
                },
            }
            assert(frag_views(out@) =~= records_from(content@, 0));
        }
        return out;
    }
    let start_limit = len - 7;
    let end_limit = len - 8;
    let mut pos: usize = 0;
    proof {
        assert(frag_views(out@) + records_from(content@, 0) =~= records_from(content@, 0));
    }
    loop
        invariant
            len == content@.len(),
            len >= 8,
            start_limit == len - 7,
            end_limit == len - 8,
            0 <= pos <= len,
            frag_views(out@) + records_from(content@, pos as int) =~= records_from(content@, 0),
        ensures
            records_from(content@, pos as int) =~= Seq::<Seq<char>>::empty(),
        decreases len + 8 - pos,
    {
        // Scan for the next record start.
        let mut st = pos;
        let mut found_start = false;
        while !found_start && st <= start_limit
            invariant
                len == content@.len(),
                start_limit == len - 7,
                pos <= st,
                st <= len,
                found_start ==> st + 7 <= len && record_starts_at(content@, st as int),
                forall|k: int| pos <= k < st ==> !record_starts_at(content@, k),
            decreases len - st + if found_start {
                0int
            } else {
                1int
            },
        {
            if starts_at_exec(content, st) {
                found_start = true;
            } else {
                st += 1;
            }
        }
        if !found_start {
            proof {
                assert(forall|k: int| k >= pos ==> !record_starts_at(content@, k));
                lemma_next_start(content@, pos as int);
                match next_start(content@, pos as int) {
                    Option::None => {
                    },
                    Option::Some(w) => {
                        assert(record_starts_at(content@, w));
                    },
                }
                assert(records_from(content@, pos as int) =~= Seq::<Seq<char>>::empty());
            }
            break;
        }
        proof {
            assert(next_start(content@, pos as int) == Option::Some(st as int)) by {
                lemma_next_start(content@, pos as int);
                match next_start(content@, pos as int) {
                    Option::None => {
                        assert(!record_starts_at(content@, st as int));
                    },
                    Option::Some(w) => {
                        if w < st {
                            assert(!record_starts_at(content@, w));
                        }
                        if w > st {
                            assert(!record_starts_at(content@, st as int));
                        }
                    },
                }
            }
        }
        // Scan for the matching end marker.
        let mut en = st;
        let mut found_end = false;
        while !found_end && en <= end_limit
            invariant
                len == content@.len(),
                end_limit == len - 8,
                st <= en,
                en <= end_limit + 1,
                found_end ==> en + 8 <= len && end_marker_at(content@, en as int),
                forall|k: int| st <= k < en ==> !end_marker_at(content@, k),
            decreases end_limit + 1 - en + if found_end {
                0int
            } else {
                1int
            },
        {
            if end_at_exec(content, en) {
                found_end = true;
            } else {
                en += 1;
            }
        }
        if !found_end {
            proof {
                assert(forall|k: int| k >= st ==> !end_marker_at(content@, k));
                lemma_next_end(content@, st as int);
                match next_end(content@, st as int) {
                    Option::None => {
                    },
                    Option::Some(w) => {
                        assert(end_marker_at(content@, w));
                    },
                }
                assert(records_from(content@, pos as int) =~= Seq::<Seq<char>>::empty());
            }
            break;
        }
        proof {
            assert(next_end(content@, st as int) == Option::Some(en as int)) by {
                lemma_next_end(content@, st as int);
                match next_end(content@, st as int) {
                    Option::None => {
                        assert(!end_marker_at(content@, en as int));
                    },
                    Option::Some(w) => {
                        if w < en {
                            assert(!end_marker_at(content@, w));
                        }
                        if w > en {
                            assert(!end_marker_at(content@, en as int));
                        }
                    },
                }
            }
        }
        let frag = content.substring_char(st, en + 8);
        let ghost out_before = out@;
        out.push(String::from_str(frag));
        proof {
            assert(records_from(content@, pos as int) =~= seq![
                content@.subrange(st as int, en + 8),
            ] + records_from(content@, en + 8));
            assert(frag_views(out@) =~= frag_views(out_before).push(
                content@.subrange(st as int, en + 8),
            ));
            assert(frag_views(out@) + records_from(content@, en + 8) =~= records_from(
                content@,
                0,
            ));
        }
        pos = en + 8;
    }
    proof {
        assert(frag_views(out@) =~= records_from(content@, 0));
    }
    out
}

} // verus!
