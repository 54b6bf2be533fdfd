//! Code tables: the fixed packet-type table and the caller-supplied
//! reason-code table, with their display-string lookups.

use vstd::prelude::*;
use vstd::string::StringExecFns;
use crate::text::str_eq;
use crate::transaction::Highlight;

verus! {

/// The display string of a packet-type code; unmapped codes fall back to the
/// raw code behind a fixed prefix.
pub open spec fn packet_type_name(code: Seq<char>) -> Seq<char> {
    if code == "1"@ {
        "Access-Request"@
    } else if code == "2"@ {
        "Access-Accept"@
    } else if code == "3"@ {
        "Access-Reject"@
    } else if code == "4"@ {
        "Accounting-Request"@
    } else if code == "5"@ {
        "Accounting-Response"@
    } else if code == "11"@ {
        "Access-Challenge"@
    } else {
        "Type "@ + code
    }
}

/// The packet-type mapping is total and never yields an empty display
/// string: every unmapped code falls back behind a non-empty prefix.
pub proof fn lemma_packet_type_name_nonempty(code: Seq<char>)
    ensures
        packet_type_name(code).len() > 0,
{
    reveal_strlit("Access-Request");
    reveal_strlit("Access-Accept");
    reveal_strlit("Access-Reject");
    reveal_strlit("Accounting-Request");
    reveal_strlit("Accounting-Response");
    reveal_strlit("Access-Challenge");
    reveal_strlit("Type ");
}

/// Whether a packet-type code marks a request (access or accounting).
pub open spec fn is_request_code(code: Seq<char>) -> bool {
    code == "1"@ || code == "4"@
}

/// The highlight a response packet-type code contributes: accept marks
/// success, reject marks failure, everything else leaves the highlight as it
/// was.
pub open spec fn highlight_of_code(code: Seq<char>, previous: Highlight) -> Highlight {
    if code == "2"@ {
        Highlight::Success
    } else if code == "3"@ {
        Highlight::Failure
    } else {
        previous
    }
}

/// Map a packet-type code to its display string.
pub fn map_packet_type(code: &str) -> (r: String)
    ensures
        r@ == packet_type_name(code@),
{
    if str_eq(code, "1") {
        String::from_str("Access-Request")
    } else if str_eq(code, "2") {
        String::from_str("Access-Accept")
    } else if str_eq(code, "3") {
        String::from_str("Access-Reject")
    } else if str_eq(code, "4") {
        String::from_str("Accounting-Request")
    } else if str_eq(code, "5") {
        String::from_str("Accounting-Response")
    } else if str_eq(code, "11") {
        String::from_str("Access-Challenge")
    } else {
        String::from_str("Type ").concat(code)
    }
}

/// Whether a packet-type code marks a request.
pub fn is_request_type(code: &str) -> (r: bool)
    ensures
        r == is_request_code(code@),
{
    str_eq(code, "1") || str_eq(code, "4")
}

/// The reason-code table: pairs of code and display string, later entries
/// overriding earlier ones. The table's source (embedded data, a loaded
/// file) is the caller's concern.
pub struct CodeTable {
    entries: Vec<(String, String)>,
}

impl View for CodeTable {
    type V = Seq<(Seq<char>, Seq<char>)>;

    closed spec fn view(&self) -> Seq<(Seq<char>, Seq<char>)> {
        self.entries@.map_values(|p: (String, String)| (p.0@, p.1@))
    }
}

/// The value the table holds for a code: the last entry with that code, if
/// any.
pub open spec fn table_lookup(t: Seq<(Seq<char>, Seq<char>)>, code: Seq<char>) -> Option<
    Seq<char>,
>
    decreases t.len(),
{
    if t.len() == 0 {
        Option::None
    } else if t.last().0 == code {
        Option::Some(t.last().1)
    } else {
        table_lookup(t.drop_last(), code)
    }
}

/// The display string of a reason code under a table; unmapped codes fall
/// back to the raw code behind a fixed prefix.
pub open spec fn reason_text(t: Seq<(Seq<char>, Seq<char>)>, code: Seq<char>) -> Seq<char> {
    match table_lookup(t, code) {
        Option::Some(v) => v,
        Option::None => "Code "@ + code,
    }
}

impl CodeTable {
    /// The empty table: every lookup falls back to the raw code.
    pub fn new() -> (r: Self)
        ensures
            r@ == Seq::<(Seq<char>, Seq<char>)>::empty(),
    {
        let r = CodeTable { entries: Vec::new() };
        proof {
            assert(r@ =~= Seq::<(Seq<char>, Seq<char>)>::empty());
        }
        r
    }

    /// Add one mapping; it overrides any earlier entry for the same code.
    pub fn add(&mut self, code: String, text: String)
        ensures
            final (self)@ == old(self)@.push((code@, text@)),
    {
        let ghost code_view = code@;
        let ghost text_view = text@;
        self.entries.push((code, text));
        proof {
            assert(final (self)@ =~= old(self)@.push((code_view, text_view)));
        }
    }

    /// The number of entries.
    pub fn len(&self) -> (r: usize)
        ensures
            r == self@.len(),
    {
        self.entries.len()
    }

    /// Look a code up: the last entry with that code wins.
    pub fn lookup(&self, code: &str) -> (r: Option<String>)
        ensures
            match r {
                Option::Some(v) => table_lookup(self@, code@) == Option::Some(v@),
                Option::None => table_lookup(self@, code@) is None,
            },
    {
        let n = self.entries.len();
        let mut found: Option<usize> = Option::None;
        let mut i: usize = 0;
        proof {
            assert(self@.take(0) =~= Seq::<(Seq<char>, Seq<char>)>::empty());
        }
        while i < n
            invariant
                n == self.entries@.len(),
                n == self@.len(),
                0 <= i <= n,
                forall|k: int| 0 <= k < n ==> self@[k] == (self.entries@[k].0@, self.entries@[k].1@),
                match found {
                    Option::Some(j) => j < i && self@[j as int].0 == code@ && table_lookup(
                        self@.take(i as int),
                        code@,
                    ) == Option::Some(self@[j as int].1),
                    Option::None => table_lookup(self@.take(i as int), code@) is None,
                },
            decreases n - i,
        {
            proof {
                assert(self@.take(i + 1).drop_last() =~= self@.take(i as int));
                assert(self@.take(i + 1).last() == self@[i as int]);
            }
            if str_eq(self.entries[i].0.as_str(), code) {
                found = Option::Some(i);
            }
            i += 1;
        }
        proof {
            assert(self@.take(n as int) =~= self@);
        }
        match found {
            Option::Some(j) => Option::Some(self.entries[j].1.clone()),
            Option::None => Option::None,
        }
    }
}

/// Map a reason code to its display string under a table.
pub fn map_reason(table: &CodeTable, code: &str) -> (r: String)
    ensures
        r@ == reason_text(table@, code@),
{
    match table.lookup(code) {
        Option::Some(v) => v,
        Option::None => String::from_str("Code ").concat(code),
    }
}

} // verus!
