//! The correlator: groups decoded events by their correlation key and folds
//! each group into one transaction.

use vstd::prelude::*;
use crate::codes::{
    highlight_of_code, is_request_code, is_request_type, map_packet_type, map_reason,
    packet_type_name, reason_text, CodeTable,
};
use crate::text::str_eq;
use crate::transaction::{
    empty_req_model, event_models, opt_view, Event, EventModel, RadiusRequest, ReqModel,
};

verus! {

/// The key under which an event's session falls back when the class is
/// absent or empty.
pub open spec fn session_key(e: EventModel) -> Option<Seq<char>> {
    match e.acct_session_id {
        Option::Some(s) => if s.len() > 0 {
            Option::Some(s)
        } else {
            Option::None
        },
        Option::None => Option::None,
    }
}

/// The correlation key of an event: its class code if non-empty, else its
/// session id if non-empty, else none (the event forms its own group).
pub open spec fn event_key(e: EventModel) -> Option<Seq<char>> {
    match e.class {
        Option::Some(c) => if c.len() > 0 {
            Option::Some(c)
        } else {
            session_key(e)
        },
        Option::None => session_key(e),
    }
}

/// The packet-type code of an event, empty when absent.
pub open spec fn packet_code(e: EventModel) -> Seq<char> {
    match e.packet_type {
        Option::Some(p) => p,
        Option::None => Seq::empty(),
    }
}

/// The reason code of a response event, defaulting to the success code "0"
/// when absent.
pub open spec fn reason_code_of(e: EventModel) -> Seq<char> {
    match e.reason_code {
        Option::Some(c) => c,
        Option::None => "0"@,
    }
}

/// An optional field overwrites the current value only when present.
pub open spec fn upd(o: Option<Seq<char>>, cur: Seq<char>) -> Seq<char> {
    match o {
        Option::Some(v) => v,
        Option::None => cur,
    }
}

/// Folding one event into the transaction built so far.
///
/// A request event copies its identity fields, preferring the friendly
/// client name over the NAS identifier and the SAM account over the user
/// name. A response event overwrites response type and reason unless a
/// non-empty reason has been recorded and the new event carries only the
/// default reason code "0"; accept and reject responses set the highlight.
pub open spec fn fold_step(t: Seq<(Seq<char>, Seq<char>)>, m: ReqModel, e: EventModel) -> ReqModel {
    let p = packet_code(e);
    if is_request_code(p) {
        ReqModel {
            timestamp: upd(e.timestamp, m.timestamp),
            session_id: upd(e.acct_session_id, m.session_id),
            server: upd(e.server, m.server),
            ap_ip: upd(e.ap_ip, m.ap_ip),
            ap_name: match e.client_friendly_name {
                Option::Some(v) => v,
                Option::None => upd(e.ap_name, m.ap_name),
            },
            mac: upd(e.mac, m.mac),
            class_id: upd(e.class, m.class_id),
            req_type: packet_type_name(p),
            user: match e.sam_account {
                Option::Some(u) => u,
                Option::None => match e.user_name {
                    Option::Some(u) => u,
                    Option::None => "Unknown User"@,
                },
            },
            resp_type: m.resp_type,
            reason: m.reason,
            highlight: m.highlight,
        }
    } else {
        let code = reason_code_of(e);
        let overwrite = m.reason.len() == 0 || code != "0"@;
        ReqModel {
            resp_type: if overwrite {
                packet_type_name(p)
            } else {
                m.resp_type
            },
            reason: if overwrite {
                reason_text(t, code)
            } else {
                m.reason
            },
            highlight: highlight_of_code(p, m.highlight),
            timestamp: m.timestamp,
            session_id: m.session_id,
            server: m.server,
            ap_ip: m.ap_ip,
            ap_name: m.ap_name,
            mac: m.mac,
            class_id: m.class_id,
            req_type: m.req_type,
            user: m.user,
        }
    }
}

/// Folding a whole group, left to right, starting from the empty
/// transaction.
pub open spec fn fold_events(t: Seq<(Seq<char>, Seq<char>)>, g: Seq<EventModel>) -> ReqModel
    decreases g.len(),
{
    if g.len() == 0 {
        empty_req_model()
    } else {
        fold_step(t, fold_events(t, g.drop_last()), g.last())
    }
}

/// Whether a group holds at least one request event.
pub open spec fn has_request(g: Seq<EventModel>) -> bool {
    exists|i: int| 0 <= i < g.len() && is_request_code(packet_code(g[i]))
}

/// The transaction of one group: the fold, with the correlation class
/// falling back to the first event's class when no request was present, and
/// a display type the fold left empty — the request type of a group without
/// a request, the response type of a group without a response — defaulting
/// to the mapped display string of the first event's packet-type code, so
/// that a folded transaction always carries non-empty display types.
pub open spec fn group_transaction(t: Seq<(Seq<char>, Seq<char>)>, g: Seq<EventModel>) -> ReqModel {
    let m = fold_events(t, g);
    if g.len() == 0 {
        m
    } else {
        ReqModel {
            class_id: if !has_request(g) {
                upd(g[0].class, Seq::empty())
            } else {
                m.class_id
            },
            req_type: if m.req_type.len() == 0 {
                packet_type_name(packet_code(g[0]))
            } else {
                m.req_type
            },
            resp_type: if m.resp_type.len() == 0 {
                packet_type_name(packet_code(g[0]))
            } else {
                m.resp_type
            },
            ..m
        }
    }
}

/// Fold one group of events into a transaction.
pub fn process_group(table: &CodeTable, group: &Vec<Event>) -> (r: RadiusRequest)
    ensures
        r@ == group_transaction(table@, event_models(group@)),
{
    let ghost g = event_models(group@);
    let mut req = RadiusRequest::default();
    let mut has_req = false;
    let n = group.len();
    let mut i: usize = 0;
    while i < n
        invariant
            n == group@.len(),
            g == event_models(group@),
            g.len() == n,
            0 <= i <= n,
            req@ == fold_events(table@, g.take(i as int)),
            has_req == has_request(g.take(i as int)),
        decreases n - i,
    {
        let e = &group[i];
        proof {
            assert(g[i as int] == group@[i as int]@);
            assert(g.take(i + 1).drop_last() =~= g.take(i as int));
            assert(g.take(i + 1).last() == g[i as int]);
        }
        let p: &str = match &e.packet_type {
            Option::Some(s) => s.as_str(),
            Option::None => "",
        };
        proof {
            reveal_strlit("");
            assert(p@ =~= packet_code(g[i as int]));
        }
        if is_request_type(p) {
            if let Option::Some(val) = &e.timestamp {
                req.timestamp = val.clone();
            }
            if let Option::Some(val) = &e.acct_session_id {
                req.session_id = val.clone();
            }
            if let Option::Some(val) = &e.server {
                req.server = val.clone();
            }
            if let Option::Some(val) = &e.ap_ip {
                req.ap_ip = val.clone();
            }
            if let Option::Some(val) = &e.client_friendly_name {
                req.ap_name = val.clone();
            } else if let Option::Some(val) = &e.ap_name {
                req.ap_name = val.clone();
            }
            if let Option::Some(val) = &e.mac {
                req.mac = val.clone();
            }
            if let Option::Some(val) = &e.class {
                req.class_id = val.clone();
            }
            req.req_type = map_packet_type(p);
            if let Option::Some(user) = &e.sam_account {
                req.user = user.clone();
            } else if let Option::Some(user) = &e.user_name {
                req.user = user.clone();
            } else {
                req.user = String::from_str("Unknown User");
            }
            has_req = true;
            proof {
                assert(is_request_code(packet_code(g[i as int])));
                assert(has_request(g.take(i + 1)));
                assert(req@ =~= fold_step(table@, fold_events(table@, g.take(i as int)), g[i as int]));
            }
        } else {
            let code: &str = match &e.reason_code {
                Option::Some(c) => c.as_str(),
                Option::None => "0",
            };
            proof {
                assert(code@ =~= reason_code_of(g[i as int]));
            }
            if req.reason.as_str().is_empty() || !str_eq(code, "0") {
                req.resp_type = map_packet_type(p);
                req.reason = map_reason(table, code);
            }
            if str_eq(p, "2") {
                req.highlight = crate::transaction::Highlight::Success;
            } else if str_eq(p, "3") {
                req.highlight = crate::transaction::Highlight::Failure;
            }
            proof {
                assert(!is_request_code(packet_code(g[i as int])));
                assert(has_request(g.take(i + 1)) == has_request(g.take(i as int))) by {
                    assert(forall|k: int| 0 <= k < i + 1 && is_request_code(
                        packet_code(g.take(i + 1)[k]),
                    ) ==> k < i && is_request_code(packet_code(g.take(i as int)[k])));
                }
                assert(req@ =~= fold_step(table@, fold_events(table@, g.take(i as int)), g[i as int]));
            }
        }
        i += 1;
    }
    proof {
        assert(g.take(n as int) =~= g);
    }
    if n > 0 {
        proof {
            assert(g[0] == group@[0]@);
        }
        if !has_req {
            if let Option::Some(c) = &group[0].class {
                req.class_id = c.clone();
            } else {
                req.class_id = String::new();
            }
        }
        let p0: &str = match &group[0].packet_type {
            Option::Some(s) => s.as_str(),
            Option::None => "",
        };
        proof {
            reveal_strlit("");
            assert(p0@ =~= packet_code(g[0]));
        }
        if req.req_type.as_str().is_empty() {
            req.req_type = map_packet_type(p0);
        }
        if req.resp_type.as_str().is_empty() {
            req.resp_type = map_packet_type(p0);
        }
        proof {
            assert(req@ =~= group_transaction(table@, g));
        }
    }
    req
}

/// The display-type invariant: every transaction folded from a non-empty
/// group carries a non-empty request type and a non-empty response type;
/// unmapped packet-type codes default to their raw-code display string.
pub proof fn lemma_display_types_nonempty(t: Seq<(Seq<char>, Seq<char>)>, g: Seq<EventModel>)
    requires
        g.len() > 0,
    ensures
        group_transaction(t, g).req_type.len() > 0,
        group_transaction(t, g).resp_type.len() > 0,
{
    crate::codes::lemma_packet_type_name_nonempty(packet_code(g[0]));
}

/// A keyed group as the correlator builds it: its key and its events.
pub type GroupModel = (Option<Seq<char>>, Seq<EventModel>);

/// The index of the first group carrying the given key, if any.
pub open spec fn find_group(gs: Seq<GroupModel>, k: Seq<char>) -> Option<int>
    decreases gs.len(),
{
    if gs.len() == 0 {
        Option::None
    } else if gs[0].0 == Option::Some(k) {
        Option::Some(0)
    } else {
        match find_group(gs.drop_first(), k) {
            Option::None => Option::None,
            Option::Some(i) => Option::Some(i + 1),
        }
    }
}

/// Whether some group carries the given key.
pub open spec fn has_key(gs: Seq<GroupModel>, k: Seq<char>) -> bool {
    exists|j: int| 0 <= j < gs.len() && gs[j].0 == Option::Some(k)
}

/// `find_group` finds the first group with the key, and only then.
pub proof fn lemma_find_group(gs: Seq<GroupModel>, k: Seq<char>)
    ensures
        find_group(gs, k) is None <==> !has_key(gs, k),
        find_group(gs, k) matches Option::Some(j) ==> 0 <= j < gs.len() && gs[j].0
            == Option::Some(k) && (forall|j2: int| 0 <= j2 < j ==> gs[j2].0 != Option::Some(k)),
    decreases gs.len(),
{
    if gs.len() > 0 {
        lemma_find_group(gs.drop_first(), k);
        if gs[0].0 != Option::Some(k) {
            assert(forall|j: int| 1 <= j < gs.len() ==> gs.drop_first()[j - 1] == gs[j]);
            if has_key(gs, k) {
                let j = choose|j: int| 0 <= j < gs.len() && gs[j].0 == Option::Some(k);
                assert(gs.drop_first()[j - 1].0 == Option::Some(k));
            }
        }
    }
}

/// Adding one event to a group list: a keyless event forms a fresh singleton
/// group, a keyed event joins the first group with its key or opens a new
/// one at the end.
pub open spec fn add_event(gs: Seq<GroupModel>, e: EventModel) -> Seq<GroupModel> {
    match event_key(e) {
        Option::None => gs.push((Option::None, seq![e])),
        Option::Some(k) => match find_group(gs, k) {
            Option::None => gs.push((Option::Some(k), seq![e])),
            Option::Some(i) => gs.update(i, (gs[i].0, gs[i].1.push(e))),
        },
    }
}

/// The groups of a whole event sequence, in first-seen key order.
pub open spec fn groups_of(es: Seq<EventModel>) -> Seq<GroupModel>
    decreases es.len(),
{
    if es.len() == 0 {
        Seq::empty()
    } else {
        add_event(groups_of(es.drop_last()), es.last())
    }
}

/// The transactions of a whole event sequence: one per group.
pub open spec fn correlate_models(t: Seq<(Seq<char>, Seq<char>)>, es: Seq<EventModel>) -> Seq<
    ReqModel,
> {
    groups_of(es).map_values(|g: GroupModel| group_transaction(t, g.1))
}

/// The correlation key of one event.
fn event_key_exec(e: &Event) -> (k: Option<String>)
    ensures
        opt_view(k) == event_key(e@),
{
    if let Option::Some(c) = &e.class {
        if !c.as_str().is_empty() {
            return Option::Some(c.clone());
        }
    }
    if let Option::Some(s) = &e.acct_session_id {
        if !s.as_str().is_empty() {
            return Option::Some(s.clone());
        }
    }
    Option::None
}

/// The model of the group vectors the correlator maintains.
pub open spec fn groups_model(keys: Seq<Option<String>>, groups: Seq<Vec<Event>>) -> Seq<
    GroupModel,
> {
    Seq::new(keys.len(), |i: int| (opt_view(keys[i]), event_models(groups[i]@)))
}

/// Group a batch of events by correlation key, preserving first-seen key
/// order, then fold every group into its transaction.
pub fn correlate(table: &CodeTable, events: Vec<Event>) -> (out: Vec<RadiusRequest>)
    ensures
        crate::transaction::req_models(out@) == correlate_models(table@, event_models(events@)),
{
    let ghost es = event_models(events@);
    let mut events = events;
    let mut keys: Vec<Option<String>> = Vec::new();
    let mut groups: Vec<Vec<Event>> = Vec::new();
    let ghost total = es.len();
    let initial_len = events.len();
    proof {
        assert(total == initial_len);
    }
    let mut done: usize = 0;
    proof {
        assert(es.take(0) =~= Seq::<EventModel>::empty());
        assert(groups_model(keys@, groups@) =~= groups_of(es.take(0)));
        assert(event_models(events@) =~= es.skip(0));
    }
    while events.len() > 0
        invariant
            es.len() == total,
            total <= usize::MAX,
            done + events@.len() == total,
            event_models(events@) =~= es.skip(done as int),
            keys@.len() == groups@.len(),
            groups_model(keys@, groups@) == groups_of(es.take(done as int)),
        decreases events@.len(),
    {
        let ghost before = events@;
        proof {
            assert(event_models(before)[0] == es[done as int]);
        }
        let e = events.remove(0);
        let ghost em = es[done as int];
        proof {
            assert(e == before[0]);
            assert(e@ == em);
            assert(events@ =~= before.subrange(1, before.len() as int));
            assert forall|x: int| 0 <= x < events@.len() implies event_models(events@)[x]
                == es.skip(done + 1)[x] by {
                assert(events@[x] == before[x + 1]);
                assert(event_models(before)[x + 1] == es.skip(done as int)[x + 1]);
            }
            assert(event_models(events@) =~= es.skip(done + 1));
            assert(es.take(done + 1).drop_last() =~= es.take(done as int));
            assert(es.take(done + 1).last() == em);
        }
        let key = event_key_exec(&e);
        match key {
            Option::None => {
                let mut fresh: Vec<Event> = Vec::new();
                fresh.push(e);
                groups.push(fresh);
                keys.push(Option::None);
                proof {
                    assert(event_models(fresh@) =~= seq![em]);
                    assert(groups_model(keys@, groups@) =~= groups_of(es.take(done as int)).push(
                        (Option::None, seq![em]),
                    ));
                    assert(groups_model(keys@, groups@) =~= groups_of(es.take(done + 1)));
                }
            },
            Option::Some(k) => {
                let ghost kv = k@;
                let ghost gs = groups_model(keys@, groups@);
                let n = keys.len();
                let mut j: usize = 0;
                let mut found: Option<usize> = Option::None;
                while j < n && found.is_none()
                    invariant
                        n == keys@.len(),
                        keys@.len() == groups@.len(),
                        gs == groups_model(keys@, groups@),
                        gs.len() == n,
                        kv == k@,
                        0 <= j <= n,
                        match found {
                            Option::Some(f) => f < n && j == f + 1 && gs[f as int].0
                                == Option::Some(kv) && (forall|j2: int|
                                0 <= j2 < f ==> gs[j2].0 != Option::Some(kv)),
                            Option::None => forall|j2: int|
                                0 <= j2 < j ==> gs[j2].0 != Option::Some(kv),
                        },
                    decreases n - j,
                {
                    let hit = match &keys[j] {
                        Option::Some(kj) => str_eq(kj.as_str(), k.as_str()),
                        Option::None => false,
                    };
                    proof {
                        assert(gs[j as int].0 == opt_view(keys@[j as int]));
                    }
                    if hit {
                        found = Option::Some(j);
                    }
                    j += 1;
                }
                proof {
                    lemma_find_group(gs, kv);
                }
                match found {
                    Option::Some(f) => {
                        proof {
                            assert(has_key(gs, kv));
                            assert(find_group(gs, kv) == Option::Some(f as int)) by {
                                match find_group(gs, kv) {
                                    Option::None => {
                                        assert(!has_key(gs, kv));
                                    },
                                    Option::Some(fg) => {
                                        if fg < f {
                                            assert(gs[fg].0 != Option::Some(kv));
                                        }
                                        if fg > f {
                                            assert(gs[f as int].0 != Option::Some(kv));
                                        }
                                    },
                                }
                            }
                        }
                        let ghost groups_before = groups@;
                        let mut grp = groups.remove(f);
                        grp.push(e);
                        groups.insert(f, grp);
                        proof {
                            assert forall|x: int| 0 <= x < groups@.len() && x != f implies groups@[x]
                                == groups_before[x] by {
                                assert(groups_before.remove(f as int).insert(
                                    f as int,
                                    groups@[f as int],
                                ) =~= groups@);
                            }
                            assert(event_models(groups@[f as int]@) =~= event_models(
                                groups_before[f as int]@,
                            ).push(em));
                            assert(groups_model(keys@, groups@) =~= gs.update(
                                f as int,
                                (gs[f as int].0, gs[f as int].1.push(em)),
                            ));
                            assert(groups_model(keys@, groups@) =~= groups_of(es.take(done + 1)));
                        }
                    },
                    Option::None => {
                        proof {
                            assert(!has_key(gs, kv));
                        }
                        let mut fresh: Vec<Event> = Vec::new();
                        fresh.push(e);
                        groups.push(fresh);
                        keys.push(Option::Some(k));
                        proof {
                            assert(event_models(fresh@) =~= seq![em]);
                            assert(groups_model(keys@, groups@) =~= gs.push(
                                (Option::Some(kv), seq![em]),
                            ));
                            assert(groups_model(keys@, groups@) =~= groups_of(es.take(done + 1)));
                        }
                    },
                }
            },
        }
        done += 1;
    }
    proof {
        assert(es.take(total as int) =~= es);
    }
    let mut out: Vec<RadiusRequest> = Vec::new();
    let ghost gs = groups_model(keys@, groups@);
    let m = groups.len();
    let mut i: usize = 0;
    while i < m
        invariant
            m == groups@.len(),
            keys@.len() == groups@.len(),
            gs == groups_model(keys@, groups@),
            gs == groups_of(es),
            0 <= i <= m,
            out@.len() == i,
            forall|p: int| 0 <= p < i ==> out@[p]@ == group_transaction(table@, gs[p].1),
        decreases m - i,
    {
        let r = process_group(table, &groups[i]);
        proof {
            assert(gs[i as int].1 == event_models(groups@[i as int]@));
        }
        out.push(r);
        i += 1;
    }
    proof {
        assert(crate::transaction::req_models(out@) =~= correlate_models(table@, es));
    }
    out
}

/// Every group the correlator builds holds at least one event.
proof fn lemma_groups_nonempty(es: Seq<EventModel>)
    ensures
        forall|j: int| 0 <= j < groups_of(es).len() ==> #[trigger] groups_of(es)[j].1.len() > 0,
    decreases es.len(),
{
    if es.len() > 0 {
        let rest = es.drop_last();
        let e = es.last();
        let gs = groups_of(rest);
        lemma_groups_nonempty(rest);
        let gnew = add_event(gs, e);
        assert(groups_of(es) == gnew);
        if event_key(e) is Some {
            lemma_find_group(gs, event_key(e)->0);
        }
        assert forall|j: int| 0 <= j < gnew.len() implies #[trigger] gnew[j].1.len() > 0 by {
            match event_key(e) {
                Option::None => {
                    if j < gs.len() {
                        assert(gnew[j] == gs[j]);
                    } else {
                        assert(gnew[j].1 == seq![e]);
                    }
                },
                Option::Some(k) => {
                    match find_group(gs, k) {
                        Option::Some(i) => {
                            if j != i {
                                assert(gnew[j] == gs[j]);
                            } else {
                                assert(gnew[j].1 == gs[i].1.push(e));
                            }
                        },
                        Option::None => {
                            if j < gs.len() {
                                assert(gnew[j] == gs[j]);
                            } else {
                                assert(gnew[j].1 == seq![e]);
                            }
                        },
                    }
                },
            }
        }
    }
}

/// The transaction invariant over a whole correlated batch: every
/// transaction carries non-empty request and response display types.
pub proof fn lemma_correlate_display_types(t: Seq<(Seq<char>, Seq<char>)>, es: Seq<EventModel>)
    ensures
        forall|i: int|
            0 <= i < correlate_models(t, es).len() ==> #[trigger] correlate_models(t, es)[i].req_type.len()
                > 0 && correlate_models(t, es)[i].resp_type.len() > 0,
{
    lemma_groups_nonempty(es);
    assert forall|i: int|
        0 <= i < correlate_models(t, es).len() implies #[trigger] correlate_models(t, es)[i].req_type.len()
        > 0 && correlate_models(t, es)[i].resp_type.len() > 0 by {
        assert(correlate_models(t, es)[i] == group_transaction(t, groups_of(es)[i].1));
        lemma_display_types_nonempty(t, groups_of(es)[i].1);
    }
}

/// How many events carry no correlation key; each forms its own group.
pub open spec fn keyless_count(es: Seq<EventModel>) -> nat
    decreases es.len(),
{
    if es.len() == 0 {
        0
    } else {
        keyless_count(es.drop_last()) + if event_key(es.last()) is None {
            1nat
        } else {
            0nat
        }
    }
}

/// Whether some event in the sequence carries the given key.
pub open spec fn seen_key(es: Seq<EventModel>, k: Seq<char>) -> bool {
    exists|i: int| 0 <= i < es.len() && event_key(es[i]) == Option::Some(k)
}

/// How many distinct correlation keys occur among the events.
pub open spec fn distinct_key_count(es: Seq<EventModel>) -> nat
    decreases es.len(),
{
    if es.len() == 0 {
        0
    } else {
        distinct_key_count(es.drop_last()) + (match event_key(es.last()) {
            Option::None => 0nat,
            Option::Some(k) => if seen_key(es.drop_last(), k) {
                0nat
            } else {
                1nat
            },
        })
    }
}

/// The groups carry exactly the keys seen among the events.
proof fn lemma_group_keys(es: Seq<EventModel>)
    ensures
        forall|k: Seq<char>| has_key(groups_of(es), k) <==> seen_key(es, k),
    decreases es.len(),
{
    if es.len() > 0 {
        let rest = es.drop_last();
        let e = es.last();
        let gs = groups_of(rest);
        lemma_group_keys(rest);
        assert forall|k: Seq<char>| has_key(groups_of(es), k) <==> seen_key(es, k) by {
            assert(seen_key(es, k) <==> (seen_key(rest, k) || event_key(e) == Option::Some(
                k,
            ))) by {
                if seen_key(es, k) {
                    let i = choose|i: int|
                        0 <= i < es.len() && event_key(es[i]) == Option::Some(k);
                    if i < rest.len() {
                        assert(rest[i] == es[i]);
                        assert(seen_key(rest, k));
                    }
                }
                if seen_key(rest, k) {
                    let i = choose|i: int|
                        0 <= i < rest.len() && event_key(rest[i]) == Option::Some(k);
                    assert(es[i] == rest[i]);
                }
                if event_key(e) == Option::Some(k) {
                    assert(event_key(es[es.len() - 1]) == Option::Some(k));
                }
            }
            match event_key(e) {
                Option::None => {
                    let pushed = gs.push((Option::None, seq![e]));
                    assert(has_key(pushed, k) <==> has_key(gs, k)) by {
                        if has_key(pushed, k) {
                            let j = choose|j: int|
                                0 <= j < pushed.len() && pushed[j].0 == Option::Some(k);
                            assert(j < gs.len());
                        }
                        if has_key(gs, k) {
                            let j = choose|j: int|
                                0 <= j < gs.len() && gs[j].0 == Option::Some(k);
                            assert(pushed[j].0 == Option::Some(k));
                        }
                    }
                },
                Option::Some(k0) => {
                    lemma_find_group(gs, k0);
                    match find_group(gs, k0) {
                        Option::Some(i) => {
                            let upd_gs = gs.update(i, (gs[i].0, gs[i].1.push(e)));
                            assert(gs[i].0 == Option::Some(k0));
                            assert(has_key(upd_gs, k) <==> has_key(gs, k)) by {
                                if has_key(upd_gs, k) {
                                    let j = choose|j: int|
                                        0 <= j < upd_gs.len() && upd_gs[j].0 == Option::Some(k);
                                    assert(gs[j].0 == Option::Some(k));
                                }
                                if has_key(gs, k) {
                                    let j = choose|j: int|
                                        0 <= j < gs.len() && gs[j].0 == Option::Some(k);
                                    assert(upd_gs[j].0 == Option::Some(k));
                                }
                            }
                            assert(has_key(gs, k0));
                        },
                        Option::None => {
                            let pushed = gs.push((Option::Some(k0), seq![e]));
                            assert(has_key(pushed, k) <==> (has_key(gs, k) || k == k0)) by {
                                if has_key(pushed, k) {
                                    let j = choose|j: int|
                                        0 <= j < pushed.len() && pushed[j].0 == Option::Some(k);
                                    if j < gs.len() {
                                        assert(has_key(gs, k));
                                    }
                                }
                                if has_key(gs, k) {
                                    let j = choose|j: int|
                                        0 <= j < gs.len() && gs[j].0 == Option::Some(k);
                                    assert(pushed[j].0 == Option::Some(k));
                                }
                                if k == k0 {
                                    assert(pushed[gs.len() as int].0 == Option::Some(k));
                                }
                            }
                        },
                    }
                },
            }
        }
    }
}

/// The number of groups — and so of transactions — equals the number of
/// distinct correlation keys plus the number of keyless events.
pub proof fn lemma_transaction_count(es: Seq<EventModel>)
    ensures
        groups_of(es).len() == distinct_key_count(es) + keyless_count(es),
    decreases es.len(),
{
    if es.len() > 0 {
        let rest = es.drop_last();
        let e = es.last();
        let gs = groups_of(rest);
        lemma_transaction_count(rest);
        lemma_group_keys(rest);
        match event_key(e) {
            Option::None => {
            },
            Option::Some(k) => {
                lemma_find_group(gs, k);
                if seen_key(rest, k) {
                    assert(has_key(gs, k));
                    assert(find_group(gs, k) is Some);
                } else {
                    assert(!has_key(gs, k));
                }
            },
        }
    }
}

/// One transaction per group: the correlated output has exactly as many
/// transactions as there are distinct correlation keys plus keyless events.
pub proof fn lemma_correlate_count(t: Seq<(Seq<char>, Seq<char>)>, es: Seq<EventModel>)
    ensures
        correlate_models(t, es).len() == distinct_key_count(es) + keyless_count(es),
{
    lemma_transaction_count(es);
}

/// A response carrying a real (non-default) reason code always records its
/// reason and response type.
pub proof fn lemma_nondefault_overwrites(
    t: Seq<(Seq<char>, Seq<char>)>,
    m: ReqModel,
    e: EventModel,
)
    requires
        !is_request_code(packet_code(e)),
        reason_code_of(e) != "0"@,
    ensures
        fold_step(t, m, e).reason == reason_text(t, reason_code_of(e)),
        fold_step(t, m, e).resp_type == packet_type_name(packet_code(e)),
{
}

/// A default success notice never erases a recorded non-empty reason.
pub proof fn lemma_default_preserves(t: Seq<(Seq<char>, Seq<char>)>, m: ReqModel, e: EventModel)
    requires
        m.reason.len() > 0,
        !is_request_code(packet_code(e)),
        reason_code_of(e) == "0"@,
    ensures
        fold_step(t, m, e).reason == m.reason,
        fold_step(t, m, e).resp_type == m.resp_type,
{
}

/// Once a non-empty reason is recorded, later request events and later
/// responses carrying only the default reason code leave it in place.
pub proof fn lemma_reason_preserved(t: Seq<(Seq<char>, Seq<char>)>, g: Seq<EventModel>, i: int)
    requires
        0 <= i <= g.len(),
        fold_events(t, g.take(i)).reason.len() > 0,
        forall|j: int|
            i <= j < g.len() ==> is_request_code(packet_code(g[j])) || reason_code_of(g[j])
                == "0"@,
    ensures
        fold_events(t, g).reason == fold_events(t, g.take(i)).reason,
    decreases g.len() - i,
{
    if i == g.len() {
        assert(g.take(i) =~= g);
    } else {
        assert(g.take(i + 1).drop_last() =~= g.take(i));
        assert(g.take(i + 1).last() == g[i]);
        lemma_reason_preserved(t, g, i + 1);
    }
}

/// The reason-overwrite rule: when one response in a group carries a real
/// reason code whose display string is non-empty, and every later event is a
/// request or a response carrying only the default code "0", the group's
/// transaction shows that real reason — the default never erases it.
pub proof fn lemma_reason_overwrite_rule(t: Seq<(Seq<char>, Seq<char>)>, g: Seq<EventModel>, i: int)
    requires
        0 <= i < g.len(),
        !is_request_code(packet_code(g[i])),
        reason_code_of(g[i]) != "0"@,
        reason_text(t, reason_code_of(g[i])).len() > 0,
        forall|j: int|
            i < j < g.len() ==> is_request_code(packet_code(g[j])) || reason_code_of(g[j])
                == "0"@,
    ensures
        group_transaction(t, g).reason == reason_text(t, reason_code_of(g[i])),
{
    assert(g.take(i + 1).drop_last() =~= g.take(i));
    assert(g.take(i + 1).last() == g[i]);
    lemma_nondefault_overwrites(t, fold_events(t, g.take(i)), g[i]);
    lemma_reason_preserved(t, g, i + 1);
}

} // verus!
