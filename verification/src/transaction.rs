//! The data model: decoded log events, correlated transactions, display
//! columns, and the highlight category derived from response packet types.

use vstd::prelude::*;
use vstd::string::StringExecFns;
use crate::text::{contains_seq, lower};

verus! {

/// One raw decoded log record, before correlation. Every field is optional:
/// extraction is best effort and absent elements simply stay absent.
pub struct Event {
    pub timestamp: Option<String>,
    pub packet_type: Option<String>,
    pub class: Option<String>,
    pub acct_session_id: Option<String>,
    pub server: Option<String>,
    pub ap_ip: Option<String>,
    pub ap_name: Option<String>,
    pub client_friendly_name: Option<String>,
    pub mac: Option<String>,
    pub user_name: Option<String>,
    pub sam_account: Option<String>,
    pub reason_code: Option<String>,
}

/// The mathematical model of an `Event`: each field as a character sequence.
pub ghost struct EventModel {
    pub timestamp: Option<Seq<char>>,
    pub packet_type: Option<Seq<char>>,
    pub class: Option<Seq<char>>,
    pub acct_session_id: Option<Seq<char>>,
    pub server: Option<Seq<char>>,
    pub ap_ip: Option<Seq<char>>,
    pub ap_name: Option<Seq<char>>,
    pub client_friendly_name: Option<Seq<char>>,
    pub mac: Option<Seq<char>>,
    pub user_name: Option<Seq<char>>,
    pub sam_account: Option<Seq<char>>,
    pub reason_code: Option<Seq<char>>,
}

/// The view of an optional string field.
pub open spec fn opt_view(o: Option<String>) -> Option<Seq<char>> {
    match o {
        Option::Some(s) => Option::Some(s@),
        Option::None => Option::None,
    }
}

impl View for Event {
    type V = EventModel;

    open spec fn view(&self) -> EventModel {
        EventModel {
            timestamp: opt_view(self.timestamp),
            packet_type: opt_view(self.packet_type),
            class: opt_view(self.class),
            acct_session_id: opt_view(self.acct_session_id),
            server: opt_view(self.server),
            ap_ip: opt_view(self.ap_ip),
            ap_name: opt_view(self.ap_name),
            client_friendly_name: opt_view(self.client_friendly_name),
            mac: opt_view(self.mac),
            user_name: opt_view(self.user_name),
            sam_account: opt_view(self.sam_account),
            reason_code: opt_view(self.reason_code),
        }
    }
}

/// The models of a sequence of events.
pub open spec fn event_models(es: Seq<Event>) -> Seq<EventModel> {
    es.map_values(|e: Event| e@)
}

/// The highlight category a response packet type gives its transaction.
#[derive(Clone, Copy, PartialEq, Eq, Structural, Debug)]
pub enum Highlight {
    Success,
    Failure,
    Normal,
}

/// One correlated request/response transaction.
pub struct RadiusRequest {
    pub timestamp: String,
    pub req_type: String,
    pub server: String,
    pub ap_ip: String,
    pub ap_name: String,
    pub mac: String,
    pub user: String,
    pub resp_type: String,
    pub reason: String,
    pub class_id: String,
    pub session_id: String,
    pub highlight: Highlight,
}

/// The mathematical model of a `RadiusRequest`.
pub ghost struct ReqModel {
    pub timestamp: Seq<char>,
    pub req_type: Seq<char>,
    pub server: Seq<char>,
    pub ap_ip: Seq<char>,
    pub ap_name: Seq<char>,
    pub mac: Seq<char>,
    pub user: Seq<char>,
    pub resp_type: Seq<char>,
    pub reason: Seq<char>,
    pub class_id: Seq<char>,
    pub session_id: Seq<char>,
    pub highlight: Highlight,
}

impl View for RadiusRequest {
    type V = ReqModel;

    open spec fn view(&self) -> ReqModel {
        ReqModel {
            timestamp: self.timestamp@,
            req_type: self.req_type@,
            server: self.server@,
            ap_ip: self.ap_ip@,
            ap_name: self.ap_name@,
            mac: self.mac@,
            user: self.user@,
            resp_type: self.resp_type@,
            reason: self.reason@,
            class_id: self.class_id@,
            session_id: self.session_id@,
            highlight: self.highlight,
        }
    }
}

/// The models of a sequence of transactions.
pub open spec fn req_models(rs: Seq<RadiusRequest>) -> Seq<ReqModel> {
    rs.map_values(|r: RadiusRequest| r@)
}

/// The model of the empty transaction every group fold starts from.
pub open spec fn empty_req_model() -> ReqModel {
    ReqModel {
        timestamp: Seq::empty(),
        req_type: Seq::empty(),
        server: Seq::empty(),
        ap_ip: Seq::empty(),
        ap_name: Seq::empty(),
        mac: Seq::empty(),
        user: Seq::empty(),
        resp_type: Seq::empty(),
        reason: Seq::empty(),
        class_id: Seq::empty(),
        session_id: Seq::empty(),
        highlight: Highlight::Normal,
    }
}

impl Default for RadiusRequest {
    /// The empty transaction: all fields empty, no highlight.
    fn default() -> (r: Self)
        ensures
            r@ == empty_req_model(),
    {
        RadiusRequest {
            timestamp: String::new(),
            req_type: String::new(),
            server: String::new(),
            ap_ip: String::new(),
            ap_name: String::new(),
            mac: String::new(),
            user: String::new(),
            resp_type: String::new(),
            reason: String::new(),
            class_id: String::new(),
            session_id: String::new(),
            highlight: Highlight::Normal,
        }
    }
}

/// The display columns of a transaction, in canonical order.
#[derive(Clone, Copy, PartialEq, Eq, Structural, Debug)]
pub enum LogColumn {
    Timestamp,
    Type,
    Server,
    ApIp,
    ApName,
    Mac,
    User,
    ResponseType,
    Reason,
    Session,
}

/// The canonical column order.
pub open spec fn all_columns() -> Seq<LogColumn> {
    seq![
        LogColumn::Timestamp,
        LogColumn::Type,
        LogColumn::Server,
        LogColumn::ApIp,
        LogColumn::ApName,
        LogColumn::Mac,
        LogColumn::User,
        LogColumn::ResponseType,
        LogColumn::Reason,
        LogColumn::Session,
    ]
}

/// The field of a transaction shown under a column.
pub open spec fn field_of(m: ReqModel, col: LogColumn) -> Seq<char> {
    match col {
        LogColumn::Timestamp => m.timestamp,
        LogColumn::Type => m.req_type,
        LogColumn::Server => m.server,
        LogColumn::ApIp => m.ap_ip,
        LogColumn::ApName => m.ap_name,
        LogColumn::Mac => m.mac,
        LogColumn::User => m.user,
        LogColumn::ResponseType => m.resp_type,
        LogColumn::Reason => m.reason,
        LogColumn::Session => m.session_id,
    }
}

impl LogColumn {
    /// All columns in canonical order.
    pub fn all() -> (r: Vec<LogColumn>)
        ensures
            r@ == all_columns(),
    {
        let v = vec![
            LogColumn::Timestamp,
            LogColumn::Type,
            LogColumn::Server,
            LogColumn::ApIp,
            LogColumn::ApName,
            LogColumn::Mac,
            LogColumn::User,
            LogColumn::ResponseType,
            LogColumn::Reason,
            LogColumn::Session,
        ];
        proof {
            assert(v@ =~= all_columns());
        }
        v
    }

    /// The localization key under which a column's header is looked up.
    pub fn ftl_key(self) -> (r: &'static str)
        ensures
            r@ == ftl_key_of(self),
    {
        match self {
            LogColumn::Timestamp => "col-timestamp",
            LogColumn::Type => "col-type",
            LogColumn::Server => "col-server",
            LogColumn::ApIp => "col-ap-ip",
            LogColumn::ApName => "col-ap-name",
            LogColumn::Mac => "col-mac",
            LogColumn::User => "col-user",
            LogColumn::ResponseType => "col-responsetype",
            LogColumn::Reason => "col-reason",
            LogColumn::Session => "col-session",
        }
    }
}

/// The localization key of each column.
pub open spec fn ftl_key_of(col: LogColumn) -> Seq<char> {
    match col {
        LogColumn::Timestamp => "col-timestamp"@,
        LogColumn::Type => "col-type"@,
        LogColumn::Server => "col-server"@,
        LogColumn::ApIp => "col-ap-ip"@,
        LogColumn::ApName => "col-ap-name"@,
        LogColumn::Mac => "col-mac"@,
        LogColumn::User => "col-user"@,
        LogColumn::ResponseType => "col-responsetype"@,
        LogColumn::Reason => "col-reason"@,
        LogColumn::Session => "col-session"@,
    }
}

/// Whether a transaction matches a free-text query: the empty query matches
/// everything, a non-empty one must occur, case-insensitively, in one of the
/// eight searched fields.
pub open spec fn req_matches(m: ReqModel, q: Seq<char>) -> bool {
    ||| q.len() == 0
    ||| contains_seq(lower(m.user), q)
    ||| contains_seq(lower(m.mac), q)
    ||| contains_seq(lower(m.ap_ip), q)
    ||| contains_seq(lower(m.ap_name), q)
    ||| contains_seq(lower(m.server), q)
    ||| contains_seq(lower(m.reason), q)
    ||| contains_seq(lower(m.req_type), q)
    ||| contains_seq(lower(m.resp_type), q)
}

/// The tab-separated export form of a transaction.
pub open spec fn tsv_of(m: ReqModel) -> Seq<char> {
    m.timestamp + "\t"@ + m.req_type + "\t"@ + m.server + "\t"@ + m.ap_ip + "\t"@ + m.ap_name
        + "\t"@ + m.mac + "\t"@ + m.user + "\t"@ + m.reason
}

impl RadiusRequest {
    /// Case-insensitive match of an already-lowercased query against the
    /// searched fields.
    pub fn matches(&self, query_lower: &str) -> (r: bool)
        ensures
            r == req_matches(self@, query_lower@),
    {
        if query_lower.is_empty() {
            return true;
        }
        crate::text::contains_ci(self.user.as_str(), query_lower) || crate::text::contains_ci(
            self.mac.as_str(),
            query_lower,
        ) || crate::text::contains_ci(self.ap_ip.as_str(), query_lower)
            || crate::text::contains_ci(self.ap_name.as_str(), query_lower)
            || crate::text::contains_ci(self.server.as_str(), query_lower)
            || crate::text::contains_ci(self.reason.as_str(), query_lower)
            || crate::text::contains_ci(self.req_type.as_str(), query_lower)
            || crate::text::contains_ci(self.resp_type.as_str(), query_lower)
    }

    /// The tab-separated export row of this transaction.
    pub fn to_tsv(&self) -> (r: String)
        ensures
            r@ == tsv_of(self@),
    {
        let r = self.timestamp.clone().concat("\t").concat(self.req_type.as_str()).concat(
            "\t",
        ).concat(self.server.as_str()).concat("\t").concat(self.ap_ip.as_str()).concat(
            "\t",
        ).concat(self.ap_name.as_str()).concat("\t").concat(self.mac.as_str()).concat(
            "\t",
        ).concat(self.user.as_str()).concat("\t").concat(self.reason.as_str());
        r
    }

    /// The text shown for this transaction under the given column.
    pub fn field_text(&self, col: LogColumn) -> (r: String)
        ensures
            r@ == field_of(self@, col),
    {
        match col {
            LogColumn::Timestamp => self.timestamp.clone(),
            LogColumn::Type => self.req_type.clone(),
            LogColumn::Server => self.server.clone(),
            LogColumn::ApIp => self.ap_ip.clone(),
            LogColumn::ApName => self.ap_name.clone(),
            LogColumn::Mac => self.mac.clone(),
            LogColumn::User => self.user.clone(),
            LogColumn::ResponseType => self.resp_type.clone(),
            LogColumn::Reason => self.reason.clone(),
            LogColumn::Session => self.session_id.clone(),
        }
    }
}

} // verus!
