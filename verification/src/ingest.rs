//! One ingestion pass: extract record fragments, decode them into events,
//! and correlate the events into transactions.

use vstd::prelude::*;
use crate::codes::CodeTable;
use crate::correlate::{correlate, correlate_models};
use crate::decode::{decode_model, decode_record, opt_event_view};
use crate::extract::{extract_records, extracted_records, frag_views};
use crate::transaction::{event_models, req_models, Event, EventModel, RadiusRequest, ReqModel};

verus! {

/// The events decoded from a sequence of fragments, in order; fragments
/// that fail to decode are dropped.
pub open spec fn decoded_events(frags: Seq<Seq<char>>) -> Seq<EventModel>
    decreases frags.len(),
{
    if frags.len() == 0 {
        Seq::empty()
    } else {
        decoded_events(frags.drop_last()) + (match decode_model(frags.last()) {
            Option::Some(e) => seq![e],
            Option::None => Seq::empty(),
        })
    }
}

/// What a whole ingestion pass produces from raw source text: one
/// transaction per correlation group of the decoded events.
pub open spec fn pipeline_models(content: Seq<char>, t: Seq<(Seq<char>, Seq<char>)>) -> Seq<
    ReqModel,
> {
    correlate_models(t, decoded_events(extracted_records(content)))
}

/// Parse one source's full text: extract every record fragment, decode the
/// fragments into events, and correlate the events into transactions.
/// Returns the transactions and the raw count of extracted records.
/// Extraction and decoding are fail-soft; a batch with zero records is a
/// successful ingestion of zero transactions.
pub fn parse_full_logic(content: &str, table: &CodeTable) -> (r: (Vec<RadiusRequest>, usize))
    ensures
        req_models(r.0@) == pipeline_models(content@, table@),
        r.1 == extracted_records(content@).len(),
{
    let frags = extract_records(content);
    let raw = frags.len();
    let ghost fviews = frag_views(frags@);
    let mut events: Vec<Event> = Vec::new();
    let n = frags.len();
    let mut i: usize = 0;
    proof {
        assert(fviews.take(0) =~= Seq::<Seq<char>>::empty());
        assert(event_models(events@) =~= decoded_events(fviews.take(0)));
    }
    while i < n
        invariant
            n == frags@.len(),
            fviews == frag_views(frags@),
            fviews.len() == n,
            0 <= i <= n,
            event_models(events@) == decoded_events(fviews.take(i as int)),
        decreases n - i,
    {
        proof {
            assert(fviews[i as int] == frags@[i as int]@);
            assert(fviews.take(i + 1).drop_last() =~= fviews.take(i as int));
            assert(fviews.take(i + 1).last() == fviews[i as int]);
        }
        if let Option::Some(e) = decode_record(frags[i].as_str()) {
            let ghost before = events@;
            events.push(e);
            proof {
                assert(event_models(events@) =~= event_models(before).push(e@));
                assert(decoded_events(fviews.take(i + 1)) =~= decoded_events(
                    fviews.take(i as int),
                ).push(e@));
            }
        } else {
            proof {
                assert(decoded_events(fviews.take(i + 1)) =~= decoded_events(
                    fviews.take(i as int),
                ));
            }
        }
        i += 1;
    }
    proof {
        assert(fviews.take(n as int) =~= fviews);
    }
    let reqs = correlate(table, events);
    (reqs, raw)
}

} // verus!
