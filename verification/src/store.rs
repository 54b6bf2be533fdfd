//! The transaction store: the authoritative ordered collection of
//! transactions plus the raw-record counter, mutated only by whole batches.

use vstd::prelude::*;
use crate::transaction::{field_of, req_models, LogColumn, RadiusRequest, ReqModel};

verus! {

/// The store. A finished ingestion batch either replaces its contents or
/// extends them; no partial batch is ever visible.
pub struct RequestStore {
    items: Vec<RadiusRequest>,
    raw_count: usize,
}

/// The model of a store: its transactions and its raw-record count.
pub ghost struct StoreModel {
    pub items: Seq<ReqModel>,
    pub raw_count: nat,
}

impl View for RequestStore {
    type V = StoreModel;

    closed spec fn view(&self) -> StoreModel {
        StoreModel { items: req_models(self.items@), raw_count: self.raw_count as nat }
    }
}

impl RequestStore {
    /// The empty store.
    pub fn new() -> (r: Self)
        ensures
            r@.items == Seq::<ReqModel>::empty(),
            r@.raw_count == 0,
    {
        let r = RequestStore { items: Vec::new(), raw_count: 0 };
        proof {
            assert(r@.items =~= Seq::<ReqModel>::empty());
        }
        r
    }

    /// The number of transactions held.
    pub fn len(&self) -> (r: usize)
        ensures
            r == self@.items.len(),
    {
        self.items.len()
    }

    /// The raw-record counter.
    pub fn raw_count(&self) -> (r: usize)
        ensures
            r == self@.raw_count,
    {
        self.raw_count
    }

    /// The transaction at a position.
    pub fn get(&self, i: usize) -> (r: &RadiusRequest)
        requires
            i < self@.items.len(),
        ensures
            r@ == self@.items[i as int],
    {
        &self.items[i]
    }

    /// All transactions, for a read snapshot.
    pub fn items(&self) -> (r: &Vec<RadiusRequest>)
        ensures
            req_models(r@) == self@.items,
    {
        &self.items
    }

    /// Apply one finished ingestion batch: replace the store's contents, or
    /// extend them when appending; the raw counter follows the same rule.
    pub fn apply_batch(&mut self, batch: Vec<RadiusRequest>, raw: usize, append: bool)
        requires
            append ==> old(self)@.raw_count + raw <= usize::MAX,
        ensures
            final (self)@.items == if append {
                old(self)@.items + req_models(batch@)
            } else {
                req_models(batch@)
            },
            final (self)@.raw_count == if append {
                old(self)@.raw_count + raw
            } else {
                raw as int
            },
    {
        let ghost batch_models = req_models(batch@);
        if append {
            let ghost before = self.items@;
            let mut batch = batch;
            self.items.append(&mut batch);
            self.raw_count = self.raw_count + raw;
            proof {
                assert(req_models(self.items@) =~= req_models(before) + batch_models);
            }
        } else {
            self.items = batch;
            self.raw_count = raw;
        }
    }

    /// The display text of one cell: the transaction picked by position
    /// `pos` of the index list, under the given column; nothing when the
    /// position or the index it holds is out of range.
    pub fn display_text(&self, ids: &Vec<usize>, pos: usize, col: LogColumn) -> (r: Option<
        String,
    >)
        ensures
            match r {
                Option::Some(text) => pos < ids@.len() && ids@[pos as int] < self@.items.len()
                    && text@ == field_of(self@.items[ids@[pos as int] as int], col),
                Option::None => pos >= ids@.len() || ids@[pos as int] >= self@.items.len(),
            },
    {
        if pos >= ids.len() {
            return Option::None;
        }
        let idx = ids[pos];
        if idx >= self.items.len() {
            return Option::None;
        }
        Option::Some(self.items[idx].field_text(col))
    }

    /// The position, in the index list, of the next highlighted transaction
    /// after `from` in the given direction, wrapping around once past either
    /// end; the scan visits each position once and `from` itself last.
    pub fn find_next_highlight(&self, ids: &Vec<usize>, from: usize, forward: bool) -> (r:
        Option<usize>)
        requires
            forall|p: int| 0 <= p < ids@.len() ==> ids@[p] < self@.items.len(),
            ids@.len() > 0 ==> from < ids@.len(),
        ensures
            match r {
                Option::Some(p) => {
                    &&& p < ids@.len()
                    &&& self@.items[ids@[p as int] as int].highlight
                        != crate::transaction::Highlight::Normal
                    &&& exists|k: int|
                        0 <= k < ids@.len() && p == scan_pos(
                            from as int,
                            k,
                            ids@.len() as int,
                            forward,
                        ) && (forall|j: int|
                            0 <= j < k ==> self@.items[ids@[#[trigger] scan_pos(
                                from as int,
                                j,
                                ids@.len() as int,
                                forward,
                            )] as int].highlight == crate::transaction::Highlight::Normal)
                },
                Option::None => forall|p: int|
                    0 <= p < ids@.len() ==> self@.items[#[trigger] ids@[p] as int].highlight
                        == crate::transaction::Highlight::Normal,
            },
    {
        let len = ids.len();
        if len == 0 {
            return Option::None;
        }
        let mut k: usize = 0;
        while k < len
            invariant
                len == ids@.len(),
                len > 0,
                from < len,
                forall|p: int| 0 <= p < ids@.len() ==> ids@[p] < self@.items.len(),
                0 <= k <= len,
                forall|j: int|
                    0 <= j < k ==> self@.items[ids@[#[trigger] scan_pos(
                        from as int,
                        j,
                        len as int,
                        forward,
                    )] as int].highlight == crate::transaction::Highlight::Normal,
            decreases len - k,
    {
            let current: usize = if forward {
                if k < len - 1 - from {
                    from + 1 + k
                } else {
                    k - (len - 1 - from)
                }
            } else {
                if from >= k + 1 {
                    from - 1 - k
                } else {
                    len - 1 - (k - from)
                }
            };
            proof {
                assert(current as int == scan_pos(from as int, k as int, len as int, forward));
            }
            let idx = ids[current];
            if !matches!(self.items[idx].highlight, crate::transaction::Highlight::Normal) {
                return Option::Some(current);
            }
            k += 1;
        }
        proof {
            assert forall|p: int|
                0 <= p < ids@.len() implies self@.items[#[trigger] ids@[p] as int].highlight
                == crate::transaction::Highlight::Normal by {
                let j: int = if forward {
                    if p > from {
                        p - from - 1
                    } else {
                        p + len - from - 1
                    }
                } else {
                    if p < from {
                        from - 1 - p
                    } else {
                        from + len - 1 - p
                    }
                };
                assert(0 <= j < len);
                assert(scan_pos(from as int, j, len as int, forward) == p);
            }
        }
        Option::None
    }
}

/// The position visited at step `k` of a wrapping scan that starts one past
/// `from` and moves forward or backward.
pub open spec fn scan_pos(from: int, k: int, len: int, forward: bool) -> int {
    if forward {
        if from + 1 + k < len {
            from + 1 + k
        } else {
            from + 1 + k - len
        }
    } else {
        if from >= k + 1 {
            from - 1 - k
        } else {
            from + len - 1 - k
        }
    }
}

} // verus!
