//! The resume store: the outcome recorded for each request identity.
use vstd::prelude::*;

verus! {

/// Outcome of the last attempt recorded for an identity.
#[derive(Clone, Copy, Debug, PartialEq, Eq, Structural)]
pub enum RequestState {
    Success,
    Error,
}

/// One stored row: identity, outcome, number of results, error text and
/// duration in milliseconds.
#[derive(Debug)]
pub struct RequestRecord {
    pub id: String,
    pub state: RequestState,
    pub num_results: u32,
    pub error: String,
    pub duration_ms: u64,
}

/// What a row says, apart from its identity.
pub struct RecordView {
    pub state: RequestState,
    pub num_results: u32,
    pub error: Seq<char>,
    pub duration_ms: u64,
}

pub open spec fn record_view(r: RequestRecord) -> RecordView {
    RecordView { state: r.state, num_results: r.num_results, error: r.error@, duration_ms: r.duration_ms }
}

/// The store after a success is recorded: the row is written whatever was there.
pub open spec fn after_success(m: Map<Seq<char>, RecordView>, id: Seq<char>, num_results: u32, duration_ms: u64) -> Map<Seq<char>, RecordView> {
    m.insert(id, RecordView { state: RequestState::Success, num_results, error: Seq::empty(), duration_ms })
}

/// The store after an error is recorded: the row is written only where the
/// identity has none yet.
pub open spec fn after_error(m: Map<Seq<char>, RecordView>, id: Seq<char>, error: Seq<char>, duration_ms: u64) -> Map<Seq<char>, RecordView> {
    if m.contains_key(id) {
        m
    } else {
        m.insert(id, RecordView { state: RequestState::Error, num_results: 0, error, duration_ms })
    }
}

/// Whether a success is recorded for `id`.
pub open spec fn is_complete(m: Map<Seq<char>, RecordView>, id: Seq<char>) -> bool {
    m.contains_key(id) && m[id].state == RequestState::Success
}

/// Rows keyed by request identity, at most one per identity.
pub struct RequestDb {
    records: Vec<RequestRecord>,
}

impl View for RequestDb {
    type V = Map<Seq<char>, RecordView>;

    closed spec fn view(&self) -> Map<Seq<char>, RecordView> {
        Map::new(
            |id: Seq<char>| exists|i: int| 0 <= i < self.records@.len() && #[trigger] self.records@[i].id@ == id,
            |id: Seq<char>| record_view(self.records@[self.index_of(id)]),
        )
    }
}

impl RequestDb {
    closed spec fn index_of(&self, id: Seq<char>) -> int {
        choose|i: int| 0 <= i < self.records@.len() && #[trigger] self.records@[i].id@ == id
    }

    /// Each identity has at most one row.
    pub closed spec fn wf(&self) -> bool {
        forall|i: int, j: int| 0 <= i < self.records@.len() && 0 <= j < self.records@.len() && #[trigger] self.records@[i].id@ == #[trigger] self.records@[j].id@ ==> i == j
    }

    proof fn lemma_index_of(&self, i: int)
        requires
            self.wf(),
            0 <= i < self.records@.len(),
        ensures
            self.index_of(self.records@[i].id@) == i,
            self@.contains_key(self.records@[i].id@),
            self@[self.records@[i].id@] == record_view(self.records@[i]),
    {
        let id = self.records@[i].id@;
        assert(self.records@[i].id@ == id);
        let k = self.index_of(id);
        assert(self.records@[k].id@ == id);
    }

    /// An empty store.
    pub fn new() -> (r: RequestDb)
        ensures
            r.wf(),
            r@ == Map::<Seq<char>, RecordView>::empty(),
    {
        let r = RequestDb { records: Vec::new() };
        assert(r@ =~= Map::<Seq<char>, RecordView>::empty());
        r
    }

    /// The position of the row for `id`, if there is one.
    fn find(&self, id: &str) -> (r: Option<usize>)
        requires
            self.wf(),
        ensures
            match r {
                Some(i) => i < self.records@.len() && self.records@[i as int].id@ == id@,
                None => !self@.contains_key(id@),
            },
    {
        let key = id.to_owned();
        let mut i: usize = 0;
        while i < self.records.len()
            invariant
                key@ == id@,
                i <= self.records@.len(),
                forall|j: int| 0 <= j < i ==> self.records@[j].id@ != id@,
            decreases self.records.len() - i,
        {
            if self.records[i].id == key {
                return Some(i);
            }
            i += 1;
        }
        proof {
            if self@.contains_key(id@) {
                let k = choose|k: int| 0 <= k < self.records@.len() && #[trigger] self.records@[k].id@ == id@;
                assert(self.records@[k].id@ != id@);
            }
        }
        None
    }

    /// Whether a success is recorded for `req_id`.
    pub fn check_request_success(&self, req_id: &str) -> (r: bool)
        requires
            self.wf(),
        ensures
            r == is_complete(self@, req_id@),
    {
        match self.find(req_id) {
            Some(i) => {
                proof {
                    self.lemma_index_of(i as int);
                }
                self.records[i].state == RequestState::Success
            },
            None => false,
        }
    }

    /// The row stored for `req_id`, if any.
    pub fn get(&self, req_id: &str) -> (r: Option<&RequestRecord>)
        requires
            self.wf(),
        ensures
            match r {
                Some(rec) => self@.contains_key(req_id@) && rec.id@ == req_id@ && record_view(*rec) == self@[req_id@],
                None => !self@.contains_key(req_id@),
            },
    {
        match self.find(req_id) {
            Some(i) => {
                proof {
                    self.lemma_index_of(i as int);
                }
                Some(&self.records[i])
            },
            None => None,
        }
    }

    /// Records a success for `req_id`, replacing any row it had.
    pub fn upsert_request_success(&mut self, req_id: &str, num_results: u32, duration_ms: u64)
        requires
            old(self).wf(),
        ensures
            final(self).wf(),
            final(self)@ == after_success(old(self)@, req_id@, num_results, duration_ms),
    {
        let rec = RequestRecord {
            id: req_id.to_owned(),
            state: RequestState::Success,
            num_results,
            error: String::new(),
            duration_ms,
        };
        self.put(rec);
    }

    /// Records an error for `req_id` unless it already has a row; returns
    /// whether the row was written.
    pub fn upsert_request_error(&mut self, req_id: &str, error_text: &str, duration_ms: u64) -> (r: bool)
        requires
            old(self).wf(),
        ensures
            final(self).wf(),
            final(self)@ == after_error(old(self)@, req_id@, error_text@, duration_ms),
            r == !old(self)@.contains_key(req_id@),
    {
        match self.find(req_id) {
            Some(i) => {
                proof {
                    self.lemma_index_of(i as int);
                }
                false
            },
            None => {
                let rec = RequestRecord {
                    id: req_id.to_owned(),
                    state: RequestState::Error,
                    num_results: 0,
                    error: error_text.to_owned(),
                    duration_ms,
                };
                self.put(rec);
                true
            },
        }
    }

    /// Writes `rec` as the row of its identity.
    fn put(&mut self, rec: RequestRecord)
        requires
            old(self).wf(),
        ensures
            final(self).wf(),
            final(self)@ == old(self)@.insert(rec.id@, record_view(rec)),
    {
        let ghost old_db = *self;
        match self.find(rec.id.as_str()) {
            Some(i) => {
                self.records.set(i, rec);
                proof {
                    assert forall|a: int, b: int| 0 <= a < self.records@.len() && 0 <= b < self.records@.len() && #[trigger] self.records@[a].id@ == #[trigger] self.records@[b].id@ implies a == b by {
                        if a != i && b != i {
                            assert(old_db.records@[a].id@ == old_db.records@[b].id@);
                        } else if a == i && b != i {
                            assert(old_db.records@[i as int].id@ == old_db.records@[b].id@);
                        } else if b == i && a != i {
                            assert(old_db.records@[i as int].id@ == old_db.records@[a].id@);
                        }
                    }
                    self.lemma_view_after(old_db, i as int);
                }
            },
            None => {
                self.records.push(rec);
                proof {
                    let n = old_db.records@.len() as int;
                    assert forall|a: int, b: int| 0 <= a < self.records@.len() && 0 <= b < self.records@.len() && #[trigger] self.records@[a].id@ == #[trigger] self.records@[b].id@ implies a == b by {
                        if a != n && b != n {
                            assert(old_db.records@[a].id@ == old_db.records@[b].id@);
                        } else if a == n && b != n {
                            assert(old_db@.contains_key(old_db.records@[b].id@));
                        } else if b == n && a != n {
                            assert(old_db@.contains_key(old_db.records@[a].id@));
                        }
                    }
                    self.lemma_view_after(old_db, n);
                }
            },
        }
    }

    /// Where the rows of `self` are those of `old_db` with row `i` written,
    /// the view is that of `old_db` with that row inserted.
    proof fn lemma_view_after(&self, old_db: RequestDb, i: int)
        requires
            self.wf(),
            old_db.wf(),
            0 <= i < self.records@.len(),
            forall|j: int| 0 <= j < self.records@.len() && j != i ==> j < old_db.records@.len() && #[trigger] self.records@[j] == old_db.records@[j],
            i < old_db.records@.len() ==> old_db.records@[i].id@ == self.records@[i].id@,
            i < old_db.records@.len() ==> self.records@.len() == old_db.records@.len(),
            i >= old_db.records@.len() ==> self.records@.len() == old_db.records@.len() + 1,
        ensures
            self@ == old_db@.insert(self.records@[i].id@, record_view(self.records@[i])),
    {
        let id = self.records@[i].id@;
        let m = old_db@.insert(id, record_view(self.records@[i]));
        assert forall|k: Seq<char>| #[trigger] self@.contains_key(k) <==> m.contains_key(k) by {
            if self@.contains_key(k) {
                let a = choose|a: int| 0 <= a < self.records@.len() && #[trigger] self.records@[a].id@ == k;
                if a != i {
                    assert(old_db.records@[a].id@ == k);
                }
            }
            if m.contains_key(k) && k != id {
                let a = choose|a: int| 0 <= a < old_db.records@.len() && #[trigger] old_db.records@[a].id@ == k;
                if a == i {
                    assert(false);
                } else {
                    assert(self.records@[a].id@ == k);
                }
            }
            if k == id {
                assert(self.records@[i].id@ == k);
            }
        }
        assert forall|k: Seq<char>| #[trigger] self@.contains_key(k) implies self@[k] == m[k] by {
            let a = choose|a: int| 0 <= a < self.records@.len() && #[trigger] self.records@[a].id@ == k;
            self.lemma_index_of(a);
            if a != i {
                old_db.lemma_index_of(a);
            }
        }
        assert(self@ =~= m);
    }
}

/// Whichever order an error and a success are recorded for one identity,
/// the identity ends up complete.
pub proof fn lemma_success_wins(m: Map<Seq<char>, RecordView>, id: Seq<char>, error: Seq<char>, error_ms: u64, num_results: u32, success_ms: u64)
    ensures
        is_complete(after_success(after_error(m, id, error, error_ms), id, num_results, success_ms), id),
        is_complete(after_error(after_success(m, id, num_results, success_ms), id, error, error_ms), id),
{
}

/// Recording an error never takes a success away, and a second error for an
/// identity that already has a row changes nothing.
pub proof fn lemma_error_keeps_rows(m: Map<Seq<char>, RecordView>, id: Seq<char>, error: Seq<char>, duration_ms: u64, other: Seq<char>)
    ensures
        is_complete(m, other) ==> is_complete(after_error(m, id, error, duration_ms), other),
        m.contains_key(id) ==> after_error(m, id, error, duration_ms) == m,
{
}

} // verus!
