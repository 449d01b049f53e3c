//! The transaction layer: allocates transaction IDs for outgoing queries,
//! holds the queries in flight, and matches inbound responses and errors,
//! timeouts and cancellations to them. Each query in flight ends in exactly
//! one completion.
use vstd::prelude::*;
use crate::bencode::{copy_bytes, compare_bytes, enc, is_canonical, wf, Value};
use crate::message::{
    args_valid, check_args, check_response_for, is_known_name, response_valid_for, method_name, msg_value, Package, PackageModel,
    PackagePayload, PayloadModel, QueryMethod,
};

verus! {

/// How long a query waits for its answer unless configured otherwise, in
/// the units of the clock handed to `send_query` and `tick` (seconds).
pub const DEFAULT_TIMEOUT: u64 = 15;

/// How many queries may be in flight at once unless configured otherwise.
pub const DEFAULT_MAX_IN_FLIGHT: usize = 65536;

/// A remote peer: IPv4 address and UDP port.
#[derive(Debug, Clone, Copy, PartialEq, Eq, Structural)]
pub struct Endpoint {
    pub ip: u32,
    pub port: u16,
}

/// A query in flight.
#[derive(Debug, PartialEq, Eq)]
pub struct PendingQuery {
    /// Names this query towards its caller; never reused by one table.
    pub handle: u64,
    pub endpoint: Endpoint,
    pub transaction_id: Vec<u8>,
    /// Wire name of the query's method.
    pub method: Vec<u8>,
    /// The query times out at a tick whose time is at or past this.
    pub deadline: u64,
}

/// How a query ended.
#[derive(Debug, PartialEq, Eq)]
pub enum Outcome {
    /// The remote node answered with this response.
    Response(Package),
    /// The remote node answered with an error: code and message.
    Remote(i64, Vec<u8>),
    Timeout,
    Cancelled,
}

/// The terminal outcome of the query named by `handle`.
#[derive(Debug, PartialEq, Eq)]
pub struct Completion {
    pub handle: u64,
    pub outcome: Outcome,
}

/// Why a query could not be sent.
#[derive(Debug, Clone, Copy, PartialEq, Eq, Structural)]
pub enum SendError {
    /// The table is full, or every transaction ID towards the endpoint is
    /// in use, or the handles are used up.
    Busy,
    /// The arguments do not meet the method's schema, or are not canonical.
    Malformed,
}

/// What became of an inbound message.
#[derive(Debug, PartialEq, Eq)]
pub enum Dispatch {
    /// A query, for the application to answer.
    Query(Package),
    /// A response or error that completed a query in flight.
    Completed(Completion),
    /// A response or error that matched no query in flight.
    Dropped,
}

/// Two entries of the table that can be told apart: by handle, and by
/// endpoint and transaction ID.
pub open spec fn distinct(a: PendingQuery, b: PendingQuery) -> bool {
    &&& a.handle != b.handle
    &&& !(a.endpoint == b.endpoint && a.transaction_id@ == b.transaction_id@)
}

pub open spec fn pairwise_distinct(s: Seq<PendingQuery>) -> bool {
    forall|i: int, j: int| 0 <= i < s.len() && 0 <= j < s.len() && i != j ==> distinct(#[trigger] s[i], #[trigger] s[j])
}

/// Entry `e` answers to a message from `from` with transaction ID `tid`.
pub open spec fn matches(e: PendingQuery, from: Endpoint, tid: Seq<u8>) -> bool {
    e.endpoint == from && e.transaction_id@ == tid
}

/// Some entry of `s` answers to `from` with `tid`.
pub open spec fn taken(s: Seq<PendingQuery>, from: Endpoint, tid: Seq<u8>) -> bool {
    exists|i: int| 0 <= i < s.len() && matches(#[trigger] s[i], from, tid)
}

/// The two-byte big-endian transaction ID of a counter value.
pub open spec fn tid_of(x: u16) -> Seq<u8> {
    seq![(x / 256) as u8, (x % 256) as u8]
}

/// Every two-byte transaction ID towards `from` is in use.
pub open spec fn all_taken(s: Seq<PendingQuery>, from: Endpoint) -> bool {
    forall|x: u16| #[trigger] taken(s, from, tid_of(x))
}

/// `now + timeout`, or the largest time where that does not fit.
pub open spec fn deadline_of(now: u64, timeout: u64) -> u64 {
    if now as int + timeout as int > u64::MAX as int {
        u64::MAX
    } else {
        (now + timeout) as u64
    }
}

pub proof fn lemma_remove_distinct(s: Seq<PendingQuery>, k: int)
    requires
        pairwise_distinct(s),
        0 <= k < s.len(),
    ensures
        pairwise_distinct(s.remove(k)),
{
    let t = s.remove(k);
    assert forall|i: int, j: int| 0 <= i < t.len() && 0 <= j < t.len() && i != j implies distinct(
        #[trigger] t[i],
        #[trigger] t[j],
    ) by {
        let i0 = if i < k { i } else { i + 1 };
        let j0 = if j < k { j } else { j + 1 };
        assert(t[i] == s[i0] && t[j] == s[j0]);
        assert(distinct(s[i0], s[j0]));
    }
}

/// What completes a query when `msg`, a response or an error, answers it.
pub open spec fn outcome_of(msg: Package) -> Outcome {
    match msg.payload {
        PackagePayload::Error(c, s) => Outcome::Remote(c, s),
        _ => Outcome::Response(msg),
    }
}

/// `msg` can answer a query of method `name`: an error, or a response whose
/// values meet that method's schema.
pub open spec fn answers(msg: Package, name: Seq<u8>) -> bool {
    match msg.payload {
        PackagePayload::Error(_, _) => true,
        PackagePayload::Response(v) => response_valid_for(name, v@),
        PackagePayload::Query(_, _) => false,
    }
}

/// Some entry of `s` has handle `h`.
pub open spec fn has_handle(s: Seq<PendingQuery>, h: u64) -> bool {
    exists|k: int| 0 <= k < s.len() && #[trigger] s[k].handle == h
}

/// Some completion of `r` is for handle `h`.
pub open spec fn completes(r: Seq<Completion>, h: u64) -> bool {
    exists|j: int| 0 <= j < r.len() && #[trigger] r[j].handle == h
}

/// Some entry of `s` has handle `h` and a deadline at or before `now`.
pub open spec fn expires(s: Seq<PendingQuery>, h: u64, now: u64) -> bool {
    exists|k: int| 0 <= k < s.len() && #[trigger] s[k].handle == h && s[k].deadline <= now
}

/// Each query in flight ends exactly once. Its entry is the only one with
/// its handle, so the operation that completes it (a matching inbound
/// message, a cancel, or a tick) removes every trace of it and no later
/// operation can complete it again; and once its deadline has come, a tick
/// expires it.
pub proof fn lemma_query_completes_once(s: Seq<PendingQuery>, k: int, now: u64)
    requires
        pairwise_distinct(s),
        0 <= k < s.len(),
        s[k].deadline <= now,
    ensures
        expires(s, s[k].handle, now),
        !has_handle(s.remove(k), s[k].handle),
{
    let t = s.remove(k);
    if has_handle(t, s[k].handle) {
        let j = choose|j: int| 0 <= j < t.len() && #[trigger] t[j].handle == s[k].handle;
        if j < k {
            assert(distinct(s[j], s[k]));
        } else {
            assert(t[j] == s[j + 1]);
            assert(distinct(s[j + 1], s[k]));
        }
    }
}

/// Queries in flight, keyed by endpoint and transaction ID.
pub struct TransactionTable {
    pending: Vec<PendingQuery>,
    next_handle: u64,
    next_tid: u16,
    max_in_flight: usize,
    timeout: u64,
}

impl TransactionTable {
    /// The queries in flight.
    pub closed spec fn pending(&self) -> Seq<PendingQuery> {
        self.pending@
    }

    /// The handle the next query gets.
    pub closed spec fn next_handle(&self) -> u64 {
        self.next_handle
    }

    /// The counter value from which the next transaction ID is sought.
    pub closed spec fn next_tid(&self) -> u16 {
        self.next_tid
    }

    /// At most this many queries are in flight at once.
    pub closed spec fn max_in_flight(&self) -> usize {
        self.max_in_flight
    }

    /// How long a query waits for its answer.
    pub closed spec fn timeout(&self) -> u64 {
        self.timeout
    }

    /// No two queries in flight share a handle, nor an endpoint and a
    /// transaction ID; every handle is below the next one to be given; the
    /// table is within its bound.
    pub open spec fn wf(&self) -> bool {
        &&& self.pending().len() <= self.max_in_flight()
        &&& pairwise_distinct(self.pending())
        &&& forall|i: int| 0 <= i < self.pending().len() ==> #[trigger] self.pending()[i].handle < self.next_handle()
    }

    /// An empty table with the default bound and timeout.
    pub fn with_defaults() -> (r: TransactionTable)
        ensures
            r.wf(),
            r.pending() == Seq::<PendingQuery>::empty(),
            r.max_in_flight() == DEFAULT_MAX_IN_FLIGHT,
            r.timeout() == DEFAULT_TIMEOUT,
    {
        TransactionTable::new(DEFAULT_MAX_IN_FLIGHT, DEFAULT_TIMEOUT)
    }

    /// An empty table.
    pub fn new(max_in_flight: usize, timeout: u64) -> (r: TransactionTable)
        ensures
            r.wf(),
            r.pending() == Seq::<PendingQuery>::empty(),
            r.max_in_flight() == max_in_flight,
            r.timeout() == timeout,
    {
        TransactionTable { pending: Vec::new(), next_handle: 0, next_tid: 0, max_in_flight, timeout }
    }

    /// Number of queries in flight.
    pub fn len(&self) -> (r: usize)
        ensures
            r == self.pending().len(),
    {
        self.pending.len()
    }

    /// Whether a query towards `from` with transaction ID `tid` is in flight.
    pub fn is_pending(&self, from: Endpoint, tid: &[u8]) -> (r: bool)
        ensures
            r == taken(self.pending(), from, tid@),
    {
        match self.find(from, tid) {
            Some(_) => true,
            None => false,
        }
    }

    /// The first index whose entry answers to `from` with `tid`.
    fn find(&self, from: Endpoint, tid: &[u8]) -> (r: Option<usize>)
        ensures
            r is Some ==> r->0 < self.pending().len() && matches(self.pending()[r->0 as int], from, tid@),
            r is None ==> !taken(self.pending(), from, tid@),
    {
        let mut i: usize = 0;
        while i < self.pending.len()
            invariant
                i <= self.pending.len(),
                forall|j: int| 0 <= j < i ==> !matches(#[trigger] self.pending@[j], from, tid@),
            decreases self.pending.len() - i,
        {
            let e = &self.pending[i];
            if e.endpoint == from && compare_bytes(e.transaction_id.as_slice(), tid) == 0 {
                return Some(i);
            }
            i = i + 1;
        }
        None
    }

    /// Records a query to `to` under the free transaction ID of counter
    /// value `c`, and encodes it.
    fn enter_query(&mut self, to: Endpoint, c: u16, method: QueryMethod, args: Value, now: u64) -> (r: (
        u64,
        Vec<u8>,
    ))
        requires
            old(self).wf(),
            old(self).pending().len() < old(self).max_in_flight(),
            old(self).next_handle() < u64::MAX,
            !taken(old(self).pending(), to, tid_of(c)),
            args_valid(method_name(method), args@),
            wf(args@),
            method is Unknown ==> !is_known_name(method_name(method)),
        ensures
            final(self).wf(),
            final(self).next_tid() == (c as int + 1) % 65536,
            final(self).max_in_flight() == old(self).max_in_flight(),
            final(self).timeout() == old(self).timeout(),
            final(self).next_handle() == old(self).next_handle() + 1,
            final(self).pending() == old(self).pending().push(
                final(self).pending()[final(self).pending().len() - 1],
            ),
            ({
                let e = final(self).pending()[final(self).pending().len() - 1];
                &&& e.handle == r.0
                &&& r.0 == old(self).next_handle()
                &&& e.endpoint == to
                &&& e.transaction_id@ == tid_of(c)
                &&& e.method@ == method_name(method)
                &&& e.deadline == deadline_of(now, old(self).timeout())
                &&& r.1@ == enc(
                    msg_value(
                        PackageModel {
                            transaction_id: tid_of(c),
                            payload: PayloadModel::Query(method_name(method), args@),
                            version: None,
                        },
                    ),
                )
            }),
    {
        let tid: Vec<u8> = vec![(c / 256) as u8, (c % 256) as u8];
        assert(tid@ =~= tid_of(c));
        let name = method.name();
        let h = self.next_handle;
        let deadline: u64 = if now > u64::MAX - self.timeout {
            u64::MAX
        } else {
            now + self.timeout
        };
        let pkg = Package {
            transaction_id: copy_bytes(tid.as_slice()),
            payload: PackagePayload::Query(method, args),
            version: None,
        };
        let bytes = pkg.encode();
        let e = PendingQuery { handle: h, endpoint: to, transaction_id: tid, method: name, deadline };
        let ghost old_pending = self.pending@;
        proof {
            assert forall|i: int| 0 <= i < old_pending.len() implies distinct(old_pending[i], e) by {
                assert(!matches(old_pending[i], to, tid_of(c)));
                assert(old_pending[i].handle < h);
            }
        }
        self.pending.push(e);
        self.next_handle = h + 1;
        self.next_tid = if c == 65535 { 0 } else { c + 1 };
        proof {
            let s = self.pending@;
            assert forall|i: int, j: int| 0 <= i < s.len() && 0 <= j < s.len() && i != j implies distinct(
                #[trigger] s[i],
                #[trigger] s[j],
            ) by {
                if i < old_pending.len() && j < old_pending.len() {
                    assert(s[i] == old_pending[i] && s[j] == old_pending[j]);
                } else if i < old_pending.len() {
                    assert(s[i] == old_pending[i]);
                    assert(distinct(old_pending[i], e));
                } else {
                    assert(s[j] == old_pending[j]);
                    assert(distinct(old_pending[j], e));
                }
            }
            assert forall|i: int| 0 <= i < s.len() implies #[trigger] s[i].handle < self.next_handle by {
                if i < old_pending.len() {
                    assert(s[i] == old_pending[i]);
                }
            }
        }
        (h, bytes)
    }

    /// Sends a query: picks the first counter value, at or after the stored
    /// counter, whose two-byte transaction ID no query in flight towards `to`
    /// uses; records the query with its deadline; and returns its handle and
    /// the datagram to send. Fails with `Malformed`, changing nothing, exactly
    /// when the arguments are not canonical or miss the method's schema; and
    /// otherwise with `Busy`, changing nothing, exactly when the table is
    /// full, the handles are used up, or every two-byte ID towards `to` is in
    /// use.
    pub fn send_query(&mut self, to: Endpoint, method: QueryMethod, args: Value, now: u64) -> (r: Result<
        (u64, Vec<u8>),
        SendError,
    >)
        requires
            old(self).wf(),
        ensures
            final(self).wf(),
            final(self).max_in_flight() == old(self).max_in_flight(),
            final(self).timeout() == old(self).timeout(),
            r == Err::<(u64, Vec<u8>), SendError>(SendError::Malformed) <==> !(args_valid(method_name(method), args@)
                && wf(args@)),
            r == Err::<(u64, Vec<u8>), SendError>(SendError::Busy) <==> (args_valid(method_name(method), args@)
                && wf(args@) && (old(self).pending().len() >= old(self).max_in_flight() || old(self).next_handle()
                == u64::MAX || all_taken(old(self).pending(), to))),
            r is Err ==> final(self).pending() == old(self).pending() && final(self).next_handle()
                == old(self).next_handle(),
            r is Ok ==> {
                let (h, bytes) = r->Ok_0;
                let e = final(self).pending()[final(self).pending().len() - 1];
                &&& final(self).pending() == old(self).pending().push(e)
                &&& final(self).next_handle() == old(self).next_handle() + 1
                &&& e.handle == h
                &&& h == old(self).next_handle()
                &&& e.endpoint == to
                &&& e.transaction_id@.len() == 2
                &&& !taken(old(self).pending(), to, e.transaction_id@)
                &&& exists|k: int|
                    #![trigger tid_of(((old(self).next_tid() + k) % 65536) as u16)]
                    0 <= k < 65536 && e.transaction_id@ == tid_of(((old(self).next_tid() + k) % 65536) as u16)
                        && final(self).next_tid() == (old(self).next_tid() + k + 1) % 65536 && forall|j: int|
                        0 <= j < k ==> #[trigger] taken(
                            old(self).pending(),
                            to,
                            tid_of(((old(self).next_tid() + j) % 65536) as u16),
                        )
                &&& e.method@ == method_name(method)
                &&& e.deadline == deadline_of(now, old(self).timeout())
                &&& bytes@ == enc(
                    msg_value(
                        PackageModel {
                            transaction_id: e.transaction_id@,
                            payload: PayloadModel::Query(method_name(method), args@),
                            version: None,
                        },
                    ),
                )
            },
    {
        let name = method.name();
        if !is_canonical(&args) {
            return Err(SendError::Malformed);
        }
        match check_args(name.as_slice(), &args) {
            Ok(()) => {},
            Err(_) => return Err(SendError::Malformed),
        }
        let m = QueryMethod::from_name(name);
        if self.pending.len() >= self.max_in_flight || self.next_handle == u64::MAX {
            return Err(SendError::Busy);
        }
        let start: u16 = self.next_tid;
        let mut k: u32 = 0;
        while k < 65536
            invariant
                self.wf(),
                *self == *old(self),
                self.next_tid == start,
                self.pending.len() < self.max_in_flight,
                self.next_handle < u64::MAX,
                args_valid(method_name(method), args@),
                method_name(m) == method_name(method),
                wf(args@),
                m is Unknown ==> !is_known_name(method_name(m)),
                k <= 65536,
                forall|j: int|
                    0 <= j < k ==> #[trigger] taken(self.pending@, to, tid_of(((start + j) % 65536) as u16)),
            decreases 65536 - k,
        {
            let c: u16 = ((start as u32 + k) % 65536) as u16;
            let tid: Vec<u8> = vec![(c / 256) as u8, (c % 256) as u8];
            assert(tid@ =~= tid_of(c));
            if !self.is_pending(to, tid.as_slice()) {
                let r = self.enter_query(to, c, m, args, now);
                proof {
                    let kk = k as int;
                    assert(((start + kk) % 65536) as u16 == c);
                    assert(self.next_tid == (start + kk + 1) % 65536);
                    assert(old(self).next_tid() == start);
                    assert(forall|j: int|
                        0 <= j < kk ==> #[trigger] taken(
                            old(self).pending(),
                            to,
                            tid_of(((old(self).next_tid() + j) % 65536) as u16),
                        ));
                }
                return Ok(r);
            }
            k = k + 1;
        }
        proof {
            assert forall|x: u16| #[trigger] taken(self.pending@, to, tid_of(x)) by {
                let j: int = if x >= start { x - start } else { x + 65536 - start };
                assert(((start + j) % 65536) as u16 == x);
                assert(taken(self.pending@, to, tid_of(((start + j) % 65536) as u16)));
            }
        }
        Err(SendError::Busy)
    }

    /// Hands an inbound message on. A query goes to the application and
    /// the table stays as it is. An error, or a response that meets the
    /// schema of the query's method, from `from` whose transaction ID is in
    /// flight towards `from` completes that query, which leaves the table;
    /// any other is dropped and changes nothing, so the query still ends by
    /// another answer, a timeout or a cancel.
    pub fn dispatch_inbound(&mut self, from: Endpoint, msg: Package) -> (r: Dispatch)
        requires
            old(self).wf(),
        ensures
            final(self).wf(),
            final(self).max_in_flight() == old(self).max_in_flight(),
            final(self).timeout() == old(self).timeout(),
            final(self).next_handle() == old(self).next_handle(),
            msg.payload is Query ==> r == Dispatch::Query(msg) && final(self).pending() == old(self).pending(),
            !(msg.payload is Query) && !taken(old(self).pending(), from, msg.transaction_id@) ==> r
                == Dispatch::Dropped && final(self).pending() == old(self).pending(),
            !(msg.payload is Query) && taken(old(self).pending(), from, msg.transaction_id@) ==> exists|k: int|
                0 <= k < old(self).pending().len() && #[trigger] matches(
                    old(self).pending()[k],
                    from,
                    msg.transaction_id@,
                ) && if answers(msg, old(self).pending()[k].method@) {
                    final(self).pending() == old(self).pending().remove(k) && r == Dispatch::Completed(
                        Completion { handle: old(self).pending()[k].handle, outcome: outcome_of(msg) },
                    )
                } else {
                    r == Dispatch::Dropped && final(self).pending() == old(self).pending()
                },
    {
        match &msg.payload {
            PackagePayload::Query(_, _) => {
                return Dispatch::Query(msg);
            },
            _ => {},
        }
        match self.find(from, msg.transaction_id.as_slice()) {
            None => Dispatch::Dropped,
            Some(k) => {
                let fits = match &msg.payload {
                    PackagePayload::Response(v) => check_response_for(self.pending[k].method.as_slice(), v).is_ok(),
                    _ => true,
                };
                if !fits {
                    return Dispatch::Dropped;
                }
                proof {
                    lemma_remove_distinct(self.pending@, k as int);
                }
                let ghost m0 = msg;
                let e = self.pending.remove(k);
                let outcome = match msg.payload {
                    PackagePayload::Error(c, s) => Outcome::Remote(c, s),
                    p => Outcome::Response(
                        Package { transaction_id: msg.transaction_id, payload: p, version: msg.version },
                    ),
                };
                assert(outcome == outcome_of(m0));
                Dispatch::Completed(Completion { handle: e.handle, outcome })
            },
        }
    }

    /// The first index whose entry has handle `h`.
    fn find_handle(&self, h: u64) -> (r: Option<usize>)
        ensures
            r is Some ==> r->0 < self.pending().len() && self.pending()[r->0 as int].handle == h,
            r is None ==> !has_handle(self.pending(), h),
    {
        let mut i: usize = 0;
        while i < self.pending.len()
            invariant
                i <= self.pending.len(),
                forall|j: int| 0 <= j < i ==> #[trigger] self.pending@[j].handle != h,
            decreases self.pending.len() - i,
        {
            if self.pending[i].handle == h {
                return Some(i);
            }
            i = i + 1;
        }
        None
    }

    /// Cancels the query named by `handle`: it leaves the table and completes
    /// with `Cancelled`. A handle not in flight (never given, or already
    /// completed) changes nothing.
    pub fn cancel(&mut self, handle: u64) -> (r: Option<Completion>)
        requires
            old(self).wf(),
        ensures
            final(self).wf(),
            final(self).max_in_flight() == old(self).max_in_flight(),
            final(self).timeout() == old(self).timeout(),
            final(self).next_handle() == old(self).next_handle(),
            has_handle(old(self).pending(), handle) ==> r == Some(
                Completion { handle, outcome: Outcome::Cancelled },
            ) && exists|k: int|
                0 <= k < old(self).pending().len() && #[trigger] old(self).pending()[k].handle == handle
                    && final(self).pending() == old(self).pending().remove(k),
            !has_handle(old(self).pending(), handle) ==> r is None && final(self).pending() == old(
                self,
            ).pending(),
    {
        match self.find_handle(handle) {
            None => None,
            Some(k) => {
                proof {
                    lemma_remove_distinct(self.pending@, k as int);
                }
                let _ = self.pending.remove(k);
                Some(Completion { handle, outcome: Outcome::Cancelled })
            },
        }
    }

    /// Expires every query whose deadline is at or before `now`: each leaves
    /// the table and completes with `Timeout`, once; the others stay.
    pub fn tick(&mut self, now: u64) -> (r: Vec<Completion>)
        requires
            old(self).wf(),
        ensures
            final(self).wf(),
            final(self).max_in_flight() == old(self).max_in_flight(),
            final(self).timeout() == old(self).timeout(),
            final(self).next_handle() == old(self).next_handle(),
            forall|i: int| 0 <= i < final(self).pending().len() ==> #[trigger] final(self).pending()[i].deadline > now,
            forall|e: PendingQuery| #[trigger]
                final(self).pending().contains(e) <==> (old(self).pending().contains(e) && e.deadline > now),
            forall|j: int| 0 <= j < r.len() ==> #[trigger] r@[j].outcome == Outcome::Timeout,
            forall|h: u64|
                #![trigger completes(r@, h)]
                #![trigger expires(old(self).pending(), h, now)]
                completes(r@, h) <==> expires(old(self).pending(), h, now),
            forall|a: int, b: int| 0 <= a < b < r.len() ==> r@[a].handle != r@[b].handle,
    {
        let ghost s0 = self.pending@;
        let mut out: Vec<Completion> = Vec::new();
        let mut i: usize = 0;
        while i < self.pending.len()
            invariant
                self.wf(),
                self.max_in_flight == old(self).max_in_flight,
                self.timeout == old(self).timeout,
                self.next_handle == old(self).next_handle,
                s0 == old(self).pending@,
                i <= self.pending.len(),
                forall|j: int| 0 <= j < i ==> #[trigger] self.pending@[j].deadline > now,
                forall|e: PendingQuery| #[trigger] self.pending@.contains(e) ==> s0.contains(e),
                forall|e: PendingQuery| s0.contains(e) && e.deadline > now ==> #[trigger] self.pending@.contains(e),
                forall|k: int|
                    0 <= k < s0.len() && s0[k].deadline <= now ==> self.pending@.contains(#[trigger] s0[k])
                        || exists|j: int| 0 <= j < out.len() && #[trigger] out@[j].handle == s0[k].handle,
                forall|j: int|
                    #![trigger out@[j]]
                    0 <= j < out.len() ==> out@[j].outcome == Outcome::Timeout && expires(s0, out@[j].handle, now)
                        && !has_handle(self.pending@, out@[j].handle),
                forall|a: int, b: int| 0 <= a < b < out.len() ==> out@[a].handle != out@[b].handle,
            decreases self.pending.len() - i,
        {
            if self.pending[i].deadline <= now {
                let ghost p0 = self.pending@;
                proof {
                    lemma_remove_distinct(p0, i as int);
                }
                let e = self.pending.remove(i);
                proof {
                    let p1 = self.pending@;
                    assert forall|x: PendingQuery| #[trigger] p1.contains(x) implies p0.contains(x) by {
                        let j = choose|j: int| 0 <= j < p1.len() && p1[j] == x;
                        if j < i {
                            assert(p0[j] == x);
                        } else {
                            assert(p0[j + 1] == x);
                        }
                    }
                    assert forall|x: PendingQuery| p0.contains(x) && x.deadline > now implies #[trigger] p1.contains(x) by {
                        let j = choose|j: int| 0 <= j < p0.len() && p0[j] == x;
                        if j < i {
                            assert(p1[j] == x);
                        } else if j > i {
                            assert(p1[j - 1] == x);
                        }
                    }
                    assert(!has_handle(p1, e.handle)) by {
                        if has_handle(p1, e.handle) {
                            let j = choose|j: int| 0 <= j < p1.len() && #[trigger] p1[j].handle == e.handle;
                            if j < i {
                                assert(distinct(p0[j], p0[i as int]));
                            } else {
                                assert(p1[j] == p0[j + 1]);
                                assert(distinct(p0[j + 1], p0[i as int]));
                            }
                        }
                    }
                    assert forall|h: u64| !has_handle(p0, h) implies !has_handle(p1, h) by {
                        if has_handle(p1, h) {
                            let j = choose|j: int| 0 <= j < p1.len() && #[trigger] p1[j].handle == h;
                            assert(p0.contains(p1[j]));
                        }
                    }
                }
                let ghost o0 = out@;
                out.push(Completion { handle: e.handle, outcome: Outcome::Timeout });
                proof {
                    assert(p0.contains(e));
                    assert(s0.contains(e));
                    assert forall|k: int|
                        0 <= k < s0.len() && s0[k].deadline <= now implies self.pending@.contains(#[trigger] s0[k])
                            || exists|j: int| 0 <= j < out.len() && #[trigger] out@[j].handle == s0[k].handle by {
                        if s0[k] == e {
                            assert(out@[o0.len() as int].handle == s0[k].handle);
                        } else if p0.contains(s0[k]) {
                            let j = choose|j: int| 0 <= j < p0.len() && p0[j] == s0[k];
                            if j < i {
                                assert(self.pending@[j] == s0[k]);
                            } else {
                                assert(j != i);
                                assert(self.pending@[j - 1] == s0[k]);
                            }
                        } else {
                            let j = choose|j: int| 0 <= j < o0.len() && #[trigger] o0[j].handle == s0[k].handle;
                            assert(out@[j] == o0[j]);
                        }
                    }
                    assert forall|a: int, b: int| 0 <= a < b < out.len() implies out@[a].handle != out@[b].handle by {
                        if b == o0.len() {
                            assert(o0[a] == out@[a]);
                            assert(!has_handle(p0, o0[a].handle));
                            assert(p0[i as int].handle == e.handle);
                        }
                    }
                }
            } else {
                i = i + 1;
            }
        }
        proof {
            assert forall|h: u64|
                #![trigger completes(out@, h)]
                #![trigger expires(s0, h, now)]
                completes(out@, h) <==> expires(s0, h, now) by {
                if completes(out@, h) {
                    let j = choose|j: int| 0 <= j < out@.len() && #[trigger] out@[j].handle == h;
                    assert(expires(s0, out@[j].handle, now));
                }
                if expires(s0, h, now) {
                    let k = choose|k: int| 0 <= k < s0.len() && #[trigger] s0[k].handle == h && s0[k].deadline <= now;
                    if self.pending@.contains(s0[k]) {
                        let j = choose|j: int| 0 <= j < self.pending@.len() && self.pending@[j] == s0[k];
                        assert(self.pending@[j].deadline > now);
                    }
                }
            }
        }
        out
    }

} // impl TransactionTable

} // verus!
