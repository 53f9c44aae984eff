//! Block metrics: what kind of work was measured for which block, and when
//! it started and ended.
//!
//! Metrics are recorded into a `MetricActions` store with `observe_metric`,
//! or in two halves with `observe_metric_partial`, and are handed out (and the
//! store emptied) with `take_metrics` when they are to be sent.
use vstd::prelude::*;

verus! {

/// The kind of work a metric measures.
#[allow(non_camel_case_types)]
#[derive(Debug, Clone, Copy, PartialEq, Eq, Structural)]
pub enum MetricKind {
    PROPOSAL,
    SYNC,
    IMPORT,
}

impl MetricKind {
    /// The number that stands for this kind in a stored metric.
    pub open spec fn code(self) -> u8 {
        match self {
            MetricKind::PROPOSAL => 0,
            MetricKind::SYNC => 1,
            MetricKind::IMPORT => 2,
        }
    }

    /// The kind that a number stands for, if any.
    pub open spec fn spec_from_code(value: u8) -> Option<MetricKind> {
        if value == 0 {
            Some(MetricKind::PROPOSAL)
        } else if value == 1 {
            Some(MetricKind::SYNC)
        } else if value == 2 {
            Some(MetricKind::IMPORT)
        } else {
            None
        }
    }

    /// The kind that `value` stands for: 0, 1 and 2 stand for `PROPOSAL`,
    /// `SYNC` and `IMPORT`; no other number stands for a kind.
    pub fn from_u8(value: u8) -> (res: Option<Self>)
        ensures
            res == Self::spec_from_code(value),
            res.is_some() <==> value < 3,
            res matches Some(k) ==> k.code() == value,
    {
        match value {
            0 => Some(MetricKind::PROPOSAL),
            1 => Some(MetricKind::SYNC),
            2 => Some(MetricKind::IMPORT),
            _ => None,
        }
    }

    /// The number that stands for this kind.
    pub fn to_u8(self) -> (res: u8)
        ensures
            res == self.code(),
    {
        match self {
            MetricKind::PROPOSAL => 0,
            MetricKind::SYNC => 1,
            MetricKind::IMPORT => 2,
        }
    }
}

/// Reading a kind back from its number gives the kind, and the numbers that
/// stand for a kind are exactly those that come back unchanged.
pub proof fn lemma_kind_code_roundtrip(kind: MetricKind, value: u8)
    ensures
        MetricKind::spec_from_code(kind.code()) == Some(kind),
        kind.code() < 3,
        MetricKind::spec_from_code(value) matches Some(k) ==> k.code() == value,
{
}

/// One recorded metric: the kind (by its number), the block, and the start
/// and end times in milliseconds.
#[derive(Debug, Clone, Copy, PartialEq, Eq, Structural)]
pub struct MetricDetail {
    kind: u8,
    block_number: u64,
    start_timestamp: u64,
    end_timestamp: u64,
}

impl MetricDetail {
    /// The metric with the given fields.
    pub closed spec fn spec_new(kind: u8, block_number: u64, start_timestamp: u64, end_timestamp: u64) -> MetricDetail {
        MetricDetail { kind, block_number, start_timestamp, end_timestamp }
    }

    pub closed spec fn kind_code(self) -> u8 {
        self.kind
    }

    pub closed spec fn block(self) -> u64 {
        self.block_number
    }

    pub closed spec fn start(self) -> u64 {
        self.start_timestamp
    }

    pub closed spec fn end(self) -> u64 {
        self.end_timestamp
    }

    /// The metric with its start time (when `is_start`) or its end time
    /// replaced by `timestamp`.
    pub closed spec fn with_time(self, timestamp: u64, is_start: bool) -> MetricDetail {
        if is_start {
            MetricDetail { start_timestamp: timestamp, ..self }
        } else {
            MetricDetail { end_timestamp: timestamp, ..self }
        }
    }

    /// Whether this metric is the one of `kind_code` for block `block_number`.
    pub open spec fn is_for(self, kind_code: u8, block_number: u64) -> bool {
        self.block() == block_number && self.kind_code() == kind_code
    }

    /// A metric of `kind` for `block_number` with the given times.
    pub fn new(kind: MetricKind, block_number: u64, start_timestamp: u64, end_timestamp: u64) -> (res: Self)
        ensures
            res == Self::spec_new(kind.code(), block_number, start_timestamp, end_timestamp),
            res.kind_code() == kind.code(),
            res.block() == block_number,
            res.start() == start_timestamp,
            res.end() == end_timestamp,
    {
        MetricDetail { kind: kind.to_u8(), block_number, start_timestamp, end_timestamp }
    }

    /// The number of the metric's kind.
    pub fn kind(&self) -> (res: u8)
        ensures
            res == self.kind_code(),
    {
        self.kind
    }

    /// The block the metric is for.
    pub fn block_number(&self) -> (res: u64)
        ensures
            res == self.block(),
    {
        self.block_number
    }

    /// When the measured work started.
    pub fn start_timestamp(&self) -> (res: u64)
        ensures
            res == self.start(),
    {
        self.start_timestamp
    }

    /// When the measured work ended.
    pub fn end_timestamp(&self) -> (res: u64)
        ensures
            res == self.end(),
    {
        self.end_timestamp
    }

    fn set_time(&mut self, timestamp: u64, is_start: bool)
        ensures
            *final(self) == old(self).with_time(timestamp, is_start),
    {
        if is_start {
            self.start_timestamp = timestamp;
        } else {
            self.end_timestamp = timestamp;
        }
    }
}

/// A metric detail with the fields read out, for comparing whole records.
pub open spec fn detail_fields(d: MetricDetail) -> (u8, u64, u64, u64) {
    (d.kind_code(), d.block(), d.start(), d.end())
}

/// Two metric details with the same fields are the same.
pub proof fn lemma_detail_fields_determine(a: MetricDetail, b: MetricDetail)
    requires
        detail_fields(a) == detail_fields(b),
    ensures
        a == b,
{
}

/// Whether `i` is the first position in `s` of the metric of `kind_code`
/// for `block_number`.
pub open spec fn is_first_match(s: Seq<MetricDetail>, kind_code: u8, block_number: u64, i: int) -> bool {
    &&& 0 <= i < s.len()
    &&& s[i].is_for(kind_code, block_number)
    &&& forall|j: int| 0 <= j < i ==> !(#[trigger] s[j]).is_for(kind_code, block_number)
}

/// Whether `s` holds a metric of `kind_code` for `block_number`.
pub open spec fn has_match(s: Seq<MetricDetail>, kind_code: u8, block_number: u64) -> bool {
    exists|i: int| 0 <= i < s.len() && (#[trigger] s[i]).is_for(kind_code, block_number)
}

/// The first position in `s` of the metric of `kind_code` for `block_number`
/// (meaningful where `has_match` holds).
pub open spec fn first_match(s: Seq<MetricDetail>, kind_code: u8, block_number: u64) -> int {
    choose|i: int| is_first_match(s, kind_code, block_number, i)
}

/// The stored metrics after recording a whole metric.
pub open spec fn spec_observe(
    s: Seq<MetricDetail>,
    kind: MetricKind,
    block_number: u64,
    start_timestamp: u128,
    end_timestamp: u128,
) -> Seq<MetricDetail> {
    s.push(MetricDetail::spec_new(kind.code(), block_number, start_timestamp as u64, end_timestamp as u64))
}

/// The stored metrics after recording a whole metric whose parts may be missing:
/// nothing is recorded unless all three are there.
pub open spec fn spec_observe_option(
    s: Seq<MetricDetail>,
    kind: MetricKind,
    block_number: Option<u64>,
    start_timestamp: Option<u128>,
    end_timestamp: Option<u128>,
) -> Seq<MetricDetail> {
    match (block_number, start_timestamp, end_timestamp) {
        (Some(b), Some(st), Some(en)) => spec_observe(s, kind, b, st, en),
        _ => s,
    }
}

/// The stored metrics after recording one half (the start when `is_start`,
/// else the end) of a metric: the first stored metric of the same kind and
/// block gets that time; where there is none, a new metric is added whose
/// other time is 0. Nothing changes unless the block and time are both there.
pub open spec fn spec_observe_partial(
    s: Seq<MetricDetail>,
    kind: MetricKind,
    block_number: Option<u64>,
    timestamp: Option<u128>,
    is_start: bool,
) -> Seq<MetricDetail> {
    match (block_number, timestamp) {
        (Some(b), Some(t)) => {
            let ts = t as u64;
            if has_match(s, kind.code(), b) {
                let i = first_match(s, kind.code(), b);
                s.update(i, s[i].with_time(ts, is_start))
            } else if is_start {
                s.push(MetricDetail::spec_new(kind.code(), b, ts, 0))
            } else {
                s.push(MetricDetail::spec_new(kind.code(), b, 0, ts))
            }
        },
        _ => s,
    }
}

#[verifier::external_type_specification]
#[verifier::external_body]
pub struct ExSystemTime(std::time::SystemTime);

#[verifier::external_type_specification]
#[verifier::external_body]
pub struct ExSystemTimeError(std::time::SystemTimeError);

/// `SystemTime::now` (std): the current time of the system clock. Nothing is
/// stated of it: it depends on the clock.
#[verifier::external_body]
fn system_now() -> std::time::SystemTime {
    std::time::SystemTime::now()
}

/// `SystemTime::duration_since` with `UNIX_EPOCH` (std): how long after the
/// Unix epoch `t` is, or an error where the clock stands before it. Nothing
/// more is stated: which of the two comes back depends on the clock.
#[verifier::external_body]
fn since_unix_epoch(t: &std::time::SystemTime) -> Result<std::time::Duration, std::time::SystemTimeError> {
    t.duration_since(std::time::UNIX_EPOCH)
}

/// `Duration::as_secs` (std): the whole seconds of `d`.
#[verifier::external_body]
fn duration_secs(d: &std::time::Duration) -> u64 {
    d.as_secs()
}

/// `Duration::subsec_millis` (std): the whole milliseconds of `d` past its
/// whole seconds, which std documents as less than one thousand.
#[verifier::external_body]
fn duration_subsec_millis(d: &std::time::Duration) -> (res: u32)
    ensures
        res < 1000,
{
    d.subsec_millis()
}

/// The number of whole milliseconds in a duration of `secs` whole seconds
/// and `subsec_millis` more milliseconds.
pub open spec fn millis_from_parts_spec(secs: u64, subsec_millis: u32) -> int {
    secs * 1000 + subsec_millis
}

/// The number of whole milliseconds in a duration of `secs` whole seconds
/// and `subsec_millis` more milliseconds.
pub fn millis_from_parts(secs: u64, subsec_millis: u32) -> (res: u128)
    ensures
        res == millis_from_parts_spec(secs, subsec_millis),
{
    (secs as u128) * 1000 + (subsec_millis as u128)
}

/// The store of metrics that have been observed and not yet sent.
pub struct MetricActions {
    stored: Vec<MetricDetail>,
}

impl View for MetricActions {
    type V = Seq<MetricDetail>;

    closed spec fn view(&self) -> Seq<MetricDetail> {
        self.stored@
    }
}

impl MetricActions {
    /// An empty store.
    pub fn new() -> (res: Self)
        ensures
            res@ == Seq::<MetricDetail>::empty(),
    {
        MetricActions { stored: Vec::new() }
    }

    /// The number of stored metrics.
    pub fn len(&self) -> (res: usize)
        ensures
            res == self@.len(),
    {
        self.stored.len()
    }

    /// The stored metric at `index`.
    pub fn get(&self, index: usize) -> (res: MetricDetail)
        requires
            index < self@.len(),
        ensures
            res == self@[index as int],
    {
        self.stored[index]
    }

    /// Records a metric when the block and both times are known; does nothing
    /// otherwise.
    pub fn observe_metric_option(
        &mut self,
        kind: MetricKind,
        block_number: Option<u64>,
        start_timestamp: Option<u128>,
        end_timestamp: Option<u128>,
    )
        ensures
            final(self)@ == spec_observe_option(old(self)@, kind, block_number, start_timestamp, end_timestamp),
    {
        match (block_number, start_timestamp, end_timestamp) {
            (Some(block_number), Some(start_timestamp), Some(end_timestamp)) => {
                self.observe_metric(kind, block_number, start_timestamp, end_timestamp);
            },
            _ => {},
        }
    }

    /// Records a metric of `kind` for `block_number`; the times are stored
    /// in 64 bits (their low 64 bits).
    pub fn observe_metric(&mut self, kind: MetricKind, block_number: u64, start_timestamp: u128, end_timestamp: u128)
        ensures
            final(self)@ == spec_observe(old(self)@, kind, block_number, start_timestamp, end_timestamp),
    {
        let detail = MetricDetail::new(kind, block_number, start_timestamp as u64, end_timestamp as u64);
        self.stored.push(detail);
    }

    /// Records the start (when `is_start`) or the end of a metric of `kind`
    /// for `block_number`, so that the two halves can be observed at different
    /// places: the first stored metric of that kind and block gets the time;
    /// if there is none, a new one is stored with 0 for the other time.
    /// Does nothing unless both the block and the time are known.
    pub fn observe_metric_partial(
        &mut self,
        kind: MetricKind,
        block_number: Option<u64>,
        timestamp: Option<u128>,
        is_start: bool,
    )
        ensures
            final(self)@ == spec_observe_partial(old(self)@, kind, block_number, timestamp, is_start),
    {
        let bn = match block_number {
            Some(b) => b,
            None => return,
        };
        let wide = match timestamp {
            Some(t) => t,
            None => return,
        };
        let ts = wide as u64;
        let code = kind.to_u8();
        let n = self.stored.len();
        let mut i: usize = 0;
        while i < n
            invariant
                n == self.stored@.len(),
                self.stored@ == old(self).stored@,
                0 <= i <= n,
                code == kind.code(),
                block_number == Some(bn),
                timestamp == Some(wide),
                ts == wide as u64,
                forall|j: int| 0 <= j < i ==> !(#[trigger] self.stored@[j]).is_for(code, bn),
            decreases n - i,
        {
            if self.stored[i].block_number == bn && self.stored[i].kind == code {
                proof {
                    let s = old(self).stored@;
                    assert(is_first_match(s, code, bn, i as int));
                    assert(has_match(s, code, bn));
                    let k = first_match(s, code, bn);
                    assert(is_first_match(s, code, bn, k));
                    if k < i {
                        assert(!s[k].is_for(code, bn));
                    }
                    if k > i {
                        assert(!s[i as int].is_for(code, bn));
                    }
                    assert(k == i);
                }
                let mut item = self.stored[i];
                item.set_time(ts, is_start);
                self.stored.set(i, item);
                return;
            }
            i += 1;
        }
        proof {
            let s = old(self).stored@;
            assert(!has_match(s, code, bn));
        }
        let metric = if is_start {
            MetricDetail::new(kind, bn, ts, 0)
        } else {
            MetricDetail::new(kind, bn, 0, ts)
        };
        self.stored.push(metric);
    }

    /// The time of the system clock in whole milliseconds since the Unix
    /// epoch, or the clock's error where it stands before the epoch. What the
    /// clock reads is not stated; the milliseconds are whole seconds times
    /// one thousand plus less than one thousand.
    pub fn get_current_timestamp_in_ms() -> (res: Result<u128, std::time::SystemTimeError>)
        ensures
            res matches Ok(ms) ==> exists|secs: u64, sub: u32| sub < 1000 && ms == millis_from_parts_spec(secs, sub),
    {
        let start = system_now();
        match since_unix_epoch(&start) {
            Ok(d) => {
                let secs = duration_secs(&d);
                let sub = duration_subsec_millis(&d);
                let ms = millis_from_parts(secs, sub);
                proof {
                    assert(sub < 1000 && ms == millis_from_parts_spec(secs, sub));
                }
                Ok(ms)
            },
            Err(e) => Err(e),
        }
    }

    /// Hands out every stored metric, in the order they were stored, and
    /// leaves the store empty.
    pub fn take_metrics(&mut self) -> (res: Vec<MetricDetail>)
        ensures
            res@ == old(self)@,
            final(self)@ == Seq::<MetricDetail>::empty(),
    {
        let mut taken: Vec<MetricDetail> = Vec::new();
        std::mem::swap(&mut taken, &mut self.stored);
        taken
    }
}

/// Recording a whole metric whose parts are all known is the same as
/// recording it with `observe_metric`; with a part missing nothing changes.
pub proof fn lemma_observe_option_all_known(
    s: Seq<MetricDetail>,
    kind: MetricKind,
    block_number: u64,
    start_timestamp: u128,
    end_timestamp: u128,
)
    ensures
        spec_observe_option(s, kind, Some(block_number), Some(start_timestamp), Some(end_timestamp))
            == spec_observe(s, kind, block_number, start_timestamp, end_timestamp),
        spec_observe_option(s, kind, None, Some(start_timestamp), Some(end_timestamp)) == s,
        spec_observe_option(s, kind, Some(block_number), None, Some(end_timestamp)) == s,
        spec_observe_option(s, kind, Some(block_number), Some(start_timestamp), None) == s,
{
}

/// Recording a metric adds exactly one entry at the end and leaves the
/// entries before it as they were.
pub proof fn lemma_observe_appends(
    s: Seq<MetricDetail>,
    kind: MetricKind,
    block_number: u64,
    start_timestamp: u128,
    end_timestamp: u128,
)
    ensures
        spec_observe(s, kind, block_number, start_timestamp, end_timestamp).len() == s.len() + 1,
        spec_observe(s, kind, block_number, start_timestamp, end_timestamp).subrange(0, s.len() as int) == s,
        spec_observe(s, kind, block_number, start_timestamp, end_timestamp)[s.len() as int].is_for(
            kind.code(),
            block_number,
        ),
{
    let r = spec_observe(s, kind, block_number, start_timestamp, end_timestamp);
    assert(r.subrange(0, s.len() as int) =~= s);
}

/// Observing the start and the end of a metric in two halves, in either
/// order, on a store that holds no metric of that kind and block, stores the
/// same as observing the whole metric at once.
pub proof fn lemma_partial_halves_make_whole(
    s: Seq<MetricDetail>,
    kind: MetricKind,
    block_number: u64,
    start_timestamp: u128,
    end_timestamp: u128,
)
    requires
        !has_match(s, kind.code(), block_number),
    ensures
        spec_observe_partial(
            spec_observe_partial(s, kind, Some(block_number), Some(start_timestamp), true),
            kind,
            Some(block_number),
            Some(end_timestamp),
            false,
        ) == spec_observe(s, kind, block_number, start_timestamp, end_timestamp),
        spec_observe_partial(
            spec_observe_partial(s, kind, Some(block_number), Some(end_timestamp), false),
            kind,
            Some(block_number),
            Some(start_timestamp),
            true,
        ) == spec_observe(s, kind, block_number, start_timestamp, end_timestamp),
{
    let code = kind.code();
    let st = start_timestamp as u64;
    let en = end_timestamp as u64;
    let whole = spec_observe(s, kind, block_number, start_timestamp, end_timestamp);
    let n = s.len() as int;

    let s1 = s.push(MetricDetail::spec_new(code, block_number, st, 0));
    assert(spec_observe_partial(s, kind, Some(block_number), Some(start_timestamp), true) == s1);
    assert(is_first_match(s1, code, block_number, n)) by {
        assert forall|j: int| 0 <= j < n implies !(#[trigger] s1[j]).is_for(code, block_number) by {
            assert(s1[j] == s[j]);
            if s[j].is_for(code, block_number) {
                assert(has_match(s, code, block_number));
            }
        }
    }
    assert(has_match(s1, code, block_number));
    let k1 = first_match(s1, code, block_number);
    assert(is_first_match(s1, code, block_number, k1));
    if k1 < n {
        assert(s1[k1] == s[k1]);
        assert(has_match(s, code, block_number));
    }
    assert(k1 == n);
    assert(s1.update(n, s1[n].with_time(en, false)) =~= whole);

    let s2 = s.push(MetricDetail::spec_new(code, block_number, 0, en));
    assert(spec_observe_partial(s, kind, Some(block_number), Some(end_timestamp), false) == s2);
    assert(is_first_match(s2, code, block_number, n)) by {
        assert forall|j: int| 0 <= j < n implies !(#[trigger] s2[j]).is_for(code, block_number) by {
            assert(s2[j] == s[j]);
            if s[j].is_for(code, block_number) {
                assert(has_match(s, code, block_number));
            }
        }
    }
    assert(has_match(s2, code, block_number));
    let k2 = first_match(s2, code, block_number);
    assert(is_first_match(s2, code, block_number, k2));
    if k2 < n {
        assert(s2[k2] == s[k2]);
        assert(has_match(s, code, block_number));
    }
    assert(k2 == n);
    assert(s2.update(n, s2[n].with_time(st, true)) =~= whole);
}

/// Whether no two metrics of `s` are of the same kind and block.
pub open spec fn metrics_distinct(s: Seq<MetricDetail>) -> bool {
    forall|i: int, j: int|
        0 <= i < j < s.len() ==> !(#[trigger] s[j]).is_for((#[trigger] s[i]).kind_code(), s[i].block())
}

/// Setting a time keeps the metric's kind and block, sets the start (when
/// `is_start`) or the end to `timestamp`, and keeps the other time.
pub proof fn lemma_with_time_keeps_key(d: MetricDetail, timestamp: u64, is_start: bool)
    ensures
        d.with_time(timestamp, is_start).kind_code() == d.kind_code(),
        d.with_time(timestamp, is_start).block() == d.block(),
        d.with_time(timestamp, is_start).start() == (if is_start { timestamp } else { d.start() }),
        d.with_time(timestamp, is_start).end() == (if is_start { d.end() } else { timestamp }),
{
}

/// Observing half of a metric never makes two metrics of one kind and
/// block: it updates the one there is, or adds one where there is none.
pub proof fn lemma_partial_keeps_metrics_distinct(
    s: Seq<MetricDetail>,
    kind: MetricKind,
    block_number: Option<u64>,
    timestamp: Option<u128>,
    is_start: bool,
)
    requires
        metrics_distinct(s),
    ensures
        metrics_distinct(spec_observe_partial(s, kind, block_number, timestamp, is_start)),
{
    if let (Some(b), Some(t)) = (block_number, timestamp) {
        let ts = t as u64;
        let code = kind.code();
        let r = spec_observe_partial(s, kind, block_number, timestamp, is_start);
        if has_match(s, code, b) {
            let k = first_match(s, code, b);
            let w = choose|w: int| 0 <= w < s.len() && (#[trigger] s[w]).is_for(code, b);
            assert(is_first_match(s, code, b, k)) by {
                // the first of the matching positions
                let first = first_index(s, code, b, w);
                assert(is_first_match(s, code, b, first));
            }
            assert forall|i: int, j: int| 0 <= i < j < r.len() implies !(#[trigger] r[j]).is_for(
                (#[trigger] r[i]).kind_code(),
                r[i].block(),
            ) by {
                assert(r[i].kind_code() == s[i].kind_code() && r[i].block() == s[i].block());
                assert(r[j].kind_code() == s[j].kind_code() && r[j].block() == s[j].block());
                assert(!s[j].is_for(s[i].kind_code(), s[i].block()));
            }
        } else {
            let n = s.len() as int;
            assert forall|i: int, j: int| 0 <= i < j < r.len() implies !(#[trigger] r[j]).is_for(
                (#[trigger] r[i]).kind_code(),
                r[i].block(),
            ) by {
                if j == n {
                    assert(r[i] == s[i]);
                    if s[i].is_for(code, b) {
                        assert(has_match(s, code, b));
                    }
                } else {
                    assert(r[i] == s[i] && r[j] == s[j]);
                    assert(!s[j].is_for(s[i].kind_code(), s[i].block()));
                }
            }
        }
    }
}

/// The first position of `s` at or before `w` that holds the metric of
/// `kind_code` for `block_number`, given that `w` holds it.
proof fn first_index(s: Seq<MetricDetail>, kind_code: u8, block_number: u64, w: int) -> (f: int)
    requires
        0 <= w < s.len(),
        s[w].is_for(kind_code, block_number),
    ensures
        is_first_match(s, kind_code, block_number, f),
    decreases w,
{
    if exists|j: int| 0 <= j < w && (#[trigger] s[j]).is_for(kind_code, block_number) {
        let j = choose|j: int| 0 <= j < w && (#[trigger] s[j]).is_for(kind_code, block_number);
        first_index(s, kind_code, block_number, j)
    } else {
        w
    }
}

/// Handing out the metrics empties the store, so a later observation starts
/// a fresh batch.
pub proof fn lemma_take_then_observe(
    kind: MetricKind,
    block_number: u64,
    start_timestamp: u128,
    end_timestamp: u128,
)
    ensures
        spec_observe(Seq::<MetricDetail>::empty(), kind, block_number, start_timestamp, end_timestamp)
            == seq![MetricDetail::spec_new(kind.code(), block_number, start_timestamp as u64, end_timestamp as u64)],
{
    assert(spec_observe(Seq::<MetricDetail>::empty(), kind, block_number, start_timestamp, end_timestamp)
        =~= seq![MetricDetail::spec_new(kind.code(), block_number, start_timestamp as u64, end_timestamp as u64)]);
}

} // verus!
