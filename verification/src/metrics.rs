//! The state machine of a shard: the metrics that committed operations have
//! recorded, and the index of the last log entry that was applied.
//!
//! A metric value is carried as the 64-bit pattern of a double-precision
//! number. The state machine stores and orders the patterns; sums and
//! averages are left to the code that reads them as numbers.

use crate::raft::entry::{Entry, EntryType};
use vstd::prelude::*;

verus! {

/// One recorded value of a metric.
#[derive(Clone, Copy, Debug, PartialEq, Eq, Structural)]
pub struct MetricValue {
    /// The bit pattern of the value.
    pub value: u64,
    pub _timestamp: i64,
}

/// What is known of a metric without arithmetic on its values.
#[derive(Clone, Copy, Debug, PartialEq, Eq, Structural)]
pub struct MetricAggregate {
    /// How many values were recorded.
    pub count: u64,
    /// The bit pattern of the least value.
    pub min: u64,
    /// The bit pattern of the greatest value.
    pub max: u64,
    /// The bit pattern of the value recorded last.
    pub latest: u64,
}

/// The unit of consensus: what a committed log entry asks of the state
/// machine.
#[derive(Debug)]
pub enum MetricOperation {
    /// Record a value, given as its bit pattern, under a name.
    Record { name: String, value: u64 },
    /// Forget a metric.
    Delete { name: String },
}

/// The mathematical value of a [`MetricOperation`].
pub enum MetricOperationView {
    Record { name: Seq<char>, value: u64 },
    Delete { name: Seq<char> },
}

impl View for MetricOperation {
    type V = MetricOperationView;

    open spec fn view(&self) -> MetricOperationView {
        match self {
            MetricOperation::Record { name, value } => MetricOperationView::Record {
                name: name@,
                value: *value,
            },
            MetricOperation::Delete { name } => MetricOperationView::Delete { name: name@ },
        }
    }
}

/// What became of a log entry that was offered to the state machine.
#[derive(Clone, Copy, Debug, PartialEq, Eq, Structural)]
pub enum ApplyOutcome {
    /// The operation was carried out.
    Applied,
    /// The entry holds no operation: it is empty or changes the
    /// configuration. It counts as applied.
    Empty,
    /// The payload could not be read as an operation. The entry counts as
    /// applied, so that the replica keeps step with its peers.
    Unreadable,
    /// The entry was applied before; nothing changed.
    AlreadyApplied,
    /// The entry does not follow the last applied one; nothing changed.
    OutOfOrder,
}

/// The key by which bit patterns are ordered as the numbers they stand for:
/// negative numbers below positive ones, and each side by magnitude.
pub open spec fn order_key(bits: u64) -> u64 {
    if bits >= 0x8000_0000_0000_0000 {
        (u64::MAX - bits) as u64
    } else {
        (bits + 0x8000_0000_0000_0000) as u64
    }
}

/// The key by which bit patterns are ordered as the numbers they stand for.
pub fn order_key_of(bits: u64) -> (key: u64)
    ensures
        key == order_key(bits),
{
    if bits >= 0x8000_0000_0000_0000 {
        u64::MAX - bits
    } else {
        bits + 0x8000_0000_0000_0000
    }
}

/// Whether an aggregate is that of some values: it counts them, holds the
/// last of them, and holds as least and greatest two of them between which
/// all lie, in the order of the numbers that the bit patterns stand for.
pub open spec fn summarizes(aggregate: MetricAggregate, values: Seq<MetricValue>) -> bool {
    &&& aggregate.count == values.len()
    &&& aggregate.latest == values.last().value
    &&& exists|i: int| 0 <= i < values.len() && (#[trigger] values[i]).value == aggregate.min
    &&& exists|i: int| 0 <= i < values.len() && (#[trigger] values[i]).value == aggregate.max
    &&& forall|i: int|
        0 <= i < values.len() ==> order_key(aggregate.min) <= order_key(
            (#[trigger] values[i]).value,
        ) <= order_key(aggregate.max)
}

/// The aggregate of some values, of which there is at least one.
fn summarize(values: &Vec<MetricValue>) -> (aggregate: MetricAggregate)
    requires
        values.len() > 0,
    ensures
        summarizes(aggregate, values@),
{
    let mut min: u64 = values[0].value;
    let mut max: u64 = values[0].value;
    let mut k: usize = 1;
    while k < values.len()
        invariant
            1 <= k <= values.len(),
            exists|j: int| 0 <= j < k && (#[trigger] values[j]).value == min,
            exists|j: int| 0 <= j < k && (#[trigger] values[j]).value == max,
            forall|j: int|
                0 <= j < k ==> order_key(min) <= order_key((#[trigger] values[j]).value)
                    <= order_key(max),
        decreases values.len() - k,
    {
        let value: u64 = values[k].value;
        if order_key_of(value) < order_key_of(min) {
            min = value;
        }
        if order_key_of(value) > order_key_of(max) {
            max = value;
        }
        k = k + 1;
    }
    MetricAggregate { count: values.len() as u64, min, max, latest: values[values.len() - 1].value }
}

/// The values recorded under one name, oldest first.
#[derive(Debug)]
pub struct MetricSeries {
    pub name: String,
    pub values: Vec<MetricValue>,
}

impl Clone for MetricSeries {
    fn clone(&self) -> (copy: Self)
        ensures
            copy.name@ == self.name@,
            copy.values@ == self.values@,
    {
        MetricSeries { name: self.name.clone(), values: self.values.clone() }
    }
}

/// The state machine of one shard.
#[derive(Debug)]
pub struct MetricsRegistry {
    series: Vec<MetricSeries>,
    last_applied: u64,
}

/// The mathematical value of a [`MetricsRegistry`].
pub struct RegistryView {
    /// The values recorded under each name, oldest first.
    pub metrics: Map<Seq<char>, Seq<MetricValue>>,
    /// The index of the last log entry that was applied.
    pub last_applied: u64,
}

/// The metrics that a list of series holds.
pub open spec fn series_map(series: Seq<MetricSeries>) -> Map<Seq<char>, Seq<MetricValue>>
    decreases series.len(),
{
    if series.len() == 0 {
        Map::empty()
    } else {
        series_map(series.drop_last()).insert(series.last().name@, series.last().values@)
    }
}

/// Whether a list of series names no metric twice and holds no empty series.
pub open spec fn series_wf(series: Seq<MetricSeries>) -> bool {
    &&& forall|i: int, j: int|
        0 <= i < j < series.len() ==> (#[trigger] series[i]).name@ != (#[trigger] series[j]).name@
    &&& forall|i: int| 0 <= i < series.len() ==> (#[trigger] series[i]).values@.len() > 0
}

/// The map of a list of series holds exactly the names of the list, each with
/// its values.
proof fn lemma_series_map(series: Seq<MetricSeries>)
    requires
        series_wf(series),
    ensures
        forall|i: int|
            0 <= i < series.len() ==> series_map(series).dom().contains(
                (#[trigger] series[i]).name@,
            ) && series_map(series)[series[i].name@] == series[i].values@,
        forall|name: Seq<char>| #[trigger]
            series_map(series).dom().contains(name) ==> exists|i: int|
                0 <= i < series.len() && (#[trigger] series[i]).name@ == name,
    decreases series.len(),
{
    if series.len() > 0 {
        let front = series.drop_last();
        assert(series_wf(front)) by {
            assert forall|i: int, j: int| 0 <= i < j < front.len() implies (#[trigger] front[i]).name@
                != (#[trigger] front[j]).name@ by {
                assert(front[i] == series[i] && front[j] == series[j]);
            }
            assert forall|i: int| 0 <= i < front.len() implies (#[trigger] front[i]).values@.len()
                > 0 by {
                assert(front[i] == series[i]);
            }
        }
        lemma_series_map(front);
        assert forall|i: int| 0 <= i < series.len() implies series_map(series).dom().contains(
            (#[trigger] series[i]).name@,
        ) && series_map(series)[series[i].name@] == series[i].values@ by {
            if i < series.len() - 1 {
                assert(front[i] == series[i]);
                assert(series[i].name@ != series[series.len() - 1].name@);
            }
        }
        assert forall|name: Seq<char>| #[trigger]
            series_map(series).dom().contains(name) implies exists|i: int|
            0 <= i < series.len() && (#[trigger] series[i]).name@ == name by {
            if name == series.last().name@ {
                assert(series[series.len() - 1].name@ == name);
            } else {
                assert(series_map(front).dom().contains(name));
                let i = choose|i: int| 0 <= i < front.len() && (#[trigger] front[i]).name@ == name;
                assert(front[i] == series[i]);
                assert(series[i].name@ == name);
            }
        }
    }
}

impl RegistryView {
    /// The state after a value was recorded under a name.
    pub open spec fn recorded(self, name: Seq<char>, value: MetricValue) -> RegistryView {
        let before = if self.metrics.dom().contains(name) {
            self.metrics[name]
        } else {
            Seq::empty()
        };
        RegistryView { metrics: self.metrics.insert(name, before.push(value)), ..self }
    }

    /// The state after a metric was forgotten.
    pub open spec fn deleted(self, name: Seq<char>) -> RegistryView {
        RegistryView { metrics: self.metrics.remove(name), ..self }
    }

    /// The state after an operation was carried out.
    pub open spec fn performed(self, operation: MetricOperationView) -> RegistryView {
        match operation {
            MetricOperationView::Record { name, value } => self.recorded(
                name,
                MetricValue { value, _timestamp: 0 },
            ),
            MetricOperationView::Delete { name } => self.deleted(name),
        }
    }

    /// What becomes of a log entry with the given index and content.
    pub open spec fn outcome(
        self,
        index: u64,
        holds_operation: bool,
        operation: Option<MetricOperationView>,
    ) -> ApplyOutcome {
        if index <= self.last_applied {
            ApplyOutcome::AlreadyApplied
        } else if index != self.last_applied + 1 {
            ApplyOutcome::OutOfOrder
        } else if !holds_operation {
            ApplyOutcome::Empty
        } else if operation is None {
            ApplyOutcome::Unreadable
        } else {
            ApplyOutcome::Applied
        }
    }

    /// The state after a log entry was offered: the entry that follows the
    /// last applied one moves the apply position, and its operation, if it
    /// holds a readable one, is carried out. Any other entry changes nothing.
    pub open spec fn applied(
        self,
        index: u64,
        holds_operation: bool,
        operation: Option<MetricOperationView>,
    ) -> RegistryView {
        match self.outcome(index, holds_operation, operation) {
            ApplyOutcome::Applied => RegistryView {
                last_applied: index,
                ..self.performed(operation.unwrap())
            },
            ApplyOutcome::Empty | ApplyOutcome::Unreadable => RegistryView {
                last_applied: index,
                ..self
            },
            _ => self,
        }
    }
}

/// Whether an entry holds an operation for the state machine: it is a normal
/// entry with a payload.
pub open spec fn holds_operation(entry_type: EntryType, data: Seq<u8>) -> bool {
    entry_type == EntryType::EntryNormal && data.len() > 0
}

impl View for MetricsRegistry {
    type V = RegistryView;

    closed spec fn view(&self) -> RegistryView {
        RegistryView { metrics: series_map(self.series@), last_applied: self.last_applied }
    }
}

impl MetricsRegistry {
    /// Whether the registry satisfies its invariant.
    pub closed spec fn wf(&self) -> bool {
        series_wf(self.series@)
    }

    /// A state machine that has applied nothing.
    pub fn new() -> (registry: Self)
        ensures
            registry.wf(),
            registry@.metrics == Map::<Seq<char>, Seq<MetricValue>>::empty(),
            registry@.last_applied == 0,
    {
        MetricsRegistry { series: Vec::new(), last_applied: 0 }
    }

    /// A state machine that takes up after the entry at `last_applied`, with
    /// no metrics yet.
    pub fn resume(last_applied: u64) -> (registry: Self)
        ensures
            registry.wf(),
            registry@.metrics == Map::<Seq<char>, Seq<MetricValue>>::empty(),
            registry@.last_applied == last_applied,
    {
        MetricsRegistry { series: Vec::new(), last_applied }
    }

    /// The state machine that a snapshot holds: the given series, applied
    /// up to `last_applied`. Nothing when a metric is named twice or a
    /// series is empty.
    pub fn restore(last_applied: u64, series: Vec<MetricSeries>) -> (registry: Option<Self>)
        ensures
            registry is Some <==> series_wf(series@),
            registry matches Some(r) ==> r.wf() && r@.metrics == series_map(series@)
                && r@.last_applied == last_applied,
    {
        let mut i: usize = 0;
        while i < series.len()
            invariant
                i <= series.len(),
                forall|a: int, b: int|
                    0 <= a < b < series.len() && a < i ==> (#[trigger] series[a]).name@ != (
                    #[trigger] series[b]).name@,
                forall|a: int| 0 <= a < i ==> (#[trigger] series[a]).values@.len() > 0,
            decreases series.len() - i,
        {
            if series[i].values.len() == 0 {
                return None;
            }
            let mut j: usize = i + 1;
            while j < series.len()
                invariant
                    i < j <= series.len(),
                    forall|b: int|
                        i < b < j ==> series[i as int].name@ != (#[trigger] series[b]).name@,
                decreases series.len() - j,
            {
                if series[i].name == series[j].name {
                    return None;
                }
                j = j + 1;
            }
            i = i + 1;
        }
        Some(MetricsRegistry { series, last_applied })
    }

    /// The series of the state machine, as a snapshot keeps them.
    pub fn export(&self) -> (series: Vec<MetricSeries>)
        requires
            self.wf(),
        ensures
            series_wf(series@),
            series_map(series@) == self@.metrics,
    {
        let mut series: Vec<MetricSeries> = Vec::new();
        let mut i: usize = 0;
        while i < self.series.len()
            invariant
                i <= self.series.len(),
                series.len() == i,
                forall|k: int|
                    0 <= k < i ==> (#[trigger] series[k]).name@ == self.series[k].name@
                        && series[k].values@ == self.series[k].values@,
            decreases self.series.len() - i,
        {
            series.push(self.series[i].clone());
            i = i + 1;
        }
        proof {
            lemma_series_map_same(series@, self.series@);
        }
        series
    }

    /// The index of the last log entry that was applied.
    pub fn last_applied(&self) -> (index: u64)
        ensures
            index == self@.last_applied,
    {
        self.last_applied
    }

    /// The place of a metric in the list of series.
    fn find(&self, name: &str) -> (place: Option<usize>)
        requires
            self.wf(),
        ensures
            place is Some <==> self@.metrics.dom().contains(name@),
            place matches Some(i) ==> i < self.series.len() && self.series[i as int].name@
                == name@ && self.series[i as int].values@ == self@.metrics[name@],
    {
        proof {
            lemma_series_map(self.series@);
        }
        let wanted: String = name.to_owned();
        let mut i: usize = 0;
        while i < self.series.len()
            invariant
                self.wf(),
                i <= self.series.len(),
                wanted@ == name@,
                forall|k: int| 0 <= k < i ==> (#[trigger] self.series[k]).name@ != name@,
            decreases self.series.len() - i,
        {
            if self.series[i].name == wanted {
                proof {
                    lemma_series_map(self.series@);
                    assert(self.series@[i as int].name@ == name@);
                }
                return Some(i);
            }
            i = i + 1;
        }
        proof {
            lemma_series_map(self.series@);
            if self@.metrics.dom().contains(name@) {
                let k = choose|k: int|
                    0 <= k < self.series@.len() && (#[trigger] self.series@[k]).name@ == name@;
                assert(false);
            }
        }
        None
    }

    /// Records a value under a name, at time zero.
    pub fn record_metric(&mut self, name: &str, value: u64)
        requires
            old(self).wf(),
        ensures
            final(self).wf(),
            final(self)@ == old(self)@.recorded(name@, MetricValue { value, _timestamp: 0 }),
    {
        self.record_metric_with_timestamp(name, value, 0);
    }

    /// Records a value under a name, with the time it was taken at.
    pub fn record_metric_with_timestamp(&mut self, name: &str, value: u64, _timestamp: i64)
        requires
            old(self).wf(),
        ensures
            final(self).wf(),
            final(self)@ == old(self)@.recorded(name@, MetricValue { value, _timestamp }),
    {
        let recorded = MetricValue { value, _timestamp };
        let ghost before = self.series@;
        proof {
            lemma_series_map(before);
        }
        match self.find(name) {
            Some(i) => {
                let mut values: Vec<MetricValue> = Vec::new();
                std::mem::swap(&mut self.series[i].values, &mut values);
                values.push(recorded);
                self.series[i].values = values;
                proof {
                    lemma_series_update(before, self.series@, i as int);
                    assert(self@.metrics =~= old(self)@.recorded(name@, recorded).metrics);
                }
            },
            None => {
                let mut values: Vec<MetricValue> = Vec::new();
                values.push(recorded);
                self.series.push(MetricSeries { name: name.to_owned(), values });
                proof {
                    assert(self.series@.drop_last() =~= before);
                    assert(self@.metrics =~= old(self)@.recorded(name@, recorded).metrics);
                    assert(series_wf(self.series@)) by {
                        assert forall|a: int, b: int| 0 <= a < b < self.series@.len() implies (
                        #[trigger] self.series@[a]).name@ != (#[trigger] self.series@[b]).name@ by {
                            assert(self.series@[a] == before[a]);
                            if b < before.len() {
                                assert(self.series@[b] == before[b]);
                            }
                        }
                        assert forall|a: int| 0 <= a < self.series@.len() implies (
                        #[trigger] self.series@[a]).values@.len() > 0 by {
                            if a < before.len() {
                                assert(self.series@[a] == before[a]);
                            }
                        }
                    }
                }
            },
        }
    }

    /// Forgets a metric, if it is there.
    pub fn delete_metric(&mut self, name: &str)
        requires
            old(self).wf(),
        ensures
            final(self).wf(),
            final(self)@ == old(self)@.deleted(name@),
    {
        let ghost before = self.series@;
        proof {
            lemma_series_map(before);
        }
        match self.find(name) {
            Some(i) => {
                self.series.remove(i);
                proof {
                    lemma_series_remove(before, i as int);
                    assert(self.series@ =~= before.remove(i as int));
                    assert(self@.metrics =~= old(self)@.deleted(name@).metrics);
                }
            },
            None => {
                proof {
                    assert(self@.metrics =~= old(self)@.deleted(name@).metrics);
                }
            },
        }
    }

    /// The value recorded last under a name, if any was.
    pub fn get_metric(&self, name: &str) -> (value: Option<u64>)
        requires
            self.wf(),
        ensures
            value == if self@.metrics.dom().contains(name@) {
                Some(self@.metrics[name@].last().value)
            } else {
                None
            },
    {
        match self.find(name) {
            Some(i) => {
                let values = &self.series[i].values;
                Some(values[values.len() - 1].value)
            },
            None => None,
        }
    }

    /// The values recorded under a name, oldest first; nothing when the
    /// metric is not there.
    pub fn values(&self, name: &str) -> (values: Option<Vec<MetricValue>>)
        requires
            self.wf(),
        ensures
            values is Some <==> self@.metrics.dom().contains(name@),
            values matches Some(v) ==> v@ == self@.metrics[name@],
    {
        match self.find(name) {
            Some(i) => Some(self.series[i].values.clone()),
            None => None,
        }
    }

    /// The count, the least, the greatest and the last of the values recorded
    /// under a name, if any was. The least and the greatest are taken in the
    /// order of the numbers that the bit patterns stand for.
    pub fn get_metric_aggregate(&self, name: &str) -> (aggregate: Option<MetricAggregate>)
        requires
            self.wf(),
        ensures
            aggregate is Some <==> self@.metrics.dom().contains(name@),
            aggregate matches Some(a) ==> summarizes(a, self@.metrics[name@]),
    {
        match self.find(name) {
            Some(i) => Some(summarize(&self.series[i].values)),
            None => None,
        }
    }

    /// Every metric with the count, the least, the greatest and the last of
    /// its values.
    pub fn get_all_aggregates(&self) -> (all: Vec<(String, MetricAggregate)>)
        requires
            self.wf(),
        ensures
            forall|i: int|
                0 <= i < all.len() ==> self@.metrics.dom().contains((#[trigger] all[i]).0@)
                    && summarizes(all[i].1, self@.metrics[all[i].0@]),
            forall|name: Seq<char>| #[trigger]
                self@.metrics.dom().contains(name) ==> exists|i: int|
                    0 <= i < all.len() && (#[trigger] all[i]).0@ == name,
            forall|i: int, j: int|
                0 <= i < j < all.len() ==> (#[trigger] all[i]).0@ != (#[trigger] all[j]).0@,
    {
        proof {
            lemma_series_map(self.series@);
        }
        let mut all: Vec<(String, MetricAggregate)> = Vec::new();
        let mut i: usize = 0;
        while i < self.series.len()
            invariant
                self.wf(),
                i <= self.series.len(),
                all.len() == i,
                forall|k: int|
                    0 <= k < i ==> (#[trigger] all[k]).0@ == self.series[k].name@ && summarizes(
                        all[k].1,
                        self.series[k].values@,
                    ),
            decreases self.series.len() - i,
        {
            all.push((self.series[i].name.clone(), summarize(&self.series[i].values)));
            i = i + 1;
        }
        proof {
            assert forall|name: Seq<char>| #[trigger]
                self@.metrics.dom().contains(name) implies exists|i: int|
                0 <= i < all.len() && (#[trigger] all[i]).0@ == name by {
                let k = choose|k: int|
                    0 <= k < self.series@.len() && (#[trigger] self.series@[k]).name@ == name;
                assert(all[k].0@ == name);
            }
        }
        all
    }

    /// Every metric with the value recorded last under it.
    pub fn get_all_metrics(&self) -> (all: Vec<(String, u64)>)
        requires
            self.wf(),
        ensures
            forall|i: int|
                0 <= i < all.len() ==> self@.metrics.dom().contains((#[trigger] all[i]).0@)
                    && all[i].1 == self@.metrics[all[i].0@].last().value,
            forall|name: Seq<char>| #[trigger]
                self@.metrics.dom().contains(name) ==> exists|i: int|
                    0 <= i < all.len() && (#[trigger] all[i]).0@ == name,
            forall|i: int, j: int|
                0 <= i < j < all.len() ==> (#[trigger] all[i]).0@ != (#[trigger] all[j]).0@,
    {
        proof {
            lemma_series_map(self.series@);
        }
        let mut all: Vec<(String, u64)> = Vec::new();
        let mut i: usize = 0;
        while i < self.series.len()
            invariant
                self.wf(),
                i <= self.series.len(),
                all.len() == i,
                forall|k: int|
                    0 <= k < i ==> (#[trigger] all[k]).0@ == self.series[k].name@ && all[k].1
                        == self.series[k].values@.last().value,
            decreases self.series.len() - i,
        {
            let values = &self.series[i].values;
            all.push((self.series[i].name.clone(), values[values.len() - 1].value));
            i = i + 1;
        }
        proof {
            assert forall|name: Seq<char>| #[trigger]
                self@.metrics.dom().contains(name) implies exists|i: int|
                0 <= i < all.len() && (#[trigger] all[i]).0@ == name by {
                let k = choose|k: int|
                    0 <= k < self.series@.len() && (#[trigger] self.series@[k]).name@ == name;
                assert(all[k].0@ == name);
            }
        }
        all
    }

    /// Carries out an operation.
    fn perform(&mut self, operation: &MetricOperation)
        requires
            old(self).wf(),
        ensures
            final(self).wf(),
            final(self)@ == old(self)@.performed(operation@),
    {
        match operation {
            MetricOperation::Record { name, value } => {
                self.record_metric(name.as_str(), *value);
            },
            MetricOperation::Delete { name } => {
                self.delete_metric(name.as_str());
            },
        }
    }

    /// Offers a committed log entry to the state machine, with the operation
    /// that its payload was read as, if it could be read.
    ///
    /// Only the entry that follows the last applied one is taken: an entry
    /// at or before the apply position was applied already, and an entry
    /// further on would leave a gap; both leave the state as it is. An entry
    /// that is taken moves the apply position, whatever it holds: an empty
    /// entry and an entry whose payload could not be read change nothing
    /// else.
    pub fn apply_raft_entry(&mut self, entry: &Entry, operation: Option<MetricOperation>) -> (done:
        ApplyOutcome)
        requires
            old(self).wf(),
        ensures
            final(self).wf(),
            done == old(self)@.outcome(
                entry.index,
                holds_operation(entry.entry_type, entry.data@),
                match operation {
                    Some(op) => Some(op@),
                    None => None,
                },
            ),
            final(self)@ == old(self)@.applied(
                entry.index,
                holds_operation(entry.entry_type, entry.data@),
                match operation {
                    Some(op) => Some(op@),
                    None => None,
                },
            ),
    {
        if entry.index <= self.last_applied {
            return ApplyOutcome::AlreadyApplied;
        }
        if entry.index - 1 != self.last_applied {
            return ApplyOutcome::OutOfOrder;
        }
        let normal: bool = match entry.entry_type {
            EntryType::EntryNormal => true,
            EntryType::EntryConfChange => false,
        };
        if !normal || entry.data.len() == 0 {
            self.last_applied = entry.index;
            return ApplyOutcome::Empty;
        }
        match operation {
            Some(op) => {
                self.perform(&op);
                self.last_applied = entry.index;
                ApplyOutcome::Applied
            },
            None => {
                self.last_applied = entry.index;
                ApplyOutcome::Unreadable
            },
        }
    }
}

/// Two lists of series with the same names and values, place by place, hold
/// the same metrics.
proof fn lemma_series_map_same(a: Seq<MetricSeries>, b: Seq<MetricSeries>)
    requires
        a.len() == b.len(),
        forall|k: int|
            0 <= k < a.len() ==> (#[trigger] a[k]).name@ == b[k].name@ && a[k].values@
                == b[k].values@,
    ensures
        series_map(a) == series_map(b),
        series_wf(b) ==> series_wf(a),
    decreases a.len(),
{
    if a.len() > 0 {
        assert(a.drop_last().len() == b.drop_last().len());
        assert forall|k: int| 0 <= k < a.drop_last().len() implies (#[trigger] a.drop_last()[k]).name@
            == b.drop_last()[k].name@ && a.drop_last()[k].values@ == b.drop_last()[k].values@ by {
            assert(a.drop_last()[k] == a[k]);
            assert(b.drop_last()[k] == b[k]);
        }
        lemma_series_map_same(a.drop_last(), b.drop_last());
        assert(a[a.len() - 1].name@ == b[a.len() - 1].name@);
    }
    if series_wf(b) {
        assert forall|i: int, j: int| 0 <= i < j < a.len() implies (#[trigger] a[i]).name@ != (
        #[trigger] a[j]).name@ by {
            assert(b[i].name@ != b[j].name@);
        }
        assert forall|i: int| 0 <= i < a.len() implies (#[trigger] a[i]).values@.len() > 0 by {
            assert(b[i].values@.len() > 0);
        }
    }
}

/// Replacing the values of one series replaces them in the map.
proof fn lemma_series_update(before: Seq<MetricSeries>, after: Seq<MetricSeries>, place: int)
    requires
        series_wf(before),
        0 <= place < before.len(),
        after.len() == before.len(),
        after[place].name@ == before[place].name@,
        after[place].values@.len() > 0,
        forall|i: int| 0 <= i < before.len() && i != place ==> after[i] == before[i],
    ensures
        series_wf(after),
        series_map(after) =~= series_map(before).insert(
            before[place].name@,
            after[place].values@,
        ),
{
    assert(series_wf(after)) by {
        assert forall|a: int, b: int| 0 <= a < b < after.len() implies (#[trigger] after[a]).name@
            != (#[trigger] after[b]).name@ by {
            assert(before[a].name@ != before[b].name@);
        }
    }
    lemma_series_map(before);
    lemma_series_map(after);
    let target = series_map(before).insert(before[place].name@, after[place].values@);
    assert forall|name: Seq<char>| series_map(after).dom().contains(name)
        <==> target.dom().contains(name) by {
        if series_map(after).dom().contains(name) {
            let i = choose|i: int| 0 <= i < after.len() && (#[trigger] after[i]).name@ == name;
            assert(before[i].name@ == name);
        }
        if target.dom().contains(name) && name != before[place].name@ {
            let i = choose|i: int| 0 <= i < before.len() && (#[trigger] before[i]).name@ == name;
            assert(after[i].name@ == name);
        }
    }
    assert forall|name: Seq<char>| series_map(after).dom().contains(name) implies series_map(
        after,
    )[name] == target[name] by {
        let i = choose|i: int| 0 <= i < after.len() && (#[trigger] after[i]).name@ == name;
        if i != place {
            assert(after[i] == before[i]);
            assert(before[i].name@ != before[place].name@);
        }
    }
}

/// Removing one series removes its name from the map.
proof fn lemma_series_remove(before: Seq<MetricSeries>, place: int)
    requires
        series_wf(before),
        0 <= place < before.len(),
    ensures
        series_wf(before.remove(place)),
        series_map(before.remove(place)) =~= series_map(before).remove(before[place].name@),
{
    let after = before.remove(place);
    assert(series_wf(after)) by {
        assert forall|a: int, b: int| 0 <= a < b < after.len() implies (#[trigger] after[a]).name@
            != (#[trigger] after[b]).name@ by {
            let a0 = if a < place { a } else { a + 1 };
            let b0 = if b < place { b } else { b + 1 };
            assert(after[a] == before[a0]);
            assert(after[b] == before[b0]);
        }
        assert forall|a: int| 0 <= a < after.len() implies (#[trigger] after[a]).values@.len()
            > 0 by {
            let a0 = if a < place { a } else { a + 1 };
            assert(after[a] == before[a0]);
        }
    }
    lemma_series_map(before);
    lemma_series_map(after);
    let target = series_map(before).remove(before[place].name@);
    assert forall|name: Seq<char>| series_map(after).dom().contains(name)
        <==> target.dom().contains(name) by {
        if series_map(after).dom().contains(name) {
            let i = choose|i: int| 0 <= i < after.len() && (#[trigger] after[i]).name@ == name;
            let i0 = if i < place { i } else { i + 1 };
            assert(after[i] == before[i0]);
            assert(before[i0].name@ == name);
            assert(i0 != place);
            if i0 < place {
                assert(before[i0].name@ != before[place].name@);
            } else {
                assert(before[place].name@ != before[i0].name@);
            }
        }
        if target.dom().contains(name) {
            let i = choose|i: int| 0 <= i < before.len() && (#[trigger] before[i]).name@ == name;
            let j = if i < place { i } else { i - 1 };
            assert(after[j] == before[i]);
            assert(after[j].name@ == name);
        }
    }
    assert forall|name: Seq<char>| series_map(after).dom().contains(name) implies series_map(
        after,
    )[name] == target[name] by {
        let i = choose|i: int| 0 <= i < after.len() && (#[trigger] after[i]).name@ == name;
        let i0 = if i < place { i } else { i + 1 };
        assert(after[i] == before[i0]);
    }
}

/// No log entry is applied out of the order of the log, and none twice: an
/// entry changes the state only if it follows the last applied one, the apply
/// position then stands on it, and the same entry offered again changes
/// nothing.
pub proof fn lemma_applied_once_in_order(
    s: RegistryView,
    index: u64,
    holds: bool,
    operation: Option<MetricOperationView>,
    holds_again: bool,
    operation_again: Option<MetricOperationView>,
)
    ensures
        index != s.last_applied + 1 ==> s.applied(index, holds, operation) == s,
        index == s.last_applied + 1 ==> s.applied(index, holds, operation).last_applied == index,
        s.applied(index, holds, operation).applied(index, holds_again, operation_again)
            == s.applied(index, holds, operation),
{
}

} // verus!
