//! What was asked of each model, in all and today.

use vstd::prelude::*;
use vstd::string::*;
use crate::text;

verus! {

/// The counts of a model. Those of today belong to a day; on another day they are
/// void.
#[derive(Debug)]
pub struct ModelStatEntry {
    pub requests: u64,
    pub input_tokens: u64,
    pub output_tokens: u64,
    pub day: String,
    pub today_requests: u64,
    pub today_input_tokens: u64,
    pub today_output_tokens: u64,
}

/// The view of the counts of a model.
pub struct EntryView {
    pub requests: int,
    pub input_tokens: int,
    pub output_tokens: int,
    pub day: Seq<char>,
    pub today_requests: int,
    pub today_input_tokens: int,
    pub today_output_tokens: int,
}

impl View for ModelStatEntry {
    type V = EntryView;

    open spec fn view(&self) -> EntryView {
        EntryView {
            requests: self.requests as int,
            input_tokens: self.input_tokens as int,
            output_tokens: self.output_tokens as int,
            day: self.day@,
            today_requests: self.today_requests as int,
            today_input_tokens: self.today_input_tokens as int,
            today_output_tokens: self.today_output_tokens as int,
        }
    }
}

/// The counts of a model that was never asked.
pub open spec fn no_counts() -> EntryView {
    EntryView {
        requests: 0,
        input_tokens: 0,
        output_tokens: 0,
        day: Seq::empty(),
        today_requests: 0,
        today_input_tokens: 0,
        today_output_tokens: 0,
    }
}

impl EntryView {
    /// The counts on a day: on another day than theirs, those of today start anew.
    pub open spec fn on(self, today: Seq<char>) -> EntryView {
        if self.day == today {
            self
        } else {
            EntryView {
                day: today,
                today_requests: 0,
                today_input_tokens: 0,
                today_output_tokens: 0,
                ..self
            }
        }
    }

    /// The counts after one more request.
    pub open spec fn with_request(self, input: int, output: int, today: Seq<char>) -> EntryView {
        let e = self.on(today);
        EntryView {
            requests: e.requests + 1,
            input_tokens: e.input_tokens + input,
            output_tokens: e.output_tokens + output,
            day: today,
            today_requests: e.today_requests + 1,
            today_input_tokens: e.today_input_tokens + input,
            today_output_tokens: e.today_output_tokens + output,
        }
    }

    /// Whether the sums of the counts fit in 64 bits.
    pub open spec fn sums_fit(self) -> bool {
        &&& self.requests <= u64::MAX
        &&& self.today_requests <= u64::MAX
        &&& self.input_tokens + self.output_tokens <= u64::MAX
        &&& self.today_input_tokens + self.today_output_tokens <= u64::MAX
    }
}

impl ModelStatEntry {
    /// The counts of a model that was never asked.
    pub fn new() -> (r: Self)
        ensures
            r@ == no_counts(),
    {
        let r = ModelStatEntry {
            requests: 0,
            input_tokens: 0,
            output_tokens: 0,
            day: String::new(),
            today_requests: 0,
            today_input_tokens: 0,
            today_output_tokens: 0,
        };
        assert(r@.day =~= Seq::empty());
        r
    }

    /// Voids the counts of today if they are of another day; tells whether they were.
    pub fn roll_day(&mut self, today: &str) -> (r: bool)
        ensures
            final(self)@ == old(self)@.on(today@),
            r == (old(self)@.day != today@),
    {
        if text::str_eq(self.day.as_str(), today) {
            return false;
        }
        self.day = today.to_owned();
        self.today_requests = 0;
        self.today_input_tokens = 0;
        self.today_output_tokens = 0;
        true
    }
}

/// The counts of a model among those of all models.
pub open spec fn counts_of(all: Map<Seq<char>, EntryView>, model: Seq<char>) -> EntryView {
    if all.contains_key(model) {
        all[model]
    } else {
        no_counts()
    }
}

/// A request that was recorded, and the day of it.
pub struct Recorded {
    pub model: Seq<char>,
    pub input_tokens: i64,
    pub output_tokens: i64,
    pub day: Seq<char>,
}

impl Recorded {
    /// The name under which it counts.
    pub open spec fn name(self) -> Seq<char> {
        text::trim(self.model)
    }

    /// The counts with this request. One whose name is blank does not count.
    pub open spec fn added_to(self, all: Map<Seq<char>, EntryView>) -> Map<Seq<char>, EntryView> {
        if self.name().len() == 0 {
            all
        } else {
            all.insert(
                self.name(),
                counts_of(all, self.name()).with_request(
                    not_negative(self.input_tokens),
                    not_negative(self.output_tokens),
                    self.day,
                ),
            )
        }
    }
}

/// The counts of all models.
#[derive(Debug)]
pub struct ModelStats {
    pub entries: Vec<(String, ModelStatEntry)>,
}

pub open spec fn entries_view(entries: Seq<(String, ModelStatEntry)>) -> Seq<
    (Seq<char>, EntryView),
> {
    entries.map_values(|p: (String, ModelStatEntry)| (p.0@, p.1@))
}

/// The counts under each name.
pub open spec fn by_model(entries: Seq<(Seq<char>, EntryView)>) -> Map<Seq<char>, EntryView>
    decreases entries.len(),
{
    if entries.len() == 0 {
        Map::empty()
    } else {
        by_model(entries.drop_last()).insert(entries.last().0, entries.last().1)
    }
}

/// Whether no model occurs twice.
pub open spec fn models_distinct(entries: Seq<(Seq<char>, EntryView)>) -> bool {
    forall|i: int, j: int|
        0 <= i < j < entries.len() ==> (#[trigger] entries[i]).0 != (#[trigger] entries[j]).0
}

proof fn lemma_by_model(entries: Seq<(Seq<char>, EntryView)>)
    requires
        models_distinct(entries),
    ensures
        forall|i: int|
            0 <= i < entries.len() ==> by_model(entries).contains_key((#[trigger] entries[i]).0)
                && by_model(entries)[entries[i].0] == entries[i].1,
        forall|k: Seq<char>| #[trigger]
            by_model(entries).contains_key(k) ==> exists|i: int|
                0 <= i < entries.len() && (#[trigger] entries[i]).0 == k,
    decreases entries.len(),
{
    if entries.len() > 0 {
        let rest = entries.drop_last();
        lemma_by_model(rest);
        assert forall|i: int| 0 <= i < entries.len() implies by_model(entries).contains_key(
            (#[trigger] entries[i]).0,
        ) && by_model(entries)[entries[i].0] == entries[i].1 by {
            if i < entries.len() - 1 {
                assert(rest[i] == entries[i]);
                assert(entries[i].0 != entries[entries.len() - 1].0);
            }
        }
        assert forall|k: Seq<char>| #[trigger] by_model(entries).contains_key(k) implies exists|
            i: int,
        |
            0 <= i < entries.len() && (#[trigger] entries[i]).0 == k by {
            if k == entries.last().0 {
                assert(entries[entries.len() - 1].0 == k);
            } else {
                assert(by_model(rest).contains_key(k));
                let i = choose|i: int| 0 <= i < rest.len() && (#[trigger] rest[i]).0 == k;
                assert(entries[i].0 == k);
            }
        }
    }
}

proof fn lemma_by_model_updated(entries: Seq<(Seq<char>, EntryView)>, i: int, e: EntryView)
    requires
        models_distinct(entries),
        0 <= i < entries.len(),
    ensures
        models_distinct(entries.update(i, (entries[i].0, e))),
        by_model(entries.update(i, (entries[i].0, e))) == by_model(entries).insert(
            entries[i].0,
            e,
        ),
    decreases entries.len(),
{
    let next = entries.update(i, (entries[i].0, e));
    assert forall|a: int, b: int| 0 <= a < b < next.len() implies (#[trigger] next[a]).0 != (
    #[trigger] next[b]).0 by {
        assert(entries[a].0 != entries[b].0);
    }
    if i < entries.len() - 1 {
        let rest = entries.drop_last();
        lemma_by_model_updated(rest, i, e);
        assert(next.drop_last() =~= rest.update(i, (rest[i].0, e)));
        assert(entries[i].0 != entries[entries.len() - 1].0);
        assert(by_model(next) =~= by_model(entries).insert(entries[i].0, e));
    } else {
        assert(next.drop_last() =~= entries.drop_last());
        assert(by_model(next) =~= by_model(entries).insert(entries[i].0, e));
    }
}

impl View for ModelStats {
    type V = Map<Seq<char>, EntryView>;

    closed spec fn view(&self) -> Map<Seq<char>, EntryView> {
        by_model(entries_view(self.entries@))
    }
}

/// The counts of a model in a list of all of them.
#[derive(Debug)]
pub struct ModelStatSnapshot {
    pub model: String,
    pub requests: u64,
    pub input_tokens: u64,
    pub output_tokens: u64,
    pub total_tokens: u64,
    pub today_requests: u64,
    pub today_input_tokens: u64,
    pub today_output_tokens: u64,
    pub today_total_tokens: u64,
}

/// The view of the counts of a model in a list.
pub struct SnapshotView {
    pub model: Seq<char>,
    pub requests: int,
    pub input_tokens: int,
    pub output_tokens: int,
    pub total_tokens: int,
    pub today_requests: int,
    pub today_input_tokens: int,
    pub today_output_tokens: int,
    pub today_total_tokens: int,
}

impl View for ModelStatSnapshot {
    type V = SnapshotView;

    open spec fn view(&self) -> SnapshotView {
        SnapshotView {
            model: self.model@,
            requests: self.requests as int,
            input_tokens: self.input_tokens as int,
            output_tokens: self.output_tokens as int,
            total_tokens: self.total_tokens as int,
            today_requests: self.today_requests as int,
            today_input_tokens: self.today_input_tokens as int,
            today_output_tokens: self.today_output_tokens as int,
            today_total_tokens: self.today_total_tokens as int,
        }
    }
}

/// The counts of a model as they stand on a day.
pub open spec fn snapshot_of(model: Seq<char>, e: EntryView, today: Seq<char>) -> SnapshotView {
    let t = e.on(today);
    SnapshotView {
        model,
        requests: e.requests,
        input_tokens: e.input_tokens,
        output_tokens: e.output_tokens,
        total_tokens: e.input_tokens + e.output_tokens,
        today_requests: t.today_requests,
        today_input_tokens: t.today_input_tokens,
        today_output_tokens: t.today_output_tokens,
        today_total_tokens: t.today_input_tokens + t.today_output_tokens,
    }
}

/// The order of a list: the models that were asked more often come first, those that
/// were asked as often by their names.
pub open spec fn precedes(a: SnapshotView, b: SnapshotView) -> bool {
    a.requests > b.requests || (a.requests == b.requests && text::less(a.model, b.model))
}

pub open spec fn snapshots_view(v: Seq<ModelStatSnapshot>) -> Seq<SnapshotView> {
    v.map_values(|s: ModelStatSnapshot| s@)
}

/// Whether a list is in order.
pub open spec fn in_order(list: Seq<SnapshotView>) -> bool {
    forall|i: int, j: int|
        0 <= i < j < list.len() ==> precedes(#[trigger] list[i], #[trigger] list[j])
}

fn is_before(a: &ModelStatSnapshot, b: &ModelStatSnapshot) -> (r: bool)
    ensures
        r == precedes(a@, b@),
{
    if a.requests != b.requests {
        return a.requests > b.requests;
    }
    text::is_less(a.model.as_str(), b.model.as_str())
}

/// Whether a list shows all counts as they stand on a day, in order: each item shows those
/// of a model, and each model has an item.
pub open spec fn lists(
    list: Seq<SnapshotView>,
    all: Map<Seq<char>, EntryView>,
    today: Seq<char>,
) -> bool {
    &&& in_order(list)
    &&& forall|i: int|
        0 <= i < list.len() ==> all.contains_key((#[trigger] list[i]).model) && list[i]
            == snapshot_of(list[i].model, all[list[i].model], today)
    &&& forall|k: Seq<char>| #[trigger]
        all.contains_key(k) ==> exists|i: int|
            0 <= i < list.len() && (#[trigger] list[i]).model == k
}

/// Whether an item stands for one of the first `n` models.
spec fn comes_from(
    s: SnapshotView,
    all: Seq<(Seq<char>, EntryView)>,
    n: int,
    today: Seq<char>,
) -> bool {
    exists|m: int| 0 <= m < n && s == snapshot_of((#[trigger] all[m]).0, all[m].1, today)
}

/// Puts an item in its place.
fn insert_in_order(list: &mut Vec<ModelStatSnapshot>, item: ModelStatSnapshot)
    requires
        in_order(snapshots_view(old(list)@)),
        forall|i: int|
            0 <= i < old(list)@.len() ==> (#[trigger] snapshots_view(old(list)@)[i]).model
                != item@.model,
    ensures
        in_order(snapshots_view(final(list)@)),
        exists|p: int|
            0 <= p <= old(list)@.len() && snapshots_view(final(list)@) == #[trigger] snapshots_view(
                old(list)@,
            ).insert(p, item@),
{
    let ghost before = snapshots_view(list@);
    let n: usize = list.len();
    let mut p: usize = 0;
    while p < n && !is_before(&item, &list[p])
        invariant
            p <= n == list@.len(),
            list@ == old(list)@,
            before == snapshots_view(list@),
            forall|i: int| 0 <= i < p ==> !precedes(item@, #[trigger] before[i]),
        decreases n - p,
    {
        assert(before[p as int] == list@[p as int]@);
        p = p + 1;
    }
    let ghost v = item@;
    proof {
        assert forall|i: int| 0 <= i < p implies precedes(#[trigger] before[i], v) by {
            text::lemma_less_total(before[i].model, v.model);
        }
        assert forall|i: int| p <= i < n implies precedes(v, #[trigger] before[i]) by {
            assert(before[p as int] == list@[p as int]@);
            if i > p {
                assert(precedes(before[p as int], before[i]));
                if v.requests == before[p as int].requests && before[p as int].requests
                    == before[i].requests {
                    text::lemma_less_transitive(
                        v.model,
                        before[p as int].model,
                        before[i].model,
                    );
                }
            }
        }
    }
    list.insert(p, item);
    proof {
        let after = snapshots_view(list@);
        assert(after =~= before.insert(p as int, v));
        assert forall|i: int, j: int| 0 <= i < j < after.len() implies precedes(
            #[trigger] after[i],
            #[trigger] after[j],
        ) by {
            let a = if i < p {
                i
            } else {
                i - 1
            };
            let b = if j < p {
                j
            } else {
                j - 1
            };
            if i != p && j != p {
                assert(after[i] == before[a] && after[j] == before[b]);
            } else if i == p {
                assert(after[j] == before[b]);
            } else {
                assert(after[i] == before[a]);
            }
        }
    }
}

impl ModelStats {
    /// No model has two counts.
    pub closed spec fn wf(self) -> bool {
        models_distinct(entries_view(self.entries@))
    }

    /// No counts.
    pub fn new() -> (r: Self)
        ensures
            r.wf(),
            r@ == Map::<Seq<char>, EntryView>::empty(),
    {
        let r = ModelStats { entries: Vec::new() };
        assert(entries_view(r.entries@) =~= Seq::empty());
        r
    }

    fn find(&self, model: &str) -> (r: Option<usize>)
        requires
            self.wf(),
        ensures
            match r {
                Some(i) => i < self.entries@.len() && entries_view(self.entries@)[i as int].0
                    == model@ && self@.contains_key(model@) && self@[model@]
                    == self.entries@[i as int].1@,
                None => !self@.contains_key(model@),
            },
    {
        proof {
            lemma_by_model(entries_view(self.entries@));
        }
        let n: usize = self.entries.len();
        let mut i: usize = 0;
        while i < n
            invariant
                i <= n == self.entries@.len(),
                self.wf(),
                forall|j: int|
                    0 <= j < i ==> (#[trigger] entries_view(self.entries@)[j]).0 != model@,
            decreases n - i,
        {
            assert(entries_view(self.entries@)[i as int] == (
                self.entries@[i as int].0@,
                self.entries@[i as int].1@,
            ));
            if text::str_eq(self.entries[i].0.as_str(), model) {
                proof {
                    lemma_by_model(entries_view(self.entries@));
                }
                return Some(i);
            }
            i = i + 1;
        }
        None
    }

    /// Sets the counts of a model.
    pub fn put_entry(&mut self, model: String, entry: ModelStatEntry)
        requires
            old(self).wf(),
        ensures
            final(self).wf(),
            final(self)@ == old(self)@.insert(model@, entry@),
    {
        let ghost before = entries_view(self.entries@);
        let ghost m = model@;
        let ghost e = entry@;
        match self.find(model.as_str()) {
            Some(i) => {
                self.entries.set(i, (model, entry));
                proof {
                    lemma_by_model_updated(before, i as int, e);
                    assert(entries_view(self.entries@) =~= before.update(i as int, (m, e)));
                }
            },
            None => {
                self.entries.push((model, entry));
                proof {
                    lemma_by_model(before);
                    let after = entries_view(self.entries@);
                    assert(after =~= before.push((m, e)));
                    assert(after.drop_last() =~= before);
                    assert forall|a: int, b: int| 0 <= a < b < after.len() implies (
                    #[trigger] after[a]).0 != (#[trigger] after[b]).0 by {
                        assert(after[a] == before[a]);
                        if b < before.len() {
                            assert(after[b] == before[b]);
                        }
                    }
                }
            },
        }
    }

    /// The counts of a model so far.
    pub open spec fn counts(self, model: Seq<char>) -> EntryView {
        counts_of(self@, model)
    }

    /// Whether one more request can be counted.
    pub fn can_record(&self, model: &str, input_tokens: i64, output_tokens: i64, today: &str) -> (r:
        bool)
        requires
            self.wf(),
        ensures
            r == (text::trim(model@).len() == 0 || can_count(
                self.counts(text::trim(model@)).on(today@),
                not_negative(input_tokens),
                not_negative(output_tokens),
            )),
    {
        let name: String = text::trimmed(model);
        if name.as_str().is_empty() {
            return true;
        }
        let inp: u64 = if input_tokens > 0 {
            input_tokens as u64
        } else {
            0
        };
        let out: u64 = if output_tokens > 0 {
            output_tokens as u64
        } else {
            0
        };
        match self.find(name.as_str()) {
            Some(i) => {
                let e = &self.entries[i].1;
                if e.requests == u64::MAX || e.input_tokens > u64::MAX - inp || e.output_tokens
                    > u64::MAX - out {
                    return false;
                }
                !text::str_eq(e.day.as_str(), today) || (e.today_requests < u64::MAX
                    && e.today_input_tokens <= u64::MAX - inp && e.today_output_tokens <= u64::MAX
                    - out)
            },
            None => true,
        }
    }

    /// Counts one more request of a model. A blank name is not counted, and counts
    /// below zero are taken for zero. Tells whether it was counted, and whether the
    /// counts of today started anew.
    pub fn record(&mut self, model: &str, input_tokens: i64, output_tokens: i64, today: &str) -> (r:
        Option<bool>)
        requires
            old(self).wf(),
            text::trim(model@).len() > 0 ==> can_count(
                old(self).counts(text::trim(model@)).on(today@),
                not_negative(input_tokens),
                not_negative(output_tokens),
            ),
        ensures
            final(self).wf(),
            final(self)@ == (Recorded {
                model: model@,
                input_tokens,
                output_tokens,
                day: today@,
            }).added_to(old(self)@),
            r == if text::trim(model@).len() == 0 {
                None
            } else {
                Some(old(self).counts(text::trim(model@)).day != today@)
            },
    {
        let name: String = text::trimmed(model);
        if name.as_str().is_empty() {
            return None;
        }
        let inp: u64 = if input_tokens > 0 {
            input_tokens as u64
        } else {
            0
        };
        let out: u64 = if output_tokens > 0 {
            output_tokens as u64
        } else {
            0
        };
        let mut entry: ModelStatEntry = match self.find(name.as_str()) {
            Some(i) => {
                let e = &self.entries[i].1;
                ModelStatEntry {
                    requests: e.requests,
                    input_tokens: e.input_tokens,
                    output_tokens: e.output_tokens,
                    day: e.day.clone(),
                    today_requests: e.today_requests,
                    today_input_tokens: e.today_input_tokens,
                    today_output_tokens: e.today_output_tokens,
                }
            },
            None => ModelStatEntry::new(),
        };
        let rolled: bool = entry.roll_day(today);
        entry.requests = entry.requests + 1;
        entry.input_tokens = entry.input_tokens + inp;
        entry.output_tokens = entry.output_tokens + out;
        entry.today_requests = entry.today_requests + 1;
        entry.today_input_tokens = entry.today_input_tokens + inp;
        entry.today_output_tokens = entry.today_output_tokens + out;
        self.put_entry(name, entry);
        Some(rolled)
    }

    /// The counts of all models as they stand on a day, in the order of [`precedes`].
    /// Counts of another day are not those of today.
    pub fn snapshot(&self, today: &str) -> (r: Vec<ModelStatSnapshot>)
        requires
            self.wf(),
            forall|k: Seq<char>| #[trigger]
                self@.contains_key(k) ==> self@[k].on(today@).sums_fit(),
        ensures
            lists(snapshots_view(r@), self@, today@),
    {
        let ghost all = entries_view(self.entries@);
        proof {
            lemma_by_model(all);
        }
        let n: usize = self.entries.len();
        let mut list: Vec<ModelStatSnapshot> = Vec::new();
        let mut i: usize = 0;
        while i < n
            invariant
                i <= n == self.entries@.len() == all.len(),
                all == entries_view(self.entries@),
                models_distinct(all),
                forall|k: int|
                    0 <= k < all.len() ==> self@.contains_key((#[trigger] all[k]).0)
                        && self@[all[k].0] == all[k].1,
                forall|k: Seq<char>| #[trigger]
                    self@.contains_key(k) ==> self@[k].on(today@).sums_fit(),
                in_order(snapshots_view(list@)),
                forall|k: int|
                    0 <= k < list@.len() ==> comes_from(
                        #[trigger] snapshots_view(list@)[k],
                        all,
                        i as int,
                        today@,
                    ),
                forall|m: int|
                    0 <= m < i ==> exists|k: int|
                        0 <= k < list@.len() && (#[trigger] snapshots_view(list@)[k]).model == (
                        #[trigger] all[m]).0,
            decreases n - i,
        {
            let model = &self.entries[i].0;
            let e = &self.entries[i].1;
            assert(all[i as int] == (model@, e@));
            assert(self@[all[i as int].0].on(today@).sums_fit());
            let is_today: bool = text::str_eq(e.day.as_str(), today);
            let tr: u64 = if is_today {
                e.today_requests
            } else {
                0
            };
            let ti: u64 = if is_today {
                e.today_input_tokens
            } else {
                0
            };
            let to: u64 = if is_today {
                e.today_output_tokens
            } else {
                0
            };
            let item = ModelStatSnapshot {
                model: model.clone(),
                requests: e.requests,
                input_tokens: e.input_tokens,
                output_tokens: e.output_tokens,
                total_tokens: e.input_tokens + e.output_tokens,
                today_requests: tr,
                today_input_tokens: ti,
                today_output_tokens: to,
                today_total_tokens: ti + to,
            };
            let ghost v = item@;
            let ghost before = snapshots_view(list@);
            assert(v == snapshot_of(all[i as int].0, all[i as int].1, today@));
            proof {
                assert forall|k: int| 0 <= k < before.len() implies (#[trigger] before[k]).model
                    != v.model by {
                    let m = choose|m: int|
                        0 <= m < i && before[k] == snapshot_of(
                            (#[trigger] all[m]).0,
                            all[m].1,
                            today@,
                        );
                    assert(all[m].0 != all[i as int].0);
                }
            }
            insert_in_order(&mut list, item);
            proof {
                let after = snapshots_view(list@);
                let p = choose|p: int| 0 <= p <= before.len() && after == before.insert(p, v);
                before.insert_ensures(p, v);
                assert forall|k: int| 0 <= k < list@.len() implies comes_from(
                    #[trigger] after[k],
                    all,
                    i + 1,
                    today@,
                ) by {
                    if k == p {
                        assert(after[k] == snapshot_of(all[i as int].0, all[i as int].1, today@));
                    } else {
                        let a = if k < p {
                            k
                        } else {
                            k - 1
                        };
                        assert(after[k] == before[a]);
                        let m = choose|m: int|
                            0 <= m < i && before[a] == snapshot_of(
                                (#[trigger] all[m]).0,
                                all[m].1,
                                today@,
                            );
                        assert(after[k] == snapshot_of(all[m].0, all[m].1, today@));
                    }
                }
                assert forall|m: int| 0 <= m < i + 1 implies exists|k: int|
                    0 <= k < list@.len() && (#[trigger] after[k]).model == (#[trigger] all[m]).0 by {
                    if m == i {
                        assert(after[p] == v);
                    } else {
                        let k = choose|k: int|
                            0 <= k < before.len() && (#[trigger] before[k]).model == all[m].0;
                        let b = if k < p {
                            k
                        } else {
                            k + 1
                        };
                        assert(after[b] == before[k]);
                    }
                }
            }
            i = i + 1;
        }
        proof {
            let after = snapshots_view(list@);
            assert forall|k: int| 0 <= k < list@.len() implies self@.contains_key(
                (#[trigger] after[k]).model,
            ) && after[k] == snapshot_of(after[k].model, self@[after[k].model], today@) by {
                let m = choose|m: int|
                    0 <= m < i && after[k] == snapshot_of(
                        (#[trigger] all[m]).0,
                        all[m].1,
                        today@,
                    );
                assert(self@[all[m].0] == all[m].1);
            }
            assert forall|k: Seq<char>| #[trigger] self@.contains_key(k) implies exists|j: int|
                0 <= j < list@.len() && (#[trigger] after[j]).model == k by {
                let m = choose|m: int| 0 <= m < all.len() && (#[trigger] all[m]).0 == k;
                assert(all[m].0 == k);
            }
        }
        list
    }
}

/// A count, zero where it is below zero.
pub open spec fn not_negative(n: i64) -> int {
    if n > 0 {
        n as int
    } else {
        0
    }
}

/// Whether one more request can be counted without leaving 64 bits.
pub open spec fn can_count(e: EntryView, input: int, output: int) -> bool {
    &&& e.requests < u64::MAX
    &&& e.today_requests < u64::MAX
    &&& e.input_tokens + input <= u64::MAX
    &&& e.output_tokens + output <= u64::MAX
    &&& e.today_input_tokens + input <= u64::MAX
    &&& e.today_output_tokens + output <= u64::MAX
}

/// How long the counts may be newer than what was saved of them, in seconds.
pub const SAVE_DEBOUNCE_SECS: u64 = 30;

/// Whether the counts are to be saved: they never were, or long enough ago.
pub fn should_save(seconds_since_save: Option<u64>) -> (r: bool)
    ensures
        r == match seconds_since_save {
            Some(s) => s >= 30,
            None => true,
        },
{
    match seconds_since_save {
        Some(s) => s >= SAVE_DEBOUNCE_SECS,
        None => true,
    }
}

/// The counts of today are part of those of all days, and stay so.
pub proof fn law_today_is_part_of_all(e: EntryView, input: int, output: int, today: Seq<char>)
    requires
        input >= 0,
        output >= 0,
        0 <= e.today_requests <= e.requests,
        0 <= e.today_input_tokens <= e.input_tokens,
        0 <= e.today_output_tokens <= e.output_tokens,
    ensures
        ({
            let n = e.with_request(input, output, today);
            &&& 0 <= n.today_requests <= n.requests
            &&& 0 <= n.today_input_tokens <= n.input_tokens
            &&& 0 <= n.today_output_tokens <= n.output_tokens
        }),
{
}

/// A new day takes nothing from the counts of all days, and leaves none for today.
pub proof fn law_new_day(model: Seq<char>, e: EntryView, today: Seq<char>)
    requires
        e.day != today,
    ensures
        ({
            let s = snapshot_of(model, e, today);
            &&& s.requests == e.requests
            &&& s.total_tokens == e.input_tokens + e.output_tokens
            &&& s.today_requests == 0
            &&& s.today_total_tokens == 0
        }),
{
}

/// The counts after requests, recorded in this order from the start.
pub open spec fn after_all(records: Seq<Recorded>) -> Map<Seq<char>, EntryView>
    decreases records.len(),
{
    if records.len() == 0 {
        Map::empty()
    } else {
        records.last().added_to(after_all(records.drop_last()))
    }
}

/// The requests of a model, in order.
pub open spec fn of_model(records: Seq<Recorded>, name: Seq<char>) -> Seq<Recorded> {
    records.filter(|r: Recorded| r.name() == name)
}

/// The requests of a day, in order.
pub open spec fn of_day(records: Seq<Recorded>, day: Seq<char>) -> Seq<Recorded> {
    records.filter(|r: Recorded| r.day == day)
}

/// The input tokens of requests, none of them below zero.
pub open spec fn input_sum(records: Seq<Recorded>) -> int
    decreases records.len(),
{
    if records.len() == 0 {
        0
    } else {
        input_sum(records.drop_last()) + not_negative(records.last().input_tokens)
    }
}

/// The output tokens of requests, none of them below zero.
pub open spec fn output_sum(records: Seq<Recorded>) -> int
    decreases records.len(),
{
    if records.len() == 0 {
        0
    } else {
        output_sum(records.drop_last()) + not_negative(records.last().output_tokens)
    }
}

/// What a list shows of a model of which these are all requests.
pub open spec fn row(name: Seq<char>, records: Seq<Recorded>, today: Seq<char>) -> SnapshotView {
    let all = of_model(records, name);
    let now = of_day(all, today);
    SnapshotView {
        model: name,
        requests: all.len() as int,
        input_tokens: input_sum(all),
        output_tokens: output_sum(all),
        total_tokens: input_sum(all) + output_sum(all),
        today_requests: now.len() as int,
        today_input_tokens: input_sum(now),
        today_output_tokens: output_sum(now),
        today_total_tokens: input_sum(now) + output_sum(now),
    }
}

/// Whether a day lasts: after a request of that day, none of another day comes.
pub open spec fn lasts(records: Seq<Recorded>, day: Seq<char>) -> bool {
    forall|i: int, j: int|
        0 <= i < j < records.len() && (#[trigger] records[i]).day == day ==> (
        #[trigger] records[j]).day == day
}

proof fn lemma_of_model_step(records: Seq<Recorded>, name: Seq<char>)
    requires
        records.len() > 0,
    ensures
        of_model(records, name) == if records.last().name() == name {
            of_model(records.drop_last(), name).push(records.last())
        } else {
            of_model(records.drop_last(), name)
        },
{
    reveal(Seq::filter);
}

proof fn lemma_of_day_step(records: Seq<Recorded>, day: Seq<char>)
    requires
        records.len() > 0,
    ensures
        of_day(records, day) == if records.last().day == day {
            of_day(records.drop_last(), day).push(records.last())
        } else {
            of_day(records.drop_last(), day)
        },
{
    reveal(Seq::filter);
}

proof fn lemma_of_day_none(records: Seq<Recorded>, day: Seq<char>)
    requires
        forall|i: int| 0 <= i < records.len() ==> (#[trigger] records[i]).day != day,
    ensures
        of_day(records, day) == Seq::<Recorded>::empty(),
    decreases records.len(),
{
    if records.len() > 0 {
        lemma_of_day_step(records, day);
        lemma_of_day_none(records.drop_last(), day);
    } else {
        reveal(Seq::filter);
    }
}

proof fn lemma_of_day_all(records: Seq<Recorded>, day: Seq<char>)
    requires
        forall|i: int| 0 <= i < records.len() ==> (#[trigger] records[i]).day == day,
    ensures
        of_day(records, day) == records,
    decreases records.len(),
{
    if records.len() > 0 {
        lemma_of_day_step(records, day);
        lemma_of_day_all(records.drop_last(), day);
        assert(records.drop_last().push(records.last()) =~= records);
    } else {
        reveal(Seq::filter);
        assert(of_day(records, day) =~= records);
    }
}

proof fn lemma_push_sums(records: Seq<Recorded>, r: Recorded)
    ensures
        input_sum(records.push(r)) == input_sum(records) + not_negative(r.input_tokens),
        output_sum(records.push(r)) == output_sum(records) + not_negative(r.output_tokens),
{
    assert(records.push(r).drop_last() =~= records);
}

/// The counts of a model are those of its requests.
proof fn lemma_counts(records: Seq<Recorded>, name: Seq<char>, today: Seq<char>)
    requires
        name.len() > 0,
    ensures
        ({
            let e = counts_of(after_all(records), name);
            let all = of_model(records, name);
            let now = of_day(all, today);
            &&& after_all(records).contains_key(name) == (all.len() > 0)
            &&& e.requests == all.len()
            &&& e.input_tokens == input_sum(all)
            &&& e.output_tokens == output_sum(all)
            &&& lasts(all, today) ==> {
                &&& e.on(today).today_requests == now.len()
                &&& e.on(today).today_input_tokens == input_sum(now)
                &&& e.on(today).today_output_tokens == output_sum(now)
            }
        }),
    decreases records.len(),
{
    let all = of_model(records, name);
    if records.len() == 0 {
        reveal(Seq::filter);
        assert(all =~= Seq::empty());
        assert(of_day(all, today) =~= Seq::empty());
    } else {
        let before = records.drop_last();
        let r = records.last();
        lemma_counts(before, name, today);
        lemma_of_model_step(records, name);
        if r.name() == name {
            let prev = of_model(before, name);
            assert(all == prev.push(r));
            assert(all.drop_last() =~= prev);
            lemma_push_sums(prev, r);
            lemma_of_day_step(all, today);
            if lasts(all, today) {
                assert(lasts(prev, today)) by {
                    assert forall|i: int, j: int|
                        0 <= i < j < prev.len() && (#[trigger] prev[i]).day == today implies (
                    #[trigger] prev[j]).day == today by {
                        assert(all[i] == prev[i] && all[j] == prev[j]);
                    }
                }
                if r.day == today {
                    lemma_push_sums(of_day(prev, today), r);
                } else {
                    assert forall|i: int| 0 <= i < prev.len() implies (#[trigger] prev[i]).day
                        != today by {
                        assert(all[i] == prev[i] && all[all.len() - 1] == r);
                    }
                    lemma_of_day_none(prev, today);
                }
            }
        }
    }
}

proof fn lemma_blank_never_counts(records: Seq<Recorded>)
    ensures
        forall|k: Seq<char>| #[trigger] after_all(records).contains_key(k) ==> k.len() > 0,
    decreases records.len(),
{
    if records.len() > 0 {
        let before = after_all(records.drop_last());
        lemma_blank_never_counts(records.drop_last());
        assert forall|k: Seq<char>| #[trigger] after_all(records).contains_key(k) implies k.len()
            > 0 by {
            if k != records.last().name() {
                assert(before.contains_key(k));
            }
        }
    }
}

/// A list shows, of everything that was recorded, one row for each name that is not blank:
/// how many requests there were under it, the sums of their tokens, where those below zero
/// count as zero, and the same of the requests of the day. The rows are in order. Where
/// under a name a request of another day follows one of the day of the list, the counts of
/// that day have started anew, and nothing is said of them.
pub proof fn law_list_of_records(
    records: Seq<Recorded>,
    list: Seq<SnapshotView>,
    today: Seq<char>,
)
    requires
        lists(list, after_all(records), today),
    ensures
        in_order(list),
        forall|i: int, j: int|
            0 <= i < j < list.len() ==> (#[trigger] list[i]).model != (#[trigger] list[j]).model,
        forall|i: int|
            0 <= i < list.len() ==> {
                let all = of_model(records, (#[trigger] list[i]).model);
                &&& list[i].model.len() > 0
                &&& all.len() > 0
                &&& list[i].requests == all.len()
                &&& list[i].input_tokens == input_sum(all)
                &&& list[i].output_tokens == output_sum(all)
                &&& list[i].total_tokens == input_sum(all) + output_sum(all)
                &&& lasts(all, today) ==> list[i] == row(list[i].model, records, today)
            },
        forall|m: int|
            0 <= m < records.len() && (#[trigger] records[m]).name().len() > 0 ==> exists|i: int|
                0 <= i < list.len() && (#[trigger] list[i]).model == records[m].name(),
{
    lemma_blank_never_counts(records);
    assert forall|i: int| 0 <= i < list.len() implies {
        let all = of_model(records, (#[trigger] list[i]).model);
        &&& list[i].model.len() > 0
        &&& all.len() > 0
        &&& list[i].requests == all.len()
        &&& list[i].input_tokens == input_sum(all)
        &&& list[i].output_tokens == output_sum(all)
        &&& list[i].total_tokens == input_sum(all) + output_sum(all)
        &&& lasts(all, today) ==> list[i] == row(list[i].model, records, today)
    } by {
        let name = list[i].model;
        assert(after_all(records).contains_key(name));
        lemma_counts(records, name, today);
    }
    assert forall|i: int, j: int| 0 <= i < j < list.len() implies (#[trigger] list[i]).model != (
    #[trigger] list[j]).model by {
        assert(precedes(list[i], list[j]));
        text::lemma_less_total(list[i].model, list[j].model);
    }
    assert forall|m: int|
        0 <= m < records.len() && (#[trigger] records[m]).name().len() > 0 implies exists|i: int|
        0 <= i < list.len() && (#[trigger] list[i]).model == records[m].name() by {
        let name = records[m].name();
        lemma_counts(records, name, today);
        lemma_has_record(records, name, m);
        assert(after_all(records).contains_key(name));
    }
}

proof fn lemma_has_record(records: Seq<Recorded>, name: Seq<char>, m: int)
    requires
        0 <= m < records.len(),
        records[m].name() == name,
    ensures
        of_model(records, name).len() > 0,
    decreases records.len(),
{
    lemma_of_model_step(records, name);
    if m < records.len() - 1 {
        lemma_has_record(records.drop_last(), name, m);
    }
}

/// Of requests that are all of one day, a list of that day shows the same counts for today
/// as for all days; a list of another day shows the same counts for all days, and none for
/// its own.
pub proof fn law_list_of_one_day(
    records: Seq<Recorded>,
    list: Seq<SnapshotView>,
    day: Seq<char>,
    today: Seq<char>,
)
    requires
        lists(list, after_all(records), today),
        forall|m: int| 0 <= m < records.len() ==> (#[trigger] records[m]).day == day,
    ensures
        forall|i: int|
            0 <= i < list.len() ==> {
                let all = of_model(records, (#[trigger] list[i]).model);
                &&& list[i].requests == all.len()
                &&& list[i].input_tokens == input_sum(all)
                &&& list[i].output_tokens == output_sum(all)
                &&& list[i].total_tokens == list[i].input_tokens + list[i].output_tokens
                &&& list[i].today_requests == if today == day {
                    list[i].requests
                } else {
                    0
                }
                &&& list[i].today_input_tokens == if today == day {
                    list[i].input_tokens
                } else {
                    0
                }
                &&& list[i].today_output_tokens == if today == day {
                    list[i].output_tokens
                } else {
                    0
                }
                &&& list[i].today_total_tokens == if today == day {
                    list[i].total_tokens
                } else {
                    0
                }
            },
{
    law_list_of_records(records, list, today);
    assert forall|i: int| 0 <= i < list.len() implies {
        let all = of_model(records, (#[trigger] list[i]).model);
        &&& lasts(all, today)
        &&& of_day(all, today) == if today == day {
            all
        } else {
            Seq::empty()
        }
    } by {
        let all = of_model(records, list[i].model);
        lemma_of_model_days(records, list[i].model, day);
        if today == day {
            lemma_of_day_all(all, today);
        } else {
            lemma_of_day_none(all, today);
        }
    }
}

proof fn lemma_of_model_days(records: Seq<Recorded>, name: Seq<char>, day: Seq<char>)
    requires
        forall|m: int| 0 <= m < records.len() ==> (#[trigger] records[m]).day == day,
    ensures
        forall|i: int|
            0 <= i < of_model(records, name).len() ==> (#[trigger] of_model(
                records,
                name,
            )[i]).day == day,
    decreases records.len(),
{
    if records.len() > 0 {
        lemma_of_model_step(records, name);
        lemma_of_model_days(records.drop_last(), name, day);
    } else {
        reveal(Seq::filter);
    }
}

/// The list begins with the model that was asked most often, and goes by the names among those
/// that were asked as often.
pub proof fn law_most_asked_first(list: Seq<SnapshotView>, i: int, j: int)
    requires
        in_order(list),
        0 <= i < j < list.len(),
    ensures
        list[i].requests >= list[j].requests,
        list[i].requests == list[j].requests ==> text::less(list[i].model, list[j].model),
{
    assert(precedes(list[i], list[j]));
}

} // verus!
