//! The table of models that the administrator sees.

use vstd::prelude::*;
use vstd::string::*;
use crate::model_stats;
use crate::model_stats::ModelStatSnapshot;
use crate::text;

verus! {

/// A model in the table: its counts, and how often it was asked in the last minute.
#[derive(Debug)]
pub struct ModelStat {
    pub model: String,
    pub requests: u64,
    pub input_tokens: u64,
    pub output_tokens: u64,
    pub total_tokens: u64,
    pub today_requests: u64,
    pub today_input_tokens: u64,
    pub today_output_tokens: u64,
    pub today_total_tokens: u64,
    pub rpm: u32,
}

/// The view of a model in the table.
pub struct StatView {
    pub model: Seq<char>,
    pub requests: int,
    pub input_tokens: int,
    pub output_tokens: int,
    pub total_tokens: int,
    pub today_requests: int,
    pub today_input_tokens: int,
    pub today_output_tokens: int,
    pub today_total_tokens: int,
    pub rpm: int,
}

impl View for ModelStat {
    type V = StatView;

    open spec fn view(&self) -> StatView {
        StatView {
            model: self.model@,
            requests: self.requests as int,
            input_tokens: self.input_tokens as int,
            output_tokens: self.output_tokens as int,
            total_tokens: self.total_tokens as int,
            today_requests: self.today_requests as int,
            today_input_tokens: self.today_input_tokens as int,
            today_output_tokens: self.today_output_tokens as int,
            today_total_tokens: self.today_total_tokens as int,
            rpm: self.rpm as int,
        }
    }
}

pub open spec fn stats_view(v: Seq<ModelStat>) -> Seq<StatView> {
    v.map_values(|s: ModelStat| s@)
}

/// A model of which nothing is known.
pub open spec fn no_stat(model: Seq<char>) -> StatView {
    StatView {
        model,
        requests: 0,
        input_tokens: 0,
        output_tokens: 0,
        total_tokens: 0,
        today_requests: 0,
        today_input_tokens: 0,
        today_output_tokens: 0,
        today_total_tokens: 0,
        rpm: 0,
    }
}

impl StatView {
    /// With more counts.
    pub open spec fn plus(self, s: model_stats::SnapshotView) -> StatView {
        StatView {
            model: self.model,
            requests: self.requests + s.requests,
            input_tokens: self.input_tokens + s.input_tokens,
            output_tokens: self.output_tokens + s.output_tokens,
            total_tokens: self.total_tokens + s.total_tokens,
            today_requests: self.today_requests + s.today_requests,
            today_input_tokens: self.today_input_tokens + s.today_input_tokens,
            today_output_tokens: self.today_output_tokens + s.today_output_tokens,
            today_total_tokens: self.today_total_tokens + s.today_total_tokens,
            rpm: self.rpm,
        }
    }

    /// With more requests in the last minute.
    pub open spec fn plus_rpm(self, n: int) -> StatView {
        StatView { rpm: self.rpm + n, ..self }
    }

    /// Whether the counts fit their types.
    pub open spec fn fits(self) -> bool {
        &&& self.requests <= u64::MAX
        &&& self.input_tokens <= u64::MAX
        &&& self.output_tokens <= u64::MAX
        &&& self.total_tokens <= u64::MAX
        &&& self.today_requests <= u64::MAX
        &&& self.today_input_tokens <= u64::MAX
        &&& self.today_output_tokens <= u64::MAX
        &&& self.today_total_tokens <= u64::MAX
        &&& self.rpm <= u32::MAX
    }
}

/// What is known of a model.
pub open spec fn known_of(table: Map<Seq<char>, StatView>, model: Seq<char>) -> StatView {
    if table.contains_key(model) {
        table[model]
    } else {
        no_stat(model)
    }
}

/// The table of the counts, each under the name by which its model is shown. Names
/// that are shown alike are one model.
pub open spec fn table_of(rows: Seq<(Seq<char>, model_stats::SnapshotView)>) -> Map<
    Seq<char>,
    StatView,
>
    decreases rows.len(),
{
    if rows.len() == 0 {
        Map::empty()
    } else {
        let t = table_of(rows.drop_last());
        let (name, s) = rows.last();
        t.insert(name, known_of(t, name).plus(s))
    }
}

/// The table with the requests of the last minute.
pub open spec fn table_with(t: Map<Seq<char>, StatView>, rpms: Seq<(Seq<char>, u32)>) -> Map<
    Seq<char>,
    StatView,
>
    decreases rpms.len(),
{
    if rpms.len() == 0 {
        t
    } else {
        let u = table_with(t, rpms.drop_last());
        let (name, n) = rpms.last();
        u.insert(name, known_of(u, name).plus_rpm(n as int))
    }
}

/// Whether no sum leaves its type on the way to the table of the counts.
pub open spec fn rows_fit(rows: Seq<(Seq<char>, model_stats::SnapshotView)>) -> bool
    decreases rows.len(),
{
    rows.len() > 0 ==> rows_fit(rows.drop_last()) && known_of(
        table_of(rows.drop_last()),
        rows.last().0,
    ).plus(rows.last().1).fits()
}

/// Whether no sum leaves its type on the way to the table with the last minute.
pub open spec fn rpms_fit(t: Map<Seq<char>, StatView>, rpms: Seq<(Seq<char>, u32)>) -> bool
    decreases rpms.len(),
{
    rpms.len() > 0 ==> rpms_fit(t, rpms.drop_last()) && known_of(
        table_with(t, rpms.drop_last()),
        rpms.last().0,
    ).plus_rpm(rpms.last().1 as int).fits()
}

/// The order of the table: by how often a model was asked, then by how often in the
/// last minute, then by its name.
pub open spec fn precedes(a: StatView, b: StatView) -> bool {
    a.requests > b.requests || (a.requests == b.requests && (a.rpm > b.rpm || (a.rpm == b.rpm
        && text::less(a.model, b.model))))
}

/// Whether a table is in order.
pub open spec fn in_order(list: Seq<StatView>) -> bool {
    forall|i: int, j: int|
        0 <= i < j < list.len() ==> precedes(#[trigger] list[i], #[trigger] list[j])
}

pub open spec fn rows_view(rows: Seq<(String, ModelStatSnapshot)>) -> Seq<
    (Seq<char>, model_stats::SnapshotView),
> {
    rows.map_values(|r: (String, ModelStatSnapshot)| (r.0@, r.1@))
}

pub open spec fn rpms_view(rpms: Seq<(String, u32)>) -> Seq<(Seq<char>, u32)> {
    rpms.map_values(|r: (String, u32)| (r.0@, r.1))
}

/// Whether a list holds what a table holds: each entry, and under its own name.
pub open spec fn lists(list: Seq<StatView>, table: Map<Seq<char>, StatView>) -> bool {
    &&& forall|i: int|
        0 <= i < list.len() ==> table.contains_key((#[trigger] list[i]).model)
            && table[list[i].model] == list[i]
    &&& forall|k: Seq<char>| #[trigger]
        table.contains_key(k) ==> exists|i: int|
            0 <= i < list.len() && (#[trigger] list[i]).model == k
}

/// Whether no model is listed twice.
pub open spec fn once_each(list: Seq<StatView>) -> bool {
    forall|i: int, j: int|
        0 <= i < j < list.len() ==> (#[trigger] list[i]).model != (#[trigger] list[j]).model
}

/// The place of a model, which is added if it is not there.
fn place_of(list: &mut Vec<ModelStat>, model: &str) -> (r: usize)
    requires
        once_each(stats_view(old(list)@)),
    ensures
        r < final(list)@.len(),
        stats_view(final(list)@)[r as int].model == model@,
        once_each(stats_view(final(list)@)),
        forall|t: Map<Seq<char>, StatView>|
            lists(stats_view(old(list)@), t) ==> #[trigger] lists(
                stats_view(final(list)@),
                t.insert(model@, known_of(t, model@)),
            ) && stats_view(final(list)@)[r as int] == known_of(t, model@),
{
    let ghost before = stats_view(list@);
    let n: usize = list.len();
    let mut i: usize = 0;
    while i < n
        invariant
            i <= n == list@.len(),
            list@ == old(list)@,
            before == stats_view(list@),
            once_each(before),
            forall|j: int| 0 <= j < i ==> (#[trigger] before[j]).model != model@,
        decreases n - i,
    {
        assert(before[i as int] == list@[i as int]@);
        if text::str_eq(list[i].model.as_str(), model) {
            proof {
                assert forall|t: Map<Seq<char>, StatView>| lists(before, t) implies #[trigger] lists(
                    before,
                    t.insert(model@, known_of(t, model@)),
                ) && before[i as int] == known_of(t, model@) by {
                    assert(t.contains_key(before[i as int].model));
                    assert(t.insert(model@, known_of(t, model@)) =~= t);
                }
            }
            return i;
        }
        i = i + 1;
    }
    let item = ModelStat {
        model: model.to_owned(),
        requests: 0,
        input_tokens: 0,
        output_tokens: 0,
        total_tokens: 0,
        today_requests: 0,
        today_input_tokens: 0,
        today_output_tokens: 0,
        today_total_tokens: 0,
        rpm: 0,
    };
    list.push(item);
    proof {
        let after = stats_view(list@);
        assert(after =~= before.push(no_stat(model@)));
        assert forall|t: Map<Seq<char>, StatView>| lists(before, t) implies #[trigger] lists(
            after,
            t.insert(model@, known_of(t, model@)),
        ) && after[n as int] == known_of(t, model@) by {
            let u = t.insert(model@, known_of(t, model@));
            assert(!t.contains_key(model@));
            assert forall|k: int| 0 <= k < after.len() implies u.contains_key(
                (#[trigger] after[k]).model,
            ) && u[after[k].model] == after[k] by {
                if k < n {
                    assert(after[k] == before[k]);
                }
            }
            assert forall|m: Seq<char>| #[trigger] u.contains_key(m) implies exists|k: int|
                0 <= k < after.len() && (#[trigger] after[k]).model == m by {
                if m == model@ {
                    assert(after[n as int].model == m);
                } else {
                    assert(t.contains_key(m));
                    let k = choose|k: int| 0 <= k < before.len() && (#[trigger] before[k]).model
                        == m;
                    assert(after[k] == before[k]);
                }
            }
        }
    }
    n
}

proof fn lemma_lists_updated(
    list: Seq<StatView>,
    t: Map<Seq<char>, StatView>,
    i: int,
    s: StatView,
)
    requires
        lists(list, t),
        once_each(list),
        0 <= i < list.len(),
        s.model == list[i].model,
    ensures
        lists(list.update(i, s), t.insert(s.model, s)),
        once_each(list.update(i, s)),
{
    let after = list.update(i, s);
    let u = t.insert(s.model, s);
    assert forall|k: int| 0 <= k < after.len() implies u.contains_key((#[trigger] after[k]).model)
        && u[after[k].model] == after[k] by {
        if k != i {
            assert(after[k] == list[k]);
            if k < i {
                assert(list[k].model != list[i].model);
            } else {
                assert(list[i].model != list[k].model);
            }
        }
    }
    assert forall|m: Seq<char>| #[trigger] u.contains_key(m) implies exists|k: int|
        0 <= k < after.len() && (#[trigger] after[k]).model == m by {
        if m == s.model {
            assert(after[i].model == m);
        } else {
            assert(t.contains_key(m));
            let k = choose|k: int| 0 <= k < list.len() && (#[trigger] list[k]).model == m;
            assert(after[k] == list[k]);
        }
    }
    assert forall|a: int, b: int| 0 <= a < b < after.len() implies (#[trigger] after[a]).model != (
    #[trigger] after[b]).model by {
        assert(list[a].model != list[b].model);
    }
}

/// Whether counts can be added to those of a model.
fn can_add(a: &ModelStat, s: &ModelStatSnapshot) -> (r: bool)
    ensures
        r == a@.plus(s@).fits(),
{
    a.requests.checked_add(s.requests).is_some() && a.input_tokens.checked_add(
        s.input_tokens,
    ).is_some() && a.output_tokens.checked_add(s.output_tokens).is_some()
        && a.total_tokens.checked_add(s.total_tokens).is_some() && a.today_requests.checked_add(
        s.today_requests,
    ).is_some() && a.today_input_tokens.checked_add(s.today_input_tokens).is_some()
        && a.today_output_tokens.checked_add(s.today_output_tokens).is_some()
        && a.today_total_tokens.checked_add(s.today_total_tokens).is_some()
}

fn add_counts(a: &mut ModelStat, s: &ModelStatSnapshot)
    requires
        old(a)@.plus(s@).fits(),
    ensures
        final(a)@ == old(a)@.plus(s@),
{
    a.requests = a.requests + s.requests;
    a.input_tokens = a.input_tokens + s.input_tokens;
    a.output_tokens = a.output_tokens + s.output_tokens;
    a.total_tokens = a.total_tokens + s.total_tokens;
    a.today_requests = a.today_requests + s.today_requests;
    a.today_input_tokens = a.today_input_tokens + s.today_input_tokens;
    a.today_output_tokens = a.today_output_tokens + s.today_output_tokens;
    a.today_total_tokens = a.today_total_tokens + s.today_total_tokens;
}

proof fn lemma_rows_prefix(rows: Seq<(Seq<char>, model_stats::SnapshotView)>, n: int)
    requires
        0 <= n <= rows.len(),
        rows_fit(rows),
    ensures
        rows_fit(rows.take(n)),
    decreases rows.len(),
{
    if n == rows.len() {
        assert(rows.take(n) =~= rows);
    } else {
        lemma_rows_prefix(rows.drop_last(), n);
        assert(rows.drop_last().take(n) =~= rows.take(n));
    }
}

proof fn lemma_rpms_prefix(t: Map<Seq<char>, StatView>, rpms: Seq<(Seq<char>, u32)>, n: int)
    requires
        0 <= n <= rpms.len(),
        rpms_fit(t, rpms),
    ensures
        rpms_fit(t, rpms.take(n)),
    decreases rpms.len(),
{
    if n == rpms.len() {
        assert(rpms.take(n) =~= rpms);
    } else {
        lemma_rpms_prefix(t, rpms.drop_last(), n);
        assert(rpms.drop_last().take(n) =~= rpms.take(n));
    }
}

/// The counts under the names by which models are shown, unless a sum leaves its type.
fn merge_rows(rows: &Vec<(String, ModelStatSnapshot)>) -> (r: Option<Vec<ModelStat>>)
    ensures
        match r {
            Some(list) => {
                &&& rows_fit(rows_view(rows@))
                &&& lists(stats_view(list@), table_of(rows_view(rows@)))
                &&& once_each(stats_view(list@))
            },
            None => !rows_fit(rows_view(rows@)),
        },
{
    let ghost all = rows_view(rows@);
    let mut list: Vec<ModelStat> = Vec::new();
    let n: usize = rows.len();
    let mut i: usize = 0;
    assert(all.take(0) =~= Seq::empty());
    assert(stats_view(list@) =~= Seq::empty());
    while i < n
        invariant
            i <= n == rows@.len(),
            all == rows_view(rows@),
            rows_fit(all.take(i as int)),
            lists(stats_view(list@), table_of(all.take(i as int))),
            once_each(stats_view(list@)),
        decreases n - i,
    {
        let ghost t = table_of(all.take(i as int));
        let ghost next = all.take(i + 1);
        proof {
            assert(next.drop_last() =~= all.take(i as int));
            assert(next.last() == (rows@[i as int].0@, rows@[i as int].1@));
        }
        let at: usize = place_of(&mut list, rows[i].0.as_str());
        let ghost u = t.insert(rows@[i as int].0@, known_of(t, rows@[i as int].0@));
        assert(lists(stats_view(list@), u));
        assert(stats_view(list@)[at as int] == list@[at as int]@);
        if !can_add(&list[at], &rows[i].1) {
            proof {
                if rows_fit(all) {
                    lemma_rows_prefix(all, i + 1);
                }
            }
            return None;
        }
        let ghost before = stats_view(list@);
        add_counts(&mut list[at], &rows[i].1);
        proof {
            let s = list@[at as int]@;
            assert(stats_view(list@) =~= before.update(at as int, s));
            lemma_lists_updated(before, u, at as int, s);
            assert(u.insert(s.model, s) =~= table_of(next));
        }
        i = i + 1;
    }
    assert(all.take(i as int) =~= all);
    Some(list)
}

/// The table with the requests of the last minute, unless a sum leaves its type.
fn merge_rpms(
    rows: &Vec<(String, ModelStatSnapshot)>,
    rpms: &Vec<(String, u32)>,
) -> (r: Option<Vec<ModelStat>>)
    ensures
        ({
            let t = table_of(rows_view(rows@));
            match r {
                Some(list) => {
                    &&& rows_fit(rows_view(rows@)) && rpms_fit(t, rpms_view(rpms@))
                    &&& lists(stats_view(list@), table_with(t, rpms_view(rpms@)))
                    &&& once_each(stats_view(list@))
                },
                None => !(rows_fit(rows_view(rows@)) && rpms_fit(t, rpms_view(rpms@))),
            }
        }),
{
    let mut list: Vec<ModelStat> = match merge_rows(rows) {
        Some(v) => v,
        None => {
            return None;
        },
    };
    let ghost base = table_of(rows_view(rows@));
    let ghost all = rpms_view(rpms@);
    let n: usize = rpms.len();
    let mut i: usize = 0;
    assert(all.take(0) =~= Seq::empty());
    while i < n
        invariant
            i <= n == rpms@.len(),
            all == rpms_view(rpms@),
            base == table_of(rows_view(rows@)),
            rows_fit(rows_view(rows@)),
            rpms_fit(base, all.take(i as int)),
            lists(stats_view(list@), table_with(base, all.take(i as int))),
            once_each(stats_view(list@)),
        decreases n - i,
    {
        let ghost t = table_with(base, all.take(i as int));
        let ghost next = all.take(i + 1);
        proof {
            assert(next.drop_last() =~= all.take(i as int));
            assert(next.last() == (rpms@[i as int].0@, rpms@[i as int].1));
        }
        let at: usize = place_of(&mut list, rpms[i].0.as_str());
        let ghost u = t.insert(rpms@[i as int].0@, known_of(t, rpms@[i as int].0@));
        assert(lists(stats_view(list@), u));
        assert(stats_view(list@)[at as int] == list@[at as int]@);
        match list[at].rpm.checked_add(rpms[i].1) {
            Some(sum) => {
                let ghost before = stats_view(list@);
                list[at].rpm = sum;
                proof {
                    let s = list@[at as int]@;
                    assert(stats_view(list@) =~= before.update(at as int, s));
                    lemma_lists_updated(before, u, at as int, s);
                    assert(u.insert(s.model, s) =~= table_with(base, next));
                }
            },
            None => {
                proof {
                    if rpms_fit(base, all) {
                        lemma_rpms_prefix(base, all, i + 1);
                    }
                }
                return None;
            },
        }
        i = i + 1;
    }
    assert(all.take(i as int) =~= all);
    Some(list)
}

fn is_before(a: &ModelStat, b: &ModelStat) -> (r: bool)
    ensures
        r == precedes(a@, b@),
{
    if a.requests != b.requests {
        return a.requests > b.requests;
    }
    if a.rpm != b.rpm {
        return a.rpm > b.rpm;
    }
    text::is_less(a.model.as_str(), b.model.as_str())
}

proof fn lemma_precedes_total(a: StatView, b: StatView)
    requires
        a.model != b.model,
    ensures
        precedes(a, b) || precedes(b, a),
{
    text::lemma_less_total(a.model, b.model);
}

proof fn lemma_precedes_transitive(a: StatView, b: StatView, c: StatView)
    requires
        precedes(a, b),
        precedes(b, c),
    ensures
        precedes(a, c),
{
    if text::less(a.model, b.model) && text::less(b.model, c.model) {
        text::lemma_less_transitive(a.model, b.model, c.model);
    }
}

/// Puts a model in its place.
fn insert_in_order(list: &mut Vec<ModelStat>, item: ModelStat)
    requires
        in_order(stats_view(old(list)@)),
        forall|i: int|
            0 <= i < old(list)@.len() ==> (#[trigger] stats_view(old(list)@)[i]).model
                != item@.model,
    ensures
        in_order(stats_view(final(list)@)),
        forall|s: StatView| #[trigger]
            stats_view(final(list)@).contains(s) <==> stats_view(old(list)@).contains(s) || s
                == item@,
{
    let ghost before = stats_view(list@);
    let n: usize = list.len();
    let mut at: usize = 0;
    while at < n && !is_before(&item, &list[at])
        invariant
            at <= n == list@.len(),
            list@ == old(list)@,
            before == stats_view(list@),
            forall|i: int| 0 <= i < at ==> !precedes(item@, #[trigger] before[i]),
        decreases n - at,
    {
        assert(before[at as int] == list@[at as int]@);
        at = at + 1;
    }
    let ghost v = item@;
    let ghost k = at as int;
    proof {
        assert forall|i: int| 0 <= i < k implies precedes(#[trigger] before[i], v) by {
            lemma_precedes_total(before[i], v);
        }
        assert forall|i: int| k <= i < n implies precedes(v, #[trigger] before[i]) by {
            assert(before[k] == list@[k]@);
            if i > k {
                assert(precedes(before[k], before[i]));
                lemma_precedes_transitive(v, before[k], before[i]);
            }
        }
    }
    list.insert(at, item);
    proof {
        let after = stats_view(list@);
        assert(after =~= before.insert(k, v));
        before.insert_ensures(k, v);
        assert forall|i: int, j: int| 0 <= i < j < after.len() implies precedes(
            #[trigger] after[i],
            #[trigger] after[j],
        ) by {
            let x = if i < k {
                i
            } else {
                i - 1
            };
            let y = if j < k {
                j
            } else {
                j - 1
            };
            if i != k {
                assert(after[i] == before[x]);
            }
            if j != k {
                assert(after[j] == before[y]);
            }
        }
        assert forall|s: StatView| #[trigger] after.contains(s) <==> before.contains(s) || s
            == v by {
            if before.contains(s) {
                let i = choose|i: int| 0 <= i < before.len() && before[i] == s;
                let x = if i < k {
                    i
                } else {
                    i + 1
                };
                assert(after[x] == s);
            }
            if s == v {
                assert(after[k] == s);
            }
            if after.contains(s) && s != v {
                let i = choose|i: int| 0 <= i < after.len() && after[i] == s;
                let x = if i < k {
                    i
                } else {
                    i - 1
                };
                assert(before[x] == s);
            }
        }
    }
}

/// A table in order.
fn sorted(table: Vec<ModelStat>) -> (r: Vec<ModelStat>)
    requires
        once_each(stats_view(table@)),
    ensures
        in_order(stats_view(r@)),
        forall|s: StatView| #[trigger]
            stats_view(r@).contains(s) <==> stats_view(table@).contains(s),
{
    let ghost all = stats_view(table@);
    let mut rest: Vec<ModelStat> = table;
    let mut list: Vec<ModelStat> = Vec::new();
    let ghost mut done: int = 0;
    assert(stats_view(list@) =~= Seq::empty());
    assert(all.take(0) =~= Seq::empty());
    while rest.len() > 0
        invariant
            0 <= done <= all.len(),
            stats_view(rest@) == all.skip(done),
            once_each(all),
            in_order(stats_view(list@)),
            forall|s: StatView| #[trigger]
                stats_view(list@).contains(s) <==> all.take(done).contains(s),
        decreases rest@.len(),
    {
        assert(stats_view(rest@)[0] == rest@[0]@);
        let ghost tail = stats_view(rest@);
        let item: ModelStat = rest.remove(0);
        let ghost v = item@;
        proof {
            assert(v == tail[0]);
            assert(tail.len() == all.len() - done);
            assert(tail[0] == all[done]);
            assert(stats_view(rest@) =~= tail.skip(1));
            assert(all.skip(done + 1) =~= all.skip(done).skip(1));
            let sofar = stats_view(list@);
            assert forall|i: int| 0 <= i < sofar.len() implies (#[trigger] sofar[i]).model
                != v.model by {
                assert(sofar.contains(sofar[i]));
                let k = choose|k: int| 0 <= k < done && all.take(done)[k] == sofar[i];
                assert(all[k].model != all[done].model);
            }
        }
        let ghost before = stats_view(list@);
        insert_in_order(&mut list, item);
        proof {
            let now = all.take(done);
            let next = all.take(done + 1);
            assert(next =~= now.push(v));
            assert forall|s: StatView| #[trigger] stats_view(list@).contains(s) <==> next.contains(
                s,
            ) by {
                if now.contains(s) {
                    let k = choose|k: int| 0 <= k < now.len() && now[k] == s;
                    assert(next[k] == s);
                }
                if s == v {
                    assert(next[done] == s);
                }
                if next.contains(s) && s != v {
                    let k = choose|k: int| 0 <= k < next.len() && next[k] == s;
                    assert(now[k] == s);
                }
                assert(before.contains(s) <==> now.contains(s));
            }
            done = done + 1;
        }
    }
    assert(all.take(done) =~= all);
    list
}

/// Whether the table can be made: whether no sum leaves its type.
pub fn can_build_model_stats(
    rows: &Vec<(String, ModelStatSnapshot)>,
    rpms: &Vec<(String, u32)>,
) -> (r: bool)
    ensures
        r == (rows_fit(rows_view(rows@)) && rpms_fit(
            table_of(rows_view(rows@)),
            rpms_view(rpms@),
        )),
{
    merge_rpms(rows, rpms).is_some()
}

/// The table of models, in the order of [`precedes`]: the counts and the requests of
/// the last minute, under the names by which models are shown.
pub fn build_model_stats(
    rows: &Vec<(String, ModelStatSnapshot)>,
    rpms: &Vec<(String, u32)>,
) -> (r: Vec<ModelStat>)
    requires
        rows_fit(rows_view(rows@)),
        rpms_fit(table_of(rows_view(rows@)), rpms_view(rpms@)),
    ensures
        in_order(stats_view(r@)),
        lists(
            stats_view(r@),
            table_with(table_of(rows_view(rows@)), rpms_view(rpms@)),
        ),
{
    let ghost t = table_with(table_of(rows_view(rows@)), rpms_view(rpms@));
    match merge_rpms(rows, rpms) {
        Some(table) => {
            let ghost all = stats_view(table@);
            let r: Vec<ModelStat> = sorted(table);
            proof {
                let list = stats_view(r@);
                assert forall|i: int| 0 <= i < list.len() implies t.contains_key(
                    (#[trigger] list[i]).model,
                ) && t[list[i].model] == list[i] by {
                    assert(list.contains(list[i]));
                    let k = choose|k: int| 0 <= k < all.len() && all[k] == list[i];
                    assert(t.contains_key(all[k].model));
                }
                assert forall|m: Seq<char>| #[trigger] t.contains_key(m) implies exists|i: int|
                    0 <= i < list.len() && (#[trigger] list[i]).model == m by {
                    let k = choose|k: int| 0 <= k < all.len() && (#[trigger] all[k]).model == m;
                    assert(all.contains(all[k]));
                    assert(list.contains(all[k]));
                    let i = choose|i: int| 0 <= i < list.len() && list[i] == all[k];
                    assert(list[i].model == m);
                }
            }
            r
        },
        None => Vec::new(),
    }
}

/// The sums of the rows with a name, count by count, and of its requests in the last
/// minute.
pub open spec fn sums_of(
    rows: Seq<(Seq<char>, model_stats::SnapshotView)>,
    rpms: Seq<(Seq<char>, u32)>,
    name: Seq<char>,
) -> StatView {
    StatView {
        model: name,
        requests: sum_of(rows, name, |s: model_stats::SnapshotView| s.requests),
        input_tokens: sum_of(rows, name, |s: model_stats::SnapshotView| s.input_tokens),
        output_tokens: sum_of(rows, name, |s: model_stats::SnapshotView| s.output_tokens),
        total_tokens: sum_of(rows, name, |s: model_stats::SnapshotView| s.total_tokens),
        today_requests: sum_of(rows, name, |s: model_stats::SnapshotView| s.today_requests),
        today_input_tokens: sum_of(
            rows,
            name,
            |s: model_stats::SnapshotView| s.today_input_tokens,
        ),
        today_output_tokens: sum_of(
            rows,
            name,
            |s: model_stats::SnapshotView| s.today_output_tokens,
        ),
        today_total_tokens: sum_of(
            rows,
            name,
            |s: model_stats::SnapshotView| s.today_total_tokens,
        ),
        rpm: sum_of_rpms(rpms, name),
    }
}

/// The sum of one count of the rows with a name.
pub open spec fn sum_of(
    rows: Seq<(Seq<char>, model_stats::SnapshotView)>,
    name: Seq<char>,
    count: spec_fn(model_stats::SnapshotView) -> int,
) -> int
    decreases rows.len(),
{
    if rows.len() == 0 {
        0
    } else {
        sum_of(rows.drop_last(), name, count) + if rows.last().0 == name {
            count(rows.last().1)
        } else {
            0
        }
    }
}

/// The sum of the requests with a name in the last minute.
pub open spec fn sum_of_rpms(rpms: Seq<(Seq<char>, u32)>, name: Seq<char>) -> int
    decreases rpms.len(),
{
    if rpms.len() == 0 {
        0
    } else {
        sum_of_rpms(rpms.drop_last(), name) + if rpms.last().0 == name {
            rpms.last().1 as int
        } else {
            0
        }
    }
}

/// Nothing is lost in the table and nothing is added: under each name stand the sums of
/// what was counted under it.
pub proof fn law_counts_are_summed(
    rows: Seq<(Seq<char>, model_stats::SnapshotView)>,
    rpms: Seq<(Seq<char>, u32)>,
    name: Seq<char>,
)
    ensures
        known_of(table_with(table_of(rows), rpms), name) == sums_of(rows, rpms, name),
    decreases rows.len() + rpms.len(),
{
    if rpms.len() > 0 {
        law_counts_are_summed(rows, rpms.drop_last(), name);
    } else if rows.len() > 0 {
        law_counts_are_summed(rows.drop_last(), rpms, name);
    }
}

/// The table begins with the model that was asked most often; among those that were asked as
/// often, with the one that was asked most often in the last minute; and then goes by the names.
pub proof fn law_most_asked_first(list: Seq<StatView>, i: int, j: int)
    requires
        in_order(list),
        0 <= i < j < list.len(),
    ensures
        list[i].requests >= list[j].requests,
        list[i].requests == list[j].requests ==> list[i].rpm >= list[j].rpm,
        list[i].requests == list[j].requests && list[i].rpm == list[j].rpm ==> text::less(
            list[i].model,
            list[j].model,
        ),
{
    assert(precedes(list[i], list[j]));
}

} // verus!
