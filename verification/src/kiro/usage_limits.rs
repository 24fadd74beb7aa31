//! What the upstream service says of the limits of a credential. The amounts that
//! count are fractions; here is what they are the amounts of, and the amounts in whole
//! numbers, where there are any.

use vstd::prelude::*;
use crate::text;

verus! {

/// A subscription.
#[derive(Debug)]
pub struct SubscriptionInfo {
    pub subscription_title: Option<String>,
}

/// An amount on top of the subscription.
#[derive(Debug)]
pub struct Bonus {
    pub status: Option<String>,
}

/// A free trial.
#[derive(Debug)]
pub struct FreeTrialInfo {
    pub current_usage: i64,
    pub usage_limit: i64,
    pub free_trial_status: Option<String>,
}

/// The amounts of one resource.
#[derive(Debug)]
pub struct UsageBreakdown {
    pub current_usage: i64,
    pub usage_limit: i64,
    pub bonuses: Vec<Bonus>,
    pub free_trial_info: Option<FreeTrialInfo>,
}

/// The limits of a credential.
#[derive(Debug)]
pub struct UsageLimitsResponse {
    pub subscription_info: Option<SubscriptionInfo>,
    pub usage_breakdown_list: Vec<UsageBreakdown>,
}

/// An amount that counts toward the total of the first resource.
#[derive(Debug, Clone, Copy, PartialEq, Eq, Structural)]
pub enum UsagePart {
    /// That of the subscription.
    Base,
    /// That of the free trial.
    FreeTrial,
    /// That of a bonus, by its place in the list.
    Bonus(usize),
}

/// Whether a status says that an amount can be used.
pub open spec fn active(status: Option<Seq<char>>) -> bool {
    status == Some("ACTIVE"@)
}

fn status_is_active(status: &Option<String>) -> (r: bool)
    ensures
        r == active(text::opt_view(*status)),
{
    match status {
        Some(s) => text::str_eq(s.as_str(), "ACTIVE"),
        None => false,
    }
}

impl Bonus {
    /// Whether the bonus can be used.
    pub fn is_active(&self) -> (r: bool)
        ensures
            r == active(text::opt_view(self.status)),
    {
        status_is_active(&self.status)
    }
}

impl FreeTrialInfo {
    /// Whether the trial can be used.
    pub fn is_active(&self) -> (r: bool)
        ensures
            r == active(text::opt_view(self.free_trial_status)),
    {
        status_is_active(&self.free_trial_status)
    }
}

/// The active ones of the first `n` bonuses, in order.
pub open spec fn active_bonuses(bonuses: Seq<Bonus>, n: int) -> Seq<UsagePart>
    decreases n,
{
    if n <= 0 {
        Seq::empty()
    } else {
        let rest = active_bonuses(bonuses, n - 1);
        if active(text::opt_view(bonuses[n - 1].status)) {
            rest.push(UsagePart::Bonus((n - 1) as usize))
        } else {
            rest
        }
    }
}

/// The amounts that make up the total of a resource.
pub open spec fn parts_of(b: UsageBreakdown) -> Seq<UsagePart> {
    seq![UsagePart::Base] + (if b.free_trial_info is Some && active(
        text::opt_view(b.free_trial_info.unwrap().free_trial_status),
    ) {
        seq![UsagePart::FreeTrial]
    } else {
        Seq::empty()
    }) + active_bonuses(b.bonuses@, b.bonuses@.len() as int)
}

impl UsageLimitsResponse {
    /// The title of the subscription.
    pub fn subscription_title(&self) -> (r: Option<&str>)
        ensures
            (match r {
                Some(s) => Some(s@),
                None => None,
            }) == match self.subscription_info {
                Some(info) => text::opt_view(info.subscription_title),
                None => None,
            },
    {
        match &self.subscription_info {
            Some(info) => match &info.subscription_title {
                Some(s) => Some(s.as_str()),
                None => None,
            },
            None => None,
        }
    }

    /// The first resource.
    pub fn primary_breakdown(&self) -> (r: Option<&UsageBreakdown>)
        ensures
            match r {
                Some(b) => self.usage_breakdown_list@.len() > 0 && *b
                    == self.usage_breakdown_list@[0],
                None => self.usage_breakdown_list@.len() == 0,
            },
    {
        if self.usage_breakdown_list.len() > 0 {
            Some(&self.usage_breakdown_list[0])
        } else {
            None
        }
    }

    /// The amounts that make up the total, both of the limit and of the usage: those of
    /// the first resource, in the order in which they are added up.
    pub fn counted_parts(&self) -> (r: Vec<UsagePart>)
        ensures
            r@ == if self.usage_breakdown_list@.len() == 0 {
                Seq::empty()
            } else {
                parts_of(self.usage_breakdown_list@[0])
            },
    {
        let mut parts: Vec<UsagePart> = Vec::new();
        if let Some(b) = self.primary_breakdown() {
            parts.push(UsagePart::Base);
            if let Some(trial) = &b.free_trial_info {
                if trial.is_active() {
                    parts.push(UsagePart::FreeTrial);
                }
            }
            let ghost head = parts@;
            let n: usize = b.bonuses.len();
            let mut i: usize = 0;
            assert(head + active_bonuses(b.bonuses@, 0) =~= head);
            while i < n
                invariant
                    i <= n == b.bonuses@.len(),
                    parts@ == head + active_bonuses(b.bonuses@, i as int),
                decreases n - i,
            {
                if b.bonuses[i].is_active() {
                    parts.push(UsagePart::Bonus(i));
                }
                assert(parts@ =~= head + active_bonuses(b.bonuses@, i + 1));
                i = i + 1;
            }
            assert(parts@ =~= parts_of(*b));
        }
        parts
    }
}

/// The total of a resource is made up of the amount of the subscription, of that of the free
/// trial if and only if it is active, and of those of the bonuses that are active; of no other
/// and of none twice.
pub proof fn law_only_active_parts_count(b: UsageBreakdown)
    requires
        b.bonuses@.len() <= usize::MAX,
    ensures
        parts_of(b).first() == UsagePart::Base,
        parts_of(b).contains(UsagePart::FreeTrial) <==> b.free_trial_info is Some && text::opt_view(
            b.free_trial_info.unwrap().free_trial_status,
        ) == Some("ACTIVE"@),
        forall|i: int|
            0 <= i < b.bonuses@.len() ==> (parts_of(b).contains(
                UsagePart::Bonus(i as usize),
            ) <==> text::opt_view((#[trigger] b.bonuses@[i]).status) == Some("ACTIVE"@)),
        parts_of(b).no_duplicates(),
{
    let n = b.bonuses@.len() as int;
    lemma_active_bonuses(b.bonuses@, n);
    let all = parts_of(b);
    let tail = active_bonuses(b.bonuses@, n);
    let head = all.take(all.len() - tail.len());
    assert(all =~= head + tail);
    assert(1 <= head.len() <= 2);
    assert(head[0] == UsagePart::Base);
    let trial = b.free_trial_info is Some && active(
        text::opt_view(b.free_trial_info.unwrap().free_trial_status),
    );
    assert(trial ==> head.len() == 2 && head[1] == UsagePart::FreeTrial);
    assert(!trial ==> head.len() == 1);
    if trial {
        assert(all[1] == UsagePart::FreeTrial);
    }
    assert forall|i: int| 0 <= i < n implies (all.contains(
        UsagePart::Bonus(i as usize),
    ) <==> text::opt_view((#[trigger] b.bonuses@[i]).status) == Some("ACTIVE"@)) by {
        let part = UsagePart::Bonus(i as usize);
        if all.contains(part) {
            let k = choose|k: int| 0 <= k < all.len() && all[k] == part;
            assert(k >= head.len());
            assert(tail[k - head.len()] == part);
        }
        if active(text::opt_view(b.bonuses@[i].status)) {
            assert(tail.contains(part));
            let k = choose|k: int| 0 <= k < tail.len() && tail[k] == part;
            assert(all[head.len() + k] == part);
        }
    }
    if all.contains(UsagePart::FreeTrial) {
        let k = choose|k: int| 0 <= k < all.len() && all[k] == UsagePart::FreeTrial;
        if k >= head.len() {
            assert(tail[k - head.len()] is Bonus);
        }
    }
    assert forall|x: int, y: int| 0 <= x < all.len() && 0 <= y < all.len() && x
        != y implies all[x] != all[y] by {
        if x >= head.len() {
            assert(all[x] == tail[x - head.len()]);
            assert(tail[x - head.len()] is Bonus);
        }
        if y >= head.len() {
            assert(all[y] == tail[y - head.len()]);
            assert(tail[y - head.len()] is Bonus);
        }
    }
}

proof fn lemma_active_bonuses(bonuses: Seq<Bonus>, n: int)
    requires
        0 <= n <= bonuses.len(),
        bonuses.len() <= usize::MAX,
    ensures
        forall|k: int|
            0 <= k < active_bonuses(bonuses, n).len() ==> {
                let part = #[trigger] active_bonuses(bonuses, n)[k];
                part is Bonus && part->Bonus_0 < n && active(
                    text::opt_view(bonuses[part->Bonus_0 as int].status),
                )
            },
        forall|i: int|
            0 <= i < n && active(text::opt_view((#[trigger] bonuses[i]).status))
                ==> active_bonuses(bonuses, n).contains(UsagePart::Bonus(i as usize)),
        active_bonuses(bonuses, n).no_duplicates(),
    decreases n,
{
    if n > 0 {
        lemma_active_bonuses(bonuses, n - 1);
        let rest = active_bonuses(bonuses, n - 1);
        let all = active_bonuses(bonuses, n);
        if active(text::opt_view(bonuses[n - 1].status)) {
            assert(all[rest.len() as int] == UsagePart::Bonus((n - 1) as usize));
        }
        assert forall|i: int|
            0 <= i < n && active(
                text::opt_view((#[trigger] bonuses[i]).status),
            ) implies all.contains(UsagePart::Bonus(i as usize)) by {
            if i < n - 1 {
                let k = choose|k: int| 0 <= k < rest.len() && rest[k] == UsagePart::Bonus(
                    i as usize,
                );
                assert(all[k] == rest[k]);
            }
        }
    }
}

} // verus!
