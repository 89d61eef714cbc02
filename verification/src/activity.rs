//! Activity: how much a project has written and how bad it is, never what.

use std::collections::BTreeMap;
use vstd::prelude::*;

use crate::model::{levels_of_one_severity_are_one_level, Level, ProjectId};

verus! {

/// How often each level occurred. A level that did not occur is not held.
#[derive(Debug, PartialEq, Eq)]
pub struct LevelCounts {
    /// Keyed by the rank of the level.
    by_rank: BTreeMap<u8, u64>,
}

impl View for LevelCounts {
    type V = Map<Level, u64>;

    closed spec fn view(&self) -> Map<Level, u64> {
        Map::new(
            |level: Level| self.by_rank@.contains_key(level.severity()),
            |level: Level| self.by_rank@[level.severity()],
        )
    }
}

/// How often a level occurred.
pub open spec fn count_of(counts: Map<Level, u64>, level: Level) -> nat {
    if counts.contains_key(level) {
        counts[level] as nat
    } else {
        0
    }
}

impl LevelCounts {
    #[verifier::type_invariant]
    spec fn inv(&self) -> bool {
        forall|rank: u8| #[trigger] self.by_rank@.contains_key(rank) ==> rank <= 8
    }

    pub fn new() -> (counts: Self)
        ensures
            counts@ == Map::<Level, u64>::empty(),
    {
        let counts = LevelCounts { by_rank: BTreeMap::new() };
        assert(counts@ =~= Map::<Level, u64>::empty());
        counts
    }

    /// How often a level occurred, if it did.
    pub fn get(&self, level: &Level) -> (count: Option<&u64>)
        ensures
            count is Some <==> self@.contains_key(*level),
            count matches Some(count) ==> *count == self@[*level],
    {
        let rank: u8 = level.rank();
        self.by_rank.get(&rank)
    }

    /// How many distinct levels occurred.
    pub fn len(&self) -> (len: usize)
        ensures
            len == self@.len(),
            len <= 9,
    {
        proof {
            use_type_invariant(self);
            let ranks = self.by_rank@.dom();
            let levels = self@.dom();
            let severity = |level: Level| level.severity();
            assert forall|rank: u8| #[trigger] ranks.contains(rank) implies levels.map(
                severity,
            ).contains(rank) by {
                let level = level_of(rank);
                assert(level.severity() == rank);
                assert(levels.contains(level));
            }
            assert(levels.map(severity) =~= ranks);
            let all: Set<Level> = set![
                Level::Unknown,
                Level::Debug,
                Level::Info,
                Level::Notice,
                Level::Warning,
                Level::Error,
                Level::Critical,
                Level::Alert,
                Level::Emergency,
            ];
            assert(levels.subset_of(all)) by {
                assert forall|level: Level| #[trigger] levels.contains(level) implies all.contains(
                    level,
                ) by {
                }
            }
            vstd::set_lib::lemma_len_subset(levels, all);
            assert forall|a: Level, b: Level| #[trigger] severity(a) == #[trigger] severity(
                b,
            ) implies a == b by {
                levels_of_one_severity_are_one_level(a, b);
            }
            vstd::set_lib::lemma_map_size(levels, ranks, severity);
            lemma_nine_levels();
        }
        self.by_rank.len()
    }

    pub fn is_empty(&self) -> (empty: bool)
        ensures
            empty == (self@.len() == 0),
    {
        self.len() == 0
    }

    /// Count one more of a level.
    fn add(&mut self, level: Level)
        requires
            count_of(old(self)@, level) < u64::MAX,
        ensures
            final(self)@ == old(self)@.insert(level, (count_of(old(self)@, level) + 1) as u64),
    {
        proof {
            use_type_invariant(&*self);
        }
        let rank: u8 = level.rank();
        let count: u64 = match self.by_rank.get(&rank) {
            Some(count) => *count,
            None => 0,
        };
        let ghost before = self@;
        let mut by_rank = self.by_rank.clone();
        by_rank.insert(rank, count + 1);
        *self = LevelCounts { by_rank };
        proof {
            assert forall|other: Level| other != level implies other.severity() != rank by {
                levels_of_one_severity_are_one_level(other, level);
            }
            assert(self@ =~= before.insert(level, (count + 1) as u64));
        }
    }
}

impl Clone for LevelCounts {
    fn clone(&self) -> (copy: Self)
        ensures
            copy@ == self@,
    {
        proof {
            use_type_invariant(self);
        }
        LevelCounts { by_rank: self.by_rank.clone() }
    }
}

/// The level of a rank.
spec fn level_of(rank: u8) -> Level {
    if rank == 0 {
        Level::Unknown
    } else if rank == 1 {
        Level::Debug
    } else if rank == 2 {
        Level::Info
    } else if rank == 3 {
        Level::Notice
    } else if rank == 4 {
        Level::Warning
    } else if rank == 5 {
        Level::Error
    } else if rank == 6 {
        Level::Critical
    } else if rank == 7 {
        Level::Alert
    } else {
        Level::Emergency
    }
}

proof fn lemma_nine_levels()
    ensures
        set![
            Level::Unknown,
            Level::Debug,
            Level::Info,
            Level::Notice,
            Level::Warning,
            Level::Error,
            Level::Critical,
            Level::Alert,
            Level::Emergency,
        ].len() <= 9,
{
}

/// What a project has written: how much, at which levels, and the highest.
#[derive(Debug, PartialEq, Eq)]
pub struct Activity {
    pub total: u64,
    pub counts: LevelCounts,
    pub max_level: Option<Level>,
}

/// Activity, as numbers.
#[verifier::ext_equal]
pub struct ActivityModel {
    pub total: nat,
    pub counts: Map<Level, u64>,
    pub max_level: Option<Level>,
}

impl View for Activity {
    type V = ActivityModel;

    open spec fn view(&self) -> ActivityModel {
        ActivityModel {
            total: self.total as nat,
            counts: self.counts@,
            max_level: self.max_level,
        }
    }
}

/// No activity.
pub open spec fn no_activity() -> ActivityModel {
    ActivityModel { total: 0, counts: Map::empty(), max_level: None }
}

/// The sum of the counts of all levels.
pub open spec fn sum_of(counts: Map<Level, u64>) -> nat {
    count_of(counts, Level::Unknown) + count_of(counts, Level::Debug) + count_of(
        counts,
        Level::Info,
    ) + count_of(counts, Level::Notice) + count_of(counts, Level::Warning) + count_of(
        counts,
        Level::Error,
    ) + count_of(counts, Level::Critical) + count_of(counts, Level::Alert) + count_of(
        counts,
        Level::Emergency,
    )
}

/// Whether activity is consistent: the total is the sum of the counts, a level
/// is held only if it occurred, and the highest is the highest that did.
pub open spec fn adds_up(activity: ActivityModel) -> bool {
    &&& activity.total == sum_of(activity.counts)
    &&& forall|level: Level|
        #[trigger] activity.counts.contains_key(level) ==> activity.counts[level] > 0
    &&& match activity.max_level {
        Some(highest) => {
            &&& activity.counts.contains_key(highest)
            &&& forall|level: Level|
                #[trigger] activity.counts.contains_key(level) ==> level.severity()
                    <= highest.severity()
        },
        None => forall|level: Level| !#[trigger] activity.counts.contains_key(level),
    }
}

/// The higher of a level that may be there and another.
pub open spec fn higher(current: Option<Level>, level: Level) -> Level {
    match current {
        Some(current) => if current.severity() > level.severity() {
            current
        } else {
            level
        },
        None => level,
    }
}

/// Activity with one more entry of a level.
pub open spec fn recorded(activity: ActivityModel, level: Level) -> ActivityModel {
    ActivityModel {
        total: activity.total + 1,
        counts: activity.counts.insert(
            level,
            (count_of(activity.counts, level) + 1) as u64,
        ),
        max_level: Some(higher(activity.max_level, level)),
    }
}

/// Activity with one more entry of each of these levels.
pub open spec fn recorded_all(activity: ActivityModel, levels: Seq<Level>) -> ActivityModel
    decreases levels.len(),
{
    if levels.len() == 0 {
        activity
    } else {
        recorded(recorded_all(activity, levels.drop_last()), levels.last())
    }
}

/// Activity that adds up still does with one more entry.
pub proof fn recording_adds_up(activity: ActivityModel, level: Level)
    requires
        adds_up(activity),
        activity.total < u64::MAX,
    ensures
        adds_up(recorded(activity, level)),
        count_of(recorded(activity, level).counts, level) == count_of(activity.counts, level) + 1,
        forall|other: Level|
            other != level ==> #[trigger] count_of(recorded(activity, level).counts, other)
                == count_of(activity.counts, other),
{
    let after = recorded(activity, level);
    lemma_count_is_in_the_sum(activity.counts, level);
    lemma_sum_with_one_more(activity.counts, level);
    assert forall|other: Level| #[trigger] after.counts.contains_key(
        other,
    ) implies after.counts[other] > 0 by {
        if other != level {
            assert(activity.counts.contains_key(other));
        }
    }
    assert forall|other: Level| #[trigger] after.counts.contains_key(
        other,
    ) implies other.severity() <= after.max_level.unwrap().severity() by {
        if other != level {
            assert(activity.counts.contains_key(other));
        }
    }
}

/// No level occurred more often than all levels together.
pub proof fn lemma_count_is_in_the_sum(counts: Map<Level, u64>, level: Level)
    ensures
        count_of(counts, level) <= sum_of(counts),
{
}

/// Counting one more of a level adds one to the sum.
proof fn lemma_sum_with_one_more(counts: Map<Level, u64>, level: Level)
    requires
        count_of(counts, level) < u64::MAX,
    ensures
        ({
            let more = counts.insert(level, (count_of(counts, level) + 1) as u64);
            &&& sum_of(more) == sum_of(counts) + 1
            &&& count_of(more, level) == count_of(counts, level) + 1
            &&& forall|other: Level|
                other != level ==> #[trigger] count_of(more, other) == count_of(counts, other)
        }),
{
    let more = counts.insert(level, (count_of(counts, level) + 1) as u64);
    let one = |other: Level| -> int { if other == level { 1 } else { 0 } };
    assert forall|other: Level| #[trigger] count_of(more, other) == count_of(counts, other) + one(
        other,
    ) by {
    }
    match level {
        Level::Unknown => {},
        Level::Debug => {},
        Level::Info => {},
        Level::Notice => {},
        Level::Warning => {},
        Level::Error => {},
        Level::Critical => {},
        Level::Alert => {},
        Level::Emergency => {},
    }
}

/// Recording a list of levels counts each of them once, and the result adds up:
/// its highest level is the highest of all that were recorded.
pub proof fn recording_a_list_adds_up(activity: ActivityModel, levels: Seq<Level>)
    requires
        adds_up(activity),
        activity.total + levels.len() <= u64::MAX,
    ensures
        adds_up(recorded_all(activity, levels)),
        recorded_all(activity, levels).total == activity.total + levels.len(),
        forall|level: Level| #[trigger]
            count_of(recorded_all(activity, levels).counts, level) == count_of(
                activity.counts,
                level,
            ) + levels.filter(|other: Level| other == level).len(),
    decreases levels.len(),
{
    if levels.len() > 0 {
        let front = levels.drop_last();
        recording_a_list_adds_up(activity, front);
        let before = recorded_all(activity, front);
        recording_adds_up(before, levels.last());
        let after = recorded_all(activity, levels);
        assert forall|level: Level| #[trigger] count_of(after.counts, level) == count_of(
            activity.counts,
            level,
        ) + levels.filter(|other: Level| other == level).len() by {
            let is = |other: Level| other == level;
            assert(levels =~= front.push(levels.last()));
            reveal(Seq::filter);
            assert(count_of(before.counts, level) == count_of(activity.counts, level)
                + front.filter(is).len());
            if level != levels.last() {
                assert(count_of(after.counts, level) == count_of(before.counts, level));
            }
        }
    } else {
        assert forall|level: Level| #[trigger] count_of(
            recorded_all(activity, levels).counts,
            level,
        ) == count_of(activity.counts, level) + levels.filter(
            |other: Level| other == level,
        ).len() by {
            reveal(Seq::filter);
        }
    }
}

/// Recording one list of levels and then another is recording both.
pub proof fn recording_lists_adds_up(activity: ActivityModel, a: Seq<Level>, b: Seq<Level>)
    ensures
        recorded_all(recorded_all(activity, a), b) == recorded_all(activity, a + b),
    decreases b.len(),
{
    if b.len() == 0 {
        assert(a + b =~= a);
    } else {
        recording_lists_adds_up(activity, a, b.drop_last());
        assert((a + b).drop_last() =~= a + b.drop_last());
        assert((a + b).last() == b.last());
    }
}

impl Activity {
    pub fn new() -> (activity: Self)
        ensures
            activity@ == no_activity(),
            adds_up(activity@),
    {
        Activity { total: 0, counts: LevelCounts::new(), max_level: None }
    }

    /// Count one more entry of a level.
    pub fn record(&mut self, level: Level)
        requires
            old(self)@.total < u64::MAX,
            count_of(old(self)@.counts, level) < u64::MAX,
        ensures
            final(self)@ == recorded(old(self)@, level),
            adds_up(old(self)@) ==> adds_up(final(self)@),
    {
        proof {
            if adds_up(self@) {
                recording_adds_up(self@, level);
            }
        }
        self.total += 1;
        self.counts.add(level);
        self.max_level = Some(
            match self.max_level {
                Some(current) => if current > level {
                    current
                } else {
                    level
                },
                None => level,
            },
        );
    }

    /// Forget everything.
    pub fn clear(&mut self)
        ensures
            final(self)@ == no_activity(),
            adds_up(final(self)@),
    {
        *self = Activity::new();
    }

    /// What is sent of it.
    pub fn payload(&self, project_id: &ProjectId) -> (payload: ActivityPayload)
        ensures
            payload@ == (ActivityPayloadModel { project_id: project_id@, activity: self@ }),
    {
        ActivityPayload {
            project_id: project_id.clone(),
            total: self.total,
            counts: self.counts.clone(),
            max_level: self.max_level,
        }
    }
}

impl Default for Activity {
    fn default() -> (activity: Self)
        ensures
            activity@ == no_activity(),
    {
        Activity::new()
    }
}

impl Clone for Activity {
    fn clone(&self) -> (copy: Self)
        ensures
            copy@ == self@,
    {
        Activity { total: self.total, counts: self.counts.clone(), max_level: self.max_level }
    }
}

/// How much a project the user is *not* reading has written: counts and a
/// highest level, never text.
#[derive(Debug, PartialEq, Eq)]
pub struct ActivityPayload {
    pub project_id: ProjectId,
    pub total: u64,
    pub counts: LevelCounts,
    pub max_level: Option<Level>,
}

/// A project's activity as it is sent.
#[verifier::ext_equal]
pub struct ActivityPayloadModel {
    pub project_id: Seq<char>,
    pub activity: ActivityModel,
}

impl View for ActivityPayload {
    type V = ActivityPayloadModel;

    open spec fn view(&self) -> ActivityPayloadModel {
        ActivityPayloadModel {
            project_id: self.project_id@,
            activity: ActivityModel {
                total: self.total as nat,
                counts: self.counts@,
                max_level: self.max_level,
            },
        }
    }
}

impl Clone for ActivityPayload {
    fn clone(&self) -> (copy: Self)
        ensures
            copy@ == self@,
    {
        ActivityPayload {
            project_id: self.project_id.clone(),
            total: self.total,
            counts: self.counts.clone(),
            max_level: self.max_level,
        }
    }
}

/// Whether activity has lost nothing: neither the total nor the count of any
/// level has fallen, and the highest level has not either.
pub open spec fn has_not_fallen(before: ActivityModel, after: ActivityModel) -> bool {
    &&& before.total <= after.total
    &&& forall|level: Level| #[trigger]
        count_of(before.counts, level) <= count_of(after.counts, level)
    &&& before.max_level matches Some(was) ==> (after.max_level matches Some(is) && was.severity()
        <= is.severity())
}

/// Recording loses nothing.
pub proof fn recording_loses_nothing(activity: ActivityModel, levels: Seq<Level>)
    requires
        adds_up(activity),
        activity.total + levels.len() <= u64::MAX,
    ensures
        has_not_fallen(activity, recorded_all(activity, levels)),
{
    recording_a_list_adds_up(activity, levels);
    let after = recorded_all(activity, levels);
    assert forall|level: Level| #[trigger] count_of(activity.counts, level) <= count_of(
        after.counts,
        level,
    ) by {
        assert(count_of(after.counts, level) == count_of(activity.counts, level) + levels.filter(
            |other: Level| other == level,
        ).len());
    }
    if let Some(was) = activity.max_level {
        assert(activity.counts.contains_key(was));
        assert(count_of(activity.counts, was) <= count_of(after.counts, was));
        assert(after.counts.contains_key(was));
    }
}

} // verus!
