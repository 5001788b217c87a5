//! The usage ledger: for each program and each document the times at which
//! it was launched, from which the launcher ranks what it offers.
//!
//! A record's score is the sum, over its launches, of two to the power of
//! minus the age of the launch in half-lives of seven days. That sum is a
//! real number, which this crate does not compute: the ledger hands out the
//! ages, and takes from its caller a rank for each record, an integer that
//! is larger where the score is higher.

use crate::clock::{
    age_in_seconds, age_seconds, is_more_than_seconds, lemma_age_grows,
    lemma_age_grows_strictly, more_than_seconds, Timestamp, NANOS_PER_SECOND, SECONDS_PER_DAY,
};
use crate::config::{ItemType, LaunchItem};
use crate::order::{
    arranged, lemma_sorted_order, permutes, positions, ranks_of, sorted_order, stable_order,
};
use vstd::prelude::*;

verus! {

/// The number of launches that a record remembers.
pub const MAX_LAUNCHES: usize = 100;

/// The time after which a launch counts half, in seconds: seven days.
pub const HALF_LIFE_SECONDS: u64 = 604_800;

/// The time that must have passed since a cleanup before the next one, in
/// seconds: one day.
pub const CLEANUP_INTERVAL_SECONDS: u64 = SECONDS_PER_DAY;

/// The launches of one program or document.
#[derive(Debug)]
pub struct UsageRecord {
    /// The path, by which the record is found.
    pub path: String,
    /// The name under which it is shown.
    pub name: String,
    /// The times of the last launches, the oldest first.
    pub launches: Vec<Timestamp>,
}

/// What a record holds, as mathematical values.
pub struct RecordView {
    pub path: Seq<char>,
    pub name: Seq<char>,
    pub launches: Seq<Timestamp>,
}

impl View for UsageRecord {
    type V = RecordView;

    open spec fn view(&self) -> RecordView {
        RecordView { path: self.path@, name: self.name@, launches: self.launches@ }
    }
}

impl Clone for UsageRecord {
    fn clone(&self) -> (copy: UsageRecord)
        ensures
            copy@ == self@,
    {
        let mut launches: Vec<Timestamp> = Vec::new();
        let mut i: usize = 0;
        while i < self.launches.len()
            invariant
                i <= self.launches.len(),
                launches@ == self.launches@.take(i as int),
            decreases self.launches.len() - i,
        {
            launches.push(self.launches[i]);
            proof {
                assert(self.launches@.take(i + 1) == self.launches@.take(i as int).push(
                    self.launches@[i as int],
                ));
            }
            i += 1;
        }
        proof {
            assert(self.launches@.take(self.launches.len() as int) == self.launches@);
        }
        UsageRecord { path: self.path.clone(), name: self.name.clone(), launches }
    }
}

/// The launches after one more at `now`: it is added at the end, and only the
/// last hundred are kept.
pub open spec fn launched(launches: Seq<Timestamp>, now: Timestamp) -> Seq<Timestamp> {
    let all = launches.push(now);
    if all.len() > MAX_LAUNCHES {
        all.skip(all.len() - MAX_LAUNCHES)
    } else {
        all
    }
}

/// The age at `now` of each launch, in whole seconds; a launch in the future
/// has age zero, and so counts in full.
pub open spec fn ages_of(launches: Seq<Timestamp>, now: Timestamp) -> Seq<int> {
    launches.map_values(|t: Timestamp| age_seconds(now, t))
}

/// With time no age shrinks: the score of a record without new launches does
/// not rise.
pub proof fn lemma_ages_grow(launches: Seq<Timestamp>, earlier: Timestamp, later: Timestamp)
    requires
        earlier.instant() <= later.instant(),
    ensures
        ages_of(launches, earlier).len() == ages_of(launches, later).len(),
        forall|i: int|
            0 <= i < launches.len() ==> #[trigger] ages_of(launches, earlier)[i] <= ages_of(
                launches,
                later,
            )[i],
{
    assert forall|i: int| 0 <= i < launches.len() implies #[trigger] ages_of(launches, earlier)[i]
        <= ages_of(launches, later)[i] by {
        lemma_age_grows(earlier, later, launches[i]);
    }
}

/// After a second or more every launch of the past is older, and so counts
/// less: the score of a record without new launches falls.
pub proof fn lemma_ages_grow_strictly(
    launches: Seq<Timestamp>,
    earlier: Timestamp,
    later: Timestamp,
    i: int,
)
    requires
        0 <= i < launches.len(),
        launches[i].instant() <= earlier.instant(),
        earlier.instant() + NANOS_PER_SECOND <= later.instant(),
        ages_of(launches, later)[i] < u64::MAX,
    ensures
        ages_of(launches, earlier)[i] < ages_of(launches, later)[i],
{
    lemma_age_grows_strictly(earlier, later, launches[i]);
}

/// A launch adds an age of zero, which counts in full: while a record holds
/// fewer than a hundred launches, the ages after a launch at `now` are the
/// ages before and a zero; at a hundred, the oldest launch makes room.
pub proof fn lemma_launch_adds_age_zero(launches: Seq<Timestamp>, now: Timestamp)
    ensures
        launched(launches, now).len() <= MAX_LAUNCHES,
        launched(launches, now).len() >= 1,
        launches.len() < MAX_LAUNCHES ==> ages_of(launched(launches, now), now) == ages_of(
            launches,
            now,
        ).push(0),
        launches.len() >= MAX_LAUNCHES ==> ages_of(launched(launches, now), now) == ages_of(
            launches,
            now,
        ).skip(launches.len() + 1 - MAX_LAUNCHES).push(0),
{
    assert(age_seconds(now, now) == 0);
    if launches.len() < MAX_LAUNCHES {
        assert(ages_of(launched(launches, now), now) =~= ages_of(launches, now).push(0));
    } else {
        assert(ages_of(launched(launches, now), now) =~= ages_of(launches, now).skip(
            launches.len() + 1 - MAX_LAUNCHES,
        ).push(0));
    }
}

impl UsageRecord {
    /// The record of something launched for the first time at `now`.
    pub fn new(path: String, name: String, now: Timestamp) -> (record: UsageRecord)
        ensures
            record@ == (RecordView { path: path@, name: name@, launches: seq![now] }),
    {
        let mut launches: Vec<Timestamp> = Vec::new();
        launches.push(now);
        UsageRecord { path, name, launches }
    }

    /// Records a launch at `now`. Of more than a hundred launches the oldest
    /// are forgotten.
    pub fn record_launch(&mut self, now: Timestamp)
        ensures
            final(self)@ == (RecordView { launches: launched(old(self)@.launches, now), ..old(self)@ }),
            1 <= final(self)@.launches.len() <= MAX_LAUNCHES,
            final(self)@.launches.last() == now,
    {
        if self.launches.len() >= MAX_LAUNCHES {
            let excess = self.launches.len() - (MAX_LAUNCHES - 1);
            let tail = self.launches.split_off(excess);
            self.launches = tail;
        }
        self.launches.push(now);
        proof {
            assert(self.launches@ =~= launched(old(self)@.launches, now));
        }
    }

    /// Forgets all but the last hundred launches.
    pub fn keep_recent(&mut self)
        ensures
            final(self)@ == (RecordView { launches: recent(old(self)@.launches), ..old(self)@ }),
            final(self)@.launches.len() <= MAX_LAUNCHES,
    {
        if self.launches.len() > MAX_LAUNCHES {
            let excess = self.launches.len() - MAX_LAUNCHES;
            let tail = self.launches.split_off(excess);
            self.launches = tail;
        }
    }

    /// The age at `now` of each launch, in whole seconds, the oldest launch
    /// first. A launch that lies in the future has age zero.
    pub fn ages(&self, now: Timestamp) -> (ages: Vec<u64>)
        ensures
            ages@.map_values(|a: u64| a as int) == ages_of(self@.launches, now),
            ages@.len() == self@.launches.len(),
    {
        let mut ages: Vec<u64> = Vec::new();
        let mut i: usize = 0;
        while i < self.launches.len()
            invariant
                i <= self.launches.len(),
                ages@.len() == i,
                ages@.map_values(|a: u64| a as int) == ages_of(self@.launches, now).take(i as int),
            decreases self.launches.len() - i,
        {
            let age = age_in_seconds(now, self.launches[i]);
            ages.push(age);
            proof {
                let target = ages_of(self@.launches, now);
                assert(ages@.map_values(|a: u64| a as int) =~= target.take(i as int).push(
                    target[i as int],
                ));
                assert(target.take(i + 1) =~= target.take(i as int).push(target[i as int]));
            }
            i += 1;
        }
        proof {
            assert(ages_of(self@.launches, now).take(self.launches.len() as int) == ages_of(
                self@.launches,
                now,
            ));
        }
        ages
    }
}

/// What the records of `records` hold, in order.
pub open spec fn record_views(records: Seq<UsageRecord>) -> Seq<RecordView> {
    records.map_values(|r: UsageRecord| r@)
}

/// What the records that `records` refers to hold, in order.
pub open spec fn ref_views(records: Seq<&UsageRecord>) -> Seq<RecordView> {
    records.map_values(|r: &UsageRecord| r@)
}

/// The first position of `records` that holds `path`, and the length of
/// `records` when none does.
pub open spec fn record_position(records: Seq<RecordView>, path: Seq<char>) -> int
    decreases records.len(),
{
    if records.len() == 0 {
        0
    } else {
        let before = record_position(records.drop_last(), path);
        if before < records.len() - 1 {
            before
        } else if records.last().path == path {
            records.len() - 1
        } else {
            records.len() as int
        }
    }
}

/// No path stands in `records` twice.
pub open spec fn distinct_paths(records: Seq<RecordView>) -> bool {
    forall|i: int, j: int|
        0 <= i < j < records.len() ==> (#[trigger] records[i]).path != (#[trigger] records[j]).path
}

/// No record of `records` remembers more than a hundred launches.
pub open spec fn within_bounds(records: Seq<RecordView>) -> bool {
    forall|i: int| 0 <= i < records.len() ==> (#[trigger] records[i]).launches.len() <= MAX_LAUNCHES
}

/// The records as a ledger keeps them: one for each path, none with more
/// than a hundred launches.
pub open spec fn well_kept(records: Seq<RecordView>) -> bool {
    distinct_paths(records) && within_bounds(records)
}

/// The last hundred of `launches`, and all where there are fewer.
pub open spec fn recent(launches: Seq<Timestamp>) -> Seq<Timestamp> {
    if launches.len() > MAX_LAUNCHES {
        launches.skip(launches.len() - MAX_LAUNCHES)
    } else {
        launches
    }
}

/// `records`, each with no more than its last hundred launches.
pub open spec fn bounded(records: Seq<RecordView>) -> Seq<RecordView> {
    records.map_values(|r: RecordView| RecordView { launches: recent(r.launches), ..r })
}

/// The records after a launch of `path` at `now`: the record that holds the
/// path has one launch more, or a new record under `name` is added.
pub open spec fn with_launch(
    records: Seq<RecordView>,
    path: Seq<char>,
    name: Seq<char>,
    now: Timestamp,
) -> Seq<RecordView> {
    let at = record_position(records, path);
    if at < records.len() {
        records.update(at, RecordView { launches: launched(records[at].launches, now), ..records[at] })
    } else {
        records.push(RecordView { path, name, launches: seq![now] })
    }
}

/// The first `n` of the records in the order of their ranks, the highest
/// first, records of one rank in the order in which they stand.
pub open spec fn top_ranked_view(records: Seq<RecordView>, ranks: Seq<int>, n: nat) -> Seq<
    RecordView,
> {
    let order = sorted_order::<u64>(ranks, true);
    arranged(records, order).take(if n < order.len() {
        n as int
    } else {
        order.len() as int
    })
}

/// The top holds the records of highest rank: it is as long as asked for, or
/// as there are records; its records come from different positions of the
/// ledger; none of them ranks below a record that comes later in it, nor
/// below a record that is left out.
pub proof fn lemma_top_is_highest(records: Seq<RecordView>, ranks: Seq<int>, n: nat)
    requires
        ranks.len() == records.len(),
    ensures
        top_ranked_view(records, ranks, n).len() == if n < records.len() {
            n
        } else {
            records.len()
        },
        permutes(sorted_order::<u64>(ranks, true), records.len()),
        forall|p: int|
            0 <= p < top_ranked_view(records, ranks, n).len() ==> #[trigger] top_ranked_view(
                records,
                ranks,
                n,
            )[p] == records[sorted_order::<u64>(ranks, true)[p]],
        forall|p: int, q: int|
            0 <= p < top_ranked_view(records, ranks, n).len() && p < q < records.len()
                ==> ranks[#[trigger] sorted_order::<u64>(ranks, true)[p]] >= ranks[#[trigger] sorted_order::<
                u64,
            >(ranks, true)[q]],
{
    lemma_sorted_order::<u64>(ranks, true);
}

/// The first `n` records without those whose rank is below `floor`, in the
/// order in which they stand. A record for which `ranks` holds no rank stays.
pub open spec fn surviving_upto(
    records: Seq<RecordView>,
    ranks: Seq<int>,
    floor: int,
    n: nat,
) -> Seq<RecordView>
    decreases n,
{
    if n == 0 {
        Seq::empty()
    } else if n - 1 < ranks.len() && ranks[n - 1] < floor {
        surviving_upto(records, ranks, floor, (n - 1) as nat)
    } else {
        surviving_upto(records, ranks, floor, (n - 1) as nat).push(records[n - 1])
    }
}

/// The records without those whose rank is below `floor`.
pub open spec fn surviving(
    records: Seq<RecordView>,
    ranks: Seq<int>,
    floor: int,
) -> Seq<RecordView> {
    surviving_upto(records, ranks, floor, records.len())
}

/// A record with the rank that its score was given.
pub struct Rated<'a> {
    pub record: &'a UsageRecord,
    pub rank: u64,
}

/// The records of `rated`, in order.
pub open spec fn rated_records(rated: Seq<Rated>) -> Seq<RecordView> {
    rated.map_values(|r: Rated| r.record@)
}

/// The ranks of `rated`, in order.
pub open spec fn rated_ranks(rated: Seq<Rated>) -> Seq<int> {
    rated.map_values(|r: Rated| r.rank as int)
}

/// The `n` records of highest rank, the highest first. Records of one rank
/// come in the order in which they stand in `rated`.
pub fn top_ranked<'a>(rated: &Vec<Rated<'a>>, n: usize) -> (top: Vec<&'a UsageRecord>)
    ensures
        ref_views(top@) == top_ranked_view(rated_records(rated@), rated_ranks(rated@), n as nat),
        top@.len() <= n,
        top@.len() <= rated@.len(),
{
    let mut ranks: Vec<u64> = Vec::new();
    let mut i: usize = 0;
    while i < rated.len()
        invariant
            i <= rated.len(),
            ranks_of(ranks@) == rated_ranks(rated@).take(i as int),
        decreases rated.len() - i,
    {
        ranks.push(rated[i].rank);
        proof {
            let target = rated_ranks(rated@);
            assert(ranks_of(ranks@) =~= target.take(i as int).push(target[i as int]));
            assert(target.take(i + 1) =~= target.take(i as int).push(target[i as int]));
        }
        i += 1;
    }
    proof {
        assert(rated_ranks(rated@).take(rated.len() as int) == rated_ranks(rated@));
    }
    let order = stable_order(&ranks, true);
    let count = if n < order.len() {
        n
    } else {
        order.len()
    };
    let ghost all = arranged(rated_records(rated@), positions(order@));
    let mut top: Vec<&'a UsageRecord> = Vec::new();
    let mut k: usize = 0;
    while k < count
        invariant
            k <= count <= order.len(),
            order@.len() == rated@.len(),
            forall|p: int| 0 <= p < order@.len() ==> #[trigger] order@[p] < rated@.len(),
            all == arranged(rated_records(rated@), positions(order@)),
            ref_views(top@) == all.take(k as int),
        decreases count - k,
    {
        top.push(rated[order[k]].record);
        proof {
            assert(all[k as int] == rated@[order@[k as int] as int].record@);
            assert(ref_views(top@) =~= all.take(k as int).push(all[k as int]));
            assert(all.take(k + 1) =~= all.take(k as int).push(all[k as int]));
        }
        k += 1;
    }
    top
}

/// `ranks` as mathematical numbers.
pub open spec fn as_ints(ranks: Seq<u64>) -> Seq<int> {
    ranks.map_values(|r: u64| r as int)
}

/// The records of `records` without those whose rank is below `floor`. A
/// record for which `ranks` holds no rank stays.
pub fn retain_ranked(records: Vec<UsageRecord>, ranks: &Vec<u64>, floor: u64) -> (out: Vec<
    UsageRecord,
>)
    ensures
        record_views(out@) == surviving(record_views(records@), as_ints(ranks@), floor as int),
{
    let mut out: Vec<UsageRecord> = Vec::new();
    let mut i: usize = 0;
    while i < records.len()
        invariant
            i <= records.len(),
            record_views(out@) == surviving_upto(
                record_views(records@),
                as_ints(ranks@),
                floor as int,
                i as nat,
            ),
        decreases records.len() - i,
    {
        if i < ranks.len() && ranks[i] < floor {
        } else {
            out.push(records[i].clone());
            proof {
                assert(record_views(out@) =~= surviving_upto(
                    record_views(records@),
                    as_ints(ranks@),
                    floor as int,
                    i as nat,
                ).push(records@[i as int]@));
            }
        }
        i += 1;
    }
    out
}

/// `record` stands among the first `n` of `records`.
pub open spec fn among(records: Seq<RecordView>, n: nat, record: RecordView) -> bool {
    exists|i: int| 0 <= i < n && #[trigger] records[i] == record
}

/// What survives was there before, in the same order: no path stands twice
/// among the survivors if none did before.
pub proof fn lemma_surviving_distinct(records: Seq<RecordView>, ranks: Seq<int>, floor: int, n: nat)
    requires
        distinct_paths(records),
        n <= records.len(),
    ensures
        distinct_paths(surviving_upto(records, ranks, floor, n)),
        within_bounds(records) ==> within_bounds(surviving_upto(records, ranks, floor, n)),
        forall|p: int|
            0 <= p < surviving_upto(records, ranks, floor, n).len() ==> among(
                records,
                n,
                #[trigger] surviving_upto(records, ranks, floor, n)[p],
            ),
    decreases n,
{
    if n > 0 {
        lemma_surviving_distinct(records, ranks, floor, (n - 1) as nat);
        let before = surviving_upto(records, ranks, floor, (n - 1) as nat);
        let after = surviving_upto(records, ranks, floor, n);
        assert forall|p: int| 0 <= p < after.len() implies among(records, n, #[trigger] after[p]) by {
            if p < before.len() {
                assert(among(records, (n - 1) as nat, before[p]));
                let i = choose|i: int| 0 <= i < n - 1 && #[trigger] records[i] == before[p];
                assert(records[i] == after[p]);
            } else {
                assert(records[n - 1] == after[p]);
            }
        }
        if within_bounds(records) {
            assert forall|p: int| 0 <= p < after.len() implies (#[trigger] after[p]).launches.len()
                <= MAX_LAUNCHES by {
                assert(among(records, n, after[p]));
                let i = choose|i: int| 0 <= i < n && #[trigger] records[i] == after[p];
                assert(records[i].launches.len() <= MAX_LAUNCHES);
            }
        }
        if after.len() > before.len() {
            assert forall|p: int, q: int| 0 <= p < q < after.len() implies (#[trigger] after[p]).path
                != (#[trigger] after[q]).path by {
                if q == before.len() {
                    assert(among(records, (n - 1) as nat, before[p]));
                    let i = choose|i: int| 0 <= i < n - 1 && #[trigger] records[i] == before[p];
                    assert(records[i].path != records[n - 1].path);
                } else {
                    assert(before[p].path != before[q].path);
                }
            }
        }
    }
}

/// What `record_position` finds holds the path, and nothing before it does.
pub proof fn lemma_record_position(records: Seq<RecordView>, path: Seq<char>)
    ensures
        0 <= record_position(records, path) <= records.len(),
        record_position(records, path) < records.len() ==> records[record_position(
            records,
            path,
        )].path == path,
        forall|i: int|
            0 <= i < record_position(records, path) ==> (#[trigger] records[i]).path != path,
    decreases records.len(),
{
    if records.len() > 0 {
        let head = records.drop_last();
        lemma_record_position(head, path);
        assert forall|i: int| 0 <= i < record_position(records, path) implies (
        #[trigger] records[i]).path != path by {
            if i < head.len() {
                assert(head[i] == records[i]);
            }
        }
        if record_position(head, path) < head.len() {
            assert(head[record_position(head, path)] == records[record_position(head, path)]);
        }
    }
}

/// A launch keeps one record for each path, and no record grows beyond a
/// hundred launches.
pub proof fn lemma_with_launch_distinct(
    records: Seq<RecordView>,
    path: Seq<char>,
    name: Seq<char>,
    now: Timestamp,
)
    ensures
        distinct_paths(records) ==> distinct_paths(with_launch(records, path, name, now)),
        within_bounds(records) ==> within_bounds(with_launch(records, path, name, now)),
        well_kept(records) ==> well_kept(with_launch(records, path, name, now)),
{
    let grown = with_launch(records, path, name, now);
    if within_bounds(records) {
        assert forall|i: int| 0 <= i < grown.len() implies (#[trigger] grown[i]).launches.len()
            <= MAX_LAUNCHES by {
            let at = record_position(records, path);
            lemma_record_position(records, path);
            if i < records.len() {
                assert(records[i].launches.len() <= MAX_LAUNCHES);
                if i == at {
                    lemma_launch_adds_age_zero(records[at].launches, now);
                }
            } else {
                assert(grown[i].launches =~= seq![now]);
            }
        }
    }
    if distinct_paths(records) {
        lemma_with_launch_paths(records, path, name, now);
    }
}

/// A launch keeps one record for each path.
proof fn lemma_with_launch_paths(
    records: Seq<RecordView>,
    path: Seq<char>,
    name: Seq<char>,
    now: Timestamp,
)
    requires
        distinct_paths(records),
    ensures
        distinct_paths(with_launch(records, path, name, now)),
{
    lemma_record_position(records, path);
    let after = with_launch(records, path, name, now);
    let at = record_position(records, path);
    assert forall|i: int, j: int| 0 <= i < j < after.len() implies (#[trigger] after[i]).path != (
    #[trigger] after[j]).path by {
        if at < records.len() {
            assert(after[i].path == records[i].path);
            assert(after[j].path == records[j].path);
        } else {
            assert(after[i] == records[i]);
            if j < records.len() {
                assert(after[j] == records[j]);
            }
        }
    }
}

/// Once a prefix of `records` holds `path`, the first position that holds it
/// is the same in all of `records`.
proof fn lemma_record_position_stays(records: Seq<RecordView>, path: Seq<char>, n: int)
    requires
        0 <= n <= records.len(),
        record_position(records.take(n), path) < n,
    ensures
        record_position(records, path) == record_position(records.take(n), path),
    decreases records.len() - n,
{
    if n == records.len() {
        assert(records.take(n) == records);
    } else {
        assert(records.take(n + 1).drop_last() == records.take(n));
        lemma_record_position_stays(records, path, n + 1);
    }
}

/// Records a launch of `path` at `now` in `records`: the record that holds
/// the path gets one launch more, or a new record under `name` is added at
/// the end.
pub fn record_in(records: &mut Vec<UsageRecord>, path: &str, name: &str, now: Timestamp)
    ensures
        record_views(final(records)@) == with_launch(record_views(old(records)@), path@, name@, now),
        well_kept(record_views(old(records)@)) ==> well_kept(record_views(final(records)@)),
{
    proof {
        lemma_with_launch_distinct(record_views(old(records)@), path@, name@, now);
    }
    let owned: String = path.to_owned();
    let ghost before = record_views(records@);
    let at = find_path(records, &owned);
    if at < records.len() {
        let mut record = records[at].clone();
        record.record_launch(now);
        records.set(at, record);
    } else {
        records.push(UsageRecord::new(owned, name.to_owned(), now));
    }
    proof {
        assert(record_views(records@) =~= with_launch(before, path@, name@, now));
    }
}

/// One of `records` holds `path`.
pub open spec fn holds_path(records: Seq<RecordView>, path: Seq<char>) -> bool {
    exists|i: int| 0 <= i < records.len() && (#[trigger] records[i]).path == path
}

/// `records` without those whose path an earlier record holds.
pub open spec fn first_of_each_path(records: Seq<RecordView>) -> Seq<RecordView>
    decreases records.len(),
{
    if records.len() == 0 {
        Seq::empty()
    } else if holds_path(records.drop_last(), records.last().path) {
        first_of_each_path(records.drop_last())
    } else {
        first_of_each_path(records.drop_last()).push(records.last())
    }
}

/// Keeping the first record of each path leaves the paths that were there,
/// each once.
pub proof fn lemma_first_of_each_path(records: Seq<RecordView>)
    ensures
        distinct_paths(first_of_each_path(records)),
        first_of_each_path(records).len() <= records.len(),
        forall|t: Seq<char>| #[trigger]
            holds_path(first_of_each_path(records), t) <==> holds_path(records, t),
    decreases records.len(),
{
    if records.len() > 0 {
        let head = records.drop_last();
        let last = records.last();
        lemma_first_of_each_path(head);
        let out = first_of_each_path(records);
        let kept = first_of_each_path(head);
        assert forall|t: Seq<char>| #[trigger] holds_path(out, t) <==> holds_path(records, t) by {
            if holds_path(out, t) {
                let p = choose|p: int| 0 <= p < out.len() && (#[trigger] out[p]).path == t;
                if p < kept.len() {
                    assert(kept[p].path == t);
                    assert(holds_path(kept, t));
                    let i = choose|i: int| 0 <= i < head.len() && (#[trigger] head[i]).path == t;
                    assert(records[i].path == t);
                } else {
                    assert(records[records.len() - 1].path == t);
                }
            }
            if holds_path(records, t) {
                let i = choose|i: int| 0 <= i < records.len() && (#[trigger] records[i]).path == t;
                if i < head.len() {
                    assert(head[i].path == t);
                    assert(holds_path(head, t));
                    assert(holds_path(kept, t));
                    let p = choose|p: int| 0 <= p < kept.len() && (#[trigger] kept[p]).path == t;
                    assert(out[p].path == t);
                } else if holds_path(head, last.path) {
                    assert(t == last.path);
                    assert(holds_path(kept, t));
                    let p = choose|p: int| 0 <= p < kept.len() && (#[trigger] kept[p]).path == t;
                    assert(out[p].path == t);
                } else {
                    assert(out[kept.len() as int].path == t);
                }
            }
        }
        if !holds_path(head, last.path) {
            assert forall|i: int, j: int| 0 <= i < j < out.len() implies (#[trigger] out[i]).path != (
            #[trigger] out[j]).path by {
                if j == kept.len() {
                    assert(kept[i].path == out[i].path);
                    if out[i].path == last.path {
                        assert(holds_path(kept, last.path));
                    }
                } else {
                    assert(kept[i].path != kept[j].path);
                }
            }
        }
    }
}

/// A path that `record_position` does not find is held by no record.
proof fn lemma_position_finds(records: Seq<RecordView>, path: Seq<char>)
    ensures
        record_position(records, path) < records.len() <==> holds_path(records, path),
{
    lemma_record_position(records, path);
    if holds_path(records, path) && record_position(records, path) >= records.len() {
        let i = choose|i: int| 0 <= i < records.len() && (#[trigger] records[i]).path == path;
        assert(false);
    }
}

/// The first position of `records` that holds `path`.
fn find_path(records: &Vec<UsageRecord>, path: &String) -> (at: usize)
    ensures
        at == record_position(record_views(records@), path@),
        at <= records@.len(),
{
    let ghost all = record_views(records@);
    let mut i: usize = 0;
    while i < records.len()
        invariant
            i <= records.len(),
            all == record_views(records@),
            record_position(all.take(i as int), path@) == i,
        decreases records.len() - i,
    {
        proof {
            assert(all.take(i + 1).drop_last() == all.take(i as int));
            assert(all.take(i + 1).last() == records@[i as int]@);
        }
        if records[i].path == *path {
            proof {
                lemma_record_position_stays(all, path@, i + 1);
            }
            return i;
        }
        i += 1;
    }
    proof {
        assert(all.take(records.len() as int) == all);
    }
    i
}

/// Keeps the first record of each path, and of each record that is kept its
/// last hundred launches: see `first_of_each_path` and `bounded`.
pub fn keep_first_paths(records: Vec<UsageRecord>) -> (out: Vec<UsageRecord>)
    ensures
        record_views(out@) == bounded(first_of_each_path(record_views(records@))),
        well_kept(record_views(out@)),
{
    let ghost all = record_views(records@);
    let mut out: Vec<UsageRecord> = Vec::new();
    let mut k: usize = 0;
    while k < records.len()
        invariant
            k <= records.len(),
            all == record_views(records@),
            record_views(out@) == bounded(first_of_each_path(all.take(k as int))),
        decreases records.len() - k,
    {
        proof {
            assert(all.take(k + 1).drop_last() == all.take(k as int));
            assert(all.take(k + 1).last() == records@[k as int]@);
            lemma_first_of_each_path(all.take(k as int));
            lemma_bounded(first_of_each_path(all.take(k as int)), records@[k as int]@.path);
            lemma_position_finds(record_views(out@), records@[k as int]@.path);
        }
        let found = find_path(&out, &records[k].path) < out.len();
        if !found {
            let mut record = records[k].clone();
            record.keep_recent();
            let ghost before = record_views(out@);
            let ghost kept = record@;
            out.push(record);
            proof {
                let firsts = first_of_each_path(all.take(k as int));
                assert(record_views(out@) =~= before.push(kept));
                assert(bounded(firsts.push(records@[k as int]@)) =~= bounded(firsts).push(kept));
            }
        }
        k += 1;
    }
    proof {
        assert(all.take(records.len() as int) == all);
        lemma_first_of_each_path(all);
        lemma_bounded(first_of_each_path(all), Seq::empty());
    }
    out
}

/// Cutting the launches down changes no path, and leaves no record with
/// more than a hundred launches.
proof fn lemma_bounded(records: Seq<RecordView>, path: Seq<char>)
    ensures
        within_bounds(bounded(records)),
        distinct_paths(records) ==> distinct_paths(bounded(records)),
        holds_path(bounded(records), path) <==> holds_path(records, path),
{
    let cut = bounded(records);
    if distinct_paths(records) {
        assert forall|i: int, j: int| 0 <= i < j < cut.len() implies (#[trigger] cut[i]).path != (
        #[trigger] cut[j]).path by {
            assert(cut[i].path == records[i].path);
            assert(cut[j].path == records[j].path);
        }
    }
    if holds_path(cut, path) {
        let i = choose|i: int| 0 <= i < cut.len() && (#[trigger] cut[i]).path == path;
        assert(records[i].path == path);
    }
    if holds_path(records, path) {
        let i = choose|i: int| 0 <= i < records.len() && (#[trigger] records[i]).path == path;
        assert(cut[i].path == path);
    }
}

/// The usage ledger: the records of the programs and of the documents, two
/// namespaces with the same mechanics, and the time of the last cleanup.
#[derive(Debug)]
pub struct UsageData {
    /// The records of the programs, one for each path.
    pub programs: Vec<UsageRecord>,
    /// The records of the documents, one for each path.
    pub documents: Vec<UsageRecord>,
    /// The time of the last cleanup.
    pub last_cleanup: Option<Timestamp>,
}

/// What a usage ledger holds, as mathematical values.
pub struct DataView {
    pub programs: Seq<RecordView>,
    pub documents: Seq<RecordView>,
    pub last_cleanup: Option<Timestamp>,
}

impl View for UsageData {
    type V = DataView;

    open spec fn view(&self) -> DataView {
        DataView {
            programs: record_views(self.programs@),
            documents: record_views(self.documents@),
            last_cleanup: self.last_cleanup,
        }
    }
}

impl DataView {
    /// Each path has one record among the programs, and one among the
    /// documents, and no record remembers more than a hundred launches.
    pub open spec fn wf(self) -> bool {
        well_kept(self.programs) && well_kept(self.documents)
    }

    /// The ledger after `item` was launched at `now`: a document is filed
    /// among the documents, a program or a shortcut among the programs.
    pub open spec fn with_item(self, item: crate::config::ItemView, now: Timestamp) -> DataView {
        if item.item_type == ItemType::Document {
            DataView { documents: with_launch(self.documents, item.path, item.name, now), ..self }
        } else {
            DataView { programs: with_launch(self.programs, item.path, item.name, now), ..self }
        }
    }

    /// A cleanup is due at `now`: none was made yet, or more than a day has
    /// passed since the last.
    pub open spec fn cleanup_due(self, now: Timestamp) -> bool {
        match self.last_cleanup {
            Some(last) => more_than_seconds(now, last, CLEANUP_INTERVAL_SECONDS),
            None => true,
        }
    }

    /// The ledger after a cleanup at `now`, the records having the given
    /// ranks: records that rank below `floor` are gone.
    pub open spec fn cleaned(
        self,
        program_ranks: Seq<int>,
        document_ranks: Seq<int>,
        floor: int,
        now: Timestamp,
    ) -> DataView {
        DataView {
            programs: surviving(self.programs, program_ranks, floor),
            documents: surviving(self.documents, document_ranks, floor),
            last_cleanup: Some(now),
        }
    }
}

/// `ranks` holds for each of `records` a rank that `score` gives it at `now`.
pub open spec fn rated_by<F: Fn(&UsageRecord, Timestamp) -> u64>(
    records: Seq<UsageRecord>,
    now: Timestamp,
    score: F,
    ranks: Seq<u64>,
) -> bool {
    &&& ranks.len() == records.len()
    &&& forall|i: int|
        0 <= i < records.len() ==> score.ensures((&#[trigger] records[i], now), ranks[i])
}

/// Asks `score` for the rank of each record at `now`.
pub fn rate<F: Fn(&UsageRecord, Timestamp) -> u64>(
    records: &Vec<UsageRecord>,
    now: Timestamp,
    score: &F,
) -> (ranks: Vec<u64>)
    requires
        forall|r: &UsageRecord, t: Timestamp| score.requires((r, t)),
    ensures
        rated_by(records@, now, *score, ranks@),
{
    let mut ranks: Vec<u64> = Vec::new();
    let mut i: usize = 0;
    while i < records.len()
        invariant
            i <= records.len(),
            ranks@.len() == i,
            forall|r: &UsageRecord, t: Timestamp| score.requires((r, t)),
            forall|k: int| 0 <= k < i ==> score.ensures((&#[trigger] records@[k], now), ranks@[k]),
        decreases records.len() - i,
    {
        let rank = score(&records[i], now);
        ranks.push(rank);
        i += 1;
    }
    ranks
}

/// Pairs each record with its rank.
fn paired<'a>(records: &'a Vec<UsageRecord>, ranks: &Vec<u64>) -> (rated: Vec<Rated<'a>>)
    requires
        ranks@.len() == records@.len(),
    ensures
        rated_records(rated@) == record_views(records@),
        rated_ranks(rated@) == as_ints(ranks@),
{
    let mut rated: Vec<Rated<'a>> = Vec::new();
    let mut i: usize = 0;
    while i < records.len()
        invariant
            i <= records.len(),
            ranks@.len() == records@.len(),
            rated_records(rated@) == record_views(records@).take(i as int),
            rated_ranks(rated@) == as_ints(ranks@).take(i as int),
        decreases records.len() - i,
    {
        rated.push(Rated { record: &records[i], rank: ranks[i] });
        proof {
            let r = record_views(records@);
            let k = as_ints(ranks@);
            assert(rated_records(rated@) =~= r.take(i as int).push(r[i as int]));
            assert(r.take(i + 1) =~= r.take(i as int).push(r[i as int]));
            assert(rated_ranks(rated@) =~= k.take(i as int).push(k[i as int]));
            assert(k.take(i + 1) =~= k.take(i as int).push(k[i as int]));
        }
        i += 1;
    }
    proof {
        assert(record_views(records@).take(records.len() as int) == record_views(records@));
        assert(as_ints(ranks@).take(records.len() as int) == as_ints(ranks@));
    }
    rated
}

impl Default for UsageData {
    fn default() -> (data: UsageData)
        ensures
            data@ == (DataView {
                programs: Seq::empty(),
                documents: Seq::empty(),
                last_cleanup: None,
            }),
            data@.wf(),
    {
        let data = UsageData { programs: Vec::new(), documents: Vec::new(), last_cleanup: None };
        proof {
            assert(record_views(data.programs@) =~= Seq::empty());
            assert(record_views(data.documents@) =~= Seq::empty());
        }
        data
    }
}

impl UsageData {
    /// The ledger that holds the given records, as they come from a file:
    /// among the programs and among the documents the first record of each
    /// path, with its last hundred launches.
    pub fn from_parts(
        programs: Vec<UsageRecord>,
        documents: Vec<UsageRecord>,
        last_cleanup: Option<Timestamp>,
    ) -> (data: UsageData)
        ensures
            data@ == (DataView {
                programs: bounded(first_of_each_path(record_views(programs@))),
                documents: bounded(first_of_each_path(record_views(documents@))),
                last_cleanup,
            }),
            data@.wf(),
    {
        UsageData {
            programs: keep_first_paths(programs),
            documents: keep_first_paths(documents),
            last_cleanup,
        }
    }

    /// Records the launch of a program at `now`: a first launch makes a
    /// record, any other adds to the record of the path.
    pub fn record_program_launch(&mut self, path: &str, name: &str, now: Timestamp)
        ensures
            final(self)@ == (DataView {
                programs: with_launch(old(self)@.programs, path@, name@, now),
                ..old(self)@
            }),
            old(self)@.wf() ==> final(self)@.wf(),
    {
        record_in(&mut self.programs, path, name, now);
    }

    /// Records the opening of a document at `now`: a first opening makes a
    /// record, any other adds to the record of the path.
    pub fn record_document_open(&mut self, path: &str, name: &str, now: Timestamp)
        ensures
            final(self)@ == (DataView {
                documents: with_launch(old(self)@.documents, path@, name@, now),
                ..old(self)@
            }),
            old(self)@.wf() ==> final(self)@.wf(),
    {
        record_in(&mut self.documents, path, name, now);
    }

    /// The `n` programs of highest score at `now`, `score` giving the rank of
    /// each record: the highest rank first, records of one rank in the order
    /// in which the ledger holds them.
    pub fn top_programs<'a, F: Fn(&UsageRecord, Timestamp) -> u64>(
        &'a self,
        n: usize,
        now: Timestamp,
        score: &F,
    ) -> (top: Vec<&'a UsageRecord>)
        requires
            forall|r: &UsageRecord, t: Timestamp| score.requires((r, t)),
        ensures
            exists|ranks: Seq<u64>|
                rated_by(self.programs@, now, *score, ranks) && ref_views(top@) == top_ranked_view(
                    self@.programs,
                    as_ints(ranks),
                    n as nat,
                ),
            top@.len() <= n,
            top@.len() <= self@.programs.len(),
    {
        let ranks = rate(&self.programs, now, score);
        let rated = paired(&self.programs, &ranks);
        top_ranked(&rated, n)
    }

    /// The `n` documents of highest score at `now`, `score` giving the rank
    /// of each record: the highest rank first, records of one rank in the
    /// order in which the ledger holds them.
    pub fn top_documents<'a, F: Fn(&UsageRecord, Timestamp) -> u64>(
        &'a self,
        n: usize,
        now: Timestamp,
        score: &F,
    ) -> (top: Vec<&'a UsageRecord>)
        requires
            forall|r: &UsageRecord, t: Timestamp| score.requires((r, t)),
        ensures
            exists|ranks: Seq<u64>|
                rated_by(self.documents@, now, *score, ranks) && ref_views(top@) == top_ranked_view(
                    self@.documents,
                    as_ints(ranks),
                    n as nat,
                ),
            top@.len() <= n,
            top@.len() <= self@.documents.len(),
    {
        let ranks = rate(&self.documents, now, score);
        let rated = paired(&self.documents, &ranks);
        top_ranked(&rated, n)
    }

    /// Removes the records that rank below `floor`, the ranks being given,
    /// and notes `now` as the time of the last cleanup. A record for which no
    /// rank is given stays.
    pub fn cleanup_ranked(
        &mut self,
        program_ranks: &Vec<u64>,
        document_ranks: &Vec<u64>,
        floor: u64,
        now: Timestamp,
    )
        ensures
            final(self)@ == old(self)@.cleaned(
                as_ints(program_ranks@),
                as_ints(document_ranks@),
                floor as int,
                now,
            ),
            old(self)@.wf() ==> final(self)@.wf(),
    {
        proof {
            if old(self)@.wf() {
                lemma_surviving_distinct(
                    old(self)@.programs,
                    as_ints(program_ranks@),
                    floor as int,
                    old(self)@.programs.len(),
                );
                lemma_surviving_distinct(
                    old(self)@.documents,
                    as_ints(document_ranks@),
                    floor as int,
                    old(self)@.documents.len(),
                );
            }
        }
        let mut programs: Vec<UsageRecord> = Vec::new();
        let mut documents: Vec<UsageRecord> = Vec::new();
        core::mem::swap(&mut programs, &mut self.programs);
        core::mem::swap(&mut documents, &mut self.documents);
        self.programs = retain_ranked(programs, program_ranks, floor);
        self.documents = retain_ranked(documents, document_ranks, floor);
        self.last_cleanup = Some(now);
    }

    /// Removes the records whose score at `now` ranks below `floor`, `score`
    /// giving the rank of each record, and notes `now` as the time of the last
    /// cleanup.
    pub fn cleanup<F: Fn(&UsageRecord, Timestamp) -> u64>(
        &mut self,
        now: Timestamp,
        score: &F,
        floor: u64,
    )
        requires
            forall|r: &UsageRecord, t: Timestamp| score.requires((r, t)),
        ensures
            exists|program_ranks: Seq<u64>, document_ranks: Seq<u64>|
                rated_by(old(self).programs@, now, *score, program_ranks) && rated_by(
                    old(self).documents@,
                    now,
                    *score,
                    document_ranks,
                ) && final(self)@ == old(self)@.cleaned(
                    as_ints(program_ranks),
                    as_ints(document_ranks),
                    floor as int,
                    now,
                ),
            old(self)@.wf() ==> final(self)@.wf(),
            final(self)@.last_cleanup == Some(now),
    {
        let program_ranks = rate(&self.programs, now, score);
        let document_ranks = rate(&self.documents, now, score);
        self.cleanup_ranked(&program_ranks, &document_ranks, floor, now);
        proof {
            assert(rated_by(old(self).programs@, now, *score, program_ranks@) && rated_by(
                old(self).documents@,
                now,
                *score,
                document_ranks@,
            ) && self@ == old(self)@.cleaned(
                as_ints(program_ranks@),
                as_ints(document_ranks@),
                floor as int,
                now,
            ));
        }
    }

    /// Makes the cleanup where it is due: where none was made yet, or more
    /// than a day has passed since the last. Returns whether it was made.
    pub fn maybe_cleanup<F: Fn(&UsageRecord, Timestamp) -> u64>(
        &mut self,
        now: Timestamp,
        score: &F,
        floor: u64,
    ) -> (made: bool)
        requires
            forall|r: &UsageRecord, t: Timestamp| score.requires((r, t)),
        ensures
            made == old(self)@.cleanup_due(now),
            !made ==> *final(self) == *old(self),
            made ==> exists|program_ranks: Seq<u64>, document_ranks: Seq<u64>|
                rated_by(old(self).programs@, now, *score, program_ranks) && rated_by(
                    old(self).documents@,
                    now,
                    *score,
                    document_ranks,
                ) && final(self)@ == old(self)@.cleaned(
                    as_ints(program_ranks),
                    as_ints(document_ranks),
                    floor as int,
                    now,
                ),
            old(self)@.wf() ==> final(self)@.wf(),
    {
        let due = match self.last_cleanup {
            Some(last) => is_more_than_seconds(now, last, CLEANUP_INTERVAL_SECONDS),
            None => true,
        };
        if due {
            self.cleanup(now, score, floor);
        }
        due
    }
}

/// The usage ledger together with the note whether it holds changes that
/// were not written out yet.
#[derive(Debug)]
pub struct UsageTracker {
    pub data: UsageData,
    pub dirty: bool,
}

impl UsageTracker {
    /// The tracker of a ledger as it was read: the cleanup is made where it
    /// is due, and nothing counts as changed.
    pub fn new<F: Fn(&UsageRecord, Timestamp) -> u64>(
        data: UsageData,
        now: Timestamp,
        score: &F,
        floor: u64,
    ) -> (tracker: UsageTracker)
        requires
            forall|r: &UsageRecord, t: Timestamp| score.requires((r, t)),
        ensures
            !tracker.dirty,
            !data@.cleanup_due(now) ==> tracker.data == data,
            data@.cleanup_due(now) ==> exists|program_ranks: Seq<u64>, document_ranks: Seq<u64>|
                rated_by(data.programs@, now, *score, program_ranks) && rated_by(
                    data.documents@,
                    now,
                    *score,
                    document_ranks,
                ) && tracker.data@ == data@.cleaned(
                    as_ints(program_ranks),
                    as_ints(document_ranks),
                    floor as int,
                    now,
                ),
            data@.wf() ==> tracker.data@.wf(),
    {
        let mut data = data;
        data.maybe_cleanup(now, score, floor);
        UsageTracker { data, dirty: false }
    }

    /// Records the launch of a program at `now`.
    pub fn record_program(&mut self, path: &str, name: &str, now: Timestamp)
        ensures
            final(self).data@ == (DataView {
                programs: with_launch(old(self).data@.programs, path@, name@, now),
                ..old(self).data@
            }),
            final(self).dirty,
            old(self).data@.wf() ==> final(self).data@.wf(),
    {
        self.data.record_program_launch(path, name, now);
        self.dirty = true;
    }

    /// Records the opening of a document at `now`.
    pub fn record_document(&mut self, path: &str, name: &str, now: Timestamp)
        ensures
            final(self).data@ == (DataView {
                documents: with_launch(old(self).data@.documents, path@, name@, now),
                ..old(self).data@
            }),
            final(self).dirty,
            old(self).data@.wf() ==> final(self).data@.wf(),
    {
        self.data.record_document_open(path, name, now);
        self.dirty = true;
    }

    /// Records that `item` was launched at `now`: a document among the
    /// documents, a program or a shortcut among the programs.
    pub fn record_item(&mut self, item: &LaunchItem, now: Timestamp)
        ensures
            final(self).data@ == old(self).data@.with_item(item@, now),
            final(self).dirty,
            old(self).data@.wf() ==> final(self).data@.wf(),
    {
        match item.item_type {
            ItemType::Program | ItemType::Shortcut => {
                self.record_program(item.path.as_str(), item.name.as_str(), now);
            },
            ItemType::Document => {
                self.record_document(item.path.as_str(), item.name.as_str(), now);
            },
        }
    }

    /// The `n` programs of highest score at `now`: see
    /// `UsageData::top_programs`.
    pub fn top_programs<'a, F: Fn(&UsageRecord, Timestamp) -> u64>(
        &'a self,
        n: usize,
        now: Timestamp,
        score: &F,
    ) -> (top: Vec<&'a UsageRecord>)
        requires
            forall|r: &UsageRecord, t: Timestamp| score.requires((r, t)),
        ensures
            exists|ranks: Seq<u64>|
                rated_by(self.data.programs@, now, *score, ranks) && ref_views(top@)
                    == top_ranked_view(self.data@.programs, as_ints(ranks), n as nat),
            top@.len() <= n,
    {
        self.data.top_programs(n, now, score)
    }

    /// The `n` documents of highest score at `now`: see
    /// `UsageData::top_documents`.
    pub fn top_documents<'a, F: Fn(&UsageRecord, Timestamp) -> u64>(
        &'a self,
        n: usize,
        now: Timestamp,
        score: &F,
    ) -> (top: Vec<&'a UsageRecord>)
        requires
            forall|r: &UsageRecord, t: Timestamp| score.requires((r, t)),
        ensures
            exists|ranks: Seq<u64>|
                rated_by(self.data.documents@, now, *score, ranks) && ref_views(top@)
                    == top_ranked_view(self.data@.documents, as_ints(ranks), n as nat),
            top@.len() <= n,
    {
        self.data.top_documents(n, now, score)
    }

    /// Writes the ledger out with `save` if it holds changes that were not
    /// written out yet. After a write that succeeded nothing counts as
    /// changed; after one that failed the changes are still to be written,
    /// and the error is returned. A ledger without changes is not written.
    pub fn save_if_dirty<E, S: FnOnce(&UsageData) -> Result<(), E>>(&mut self, save: S) -> (done:
        Result<(), E>)
        requires
            forall|d: &UsageData| save.requires((d,)),
        ensures
            final(self).data == old(self).data,
            !old(self).dirty ==> done is Ok && !final(self).dirty,
            old(self).dirty ==> save.ensures((&old(self).data,), done) && (final(self).dirty <==> done
                is Err),
    {
        if self.dirty {
            let done = save(&self.data);
            if done.is_ok() {
                self.dirty = false;
            }
            done
        } else {
            Ok(())
        }
    }

    /// Writes the ledger out with `save`, changed or not. After a write that
    /// succeeded nothing counts as changed; after one that failed the note is
    /// as it was, and the error is returned.
    pub fn save<E, S: FnOnce(&UsageData) -> Result<(), E>>(&mut self, save: S) -> (done: Result<
        (),
        E,
    >)
        requires
            forall|d: &UsageData| save.requires((d,)),
        ensures
            final(self).data == old(self).data,
            save.ensures((&old(self).data,), done),
            done is Ok ==> !final(self).dirty,
            done is Err ==> final(self).dirty == old(self).dirty,
    {
        let done = save(&self.data);
        if done.is_ok() {
            self.dirty = false;
        }
        done
    }
}

/// A launch is never lost: after a launch of `path` at `now` the records
/// hold a record of the path, and its last launch is `now`.
pub proof fn lemma_launch_is_recorded(
    records: Seq<RecordView>,
    path: Seq<char>,
    name: Seq<char>,
    now: Timestamp,
)
    ensures
        record_position(with_launch(records, path, name, now), path) < with_launch(
            records,
            path,
            name,
            now,
        ).len(),
        with_launch(records, path, name, now)[record_position(
            with_launch(records, path, name, now),
            path,
        )].launches.last() == now,
        with_launch(records, path, name, now).len() >= records.len(),
{
    let after = with_launch(records, path, name, now);
    let at = record_position(records, path);
    lemma_record_position(records, path);
    lemma_record_position(after, path);
    if at < records.len() {
        assert(after[at].path == path);
        assert forall|i: int| 0 <= i < at implies (#[trigger] after[i]).path != path by {
            assert(after[i] == records[i]);
        }
        if record_position(after, path) > at {
            assert(after[at].path != path);
        }
        if record_position(after, path) < at {
            assert(after[record_position(after, path)].path == path);
        }
        assert(record_position(after, path) == at);
    } else {
        assert(after[records.len() as int].path == path);
        if record_position(after, path) > records.len() {
            assert(after[records.len() as int].path != path);
        }
        if record_position(after, path) < records.len() {
            assert(after[record_position(after, path)] == records[record_position(after, path)]);
        }
        assert(record_position(after, path) == records.len());
    }
}

} // verus!
