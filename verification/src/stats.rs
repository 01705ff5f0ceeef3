use crate::text::word_list;
use vstd::prelude::*;

verus! {

/// What is known of one index when the statistics are gathered.
#[derive(Debug)]
pub struct IndexReport {
    /// The name of the index.
    pub uid: String,
    /// The size of the index on disk, in bytes.
    pub database_size: u64,
    /// When the index was last updated, in nanoseconds since 1970.
    pub updated_at: i128,
    /// Whether the caller may see the index.
    pub authorized: bool,
}

pub struct IndexReportView {
    pub uid: Seq<char>,
    pub database_size: u64,
    pub updated_at: i128,
    pub authorized: bool,
}

impl View for IndexReport {
    type V = IndexReportView;

    open spec fn view(&self) -> IndexReportView {
        IndexReportView {
            uid: self.uid@,
            database_size: self.database_size,
            updated_at: self.updated_at,
            authorized: self.authorized,
        }
    }
}

/// The views of a list of reports.
pub open spec fn reports(v: Seq<IndexReport>) -> Seq<IndexReportView> {
    Seq::new(v.len(), |i: int| v[i]@)
}

/// The statistics of a whole instance.
#[derive(Debug)]
pub struct Stats {
    /// The size of all that is on disk, in bytes.
    pub database_size: u64,
    /// When an index that the caller may see was last updated.
    pub last_update: Option<i128>,
    /// The names of the indexes that the caller may see.
    pub indexes: Vec<String>,
}

/// The sizes of all indexes together, those that the caller may not see
/// too.
pub open spec fn indexes_size(r: Seq<IndexReportView>) -> int
    decreases r.len(),
{
    if r.len() == 0 {
        0
    } else {
        indexes_size(r.drop_last()) + r.last().database_size
    }
}

/// The latest update among the indexes that the caller may see.
pub open spec fn latest_update(r: Seq<IndexReportView>) -> Option<i128>
    decreases r.len(),
{
    if r.len() == 0 {
        None
    } else if !r.last().authorized {
        latest_update(r.drop_last())
    } else {
        match latest_update(r.drop_last()) {
            Some(last) => Some(
                if last >= r.last().updated_at {
                    last
                } else {
                    r.last().updated_at
                },
            ),
            None => Some(r.last().updated_at),
        }
    }
}

/// The names of the indexes that the caller may see, in their order.
pub open spec fn visible_indexes(r: Seq<IndexReportView>) -> Seq<Seq<char>>
    decreases r.len(),
{
    if r.len() == 0 {
        Seq::empty()
    } else if r.last().authorized {
        visible_indexes(r.drop_last()).push(r.last().uid)
    } else {
        visible_indexes(r.drop_last())
    }
}

/// The size of all that is on disk: the indexes, the task queue, the
/// keys and the update files.
pub open spec fn total_size(
    r: Seq<IndexReportView>,
    scheduler_size: u64,
    auth_size: u64,
    update_file_size: u64,
) -> int {
    indexes_size(r) + scheduler_size + auth_size + update_file_size
}

/// The size of a part of the indexes is no more than that of all.
proof fn lemma_indexes_size_grows(r: Seq<IndexReportView>, k: int)
    requires
        0 <= k <= r.len(),
    ensures
        0 <= indexes_size(r.take(k)) <= indexes_size(r),
    decreases r.len() - k,
{
    if k < r.len() {
        lemma_indexes_size_grows(r, k + 1);
        assert(r.take(k + 1).drop_last() =~= r.take(k));
        lemma_indexes_size_nonnegative(r.take(k));
    } else {
        assert(r.take(k) =~= r);
        lemma_indexes_size_nonnegative(r);
    }
}

/// The size of the indexes is not negative.
proof fn lemma_indexes_size_nonnegative(r: Seq<IndexReportView>)
    ensures
        0 <= indexes_size(r),
    decreases r.len(),
{
    if r.len() > 0 {
        lemma_indexes_size_nonnegative(r.drop_last());
    }
}

/// The latest update is the update of an index that the caller may see,
/// and none of those is later; there is none exactly where the caller
/// may see no index.
proof fn lemma_latest_update(r: Seq<IndexReportView>)
    ensures
        latest_update(r) is None <==> forall|i: int| 0 <= i < r.len() ==> !(#[trigger] r[i]).authorized,
        latest_update(r) matches Some(last) ==> {
            &&& exists|i: int| 0 <= i < r.len() && (#[trigger] r[i]).authorized && r[i].updated_at == last
            &&& forall|i: int| 0 <= i < r.len() && (#[trigger] r[i]).authorized ==> r[i].updated_at <= last
        },
    decreases r.len(),
{
    if r.len() > 0 {
        let rest = r.drop_last();
        lemma_latest_update(rest);
        assert forall|i: int| 0 <= i < rest.len() implies rest[i] == r[i] by {}
        if let Some(last) = latest_update(r) {
            if r.last().authorized && last == r.last().updated_at {
                assert(r[r.len() - 1].authorized && r[r.len() - 1].updated_at == last);
            } else {
                let i = choose|i: int|
                    0 <= i < rest.len() && (#[trigger] rest[i]).authorized && rest[i].updated_at
                        == last;
                assert(r[i].authorized && r[i].updated_at == last);
            }
            assert forall|i: int| 0 <= i < r.len() && (#[trigger] r[i]).authorized implies r[i].updated_at
                <= last by {
                if i < rest.len() {
                    assert(rest[i].authorized);
                }
            }
        } else {
            assert forall|i: int| 0 <= i < r.len() implies !(#[trigger] r[i]).authorized by {
                if i < rest.len() {
                    assert(!rest[i].authorized);
                }
            }
        }
        if forall|i: int| 0 <= i < r.len() ==> !(#[trigger] r[i]).authorized {
            assert(!r[r.len() - 1].authorized);
            assert forall|i: int| 0 <= i < rest.len() implies !(#[trigger] rest[i]).authorized by {
                assert(!r[i].authorized);
            }
        }
    }
}

/// Gathers the statistics of an instance. The sizes of all indexes
/// count, so that the size is that on disk; only the indexes that the
/// caller may see are named and looked at for the last update.
pub fn create_all_stats(
    index_reports: &Vec<IndexReport>,
    scheduler_size: u64,
    auth_size: u64,
    update_file_size: u64,
) -> (r: Stats)
    requires
        total_size(reports(index_reports@), scheduler_size, auth_size, update_file_size)
            <= u64::MAX,
    ensures
        r.database_size == total_size(
            reports(index_reports@),
            scheduler_size,
            auth_size,
            update_file_size,
        ),
        r.last_update == latest_update(reports(index_reports@)),
        r.last_update is None <==> forall|i: int|
            0 <= i < index_reports@.len() ==> !(#[trigger] index_reports@[i]).authorized,
        r.last_update matches Some(last) ==> {
            &&& exists|i: int|
                0 <= i < index_reports@.len() && (#[trigger] index_reports@[i]).authorized
                    && index_reports@[i].updated_at == last
            &&& forall|i: int|
                0 <= i < index_reports@.len() && (#[trigger] index_reports@[i]).authorized
                    ==> index_reports@[i].updated_at <= last
        },
        word_list(r.indexes@) == visible_indexes(reports(index_reports@)),
{
    let ghost all = reports(index_reports@);
    let mut last_task: Option<i128> = None;
    let mut indexes: Vec<String> = Vec::new();
    let mut database_size: u64 = 0;
    let mut i: usize = 0;
    proof {
        assert(all.take(0) =~= Seq::<IndexReportView>::empty());
        assert(word_list(indexes@) =~= visible_indexes(all.take(0)));
        lemma_indexes_size_nonnegative(all);
    }
    while i < index_reports.len()
        invariant
            i <= index_reports.len(),
            all == reports(index_reports@),
            indexes_size(all) <= u64::MAX,
            database_size == indexes_size(all.take(i as int)),
            last_task == latest_update(all.take(i as int)),
            word_list(indexes@) == visible_indexes(all.take(i as int)),
        decreases index_reports.len() - i,
    {
        let report = &index_reports[i];
        proof {
            assert(all.take(i + 1).drop_last() =~= all.take(i as int));
            assert(all.take(i + 1).last() == report@);
            lemma_indexes_size_grows(all, i + 1);
        }
        database_size += report.database_size;
        if report.authorized {
            last_task = match last_task {
                Some(last) => Some(
                    if last >= report.updated_at {
                        last
                    } else {
                        report.updated_at
                    },
                ),
                None => Some(report.updated_at),
            };
            let ghost before = word_list(indexes@);
            indexes.push(report.uid.clone());
            assert(word_list(indexes@) =~= before.push(report.uid@));
        }
        i += 1;
    }
    proof {
        assert(all.take(i as int) =~= all);
        lemma_latest_update(all);
        if let Some(last) = latest_update(all) {
            let at = choose|at: int|
                0 <= at < all.len() && (#[trigger] all[at]).authorized && all[at].updated_at
                    == last;
            assert(index_reports@[at].authorized && index_reports@[at].updated_at == last);
            assert forall|j: int|
                0 <= j < index_reports@.len() && (
                #[trigger] index_reports@[j]).authorized implies index_reports@[j].updated_at
                <= last by {
                assert(all[j].authorized);
            }
        } else {
            assert forall|j: int| 0 <= j < index_reports@.len() implies !(
            #[trigger] index_reports@[j]).authorized by {
                assert(!all[j].authorized);
            }
        }
        if forall|i: int|
            0 <= i < index_reports@.len() ==> !(#[trigger] index_reports@[i]).authorized {
            assert forall|j: int| 0 <= j < all.len() implies !(#[trigger] all[j]).authorized by {
                assert(!index_reports@[j].authorized);
            }
        }
    }
    database_size += scheduler_size;
    database_size += auth_size;
    database_size += update_file_size;
    Stats { database_size, last_update: last_task, indexes }
}

} // verus!
