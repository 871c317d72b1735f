//! What comes of looking for the records that a fetch waits for.

use crate::data;
use crate::data::RequestPartitionView;
use crate::root;
use crate::root::ResponseCheck;
use crate::root::Responses;
use crate::root::SharedRecords;
use vstd::prelude::*;

verus! {

/// The records that were handed to the proxy, and how far the partitions of a request have been
/// looked at.
pub struct CheckView {
    pub responses: Responses,
    pub check: ResponseCheck,
}

impl CheckView {
    /// The first partition from here on that has no records.
    pub open spec fn next(self, partitions: Seq<RequestPartitionView>) -> int {
        root::first_missing(self.responses, partitions, self.check.position as int)
    }

    /// Whether no partition from here on is without records.
    pub open spec fn is_over(self, partitions: Seq<RequestPartitionView>) -> bool {
        self.next(partitions) >= partitions.len()
    }

    /// What comes of the first partition that has no records, with what was found of them.
    pub open spec fn stepped(
        self,
        partitions: Seq<RequestPartitionView>,
        found: SharedRecords,
    ) -> CheckView {
        CheckView {
            responses: root::noted(self.responses, found),
            check: ResponseCheck {
                position: (self.next(partitions) + 1) as usize,
                full_request: self.check.full_request && !(found is Missing),
            },
        }
    }
}

/// How far the partitions of a request have been looked at after so much was looked for and
/// found.
pub open spec fn checked(
    responses: Responses,
    partitions: Seq<RequestPartitionView>,
    found: Seq<SharedRecords>,
) -> CheckView
    decreases found.len(),
{
    if found.len() == 0 {
        CheckView { responses, check: ResponseCheck { position: 0, full_request: true } }
    } else {
        checked(responses, partitions, found.drop_last()).stepped(partitions, found.last())
    }
}

/// Whether nothing was looked for after the end.
pub open spec fn is_run(
    responses: Responses,
    partitions: Seq<RequestPartitionView>,
    found: Seq<SharedRecords>,
) -> bool {
    forall|k: int|
        0 <= k < found.len() ==> !checked(
            responses,
            partitions,
            #[trigger] found.take(k),
        ).is_over(partitions)
}

/// The partition whose records were looked for at a turn.
pub open spec fn looked_at(
    responses: Responses,
    partitions: Seq<RequestPartitionView>,
    found: Seq<SharedRecords>,
    k: int,
) -> int {
    checked(responses, partitions, found.take(k)).next(partitions)
}

/// The first partition without records is the first one without records.
proof fn lemma_first_missing(
    responses: Responses,
    partitions: Seq<RequestPartitionView>,
    from: int,
)
    requires
        0 <= from <= partitions.len(),
    ensures
        ({
            let p = root::first_missing(responses, partitions, from);
            &&& from <= p <= partitions.len()
            &&& p < partitions.len() ==> !responses.contains_key(root::queue_of(partitions[p]))
            &&& forall|j: int|
                from <= j < p ==> responses.contains_key(#[trigger] root::queue_of(partitions[j]))
        }),
    decreases partitions.len() - from,
{
    if from < partitions.len() && responses.contains_key(root::queue_of(partitions[from])) {
        lemma_first_missing(responses, partitions, from + 1);
    }
}

/// How far a run has come.
proof fn lemma_checked(
    responses: Responses,
    partitions: Seq<RequestPartitionView>,
    found: Seq<SharedRecords>,
)
    requires
        partitions.len() <= usize::MAX,
        is_run(responses, partitions, found),
    ensures
        ({
            let s = checked(responses, partitions, found);
            &&& s.check.position <= partitions.len()
            &&& s.check.full_request <==> forall|k: int|
                0 <= k < found.len() ==> !(#[trigger] found[k] is Missing)
            &&& forall|k: int|
                0 <= k < found.len() ==> 0 <= #[trigger] looked_at(responses, partitions, found, k)
                    < s.check.position
            &&& forall|j: int|
                0 <= j < s.check.position ==> s.responses.contains_key(
                    #[trigger] root::queue_of(partitions[j]),
                ) || exists|k: int|
                    0 <= k < found.len() && #[trigger] looked_at(responses, partitions, found, k)
                        == j
        }),
    decreases found.len(),
{
    if found.len() > 0 {
        let before = found.drop_last();
        let n = before.len() as int;
        assert forall|k: int| 0 <= k < before.len() implies !checked(
            responses,
            partitions,
            #[trigger] before.take(k),
        ).is_over(partitions) by {
            assert(before.take(k) =~= found.take(k));
        }
        lemma_checked(responses, partitions, before);
        assert(found.take(n) =~= before);
        let s = checked(responses, partitions, before);
        let t = checked(responses, partitions, found);
        let p = s.next(partitions);
        lemma_first_missing(s.responses, partitions, s.check.position as int);
        assert(!s.is_over(partitions));
        assert(looked_at(responses, partitions, found, n) == p);
        assert forall|k: int| 0 <= k < found.len() implies 0 <= #[trigger] looked_at(
            responses,
            partitions,
            found,
            k,
        ) < t.check.position by {
            if k < n {
                assert(before.take(k) =~= found.take(k));
                assert(looked_at(responses, partitions, before, k) < s.check.position);
            }
        }
        assert forall|j: int| 0 <= j < t.check.position implies t.responses.contains_key(
            #[trigger] root::queue_of(partitions[j]),
        ) || exists|k: int|
            0 <= k < found.len() && #[trigger] looked_at(responses, partitions, found, k) == j by {
            if j < s.check.position && !s.responses.contains_key(root::queue_of(partitions[j])) {
                let k = choose|k: int|
                    0 <= k < before.len() && #[trigger] looked_at(
                        responses,
                        partitions,
                        before,
                        k,
                    ) == j;
                assert(before.take(k) =~= found.take(k));
                assert(looked_at(responses, partitions, found, k) == j);
            }
        }
        if t.check.full_request {
            assert forall|k: int| 0 <= k < found.len() implies !(#[trigger] found[k] is Missing) by {
                if k < n {
                    assert(before[k] == found[k]);
                }
            }
        } else if !(found.last() is Missing) {
            let k = choose|k: int| 0 <= k < before.len() && #[trigger] before[k] is Missing;
            assert(found[k] is Missing);
        } else {
            assert(found[n] is Missing);
        }
    }
}

/// Looking for the records that a fetch waits for ends with the word that they are complete
/// exactly if no records were missing that were looked for. Records are looked for once for each
/// partition, in order, that has none at its turn; at the end every other one has records.
pub proof fn a_check_tells_whether_records_are_missing(
    responses: Responses,
    partitions: Seq<RequestPartitionView>,
    found: Seq<SharedRecords>,
)
    requires
        partitions.len() <= usize::MAX,
        is_run(responses, partitions, found),
    ensures
        ({
            let end = checked(responses, partitions, found);
            &&& end.check.full_request <==> forall|k: int|
                0 <= k < found.len() ==> !(#[trigger] found[k] is Missing)
            &&& forall|k: int|
                0 <= k < found.len() ==> {
                    let j = #[trigger] looked_at(responses, partitions, found, k);
                    0 <= j < partitions.len() && !checked(
                        responses,
                        partitions,
                        found.take(k),
                    ).responses.contains_key(root::queue_of(partitions[j]))
                }
            &&& forall|k: int, l: int|
                0 <= k < l < found.len() ==> #[trigger] looked_at(responses, partitions, found, k)
                    < #[trigger] looked_at(responses, partitions, found, l)
            &&& end.is_over(partitions) ==> forall|j: int|
                0 <= j < partitions.len() ==> end.responses.contains_key(
                    #[trigger] root::queue_of(partitions[j]),
                ) || exists|k: int|
                    0 <= k < found.len() && #[trigger] looked_at(responses, partitions, found, k)
                        == j
        }),
{
    let end = checked(responses, partitions, found);
    lemma_checked(responses, partitions, found);
    lemma_first_missing(end.responses, partitions, end.check.position as int);
    assert forall|l: int| 0 <= l < found.len() implies {
        let j = #[trigger] looked_at(responses, partitions, found, l);
        &&& 0 <= j < partitions.len()
        &&& !checked(responses, partitions, found.take(l)).responses.contains_key(
            root::queue_of(partitions[j]),
        )
        &&& forall|k: int|
            0 <= k < l ==> #[trigger] looked_at(responses, partitions, found, k) < j
    } by {
        let before = found.take(l);
        assert forall|k: int| 0 <= k < before.len() implies !checked(
            responses,
            partitions,
            #[trigger] before.take(k),
        ).is_over(partitions) by {
            assert(before.take(k) =~= found.take(k));
        }
        lemma_checked(responses, partitions, before);
        let s = checked(responses, partitions, before);
        lemma_first_missing(s.responses, partitions, s.check.position as int);
        assert(!s.is_over(partitions));
        assert forall|k: int| 0 <= k < l implies #[trigger] looked_at(
            responses,
            partitions,
            found,
            k,
        ) < looked_at(responses, partitions, found, l) by {
            assert(before.take(k) =~= found.take(k));
            assert(looked_at(responses, partitions, before, k) < s.check.position);
        }
    }
}

/// Where the records of every partition were found that were looked for, the fetch can be
/// answered at the end.
pub proof fn a_complete_check_can_be_answered(
    responses: Responses,
    partitions: Seq<RequestPartitionView>,
    found: Seq<SharedRecords>,
)
    requires
        partitions.len() <= usize::MAX,
        is_run(responses, partitions, found),
        checked(responses, partitions, found).is_over(partitions),
        forall|k: int|
            0 <= k < found.len() ==> (#[trigger] found[k] matches SharedRecords::Found(records)
                && data::queue_key(records.topic@, records.partition as int) == root::queue_of(
                partitions[looked_at(responses, partitions, found, k)],
            )),
    ensures
        root::is_answerable(checked(responses, partitions, found).responses, partitions),
        checked(responses, partitions, found).check.full_request,
{
    let end = checked(responses, partitions, found);
    a_check_tells_whether_records_are_missing(responses, partitions, found);
    assert forall|j: int| 0 <= j < partitions.len() implies end.responses.contains_key(
        #[trigger] root::queue_of(partitions[j]),
    ) by {
        if !end.responses.contains_key(root::queue_of(partitions[j])) {
            let k = choose|k: int|
                0 <= k < found.len() && #[trigger] looked_at(responses, partitions, found, k) == j;
            assert(found[k] is Found);
            lemma_kept(responses, partitions, found, k);
        }
    }
}

/// Records that were found stay.
proof fn lemma_kept(
    responses: Responses,
    partitions: Seq<RequestPartitionView>,
    found: Seq<SharedRecords>,
    k: int,
)
    requires
        0 <= k < found.len(),
        found[k] is Found,
    ensures
        ({
            let records = found[k]->Found_0;
            checked(responses, partitions, found).responses.contains_key(
                data::queue_key(records.topic@, records.partition as int),
            )
        }),
    decreases found.len(),
{
    if k < found.len() - 1 {
        lemma_kept(responses, partitions, found.drop_last(), k);
    }
}

} // verus!
