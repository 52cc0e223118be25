//! Which mod icons to download: an icon already decoded, one that failed
//! before or one being downloaded is not asked for again.
use vstd::prelude::*;
use crate::idset::{owned, IdSet};

verus! {

/// Picking the icons to download, request by request (an ID and a URL): a
/// URL already decoded, one that failed or one being downloaded is passed
/// over; any other is marked as being downloaded and asked for.
pub open spec fn request_plan(
    in_flight: Set<Seq<char>>,
    failed: Set<Seq<char>>,
    decoded: Set<Seq<char>>,
    requests: Seq<(Seq<char>, Seq<char>)>,
) -> (Set<Seq<char>>, Seq<(Seq<char>, Seq<char>)>)
    decreases requests.len(),
{
    if requests.len() == 0 {
        (in_flight, seq![])
    } else {
        let prev = request_plan(in_flight, failed, decoded, requests.drop_last());
        let r = requests.last();
        if decoded.contains(r.1) || failed.contains(r.1) || prev.0.contains(r.1) {
            prev
        } else {
            (prev.0.insert(r.1), prev.1.push(r))
        }
    }
}

pub open spec fn requests_view(v: Seq<(String, String)>) -> Seq<(Seq<char>, Seq<char>)> {
    v.map_values(|p: (String, String)| (p.0@, p.1@))
}

/// The icons being downloaded and those whose download failed.
pub struct IconRequests {
    in_flight: IdSet,
    failed: IdSet,
}

impl IconRequests {
    pub closed spec fn in_flight_set(&self) -> Set<Seq<char>> {
        self.in_flight.view()
    }

    pub closed spec fn failed_set(&self) -> Set<Seq<char>> {
        self.failed.view()
    }

    pub fn new() -> (r: Self)
        ensures
            r.in_flight_set() == Set::<Seq<char>>::empty(),
            r.failed_set() == Set::<Seq<char>>::empty(),
    {
        IconRequests { in_flight: IdSet::new(), failed: IdSet::new() }
    }

    /// The requests to download now, in order; their URLs are marked as
    /// being downloaded.
    pub fn plan(&mut self, requests: Vec<(String, String)>, decoded: &IdSet) -> (r: Vec<(String, String)>)
        ensures
            ({
                let plan = request_plan(
                    old(self).in_flight_set(),
                    old(self).failed_set(),
                    decoded.view(),
                    requests_view(requests@),
                );
                &&& final(self).in_flight_set() == plan.0
                &&& requests_view(r@) == plan.1
            }),
            final(self).failed_set() == old(self).failed_set(),
    {
        let ghost reqs = requests_view(requests@);
        let ghost f0 = self.in_flight_set();
        let ghost fl = self.failed_set();
        let mut out: Vec<(String, String)> = Vec::new();
        let mut k: usize = 0;
        while k < requests.len()
            invariant
                k <= requests@.len(),
                reqs == requests_view(requests@),
                self.failed_set() == fl,
                ({
                    let plan = request_plan(f0, fl, decoded.view(), reqs.subrange(0, k as int));
                    &&& self.in_flight_set() == plan.0
                    &&& requests_view(out@) == plan.1
                }),
            decreases requests.len() - k,
        {
            let ghost pre = reqs.subrange(0, k as int);
            let ghost next = reqs.subrange(0, k + 1);
            assert(next.drop_last() =~= pre);
            assert(next.last() == (requests@[k as int].0@, requests@[k as int].1@));
            let url = requests[k].1.as_str();
            if !decoded.contains(url) && !self.failed.contains(url) {
                let ghost before = requests_view(out@);
                if self.in_flight.insert(url) {
                    out.push((owned(requests[k].0.as_str()), owned(url)));
                    assert(requests_view(out@) =~= before.push(next.last()));
                }
            }
            k = k + 1;
        }
        assert(reqs.subrange(0, reqs.len() as int) =~= reqs);
        out
    }

    /// A download ended: the URL is no longer being downloaded, and counts
    /// as failed where no icon came.
    pub fn finish(&mut self, url: &str, fetched: bool)
        ensures
            final(self).in_flight_set() == old(self).in_flight_set().remove(url@),
            fetched ==> final(self).failed_set() == old(self).failed_set(),
            !fetched ==> final(self).failed_set() == old(self).failed_set().insert(url@),
    {
        self.in_flight.remove(url);
        if !fetched {
            self.failed.insert(url);
        }
    }
}

/// An icon download plan asks for each URL at most once, and only for one
/// that was neither decoded, failed nor being downloaded; every URL asked
/// for is then being downloaded.
pub proof fn law_icon_requested_once(
    in_flight: Set<Seq<char>>,
    failed: Set<Seq<char>>,
    decoded: Set<Seq<char>>,
    requests: Seq<(Seq<char>, Seq<char>)>,
)
    ensures
        ({
            let plan = request_plan(in_flight, failed, decoded, requests);
            &&& in_flight.subset_of(plan.0)
            &&& forall|k: int|
                0 <= k < plan.1.len() ==> !in_flight.contains(#[trigger] plan.1[k].1) && !failed.contains(
                    plan.1[k].1,
                ) && !decoded.contains(plan.1[k].1) && plan.0.contains(plan.1[k].1)
            &&& forall|a: int, b: int| 0 <= a < b < plan.1.len() ==> #[trigger] plan.1[a].1 != #[trigger] plan.1[b].1
        }),
    decreases requests.len(),
{
    if requests.len() > 0 {
        law_icon_requested_once(in_flight, failed, decoded, requests.drop_last());
        let prev = request_plan(in_flight, failed, decoded, requests.drop_last());
        let plan = request_plan(in_flight, failed, decoded, requests);
        assert forall|k: int| 0 <= k < plan.1.len() implies !in_flight.contains(#[trigger] plan.1[k].1)
            && !failed.contains(plan.1[k].1) && !decoded.contains(plan.1[k].1) && plan.0.contains(plan.1[k].1) by {
            if k < prev.1.len() {
                assert(plan.1[k] == prev.1[k]);
            }
        }
        assert forall|a: int, b: int| 0 <= a < b < plan.1.len() implies #[trigger] plan.1[a].1 != #[trigger] plan.1[b].1 by {
            if b < prev.1.len() {
                assert(plan.1[a] == prev.1[a]);
                assert(plan.1[b] == prev.1[b]);
            } else {
                assert(plan.1[a] == prev.1[a]);
            }
        }
    }
}

} // verus!
