//! The publication gate: decides per request whether a build is needed,
//! and lets at most one build run per content key at a time.
use vstd::prelude::*;
use crate::entry_path::views;
use crate::pipeline::RunState;

verus! {

/// What a request for a coordinate should do.
#[derive(Debug, Clone, Copy, PartialEq, Eq, Structural)]
pub enum Decision {
    /// The content is there: serve it, build nothing.
    AlreadyPublished,
    /// This request runs the pipeline for the key.
    Build,
    /// A build for the key is in flight: wait for its outcome.
    Wait,
}

/// What a request gets once it is done.
#[derive(Debug, Clone, Copy, PartialEq, Eq)]
pub enum Outcome {
    AlreadyPublished,
    Built,
    Failed(crate::pipeline::PipelineError),
}

/// What the requests waiting on a run get once it has finished.
pub fn outcome_of_run(s: RunState) -> (r: Option<Outcome>)
    ensures
        s == RunState::Finished(Ok(())) ==> r == Some(Outcome::Built),
        s matches RunState::Finished(Err(e)) ==> r == Some(Outcome::Failed(e)),
        !(s is Finished) ==> r is None,
{
    match s {
        RunState::Finished(Ok(())) => Some(Outcome::Built),
        RunState::Finished(Err(e)) => Some(Outcome::Failed(e)),
        _ => None,
    }
}

/// The decision for a request for `key`, given the keys whose build is in
/// flight and whether the key's content is already published.
pub open spec fn decide(building: Set<Seq<char>>, key: Seq<char>, published: bool) -> Decision {
    if published {
        Decision::AlreadyPublished
    } else if building.contains(key) {
        Decision::Wait
    } else {
        Decision::Build
    }
}

/// The keys in flight after that request.
pub open spec fn after_request(building: Set<Seq<char>>, key: Seq<char>, published: bool) -> Set<
    Seq<char>,
> {
    if decide(building, key, published) == Decision::Build {
        building.insert(key)
    } else {
        building
    }
}

/// The number of builds that `n` requests for `key` start, one after
/// another, while its content is not yet published.
pub open spec fn builds_started(building: Set<Seq<char>>, key: Seq<char>, n: nat) -> nat
    decreases n,
{
    if n == 0 {
        0
    } else {
        (if decide(building, key, false) == Decision::Build {
            1nat
        } else {
            0nat
        }) + builds_started(after_request(building, key, false), key, (n - 1) as nat)
    }
}

/// The outcome last recorded for each key, recording the pairs in order.
pub open spec fn outcome_map(s: Seq<(Seq<char>, Outcome)>) -> Map<Seq<char>, Outcome>
    decreases s.len(),
{
    if s.len() == 0 {
        Map::empty()
    } else {
        outcome_map(s.drop_last()).insert(s.last().0, s.last().1)
    }
}

/// The character views of recorded pairs.
pub open spec fn pair_views(v: Seq<(String, Outcome)>) -> Seq<(Seq<char>, Outcome)> {
    v.map_values(|p: (String, Outcome)| (p.0@, p.1))
}

proof fn lemma_outcome_map_absent(s: Seq<(Seq<char>, Outcome)>, k: Seq<char>)
    requires
        forall|j: int| 0 <= j < s.len() ==> (#[trigger] s[j]).0 != k,
    ensures
        !outcome_map(s).contains_key(k),
    decreases s.len(),
{
    if s.len() > 0 {
        assert(s.last() == s[s.len() - 1]);
        lemma_outcome_map_absent(s.drop_last(), k);
    }
}

proof fn lemma_outcome_map_last(s: Seq<(Seq<char>, Outcome)>, k: Seq<char>, i: int)
    requires
        0 <= i < s.len(),
        s[i].0 == k,
        forall|j: int| i < j < s.len() ==> (#[trigger] s[j]).0 != k,
    ensures
        outcome_map(s).contains_key(k),
        outcome_map(s)[k] == s[i].1,
    decreases s.len(),
{
    assert(s.last() == s[s.len() - 1]);
    if i < s.len() - 1 {
        lemma_outcome_map_last(s.drop_last(), k, i);
    }
}

proof fn lemma_outcome_map_update(s: Seq<(Seq<char>, Outcome)>, k: Seq<char>, i: int, o: Outcome)
    requires
        0 <= i < s.len(),
        s[i].0 == k,
        forall|j: int| i < j < s.len() ==> (#[trigger] s[j]).0 != k,
    ensures
        outcome_map(s.update(i, (k, o))) == outcome_map(s).insert(k, o),
    decreases s.len(),
{
    let u = s.update(i, (k, o));
    assert(s.last() == s[s.len() - 1]);
    if i == s.len() - 1 {
        assert(u.drop_last() =~= s.drop_last());
        assert(outcome_map(u) =~= outcome_map(s).insert(k, o));
    } else {
        assert(u.drop_last() =~= s.drop_last().update(i, (k, o)));
        lemma_outcome_map_update(s.drop_last(), k, i, o);
        assert(u.last() == s.last());
        assert(outcome_map(u) =~= outcome_map(s).insert(k, o));
    }
}

/// The keys whose build is in flight, and the outcome of each key's last
/// finished build.
pub struct PublicationGate {
    in_flight: Vec<String>,
    finished: Vec<(String, Outcome)>,
}

impl View for PublicationGate {
    type V = Set<Seq<char>>;

    closed spec fn view(&self) -> Set<Seq<char>> {
        views(self.in_flight@).to_set()
    }
}

impl PublicationGate {
    /// The outcome of the last finished build of each key.
    pub closed spec fn outcomes(&self) -> Map<Seq<char>, Outcome> {
        outcome_map(pair_views(self.finished@))
    }

    /// No key is listed twice.
    pub closed spec fn wf(&self) -> bool {
        views(self.in_flight@).no_duplicates()
    }

    /// A gate with no build in flight.
    pub fn new() -> (r: PublicationGate)
        ensures
            r.wf(),
            r@ == Set::<Seq<char>>::empty(),
            r.outcomes() == Map::<Seq<char>, Outcome>::empty(),
    {
        let r = PublicationGate { in_flight: Vec::new(), finished: Vec::new() };
        assert(views(r.in_flight@) =~= Seq::<Seq<char>>::empty());
        assert(pair_views(r.finished@) =~= Seq::<(Seq<char>, Outcome)>::empty());
        assert(r@ =~= Set::<Seq<char>>::empty());
        r
    }

    fn find(&self, key: &String) -> (r: Option<usize>)
        ensures
            match r {
                Some(i) => i < self.in_flight.len() && self.in_flight@[i as int]@ == key@,
                None => !views(self.in_flight@).contains(key@),
            },
    {
        let mut i: usize = 0;
        while i < self.in_flight.len()
            invariant
                i <= self.in_flight.len(),
                forall|j: int| 0 <= j < i ==> (#[trigger] self.in_flight@[j])@ != key@,
            decreases self.in_flight.len() - i,
        {
            if self.in_flight[i] == *key {
                return Some(i);
            }
            i = i + 1;
        }
        proof {
            if views(self.in_flight@).contains(key@) {
                let j = choose|j: int|
                    0 <= j < self.in_flight.len() && views(self.in_flight@)[j] == key@;
                assert(self.in_flight@[j]@ == key@);
            }
        }
        None
    }

    /// A build for `key` is in flight.
    pub fn is_building(&self, key: &str) -> (r: bool)
        ensures
            r == self@.contains(key@),
    {
        let k = key.to_owned();
        let r = self.find(&k);
        proof {
            if let Some(i) = r {
                assert(views(self.in_flight@)[i as int] == key@);
            }
        }
        r.is_some()
    }

    /// Decides a request for `key`; a request that builds marks the key as
    /// in flight, so that later requests wait for it.
    pub fn request(&mut self, key: &str, published: bool) -> (d: Decision)
        requires
            old(self).wf(),
        ensures
            final(self).wf(),
            d == decide(old(self)@, key@, published),
            final(self)@ == after_request(old(self)@, key@, published),
            final(self).outcomes() == old(self).outcomes(),
    {
        if published {
            return Decision::AlreadyPublished;
        }
        if self.is_building(key) {
            return Decision::Wait;
        }
        let k = key.to_owned();
        let ghost before = views(self.in_flight@);
        self.in_flight.push(k);
        proof {
            assert(views(self.in_flight@) =~= before.push(key@));
            assert forall|a: int, b: int|
                0 <= a < b < before.len() + 1 implies views(self.in_flight@)[a] != views(
                self.in_flight@,
            )[b] by {
                if b == before.len() {
                    assert(before.contains(before[a]));
                }
            }
            before.lemma_push_to_set_commute(key@);
            assert(self@ =~= old(self)@.insert(key@));
        }
        Decision::Build
    }

    /// The index of the last recorded pair for `key`.
    fn find_finished(&self, key: &String) -> (r: Option<usize>)
        ensures
            match r {
                Some(i) => i < self.finished.len() && pair_views(self.finished@)[i as int].0 == key@
                    && forall|j: int|
                    i < j < self.finished.len() ==> (#[trigger] pair_views(self.finished@)[j]).0
                        != key@,
                None => forall|j: int|
                    0 <= j < self.finished.len() ==> (#[trigger] pair_views(self.finished@)[j]).0
                        != key@,
            },
    {
        let mut i: usize = self.finished.len();
        while i > 0
            invariant
                i <= self.finished.len(),
                forall|j: int|
                    i <= j < self.finished.len() ==> (#[trigger] pair_views(self.finished@)[j]).0
                        != key@,
            decreases i,
        {
            i = i - 1;
            if self.finished[i].0 == *key {
                return Some(i);
            }
        }
        None
    }

    /// The outcome of the last finished build of `key`, if any: what the
    /// requests that waited for that build get.
    pub fn last_outcome(&self, key: &str) -> (r: Option<Outcome>)
        ensures
            r == (if self.outcomes().contains_key(key@) {
                Some(self.outcomes()[key@])
            } else {
                None
            }),
    {
        let k = key.to_owned();
        match self.find_finished(&k) {
            None => {
                proof {
                    lemma_outcome_map_absent(pair_views(self.finished@), key@);
                }
                None
            },
            Some(i) => {
                proof {
                    lemma_outcome_map_last(pair_views(self.finished@), key@, i as int);
                }
                Some(self.finished[i].1)
            },
        }
    }

    /// The build for `key` is over with `outcome`: the key is no longer in
    /// flight, and the outcome is recorded for the requests that waited.
    pub fn finish(&mut self, key: &str, outcome: Outcome)
        requires
            old(self).wf(),
        ensures
            final(self).wf(),
            final(self)@ == old(self)@.remove(key@),
            final(self).outcomes() == old(self).outcomes().insert(key@, outcome),
    {
        self.record(key, outcome);
        self.release(key);
    }

    fn record(&mut self, key: &str, outcome: Outcome)
        ensures
            final(self).in_flight == old(self).in_flight,
            final(self).outcomes() == old(self).outcomes().insert(key@, outcome),
    {
        let k = key.to_owned();
        let ghost before = pair_views(self.finished@);
        match self.find_finished(&k) {
            None => {
                self.finished.push((k, outcome));
                assert(pair_views(self.finished@) =~= before.push((key@, outcome)));
                assert(before.push((key@, outcome)).drop_last() =~= before);
            },
            Some(i) => {
                proof {
                    lemma_outcome_map_update(before, key@, i as int, outcome);
                }
                self.finished[i] = (k, outcome);
                assert(pair_views(self.finished@) =~= before.update(i as int, (key@, outcome)));
            },
        }
    }

    fn release(&mut self, key: &str)
        requires
            old(self).wf(),
        ensures
            final(self).wf(),
            final(self)@ == old(self)@.remove(key@),
            final(self).finished == old(self).finished,
    {
        let k = key.to_owned();
        match self.find(&k) {
            None => {
                assert(self@ =~= old(self)@.remove(key@));
            },
            Some(i) => {
                let ghost before = views(self.in_flight@);
                self.in_flight.remove(i);
                proof {
                    let after = views(self.in_flight@);
                    assert(after =~= before.remove(i as int));
                    assert forall|x: Seq<char>| after.contains(x) <==> (before.contains(x) && x
                        != key@) by {
                        if after.contains(x) {
                            let j = choose|j: int| 0 <= j < after.len() && after[j] == x;
                            let jj = if j < i { j } else { j + 1 };
                            assert(before[jj] == x);
                            assert(before[i as int] == key@);
                            assert(jj != i);
                        }
                        if before.contains(x) && x != key@ {
                            let j = choose|j: int| 0 <= j < before.len() && before[j] == x;
                            if j < i {
                                assert(after[j] == x);
                            } else {
                                assert(j != i);
                                assert(after[j - 1] == x);
                            }
                        }
                    }
                    assert(self@ =~= old(self)@.remove(key@));
                }
            },
        }
    }
}

/// Publishing is idempotent: a request for a key that is neither published
/// nor in flight starts a build; once that build is over and the content is
/// there, a second request is served as already published and starts
/// nothing.
pub proof fn lemma_idempotent_publish(building: Set<Seq<char>>, key: Seq<char>)
    requires
        !building.contains(key),
    ensures
        decide(building, key, false) == Decision::Build,
        after_request(building, key, false).remove(key) == building,
        decide(after_request(building, key, false).remove(key), key, true)
            == Decision::AlreadyPublished,
        after_request(building, key, true) == building,
{
    assert(building.insert(key).remove(key) =~= building);
}

/// Every request that waited on a build gets that build's outcome: once it
/// is recorded, the builds that finish after it for other keys leave it in
/// place.
pub proof fn lemma_waiters_share_outcome(
    recorded: Seq<(Seq<char>, Outcome)>,
    key: Seq<char>,
    outcome: Outcome,
    later: Seq<(Seq<char>, Outcome)>,
)
    requires
        forall|j: int| 0 <= j < later.len() ==> (#[trigger] later[j]).0 != key,
    ensures
        outcome_map(recorded.push((key, outcome)) + later).contains_key(key),
        outcome_map(recorded.push((key, outcome)) + later)[key] == outcome,
{
    let s = recorded.push((key, outcome)) + later;
    let i = recorded.len() as int;
    assert(s[i] == (key, outcome));
    assert forall|j: int| i < j < s.len() implies (#[trigger] s[j]).0 != key by {
        assert(s[j] == later[j - i - 1]);
    }
    lemma_outcome_map_last(s, key, i);
}

/// Any number of requests for a key that is not yet published start exactly
/// one build between them when none was in flight, and none when one was.
pub proof fn lemma_single_build_per_key(building: Set<Seq<char>>, key: Seq<char>, n: nat)
    ensures
        !building.contains(key) && n >= 1 ==> builds_started(building, key, n) == 1,
        building.contains(key) ==> builds_started(building, key, n) == 0,
    decreases n,
{
    if n > 0 {
        let next = after_request(building, key, false);
        assert(next.contains(key));
        lemma_single_build_per_key(next, key, (n - 1) as nat);
    }
}

} // verus!
