//! Composite data source: tries each underlying adapter in order.
//!
//! For every method, the first underlying source that returns `Some(...)`
//! wins; a source that fails is skipped, one that has nothing is passed
//! over, and the sources after the winner are not asked.

use std::rc::Rc;

use vstd::prelude::*;

use super::{DataSource, ImageKind};
use crate::model::{Episode, Season, Series};

verus! {

/// What one source answered, as far as the chain cares.
pub enum Answer<T> {
    Found(T),
    Missing,
    Failed,
}

/// The chain's answer to the answers of the sources asked so far, in
/// order: the first `Found`, or nothing.
pub open spec fn first_found<T>(answers: Seq<Answer<T>>) -> Option<T>
    decreases answers.len(),
{
    if answers.len() == 0 {
        None
    } else {
        match answers[0] {
            Answer::Found(v) => Some(v),
            _ => first_found(answers.skip(1)),
        }
    }
}

/// How a `Composite` walk went: the sources were asked in order, every
/// one before the last asked had nothing (or failed), and the walk stopped
/// at the first that had something.
///
/// The answers are the walk's own record of what it classified. The
/// sources are trait objects with no contract, so nothing ties this
/// record to what a source would actually reply, nor states which
/// arguments each source was handed: a walk is stated only relative to
/// the answers it records.
pub open spec fn walked<T>(answers: Seq<Answer<T>>, n: nat, r: Option<T>) -> bool {
    &&& answers.len() <= n
    &&& forall|i: int| 0 <= i < answers.len() - 1 ==> !(answers[i] is Found)
    &&& (answers.len() < n ==> answers.len() > 0 && answers.last() is Found)
    &&& r == first_found(answers)
}

pub fn classify<T>(r: Result<Option<T>, anyhow::Error>) -> (a: Answer<T>)
    ensures
        match r {
            Ok(Some(v)) => a == Answer::Found(v),
            Ok(None) => a is Missing,
            Err(_) => a is Failed,
        },
{
    match r {
        Ok(Some(v)) => Answer::Found(v),
        Ok(None) => Answer::Missing,
        Err(_) => Answer::Failed,
    }
}

proof fn lemma_first_found_push<T>(answers: Seq<Answer<T>>, a: Answer<T>)
    requires
        forall|i: int| 0 <= i < answers.len() ==> !(answers[i] is Found),
    ensures
        first_found(answers.push(a)) == (match a {
            Answer::Found(v) => Some(v),
            _ => None,
        }),
        first_found(answers) is None,
    decreases answers.len(),
{
    if answers.len() == 0 {
        assert(answers.push(a)[0] == a);
        assert(answers.push(a).skip(1).len() == 0);
    } else {
        assert(answers.push(a).skip(1) == answers.skip(1).push(a));
        assert forall|i: int| 0 <= i < answers.skip(1).len() implies !(answers.skip(1)[i] is Found) by {
            assert(answers.skip(1)[i] == answers[i + 1]);
        }
        lemma_first_found_push(answers.skip(1), a);
        assert(answers.push(a)[0] == answers[0]);
        assert(!(answers[0] is Found));
        assert(first_found(answers.push(a)) == first_found(answers.push(a).skip(1)));
    }
}

/// A chain of sources asked in order.
pub struct Composite {
    pub sources: Vec<Rc<dyn DataSource>>,
}

impl Composite {
    pub fn new(sources: Vec<Rc<dyn DataSource>>) -> (r: Self)
        ensures
            r.sources@ == sources@,
    {
        Self { sources }
    }

    /// `series` through the chain, with the answers of the sources asked.
    pub fn walk_series(&self) -> (r: (Option<Series>, Ghost<Seq<Answer<Series>>>))
        ensures
            walked(r.1@, self.sources@.len(), r.0),
    {
        let ghost mut log: Seq<Answer<Series>> = Seq::empty();
        let mut i: usize = 0;
        while i < self.sources.len()
            invariant
                i <= self.sources@.len(),
                log.len() == i,
                forall|j: int| 0 <= j < log.len() ==> !(log[j] is Found),
            decreases self.sources@.len() - i,
        {
            let a = classify(self.sources[i].series());
            proof {
                lemma_first_found_push(log, a);
                log = log.push(a);
            }
            match a {
                Answer::Found(v) => {
                    return (Some(v), Ghost(log));
                },
                _ => {},
            }
            i = i + 1;
        }
        proof {
            if log.len() > 0 {
                lemma_first_found_push(log.drop_last(), log.last());
                assert(log.drop_last().push(log.last()) == log);
            }
        }
        (None, Ghost(log))
    }

    /// `season` through the chain, with the answers of the sources asked.
    pub fn walk_season(&self, number: u32) -> (r: (Option<Season>, Ghost<Seq<Answer<Season>>>))
        ensures
            walked(r.1@, self.sources@.len(), r.0),
    {
        let ghost mut log: Seq<Answer<Season>> = Seq::empty();
        let mut i: usize = 0;
        while i < self.sources.len()
            invariant
                i <= self.sources@.len(),
                log.len() == i,
                forall|j: int| 0 <= j < log.len() ==> !(log[j] is Found),
            decreases self.sources@.len() - i,
        {
            let a = classify(self.sources[i].season(number));
            proof {
                lemma_first_found_push(log, a);
                log = log.push(a);
            }
            match a {
                Answer::Found(v) => {
                    return (Some(v), Ghost(log));
                },
                _ => {},
            }
            i = i + 1;
        }
        proof {
            if log.len() > 0 {
                lemma_first_found_push(log.drop_last(), log.last());
                assert(log.drop_last().push(log.last()) == log);
            }
        }
        (None, Ghost(log))
    }

    /// `episode` through the chain, with the answers of the sources asked.
    pub fn walk_episode(&self, arc_normalized: &str, episode_number: u32) -> (r: (
        Option<Episode>,
        Ghost<Seq<Answer<Episode>>>,
    ))
        ensures
            walked(r.1@, self.sources@.len(), r.0),
    {
        let ghost mut log: Seq<Answer<Episode>> = Seq::empty();
        let mut i: usize = 0;
        while i < self.sources.len()
            invariant
                i <= self.sources@.len(),
                log.len() == i,
                forall|j: int| 0 <= j < log.len() ==> !(log[j] is Found),
            decreases self.sources@.len() - i,
        {
            let a = classify(self.sources[i].episode(arc_normalized, episode_number));
            proof {
                lemma_first_found_push(log, a);
                log = log.push(a);
            }
            match a {
                Answer::Found(v) => {
                    return (Some(v), Ghost(log));
                },
                _ => {},
            }
            i = i + 1;
        }
        proof {
            if log.len() > 0 {
                lemma_first_found_push(log.drop_last(), log.last());
                assert(log.drop_last().push(log.last()) == log);
            }
        }
        (None, Ghost(log))
    }

    /// `image` through the chain, with the answers of the sources asked.
    pub fn walk_image(&self, kind: ImageKind) -> (r: (Option<Vec<u8>>, Ghost<Seq<Answer<Vec<u8>>>>))
        ensures
            walked(r.1@, self.sources@.len(), r.0),
    {
        let ghost mut log: Seq<Answer<Vec<u8>>> = Seq::empty();
        let mut i: usize = 0;
        while i < self.sources.len()
            invariant
                i <= self.sources@.len(),
                log.len() == i,
                forall|j: int| 0 <= j < log.len() ==> !(log[j] is Found),
            decreases self.sources@.len() - i,
        {
            let a = classify(self.sources[i].image(kind));
            proof {
                lemma_first_found_push(log, a);
                log = log.push(a);
            }
            match a {
                Answer::Found(v) => {
                    return (Some(v), Ghost(log));
                },
                _ => {},
            }
            i = i + 1;
        }
        proof {
            if log.len() > 0 {
                lemma_first_found_push(log.drop_last(), log.last());
                assert(log.drop_last().push(log.last()) == log);
            }
        }
        (None, Ghost(log))
    }

    /// `identify_by_crc` through the chain, with the answers asked.
    pub fn walk_identify(&self, crc: &str) -> (r: (Option<(String, u32)>, Ghost<Seq<Answer<(String, u32)>>>))
        ensures
            walked(r.1@, self.sources@.len(), r.0),
    {
        let ghost mut log: Seq<Answer<(String, u32)>> = Seq::empty();
        let mut i: usize = 0;
        while i < self.sources.len()
            invariant
                i <= self.sources@.len(),
                log.len() == i,
                forall|j: int| 0 <= j < log.len() ==> !(log[j] is Found),
            decreases self.sources@.len() - i,
        {
            let a = classify(self.sources[i].identify_by_crc(crc));
            proof {
                lemma_first_found_push(log, a);
                log = log.push(a);
            }
            match a {
                Answer::Found(v) => {
                    return (Some(v), Ghost(log));
                },
                _ => {},
            }
            i = i + 1;
        }
        proof {
            if log.len() > 0 {
                lemma_first_found_push(log.drop_last(), log.last());
                assert(log.drop_last().push(log.last()) == log);
            }
        }
        (None, Ghost(log))
    }
}

impl DataSource for Composite {
    fn name(&self) -> (r: &'static str)
        ensures
            r@ == "composite"@,
    {
        proof {
            reveal_strlit("composite");
        }
        "composite"
    }

    fn series(&self) -> (out: Result<Option<Series>, anyhow::Error>)
        ensures
            out matches Ok(v) && exists|log: Seq<Answer<Series>>|
                #[trigger] walked(log, self.sources@.len(), v),
    {
        let (r, log) = self.walk_series();
        assert(walked(log@, self.sources@.len(), r));
        Ok(r)
    }

    fn season(&self, number: u32) -> (out: Result<Option<Season>, anyhow::Error>)
        ensures
            out matches Ok(v) && exists|log: Seq<Answer<Season>>|
                #[trigger] walked(log, self.sources@.len(), v),
    {
        let (r, log) = self.walk_season(number);
        assert(walked(log@, self.sources@.len(), r));
        Ok(r)
    }

    fn episode(&self, arc_normalized: &str, episode_number: u32) -> (out: Result<
        Option<Episode>,
        anyhow::Error,
    >)
        ensures
            out matches Ok(v) && exists|log: Seq<Answer<Episode>>|
                #[trigger] walked(log, self.sources@.len(), v),
    {
        let (r, log) = self.walk_episode(arc_normalized, episode_number);
        assert(walked(log@, self.sources@.len(), r));
        Ok(r)
    }

    fn image(&self, kind: ImageKind) -> (out: Result<Option<Vec<u8>>, anyhow::Error>)
        ensures
            out matches Ok(v) && exists|log: Seq<Answer<Vec<u8>>>|
                #[trigger] walked(log, self.sources@.len(), v),
    {
        let (r, log) = self.walk_image(kind);
        assert(walked(log@, self.sources@.len(), r));
        Ok(r)
    }

    fn identify_by_crc(&self, crc: &str) -> (out: Result<Option<(String, u32)>, anyhow::Error>)
        ensures
            out matches Ok(v) && exists|log: Seq<Answer<(String, u32)>>|
                #[trigger] walked(log, self.sources@.len(), v),
    {
        let (r, log) = self.walk_identify(crc);
        assert(walked(log@, self.sources@.len(), r));
        Ok(r)
    }
}

} // verus!
