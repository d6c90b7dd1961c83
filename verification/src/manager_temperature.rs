//! The sensor poller's rules: one value from the readings of a cycle, and
//! a write only where that value differs from the last one written.

use crate::errors::TempError;
use crate::manager_db::errors::DBError;
use crate::manager_db::{holds, observed, taken, DB};
use crate::reading::Reading;
use vstd::prelude::*;

verus! {

/// The lowest of the readings that succeeded; nothing where none did.
pub open spec fn coldest(readings: Seq<Result<Reading, TempError>>) -> Option<Reading>
    decreases readings.len(),
{
    if readings.len() == 0 {
        None
    } else {
        let before = coldest(readings.drop_last());
        match (before, readings.last()) {
            (Some(low), Ok(reading)) => if reading@ < low@ {
                Some(reading)
            } else {
                Some(low)
            },
            (None, Ok(reading)) => Some(reading),
            (_, Err(_)) => before,
        }
    }
}

/// The value of a cycle: the lowest of the readings that succeeded.
pub fn aggregate(readings: &Vec<Result<Reading, TempError>>) -> (value: Option<Reading>)
    ensures
        value == coldest(readings@),
{
    let mut value: Option<Reading> = None;
    let mut i: usize = 0;
    assert(readings@.take(0) =~= Seq::<Result<Reading, TempError>>::empty());
    while i < readings.len()
        invariant
            0 <= i <= readings.len(),
            value == coldest(readings@.take(i as int)),
        decreases readings.len() - i,
    {
        proof {
            assert(readings@.take(i as int + 1).drop_last() =~= readings@.take(i as int));
            assert(readings@.take(i as int + 1).last() == readings@[i as int]);
        }
        match &readings[i] {
            Ok(reading) => {
                value = match value {
                    Some(low) => if reading.below(&low) {
                        Some(*reading)
                    } else {
                        Some(low)
                    },
                    None => Some(*reading),
                };
            },
            Err(_) => {},
        }
        i += 1;
    }
    proof {
        assert(readings@.take(i as int) =~= readings@);
    }
    value
}

/// What a poller remembers between cycles: the value it wrote last.
pub struct Poller {
    last_inserted: Option<Reading>,
}

/// How a cycle of the poller ended.
#[derive(Debug)]
pub enum Cycle {
    /// No sensor answered: there is no value.
    Nothing,
    /// The value is the one written last: nothing was written.
    Unchanged(Reading),
    /// The value entered the store.
    Written(Reading),
    /// The store refused the value.
    Refused(Reading, DBError),
}

impl Poller {
    /// The value written last; nothing before the first write.
    pub closed spec fn last(&self) -> Option<Reading> {
        self.last_inserted
    }

    /// A poller that has not written yet.
    pub fn new() -> (poller: Poller)
        ensures
            poller.last() is None,
    {
        Poller { last_inserted: None }
    }

    /// The value written last; nothing before the first write.
    pub fn last_inserted(&self) -> (value: Option<Reading>)
        ensures
            value == self.last(),
    {
        self.last_inserted
    }

    /// Whether a cycle with the value `value` writes: it has a value, and
    /// that value is not the one written last.
    pub open spec fn writes(&self, value: Option<Reading>) -> bool {
        value is Some && value != self.last()
    }

    /// One cycle: takes the readings that the sensors gave at `now`, and
    /// writes their lowest value for `name` unless it is the value written
    /// last.  The poller remembers a value that it tried to write, whether
    /// or not the store took it.
    pub fn run_cycle(
        &mut self,
        db: &mut DB,
        name: &str,
        now: i64,
        readings: &Vec<Result<Reading, TempError>>,
    ) -> (outcome: Cycle)
        requires
            old(db).wf(),
        ensures
            final(db).wf(),
            final(db).max_age() == old(db).max_age(),
            match coldest(readings@) {
                None => outcome is Nothing && final(self).last() == old(self).last() && final(db)@
                    == old(db)@,
                Some(value) => if old(self).last() == Some(value) {
                    &&& outcome == Cycle::Unchanged(value)
                    &&& final(self).last() == old(self).last()
                    &&& final(db)@ == old(db)@
                } else if holds(old(db)@, name@, now as int) {
                    &&& outcome matches Cycle::Refused(tried, e)
                    &&& tried == value
                    &&& e.reason() == taken()
                    &&& final(self).last() == Some(value)
                    &&& final(db)@ == old(db)@
                } else {
                    &&& outcome == Cycle::Written(value)
                    &&& final(self).last() == Some(value)
                    &&& final(db)@ == observed(old(db)@, name@, now, value, None, None)
                },
            },
    {
        match aggregate(readings) {
            None => Cycle::Nothing,
            Some(value) => {
                let unchanged = match self.last_inserted {
                    Some(last) => last.same(&value),
                    None => false,
                };
                if unchanged {
                    proof {
                        crate::reading::lemma_same_code(self.last_inserted.unwrap(), value);
                    }
                    Cycle::Unchanged(value)
                } else {
                    self.last_inserted = Some(value);
                    match db.insert_observation_record(name, now, value, None, None) {
                        Ok(()) => Cycle::Written(value),
                        Err(e) => Cycle::Refused(value, e),
                    }
                }
            },
        }
    }
}

} // verus!
