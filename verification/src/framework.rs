//! Tests as they are discovered and scheduled.

use vstd::prelude::*;

verus! {

/// A discovered test.
pub struct TestRecord {
    /// Unique identifier, as the test framework reports it.
    pub id: String,
    /// Name for display.
    pub name: String,
    /// File that defines the test, where it is known.
    pub file: Option<String>,
    /// Number of times to retry the test when it fails.
    pub retry_count: usize,
    /// Group that the test belongs to.
    pub group: String,
    /// Whether the test gets a batch of its own.
    pub schedule_individual: bool,
}

impl TestRecord {
    /// A record without retries that may share its batch; the name is the id.
    pub fn new(id: &str, group: &str) -> (r: Self)
        ensures
            r.id@ == id@,
            r.name@ == id@,
            r.file is None,
            r.retry_count == 0,
            r.group@ == group@,
            !r.schedule_individual,
    {
        TestRecord {
            id: id.to_owned(),
            name: id.to_owned(),
            file: None,
            retry_count: 0,
            group: group.to_owned(),
            schedule_individual: false,
        }
    }

    /// One run of this test.
    pub fn test(&self) -> (r: TestInstance)
        ensures
            r == test_of(*self),
    {
        TestInstance::new(self)
    }
}

/// The run of a record's test.
pub open spec fn test_of(record: TestRecord) -> TestInstance {
    TestInstance {
        id: record.id,
        group: record.group,
        schedule_individual: record.schedule_individual,
    }
}

/// One run of a test.
pub struct TestInstance {
    /// Identifier of the test.
    pub id: String,
    /// Group that the test belongs to.
    pub group: String,
    /// Whether the test gets a batch of its own.
    pub schedule_individual: bool,
}

impl Clone for TestInstance {
    fn clone(&self) -> (r: Self)
        ensures
            r == *self,
    {
        TestInstance {
            id: self.id.clone(),
            group: self.group.clone(),
            schedule_individual: self.schedule_individual,
        }
    }
}

impl TestInstance {
    /// One run of the test of `record`.
    pub fn new(record: &TestRecord) -> (r: Self)
        ensures
            r == test_of(*record),
    {
        TestInstance {
            id: record.id.clone(),
            group: record.group.clone(),
            schedule_individual: record.schedule_individual,
        }
    }

    /// Identifier of the test.
    pub fn id(&self) -> (r: &str)
        ensures
            r@ == self.id@,
    {
        self.id.as_str()
    }

    /// Group that the test belongs to.
    pub fn group(&self) -> (r: &str)
        ensures
            r@ == self.group@,
    {
        self.group.as_str()
    }

    /// Whether the test gets a batch of its own.
    pub fn schedule_individual(&self) -> (r: bool)
        ensures
            r == self.schedule_individual,
    {
        self.schedule_individual
    }
}

/// A copy of the tests from `from` up to, and without, `to`.
pub fn copy_tests(tests: &[TestInstance], from: usize, to: usize) -> (r: Vec<TestInstance>)
    requires
        from <= to <= tests@.len(),
    ensures
        r@ == tests@.subrange(from as int, to as int),
{
    let mut out: Vec<TestInstance> = Vec::new();
    let mut i: usize = from;
    while i < to
        invariant
            from <= i <= to <= tests@.len(),
            out@ == tests@.subrange(from as int, i as int),
        decreases to - i,
    {
        out.push(tests[i].clone());
        i += 1;
        proof {
            assert(tests@.subrange(from as int, i as int) =~= tests@.subrange(
                from as int,
                i - 1,
            ).push(tests@[i - 1]));
        }
    }
    out
}

} // verus!
