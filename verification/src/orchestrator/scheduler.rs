//! Test scheduling and distribution across parallel sandboxes.

use crate::framework;
use crate::framework::TestInstance;
use crate::ranking;
use crate::ranking::Ranked;
use std::collections::VecDeque;
use vstd::hash_map::StringHashMap;
use vstd::hash_set::StringHashSet;
use vstd::prelude::*;
use vstd::string::StrSliceExecFns;

verus! {

/// Maximum total length, in characters, of all test IDs in a single batch.
///
/// Prevents command lines from exceeding OS or shell limits. A single test
/// whose ID already exceeds this is still placed alone in its own batch.
pub const MAX_BATCH_COMMAND_LEN: usize = 30_000;

/// Maximum number of times a single-test batch can be re-queued before the
/// scheduler stops re-queuing it.
pub const MAX_SINGLE_TEST_REQUEUES: usize = 3;

/// Nanoseconds expected of a test of which nothing is known: one second.
pub const DEFAULT_TEST_NANOS: u64 = 1_000_000_000;

/// Expected durations in nanoseconds, by test id or by group name.
pub struct DurationTable {
    entries: StringHashMap<u64>,
}

impl View for DurationTable {
    type V = Map<Seq<char>, u64>;

    closed spec fn view(&self) -> Map<Seq<char>, u64> {
        self.entries@
    }
}

impl DurationTable {
    /// A table without entries.
    pub fn new() -> (r: Self)
        ensures
            r@ == Map::<Seq<char>, u64>::empty(),
    {
        DurationTable { entries: StringHashMap::new() }
    }

    /// Sets the duration for a name; an earlier one is replaced.
    pub fn insert(&mut self, name: &str, nanos: u64)
        ensures
            final(self)@ == old(self)@.insert(name@, nanos),
    {
        self.entries.insert(name.to_owned(), nanos);
    }

    /// The duration for a name, where there is one.
    pub fn get(&self, name: &str) -> (r: Option<u64>)
        ensures
            r == if self@.contains_key(name@) {
                Some(self@[name@])
            } else {
                None
            },
    {
        match self.entries.get(name) {
            Some(d) => Some(*d),
            None => None,
        }
    }
}

/// A test with the duration expected of it.
pub struct TimedTest {
    pub test: TestInstance,
    /// Expected duration in nanoseconds.
    pub nanos: u64,
}

impl Clone for TimedTest {
    fn clone(&self) -> (r: Self)
        ensures
            r == *self,
    {
        TimedTest { test: self.test.clone(), nanos: self.nanos }
    }
}

impl Ranked for TimedTest {
    /// The longer test ranks first.
    open spec fn ranks_before(self, other: Self) -> bool {
        self.nanos > other.nanos
    }

    proof fn ranks_are_ordered() {
    }

    fn before(&self, other: &Self) -> (r: bool) {
        self.nanos > other.nanos
    }
}

/// Duration expected of `test`: its own, else that of its group, else one
/// second.
pub open spec fn expected_nanos(
    test: TestInstance,
    durations: Map<Seq<char>, u64>,
    group_defaults: Map<Seq<char>, u64>,
) -> u64 {
    if durations.contains_key(test.id@) {
        durations[test.id@]
    } else if group_defaults.contains_key(test.group@) {
        group_defaults[test.group@]
    } else {
        DEFAULT_TEST_NANOS
    }
}

/// Each test with the duration expected of it.
pub open spec fn timed(
    durations: Map<Seq<char>, u64>,
    group_defaults: Map<Seq<char>, u64>,
) -> spec_fn(TestInstance) -> TimedTest {
    |t: TestInstance| TimedTest { test: t, nanos: expected_nanos(t, durations, group_defaults) }
}

/// Total expected duration of a batch.
pub open spec fn load(batch: Seq<TimedTest>) -> nat
    decreases batch.len(),
{
    if batch.len() == 0 {
        0
    } else {
        load(batch.drop_last()) + batch.last().nanos as nat
    }
}

/// Total length of the test ids of a batch, in characters.
pub open spec fn command_len(batch: Seq<TimedTest>) -> nat
    decreases batch.len(),
{
    if batch.len() == 0 {
        0
    } else {
        command_len(batch.drop_last()) + batch.last().test.id@.len()
    }
}

/// Whether a batch holds a test with this id.
pub open spec fn holds_id(batch: Seq<TimedTest>, id: Seq<char>) -> bool {
    exists|i: int| 0 <= i < batch.len() && (#[trigger] batch[i]).test.id@ == id
}

/// Whether a test with an id of `len` characters fits into a batch.
pub open spec fn fits(batch: Seq<TimedTest>, len: nat) -> bool {
    batch.len() == 0 || command_len(batch) + len <= MAX_BATCH_COMMAND_LEN
}

/// Whether a batch takes the test: its id is new there and there is room.
pub open spec fn accepts(batch: Seq<TimedTest>, t: TimedTest) -> bool {
    !holds_id(batch, t.test.id@) && fits(batch, t.test.id@.len())
}

/// Whether batch `i` is the one for the test: the first of the lightest
/// among those that take it.
pub open spec fn is_target(batches: Seq<Seq<TimedTest>>, t: TimedTest, i: int) -> bool {
    &&& 0 <= i < batches.len()
    &&& accepts(batches[i], t)
    &&& forall|j: int|
        0 <= j < batches.len() && accepts(#[trigger] batches[j], t) ==> load(batches[i]) <= load(
            batches[j],
        ) && (j < i ==> load(batches[i]) < load(batches[j]))
}

/// The batches after the test went to its batch, or to a new one where none
/// takes it.
pub open spec fn assigned(batches: Seq<Seq<TimedTest>>, t: TimedTest) -> Seq<Seq<TimedTest>> {
    if exists|i: int| is_target(batches, t, i) {
        let i = choose|i: int| is_target(batches, t, i);
        batches.update(i, batches[i].push(t))
    } else {
        batches.push(seq![t])
    }
}

/// The tests in turn, each assigned to the lightest batch that takes it,
/// starting with `width` empty batches.
pub open spec fn packed(width: nat, tests: Seq<TimedTest>) -> Seq<Seq<TimedTest>>
    decreases tests.len(),
{
    if tests.len() == 0 {
        Seq::new(width, |i: int| Seq::<TimedTest>::empty())
    } else {
        assigned(packed(width, tests.drop_last()), tests.last())
    }
}

/// Tests that get a batch of their own.
pub open spec fn alone() -> spec_fn(TestInstance) -> bool {
    |t: TestInstance| t.schedule_individual
}

/// Tests that may share a batch.
pub open spec fn together() -> spec_fn(TestInstance) -> bool {
    |t: TestInstance| !t.schedule_individual
}

/// The heavier batch ranks first.
pub open spec fn heavier() -> spec_fn(Seq<TimedTest>, Seq<TimedTest>) -> bool {
    |a: Seq<TimedTest>, b: Seq<TimedTest>| load(a) > load(b)
}

/// Batches with a test in them.
pub open spec fn nonempty() -> spec_fn(Seq<TimedTest>) -> bool {
    |b: Seq<TimedTest>| b.len() > 0
}

/// A batch of one test.
pub open spec fn single() -> spec_fn(TestInstance) -> Seq<TestInstance> {
    |t: TestInstance| seq![t]
}

/// A batch without the expected durations.
pub open spec fn untimed() -> spec_fn(Seq<TimedTest>) -> Seq<TestInstance> {
    |b: Seq<TimedTest>| b.map_values(|t: TimedTest| t.test)
}

/// The tests that share batches, longest first.
pub open spec fn longest_first(
    tests: Seq<TestInstance>,
    durations: Map<Seq<char>, u64>,
    group_defaults: Map<Seq<char>, u64>,
) -> Seq<TimedTest> {
    ranking::ranked(
        tests.filter(together()).map_values(timed(durations, group_defaults)),
        ranking::rank_order::<TimedTest>(),
    )
}

/// Number of batches to start with.
pub open spec fn start_width(max_parallel: nat, tests: Seq<TestInstance>) -> nat {
    let most = if max_parallel < 1 {
        1
    } else {
        max_parallel
    };
    let n = tests.filter(together()).len();
    if most < n {
        most
    } else {
        n
    }
}

/// The shared batches, heaviest first.
pub open spec fn shared_batches(
    max_parallel: nat,
    tests: Seq<TestInstance>,
    durations: Map<Seq<char>, u64>,
    group_defaults: Map<Seq<char>, u64>,
) -> Seq<Seq<TimedTest>> {
    ranking::ranked(
        packed(
            start_width(max_parallel, tests),
            longest_first(tests, durations, group_defaults),
        ),
        heavier(),
    ).filter(nonempty())
}

/// The batches in the order in which they are handed out: first the tests
/// that run alone, in their order, then the shared batches, heaviest first.
pub open spec fn schedule(
    max_parallel: nat,
    tests: Seq<TestInstance>,
    durations: Map<Seq<char>, u64>,
    group_defaults: Map<Seq<char>, u64>,
) -> Seq<Seq<TestInstance>> {
    tests.filter(alone()).map_values(single()) + shared_batches(
        max_parallel,
        tests,
        durations,
        group_defaults,
    ).map_values(untimed())
}

/// A batch of tests being built by the scheduler.
///
/// Tracks the tests, their cumulative expected duration, total command length,
/// and which test IDs are present (to prevent scheduling the same test twice
/// in one batch).
struct Batch {
    tests: Vec<TimedTest>,
    load: u128,
    command_len: usize,
    test_ids: StringHashSet,
}

impl Ranked for Batch {
    closed spec fn ranks_before(self, other: Self) -> bool {
        self.load > other.load
    }

    proof fn ranks_are_ordered() {
    }

    fn before(&self, other: &Self) -> (r: bool) {
        self.load > other.load
    }
}

impl Batch {
    /// The counters and the id set agree with the tests.
    spec fn wf(self) -> bool {
        &&& self.load == load(self.tests@)
        &&& self.command_len == command_len(self.tests@)
        &&& forall|id: Seq<char>|
            #[trigger] self.test_ids@.contains(id) == holds_id(self.tests@, id)
    }

    fn new() -> (r: Self)
        ensures
            r.wf(),
            r.tests@ == Seq::<TimedTest>::empty(),
    {
        Batch { tests: Vec::new(), load: 0, command_len: 0, test_ids: StringHashSet::new() }
    }

    fn add(&mut self, test: TimedTest)
        requires
            old(self).wf(),
            old(self).command_len + test.test.id@.len() <= usize::MAX,
        ensures
            final(self).wf(),
            final(self).tests@ == old(self).tests@.push(test),
    {
        let ghost before = self.tests@;
        let len: usize = test.test.id.as_str().unicode_len();
        let id = test.test.id.clone();
        let nanos: u64 = test.nanos;
        proof {
            lemma_load_bound(before);
            assert(before.len() == self.tests.len());
            assert(before.len() * u64::MAX <= usize::MAX * u64::MAX) by (nonlinear_arith)
                requires
                    before.len() <= usize::MAX,
            ;
            assert(usize::MAX * u64::MAX + u64::MAX <= u128::MAX);
        }
        self.command_len = self.command_len + len;
        self.test_ids.insert(id);
        self.tests.push(test);
        self.load = self.load + nanos as u128;
        proof {
            let now = self.tests@;
            assert(now.drop_last() =~= before);
            assert forall|id: Seq<char>| #[trigger]
                self.test_ids@.contains(id) == holds_id(now, id) by {
                lemma_holds_id_push(before, test, id);
            }
        }
    }

    fn contains(&self, test_id: &str) -> (r: bool)
        requires
            self.wf(),
        ensures
            r == holds_id(self.tests@, test_id@),
    {
        self.test_ids.contains(test_id)
    }

    fn is_empty(&self) -> (r: bool)
        ensures
            r == (self.tests@.len() == 0),
    {
        self.tests.len() == 0
    }

    fn would_fit(&self, test_id_len: usize) -> (r: bool)
        requires
            self.wf(),
        ensures
            r == fits(self.tests@, test_id_len as nat),
    {
        self.is_empty() || (test_id_len <= MAX_BATCH_COMMAND_LEN && self.command_len
            <= MAX_BATCH_COMMAND_LEN - test_id_len)
    }
}

proof fn lemma_load_bound(batch: Seq<TimedTest>)
    ensures
        load(batch) <= batch.len() * u64::MAX,
    decreases batch.len(),
{
    if batch.len() > 0 {
        lemma_load_bound(batch.drop_last());
        assert((batch.len() - 1) * u64::MAX + u64::MAX == batch.len() * u64::MAX)
            by (nonlinear_arith);
    }
}

proof fn lemma_holds_id_push(batch: Seq<TimedTest>, t: TimedTest, id: Seq<char>)
    ensures
        holds_id(batch.push(t), id) == (holds_id(batch, id) || t.test.id@ == id),
{
    let now = batch.push(t);
    if holds_id(batch, id) {
        let i = choose|i: int| 0 <= i < batch.len() && (#[trigger] batch[i]).test.id@ == id;
        assert(now[i].test.id@ == id);
    }
    if t.test.id@ == id {
        assert(now[batch.len() as int].test.id@ == id);
    }
    if holds_id(now, id) {
        let i = choose|i: int| 0 <= i < now.len() && (#[trigger] now[i]).test.id@ == id;
        if i < batch.len() {
            assert(batch[i].test.id@ == id);
        }
    }
}

/// The tests of each batch.
spec fn parcels(batches: Seq<Batch>) -> Seq<Seq<TimedTest>> {
    batches.map_values(|b: Batch| b.tests@)
}

proof fn lemma_target_is_unique(batches: Seq<Seq<TimedTest>>, t: TimedTest, i: int)
    requires
        is_target(batches, t, i),
    ensures
        assigned(batches, t) == batches.update(i, batches[i].push(t)),
{
    let k = choose|k: int| is_target(batches, t, k);
    assert(accepts(batches[i], t) && accepts(batches[k], t));
    assert(k == i);
}

/// Index of the first of the lightest batches among those that take the test.
fn lightest_batch(batches: &Vec<Batch>, test: &TimedTest) -> (r: Option<usize>)
    requires
        forall|i: int| 0 <= i < batches@.len() ==> (#[trigger] batches@[i]).wf(),
    ensures
        match r {
            Some(i) => is_target(parcels(batches@), *test, i as int),
            None => forall|i: int| !is_target(parcels(batches@), *test, i),
        },
{
    let ghost all = parcels(batches@);
    let len: usize = test.test.id.as_str().unicode_len();
    let mut best: Option<usize> = None;
    let mut i: usize = 0;
    while i < batches.len()
        invariant
            0 <= i <= batches.len(),
            all == parcels(batches@),
            len == test.test.id@.len(),
            forall|j: int| 0 <= j < batches@.len() ==> (#[trigger] batches@[j]).wf(),
            match best {
                Some(b) => is_target(all.take(i as int), *test, b as int),
                None => forall|j: int| 0 <= j < i ==> !accepts(#[trigger] all[j], *test),
            },
        decreases batches.len() - i,
    {
        let batch = &batches[i];
        let open = !batch.contains(test.test.id.as_str()) && batch.would_fit(len);
        let ghost seen = all.take(i as int);
        let ghost now = all.take(i + 1);
        proof {
            assert(all[i as int] == batch.tests@);
            assert(open == accepts(all[i as int], *test));
            assert(forall|j: int| 0 <= j < i ==> now[j] == seen[j]);
            assert(now[i as int] == all[i as int]);
            assert(forall|j: int| 0 <= j < i ==> now[j] == all[j]);
        }
        if open {
            let lighter = match best {
                Some(b) => batch.load < batches[b].load,
                None => true,
            };
            proof {
                if best is Some {
                    assert(all[best->0 as int] == batches@[best->0 as int].tests@);
                    assert(seen[best->0 as int] == all[best->0 as int]);
                }
            }
            if lighter {
                best = Some(i);
            }
        }
        i += 1;
    }
    proof {
        assert(all.take(i as int) =~= all);
    }
    best
}

/// Assigns one test to its batch.
fn assign(batches: &mut Vec<Batch>, test: TimedTest)
    requires
        forall|i: int| 0 <= i < old(batches)@.len() ==> (#[trigger] old(batches)@[i]).wf(),
    ensures
        forall|i: int| 0 <= i < final(batches)@.len() ==> (#[trigger] final(batches)@[i]).wf(),
        parcels(final(batches)@) == assigned(parcels(old(batches)@), test),
{
    let ghost before = batches@;
    let len: usize = test.test.id.as_str().unicode_len();
    match lightest_batch(batches, &test) {
        Some(i) => {
            proof {
                let all = parcels(before);
                assert(all[i as int] == before[i as int].tests@);
                lemma_target_is_unique(all, test, i as int);
            }
            let batch = &mut batches[i];
            batch.add(test);
            proof {
                assert(parcels(batches@) =~= parcels(before).update(
                    i as int,
                    parcels(before)[i as int].push(test),
                ));
            }
        },
        None => {
            let mut batch = Batch::new();
            batch.add(test);
            batches.push(batch);
            proof {
                assert(batch.tests@ =~= seq![test]);
                assert(parcels(batches@) =~= parcels(before).push(seq![test]));
            }
        },
    }
}

/// Starts with `width` empty batches and assigns the tests in turn.
fn pack(width: usize, tests: &Vec<TimedTest>) -> (r: Vec<Batch>)
    ensures
        forall|i: int| 0 <= i < r@.len() ==> (#[trigger] r@[i]).wf(),
        parcels(r@) == packed(width as nat, tests@),
{
    let mut batches: Vec<Batch> = Vec::new();
    let mut i: usize = 0;
    while i < width
        invariant
            0 <= i <= width,
            batches@.len() == i,
            forall|j: int| 0 <= j < i ==> (#[trigger] batches@[j]).wf(),
            forall|j: int|
                0 <= j < i ==> (#[trigger] batches@[j]).tests@ == Seq::<TimedTest>::empty(),
        decreases width - i,
    {
        batches.push(Batch::new());
        i += 1;
    }
    proof {
        assert(parcels(batches@) =~= packed(width as nat, tests@.take(0)));
    }
    let mut k: usize = 0;
    while k < tests.len()
        invariant
            0 <= k <= tests.len(),
            forall|j: int| 0 <= j < batches@.len() ==> (#[trigger] batches@[j]).wf(),
            parcels(batches@) == packed(width as nat, tests@.take(k as int)),
        decreases tests.len() - k,
    {
        assign(&mut batches, tests[k].clone());
        k += 1;
        proof {
            assert(tests@.take(k as int).drop_last() =~= tests@.take(k - 1));
        }
    }
    proof {
        assert(tests@.take(k as int) =~= tests@);
    }
    batches
}

/// A scheduled batch of tests ready for execution.
///
/// Wraps a list of test instances. Workers pop these from the scheduler queue;
/// each pop re-queues the batch (split into halves for multi-test batches,
/// or cloned with an incremented retry counter for single-test batches) so
/// the batch can be retried.
pub struct ScheduledBatch {
    pub tests: Vec<TestInstance>,
    /// Re-queue count for single-test batches, checked against
    /// [`MAX_SINGLE_TEST_REQUEUES`].
    pub single_test_retry_counter: usize,
}

/// What a scheduled batch holds.
#[verifier::ext_equal]
pub struct BatchView {
    pub tests: Seq<TestInstance>,
    pub retries: nat,
}

impl View for ScheduledBatch {
    type V = BatchView;

    open spec fn view(&self) -> BatchView {
        BatchView { tests: self.tests@, retries: self.single_test_retry_counter as nat }
    }
}

impl Clone for ScheduledBatch {
    fn clone(&self) -> (r: Self)
        ensures
            r@ == self@,
    {
        let n: usize = self.tests.len();
        proof {
            assert(self.tests@.subrange(0, n as int) =~= self.tests@);
        }
        ScheduledBatch {
            tests: framework::copy_tests(self.tests.as_slice(), 0, n),
            single_test_retry_counter: self.single_test_retry_counter,
        }
    }
}

/// What is queued again behind the others when a batch is handed out: the
/// halves of a batch of several tests, or the same single test with one more
/// retry, as long as it has retries left.
pub open spec fn followups(b: BatchView) -> Seq<BatchView> {
    let mid = b.tests.len() as int / 2;
    if b.tests.len() > 1 {
        seq![
            BatchView { tests: b.tests.take(mid), retries: 0 },
            BatchView { tests: b.tests.skip(mid), retries: 0 },
        ]
    } else if b.retries < MAX_SINGLE_TEST_REQUEUES {
        seq![BatchView { tests: b.tests, retries: b.retries + 1 }]
    } else {
        seq![]
    }
}

/// The queue after its first batch was handed out.
pub open spec fn after_pop(queue: Seq<BatchView>, impatient: bool) -> Seq<BatchView> {
    if queue.len() == 0 {
        queue
    } else if impatient {
        queue.skip(1) + followups(queue[0])
    } else {
        queue.skip(1)
    }
}

/// Batches as they are first queued, without retries.
pub open spec fn fresh() -> spec_fn(Seq<TestInstance>) -> BatchView {
    |tests: Seq<TestInstance>| BatchView { tests, retries: 0 }
}

/// Distributes tests across parallel sandboxes.
///
/// Performs LPT scheduling at construction time and exposes the resulting
/// batches through a queue. Workers call [`pop`](Self::pop) to pull batches.
/// When `impatiently_requeue_batches` is `true`, each pop re-queues the batch
/// (split into halves for multi-test batches, or cloned with an incremented
/// retry counter for single-test batches) so the batch can be retried if
/// needed. When `false`, batches run exactly once.
pub struct Scheduler {
    queue: VecDeque<ScheduledBatch>,
    batch_count: usize,
    batch_sizes: Vec<usize>,
    impatiently_requeue_batches: bool,
}

impl Scheduler {
    /// The batches waiting to be handed out.
    pub closed spec fn queued(&self) -> Seq<BatchView> {
        self.queue@.map_values(|b: ScheduledBatch| b@)
    }

    /// Number of batches created during scheduling.
    pub closed spec fn scheduled_count(&self) -> nat {
        self.batch_count as nat
    }

    /// Number of tests in each batch created during scheduling.
    pub closed spec fn scheduled_sizes(&self) -> Seq<usize> {
        self.batch_sizes@
    }

    /// Whether a batch that is handed out is queued again.
    pub closed spec fn impatient(&self) -> bool {
        self.impatiently_requeue_batches
    }

    /// Creates a new scheduler and schedules the given tests.
    ///
    /// Uses the Longest Processing Time First (LPT) algorithm with historical
    /// test durations: tests are sorted by duration descending and assigned
    /// to the batch with the smallest current total. Batches are sorted by
    /// total duration descending, so the heaviest shared batch comes first.
    ///
    /// `max_parallel` is the number of batches to fill (values below 1 are
    /// clamped), `durations` holds nanoseconds by test id, and
    /// `group_to_default_duration` nanoseconds by group for tests that are
    /// not in it, with one second for a group without an entry.
    pub fn new(
        max_parallel: usize,
        tests: &[TestInstance],
        durations: &DurationTable,
        group_to_default_duration: &DurationTable,
        impatiently_requeue_batches: bool,
    ) -> (r: Self)
        ensures
            ({
                let planned = schedule(
                    max_parallel as nat,
                    tests@,
                    durations@,
                    group_to_default_duration@,
                );
                &&& r.queued() == planned.map_values(fresh())
                &&& r.scheduled_count() == planned.len()
                &&& r.scheduled_sizes().len() == planned.len()
                &&& forall|i: int|
                    0 <= i < planned.len() ==> #[trigger] r.scheduled_sizes()[i]
                        == planned[i].len()
            }),
            r.impatient() == impatiently_requeue_batches,
    {
        let most: usize = if max_parallel < 1 {
            1
        } else {
            max_parallel
        };
        let mut queue: VecDeque<ScheduledBatch> = VecDeque::new();
        let mut batch_sizes: Vec<usize> = Vec::new();
        let mut normal: Vec<TimedTest> = Vec::new();
        let ghost time = timed(durations@, group_to_default_duration@);
        let ghost views = |b: ScheduledBatch| b@;
        let mut i: usize = 0;
        while i < tests.len()
            invariant
                0 <= i <= tests@.len(),
                time == timed(durations@, group_to_default_duration@),
                normal@ == tests@.take(i as int).filter(together()).map_values(time),
                ({
                    let lone = tests@.take(i as int).filter(alone()).map_values(single());
                    &&& queue@.map_values(views) == lone.map_values(fresh())
                    &&& batch_sizes@.len() == lone.len()
                    &&& forall|j: int|
                        0 <= j < lone.len() ==> #[trigger] batch_sizes@[j] == lone[j].len()
                }),
                views == (|b: ScheduledBatch| b@),
            decreases tests@.len() - i,
        {
            let ghost seen = tests@.take(i as int);
            let ghost t = tests@[i as int];
            proof {
                assert(tests@.take(i + 1) =~= seen.push(t));
                ranking::lemma_filter_push(seen, t, alone());
                ranking::lemma_filter_push(seen, t, together());
            }
            let test = tests[i].clone();
            if test.schedule_individual() {
                let mut one: Vec<TestInstance> = Vec::new();
                one.push(test);
                let batch = ScheduledBatch { tests: one, single_test_retry_counter: 0 };
                let ghost queue0 = queue@;
                queue.push_back(batch);
                batch_sizes.push(1);
                proof {
                    let lone0 = seen.filter(alone()).map_values(single());
                    let lone1 = seen.push(t).filter(alone()).map_values(single());
                    assert(lone1 =~= lone0.push(seq![t]));
                    assert(one@ =~= seq![t]);
                    assert(queue@.map_values(views) =~= queue0.map_values(views).push(batch@));
                    assert(lone1.map_values(fresh()) =~= lone0.map_values(fresh()).push(
                        BatchView { tests: seq![t], retries: 0 },
                    ));
                }
            } else {
                let nanos: u64 = match durations.get(test.id()) {
                    Some(d) => d,
                    None => match group_to_default_duration.get(test.group()) {
                        Some(d) => d,
                        None => DEFAULT_TEST_NANOS,
                    },
                };
                let ghost normal0 = normal@;
                normal.push(TimedTest { test, nanos });
                proof {
                    assert(seen.push(t).filter(together()).map_values(time) =~= normal0.push(
                        time(t),
                    ));
                }
            }
            i += 1;
        }
        proof {
            assert(tests@.take(i as int) =~= tests@);
        }
        let width: usize = if most < normal.len() {
            most
        } else {
            normal.len()
        };
        let sorted = ranking::sort_by_rank(normal);
        let batches = pack(width, &sorted);
        let ghost all = parcels(batches@);
        proof {
            assert(all == packed(width as nat, sorted@));
            lemma_heaviest_first(batches@);
        }
        let ordered = ranking::sort_by_rank(batches);
        let ghost row = parcels(ordered@);
        let ghost lone = tests@.filter(alone()).map_values(single());
        let mut k: usize = 0;
        proof {
            let none = row.take(0).filter(nonempty());
            reveal(Seq::filter);
            assert(none =~= Seq::<Seq<TimedTest>>::empty());
            assert(lone + none.map_values(untimed()) =~= lone);
        }
        while k < ordered.len()
            invariant
                0 <= k <= ordered@.len(),
                row == parcels(ordered@),
                views == (|b: ScheduledBatch| b@),
                ({
                    let planned = lone + row.take(k as int).filter(nonempty()).map_values(
                        untimed(),
                    );
                    &&& queue@.map_values(views) == planned.map_values(fresh())
                    &&& batch_sizes@.len() == planned.len()
                    &&& forall|j: int|
                        0 <= j < planned.len() ==> #[trigger] batch_sizes@[j] == planned[j].len()
                }),
            decreases ordered@.len() - k,
        {
            let batch = &ordered[k];
            let ghost seen = row.take(k as int);
            let ghost parcel = row[k as int];
            proof {
                assert(parcel == batch.tests@);
                assert(row.take(k + 1) =~= seen.push(parcel));
                ranking::lemma_filter_push(seen, parcel, nonempty());
            }
            if !batch.is_empty() {
                let tests = strip(&batch.tests);
                batch_sizes.push(tests.len());
                let next = ScheduledBatch { tests, single_test_retry_counter: 0 };
                let ghost queue0 = queue@;
                queue.push_back(next);
                proof {
                    let planned0 = lone + seen.filter(nonempty()).map_values(untimed());
                    let planned1 = lone + seen.push(parcel).filter(nonempty()).map_values(
                        untimed(),
                    );
                    assert(planned1 =~= planned0.push(untimed()(parcel)));
                    assert(queue@.map_values(views) =~= queue0.map_values(views).push(next@));
                    assert(planned1.map_values(fresh()) =~= planned0.map_values(fresh()).push(
                        next@,
                    ));
                }
            }
            k += 1;
        }
        proof {
            assert(row.take(k as int) =~= row);
        }
        let batch_count: usize = batch_sizes.len();
        Scheduler { queue, batch_count, batch_sizes, impatiently_requeue_batches }
    }

    /// Removes and returns the next batch from the queue; `None` if the queue
    /// is empty.
    ///
    /// When `impatiently_requeue_batches` is `true`, multi-test batches are
    /// split into two halves when re-queued; single-test batches are re-queued
    /// with an incremented retry counter up to [`MAX_SINGLE_TEST_REQUEUES`]
    /// times. When `false`, no follow-up batches are enqueued.
    pub fn pop(&mut self) -> (r: Option<ScheduledBatch>)
        ensures
            match r {
                Some(batch) => old(self).queued().len() > 0 && batch@ == old(self).queued()[0],
                None => old(self).queued().len() == 0,
            },
            final(self).queued() == after_pop(old(self).queued(), old(self).impatient()),
            final(self).impatient() == old(self).impatient(),
            final(self).scheduled_count() == old(self).scheduled_count(),
            final(self).scheduled_sizes() == old(self).scheduled_sizes(),
    {
        let ghost queue0 = self.queued();
        match self.queue.pop_front() {
            Some(batch) => {
                proof {
                    assert(self.queued() =~= queue0.skip(1));
                    assert(batch@ == queue0[0]);
                }
                self.enqueue_followups(&batch);
                proof {
                    assert(queue0.skip(1) + Seq::<BatchView>::empty() =~= queue0.skip(1));
                }
                Some(batch)
            },
            None => {
                proof {
                    assert(self.queued() =~= queue0);
                }
                None
            },
        }
    }

    /// Re-queues follow-up batches for a just-popped batch, per the impatient
    /// re-queue policy.
    ///
    /// Multi-test batches are split into two halves (counter reset to 0).
    /// Single-test batches are cloned with an incremented retry counter, up
    /// to [`MAX_SINGLE_TEST_REQUEUES`] times.
    ///
    /// No-op when `impatiently_requeue_batches` is `false`.
    fn enqueue_followups(&mut self, batch: &ScheduledBatch)
        ensures
            final(self).queued() == old(self).queued() + if old(self).impatient() {
                followups(batch@)
            } else {
                Seq::<BatchView>::empty()
            },
            final(self).impatient() == old(self).impatient(),
            final(self).scheduled_count() == old(self).scheduled_count(),
            final(self).scheduled_sizes() == old(self).scheduled_sizes(),
    {
        let ghost queue0 = self.queued();
        let n: usize = batch.tests.len();
        if !self.impatiently_requeue_batches {
            return;
        }
        if n > 1 {
            let mid: usize = n / 2;
            self.push(
                ScheduledBatch {
                    tests: framework::copy_tests(batch.tests.as_slice(), 0, mid),
                    single_test_retry_counter: 0,
                },
            );
            self.push(
                ScheduledBatch {
                    tests: framework::copy_tests(batch.tests.as_slice(), mid, n),
                    single_test_retry_counter: 0,
                },
            );
        } else if batch.single_test_retry_counter < MAX_SINGLE_TEST_REQUEUES {
            proof {
                assert(batch.tests@.subrange(0, n as int) =~= batch.tests@);
            }
            self.push(
                ScheduledBatch {
                    tests: framework::copy_tests(batch.tests.as_slice(), 0, n),
                    single_test_retry_counter: batch.single_test_retry_counter + 1,
                },
            );
        }
        proof {
            assert(self.queued() =~= queue0 + followups(batch@));
        }
    }

    /// Pushes a batch to the back of the queue.
    fn push(&mut self, batch: ScheduledBatch)
        ensures
            final(self).queued() == old(self).queued().push(batch@),
            final(self).impatient() == old(self).impatient(),
            final(self).scheduled_count() == old(self).scheduled_count(),
            final(self).scheduled_sizes() == old(self).scheduled_sizes(),
    {
        let ghost queue0 = self.queued();
        self.queue.push_back(batch);
        proof {
            assert(self.queued() =~= queue0.push(batch@));
        }
    }

    /// Number of batches created during scheduling.
    pub fn batch_count(&self) -> (r: usize)
        ensures
            r == self.scheduled_count(),
    {
        self.batch_count
    }

    /// Number of tests in each batch, in schedule order.
    pub fn batch_sizes(&self) -> (r: &[usize])
        ensures
            r@ == self.scheduled_sizes(),
    {
        self.batch_sizes.as_slice()
    }
}

/// The tests of a batch without the expected durations.
fn strip(batch: &Vec<TimedTest>) -> (r: Vec<TestInstance>)
    ensures
        r@ == untimed()(batch@),
{
    let mut out: Vec<TestInstance> = Vec::new();
    let mut i: usize = 0;
    while i < batch.len()
        invariant
            0 <= i <= batch@.len(),
            out@ == untimed()(batch@).take(i as int),
        decreases batch@.len() - i,
    {
        out.push(batch[i].test.clone());
        i += 1;
        proof {
            assert(untimed()(batch@).take(i as int) =~= untimed()(batch@).take(i - 1).push(
                batch@[i - 1].test,
            ));
        }
    }
    proof {
        assert(untimed()(batch@).take(i as int) =~= untimed()(batch@));
    }
    out
}

proof fn lemma_heaviest_first(batches: Seq<Batch>)
    requires
        forall|i: int| 0 <= i < batches.len() ==> (#[trigger] batches[i]).wf(),
    ensures
        parcels(ranking::ranked(batches, ranking::rank_order::<Batch>())) == ranking::ranked(
            parcels(batches),
            heavier(),
        ),
{
    let f = |b: Batch| b.tests@;
    let lt = ranking::rank_order::<Batch>();
    assert forall|a: Batch, b: Batch| batches.contains(a) && batches.contains(b) implies #[trigger] lt(
        a,
        b,
    ) == heavier()(f(a), f(b)) by {
        let i = choose|i: int| 0 <= i < batches.len() && batches[i] == a;
        let j = choose|j: int| 0 <= j < batches.len() && batches[j] == b;
        assert(batches[i].wf() && batches[j].wf());
    }
    ranking::ranked_of_images(batches, lt, f, heavier());
}

} // verus!
