//! What holds of every schedule and of every queue of batches.

use crate::framework::TestInstance;
use crate::orchestrator::scheduler;
use crate::orchestrator::scheduler::{BatchView, TimedTest};
use crate::ranking;
use vstd::arithmetic::div_mod::{lemma_fundamental_div_mod, lemma_fundamental_div_mod_converse};
use vstd::multiset::Multiset;
use vstd::prelude::*;
use vstd::seq_lib::*;

verus! {

/// The images of all elements of all rows, as often as they occur.
pub open spec fn spread<A, B>(rows: Seq<Seq<A>>, f: spec_fn(A) -> B) -> Multiset<B>
    decreases rows.len(),
{
    if rows.len() == 0 {
        Multiset::empty()
    } else {
        spread(rows.drop_last(), f).add(rows.last().map_values(f).to_multiset())
    }
}

/// The test of a timed test.
pub open spec fn the_test() -> spec_fn(TimedTest) -> TestInstance {
    |t: TimedTest| t.test
}

/// The test itself.
pub open spec fn itself() -> spec_fn(TestInstance) -> TestInstance {
    |t: TestInstance| t
}

proof fn lemma_spread_push<A, B>(rows: Seq<Seq<A>>, row: Seq<A>, f: spec_fn(A) -> B)
    ensures
        spread(rows.push(row), f) == spread(rows, f).add(row.map_values(f).to_multiset()),
{
    assert(rows.push(row).drop_last() =~= rows);
}

proof fn lemma_spread_add<A, B>(rows: Seq<Seq<A>>, more: Seq<Seq<A>>, f: spec_fn(A) -> B)
    ensures
        spread(rows + more, f) == spread(rows, f).add(spread(more, f)),
    decreases more.len(),
{
    if more.len() == 0 {
        assert(rows + more =~= rows);
        assert(spread(rows, f).add(Multiset::empty()) =~= spread(rows, f));
    } else {
        lemma_spread_add(rows, more.drop_last(), f);
        assert((rows + more).drop_last() =~= rows + more.drop_last());
        assert(spread(rows + more, f) =~= spread(rows, f).add(spread(more, f)));
    }
}

proof fn lemma_spread_update<A, B>(rows: Seq<Seq<A>>, i: int, x: A, f: spec_fn(A) -> B)
    requires
        0 <= i < rows.len(),
    ensures
        spread(rows.update(i, rows[i].push(x)), f) == spread(rows, f).insert(f(x)),
    decreases rows.len(),
{
    broadcast use group_to_multiset_ensures;

    let now = rows.update(i, rows[i].push(x));
    if i == rows.len() - 1 {
        assert(now.drop_last() =~= rows.drop_last());
        assert(rows[i].push(x).map_values(f) =~= rows[i].map_values(f).push(f(x)));
        assert(spread(now, f) =~= spread(rows, f).insert(f(x)));
    } else {
        let front = rows.drop_last();
        lemma_spread_update(front, i, x, f);
        assert(now.drop_last() =~= front.update(i, front[i].push(x)));
        assert(spread(now, f) =~= spread(rows, f).insert(f(x)));
    }
}

proof fn lemma_spread_inserted<A, B>(
    rows: Seq<Seq<A>>,
    row: Seq<A>,
    lt: spec_fn(Seq<A>, Seq<A>) -> bool,
    f: spec_fn(A) -> B,
)
    ensures
        spread(ranking::inserted(rows, row, lt), f) == spread(rows, f).add(
            row.map_values(f).to_multiset(),
        ),
    decreases rows.len(),
{
    if rows.len() > 0 && lt(row, rows.last()) {
        lemma_spread_inserted(rows.drop_last(), row, lt, f);
        lemma_spread_push(ranking::inserted(rows.drop_last(), row, lt), rows.last(), f);
        assert(spread(ranking::inserted(rows, row, lt), f) =~= spread(rows, f).add(
            row.map_values(f).to_multiset(),
        ));
    } else {
        lemma_spread_push(rows, row, f);
    }
}

proof fn lemma_spread_ranked<A, B>(
    rows: Seq<Seq<A>>,
    lt: spec_fn(Seq<A>, Seq<A>) -> bool,
    f: spec_fn(A) -> B,
)
    ensures
        spread(ranking::ranked(rows, lt), f) == spread(rows, f),
    decreases rows.len(),
{
    if rows.len() > 0 {
        lemma_spread_ranked(rows.drop_last(), lt, f);
        lemma_spread_inserted(ranking::ranked(rows.drop_last(), lt), rows.last(), lt, f);
    }
}

proof fn lemma_spread_nonempty<B>(rows: Seq<Seq<TimedTest>>, f: spec_fn(TimedTest) -> B)
    ensures
        spread(rows.filter(scheduler::nonempty()), f) == spread(rows, f),
    decreases rows.len(),
{
    broadcast use group_to_multiset_ensures;

    if rows.len() == 0 {
        reveal(Seq::filter);
    } else {
        let front = rows.drop_last();
        let row = rows.last();
        lemma_spread_nonempty(front, f);
        assert(front.push(row) =~= rows);
        ranking::lemma_filter_push(front, row, scheduler::nonempty());
        if row.len() == 0 {
            assert(row.map_values(f) =~= Seq::<B>::empty());
            assert(row.map_values(f).to_multiset() =~= Multiset::empty());
            assert(spread(front, f).add(Multiset::empty()) =~= spread(front, f));
        } else {
            lemma_spread_push(front.filter(scheduler::nonempty()), row, f);
        }
    }
}

proof fn lemma_spread_packed(width: nat, tests: Seq<TimedTest>)
    ensures
        spread(scheduler::packed(width, tests), the_test()) == tests.map_values(
            the_test(),
        ).to_multiset(),
    decreases tests.len(),
{
    broadcast use group_to_multiset_ensures;

    let f = the_test();
    if tests.len() == 0 {
        lemma_spread_of_empties(width, f);
        assert(tests.map_values(f) =~= Seq::<TestInstance>::empty());
    } else {
        let front = tests.drop_last();
        let t = tests.last();
        lemma_spread_packed(width, front);
        let before = scheduler::packed(width, front);
        assert(tests.map_values(f) =~= front.map_values(f).push(f(t)));
        if exists|i: int| scheduler::is_target(before, t, i) {
            let i = choose|i: int| scheduler::is_target(before, t, i);
            lemma_spread_update(before, i, t, f);
        } else {
            lemma_spread_push(before, seq![t], f);
            assert(seq![t].map_values(f) =~= Seq::<TestInstance>::empty().push(f(t)));
            assert(seq![t].map_values(f).to_multiset() =~= Multiset::empty().insert(f(t)));
            assert(spread(before, f).add(Multiset::empty().insert(f(t))) =~= spread(
                before,
                f,
            ).insert(f(t)));
        }
    }
}

proof fn lemma_spread_of_empties<B>(width: nat, f: spec_fn(TimedTest) -> B)
    ensures
        spread(Seq::new(width, |i: int| Seq::<TimedTest>::empty()), f) == Multiset::<B>::empty(),
    decreases width,
{
    broadcast use group_to_multiset_ensures;

    let rows = Seq::new(width, |i: int| Seq::<TimedTest>::empty());
    if width > 0 {
        let fewer = Seq::new((width - 1) as nat, |i: int| Seq::<TimedTest>::empty());
        lemma_spread_of_empties((width - 1) as nat, f);
        assert(rows.drop_last() =~= fewer);
        assert(rows.last().map_values(f) =~= Seq::<B>::empty());
        assert(spread(rows, f) =~= Multiset::empty());
    }
}

proof fn lemma_spread_untimed(rows: Seq<Seq<TimedTest>>)
    ensures
        spread(rows.map_values(scheduler::untimed()), itself()) == spread(rows, the_test()),
    decreases rows.len(),
{
    if rows.len() > 0 {
        lemma_spread_untimed(rows.drop_last());
        let now = rows.map_values(scheduler::untimed());
        assert(now.drop_last() =~= rows.drop_last().map_values(scheduler::untimed()));
        assert(now.last().map_values(itself()) =~= rows.last().map_values(the_test()));
    }
}

proof fn lemma_spread_singles(tests: Seq<TestInstance>)
    ensures
        spread(tests.map_values(scheduler::single()), itself()) == tests.to_multiset(),
    decreases tests.len(),
{
    broadcast use group_to_multiset_ensures;

    let rows = tests.map_values(scheduler::single());
    if tests.len() == 0 {
        assert(tests.to_multiset() =~= Multiset::empty());
    } else {
        let front = tests.drop_last();
        let t = tests.last();
        lemma_spread_singles(front);
        assert(rows.drop_last() =~= front.map_values(scheduler::single()));
        assert(rows.last().map_values(itself()) =~= Seq::<TestInstance>::empty().push(t));
        assert(front.push(t) =~= tests);
        assert(spread(rows, itself()) =~= tests.to_multiset());
    }
}

proof fn lemma_partition(tests: Seq<TestInstance>)
    ensures
        tests.filter(scheduler::alone()).to_multiset().add(
            tests.filter(scheduler::together()).to_multiset(),
        ) == tests.to_multiset(),
    decreases tests.len(),
{
    broadcast use group_to_multiset_ensures;

    let a = scheduler::alone();
    let b = scheduler::together();
    if tests.len() == 0 {
        reveal(Seq::filter);
        assert(tests.filter(a).to_multiset().add(tests.filter(b).to_multiset())
            =~= tests.to_multiset());
    } else {
        let front = tests.drop_last();
        let t = tests.last();
        lemma_partition(front);
        assert(front.push(t) =~= tests);
        ranking::lemma_filter_push(front, t, a);
        ranking::lemma_filter_push(front, t, b);
        assert(tests.filter(a).to_multiset().add(tests.filter(b).to_multiset())
            =~= tests.to_multiset());
    }
}

/// A schedule holds every test given to it, as often as it was given, and
/// nothing else.
pub proof fn schedule_keeps_every_test(
    max_parallel: nat,
    tests: Seq<TestInstance>,
    durations: Map<Seq<char>, u64>,
    group_defaults: Map<Seq<char>, u64>,
)
    ensures
        spread(
            scheduler::schedule(max_parallel, tests, durations, group_defaults),
            itself(),
        ) == tests.to_multiset(),
{
    let normal = tests.filter(scheduler::together());
    let timed = normal.map_values(scheduler::timed(durations, group_defaults));
    let sorted = scheduler::longest_first(tests, durations, group_defaults);
    let width = scheduler::start_width(max_parallel, tests);
    let packed = scheduler::packed(width, sorted);
    let ordered = ranking::ranked(packed, scheduler::heavier());
    let shared = scheduler::shared_batches(max_parallel, tests, durations, group_defaults);
    lemma_spread_add(
        tests.filter(scheduler::alone()).map_values(scheduler::single()),
        shared.map_values(scheduler::untimed()),
        itself(),
    );
    lemma_spread_singles(tests.filter(scheduler::alone()));
    lemma_spread_untimed(shared);
    lemma_spread_nonempty(ordered, the_test());
    lemma_spread_ranked(packed, scheduler::heavier(), the_test());
    lemma_spread_packed(width, sorted);
    ranking::ranked_keeps_images(timed, ranking::rank_order::<TimedTest>(), the_test());
    assert(timed.map_values(the_test()) =~= normal);
    lemma_partition(tests);
}

/// What every batch keeps while tests are assigned holds of every packed
/// batch.
proof fn lemma_packed_keeps(
    width: nat,
    tests: Seq<TimedTest>,
    p: spec_fn(Seq<TimedTest>) -> bool,
)
    requires
        p(Seq::<TimedTest>::empty()),
        forall|b: Seq<TimedTest>, t: TimedTest|
            p(b) && tests.contains(t) && scheduler::accepts(b, t) ==> p(#[trigger] b.push(t)),
    ensures
        forall|i: int|
            0 <= i < scheduler::packed(width, tests).len() ==> p(
                #[trigger] scheduler::packed(width, tests)[i],
            ),
    decreases tests.len(),
{
    let now = scheduler::packed(width, tests);
    if tests.len() > 0 {
        let front = tests.drop_last();
        let t = tests.last();
        assert(tests[tests.len() - 1] == t);
        assert forall|x: TimedTest| front.contains(x) implies tests.contains(x) by {
            let k = choose|k: int| 0 <= k < front.len() && front[k] == x;
            assert(tests[k] == x);
        }
        lemma_packed_keeps(width, front, p);
        let before = scheduler::packed(width, front);
        if exists|i: int| scheduler::is_target(before, t, i) {
            let k = choose|i: int| scheduler::is_target(before, t, i);
            assert(p(before[k].push(t)));
            assert forall|i: int| 0 <= i < now.len() implies p(#[trigger] now[i]) by {
                if i != k {
                    assert(now[i] == before[i]);
                }
            }
        } else {
            let none = Seq::<TimedTest>::empty();
            assert(scheduler::accepts(none, t));
            assert(none.push(t) =~= seq![t]);
            assert forall|i: int| 0 <= i < now.len() implies p(#[trigger] now[i]) by {
                if i < before.len() {
                    assert(now[i] == before[i]);
                }
            }
        }
    }
}

/// Every shared batch is a packed batch with a test in it.
proof fn lemma_shared_is_packed(
    max_parallel: nat,
    tests: Seq<TestInstance>,
    durations: Map<Seq<char>, u64>,
    group_defaults: Map<Seq<char>, u64>,
    i: int,
)
    requires
        0 <= i < scheduler::shared_batches(max_parallel, tests, durations, group_defaults).len(),
    ensures
        ({
            let b = scheduler::shared_batches(max_parallel, tests, durations, group_defaults)[i];
            let sorted = scheduler::longest_first(tests, durations, group_defaults);
            let width = scheduler::start_width(max_parallel, tests);
            b.len() > 0 && scheduler::packed(width, sorted).contains(b)
        }),
{
    let sorted = scheduler::longest_first(tests, durations, group_defaults);
    let width = scheduler::start_width(max_parallel, tests);
    let packed = scheduler::packed(width, sorted);
    let ordered = ranking::ranked(packed, scheduler::heavier());
    let shared = ordered.filter(scheduler::nonempty());
    ranking::lemma_filter_elements(ordered, scheduler::nonempty(), i);
    ranking::ranked_elements(packed, scheduler::heavier(), shared[i]);
}

/// Every batch holds a test.
pub proof fn no_batch_is_empty(
    max_parallel: nat,
    tests: Seq<TestInstance>,
    durations: Map<Seq<char>, u64>,
    group_defaults: Map<Seq<char>, u64>,
    i: int,
)
    requires
        0 <= i < scheduler::schedule(max_parallel, tests, durations, group_defaults).len(),
    ensures
        scheduler::schedule(max_parallel, tests, durations, group_defaults)[i].len() > 0,
{
    let first = tests.filter(scheduler::alone());
    if i >= first.len() {
        lemma_shared_is_packed(
            max_parallel,
            tests,
            durations,
            group_defaults,
            i - first.len(),
        );
    }
}

/// Whether no two tests of a batch have one id.
pub open spec fn distinct_ids(batch: Seq<TestInstance>) -> bool {
    forall|i: int, j: int|
        0 <= i < j < batch.len() ==> (#[trigger] batch[i]).id@ != (#[trigger] batch[j]).id@
}

/// Total length of the ids of a batch, in characters.
pub open spec fn id_chars(batch: Seq<TestInstance>) -> nat
    decreases batch.len(),
{
    if batch.len() == 0 {
        0
    } else {
        id_chars(batch.drop_last()) + batch.last().id@.len()
    }
}

/// What is kept of a shared batch while tests are assigned.
spec fn sound(b: Seq<TimedTest>) -> bool {
    &&& distinct_ids(scheduler::untimed()(b))
    &&& b.len() <= 1 || scheduler::command_len(b) <= scheduler::MAX_BATCH_COMMAND_LEN
    &&& forall|i: int| 0 <= i < b.len() ==> !(#[trigger] b[i]).test.schedule_individual
}

proof fn lemma_sound_push(b: Seq<TimedTest>, t: TimedTest)
    requires
        sound(b),
        scheduler::accepts(b, t),
        !t.test.schedule_individual,
    ensures
        sound(b.push(t)),
{
    let now = b.push(t);
    let before = scheduler::untimed()(b);
    let after = scheduler::untimed()(now);
    assert(now.drop_last() =~= b);
    assert forall|i: int, j: int| 0 <= i < j < after.len() implies (#[trigger] after[i]).id@ != (
    #[trigger] after[j]).id@ by {
        assert(after[i] == now[i].test && after[j] == now[j].test);
        if j < b.len() {
            assert(before[i].id@ != before[j].id@);
        } else {
            assert(now[i] == b[i]);
        }
    }
}

proof fn lemma_longest_first_elements(
    tests: Seq<TestInstance>,
    durations: Map<Seq<char>, u64>,
    group_defaults: Map<Seq<char>, u64>,
    t: TimedTest,
)
    requires
        scheduler::longest_first(tests, durations, group_defaults).contains(t),
    ensures
        !t.test.schedule_individual,
        tests.contains(t.test),
{
    let normal = tests.filter(scheduler::together());
    let timed = normal.map_values(scheduler::timed(durations, group_defaults));
    ranking::ranked_elements(timed, ranking::rank_order::<TimedTest>(), t);
    let k = choose|k: int| 0 <= k < timed.len() && timed[k] == t;
    ranking::lemma_filter_elements(tests, scheduler::together(), k);
}

proof fn lemma_shared_is_sound(
    max_parallel: nat,
    tests: Seq<TestInstance>,
    durations: Map<Seq<char>, u64>,
    group_defaults: Map<Seq<char>, u64>,
    i: int,
)
    requires
        0 <= i < scheduler::shared_batches(max_parallel, tests, durations, group_defaults).len(),
    ensures
        sound(scheduler::shared_batches(max_parallel, tests, durations, group_defaults)[i]),
{
    let b = scheduler::shared_batches(max_parallel, tests, durations, group_defaults)[i];
    let sorted = scheduler::longest_first(tests, durations, group_defaults);
    let width = scheduler::start_width(max_parallel, tests);
    let packed = scheduler::packed(width, sorted);
    let p = |b: Seq<TimedTest>| sound(b);
    lemma_shared_is_packed(max_parallel, tests, durations, group_defaults, i);
    assert forall|b: Seq<TimedTest>, t: TimedTest|
        p(b) && sorted.contains(t) && scheduler::accepts(b, t) implies p(#[trigger] b.push(t)) by {
        lemma_longest_first_elements(tests, durations, group_defaults, t);
        lemma_sound_push(b, t);
    }
    lemma_packed_keeps(width, sorted, p);
    let k = choose|k: int| 0 <= k < packed.len() && packed[k] == b;
    assert(p(packed[k]));
}

/// No batch holds the same test id twice.
pub proof fn no_batch_repeats_a_test(
    max_parallel: nat,
    tests: Seq<TestInstance>,
    durations: Map<Seq<char>, u64>,
    group_defaults: Map<Seq<char>, u64>,
    i: int,
)
    requires
        0 <= i < scheduler::schedule(max_parallel, tests, durations, group_defaults).len(),
    ensures
        distinct_ids(scheduler::schedule(max_parallel, tests, durations, group_defaults)[i]),
{
    let first = tests.filter(scheduler::alone());
    if i >= first.len() {
        lemma_shared_is_sound(max_parallel, tests, durations, group_defaults, i - first.len());
    }
}

proof fn lemma_id_chars(b: Seq<TimedTest>)
    ensures
        id_chars(scheduler::untimed()(b)) == scheduler::command_len(b),
    decreases b.len(),
{
    if b.len() > 0 {
        lemma_id_chars(b.drop_last());
        assert(scheduler::untimed()(b).drop_last() =~= scheduler::untimed()(b.drop_last()));
    }
}

/// The ids of a batch stay within the command length, unless the batch is a
/// single test.
pub proof fn batches_stay_within_the_command_length(
    max_parallel: nat,
    tests: Seq<TestInstance>,
    durations: Map<Seq<char>, u64>,
    group_defaults: Map<Seq<char>, u64>,
    i: int,
)
    requires
        0 <= i < scheduler::schedule(max_parallel, tests, durations, group_defaults).len(),
    ensures
        ({
            let b = scheduler::schedule(max_parallel, tests, durations, group_defaults)[i];
            b.len() == 1 || id_chars(b) <= 30_000
        }),
{
    let first = tests.filter(scheduler::alone());
    if i >= first.len() {
        let k = i - first.len();
        lemma_shared_is_packed(max_parallel, tests, durations, group_defaults, k);
        lemma_shared_is_sound(max_parallel, tests, durations, group_defaults, k);
        lemma_id_chars(
            scheduler::shared_batches(max_parallel, tests, durations, group_defaults)[k],
        );
    }
}

/// Tests to be scheduled individually come first, in their order, each alone
/// in its batch; no later batch holds one.
pub proof fn individual_tests_come_first_and_alone(
    max_parallel: nat,
    tests: Seq<TestInstance>,
    durations: Map<Seq<char>, u64>,
    group_defaults: Map<Seq<char>, u64>,
)
    ensures
        ({
            let planned = scheduler::schedule(max_parallel, tests, durations, group_defaults);
            let first = tests.filter(|t: TestInstance| t.schedule_individual);
            &&& first.len() <= planned.len()
            &&& forall|i: int|
                0 <= i < first.len() ==> #[trigger] planned[i] == seq![first[i]]
            &&& forall|i: int, j: int|
                first.len() <= i < planned.len() && 0 <= j < planned[i].len()
                    ==> !(#[trigger] planned[i][j]).schedule_individual
        }),
{
    let planned = scheduler::schedule(max_parallel, tests, durations, group_defaults);
    let shared = scheduler::shared_batches(max_parallel, tests, durations, group_defaults);
    let first = tests.filter(scheduler::alone());
    assert(scheduler::alone() =~= |t: TestInstance| t.schedule_individual);
    assert forall|i: int, j: int|
        first.len() <= i < planned.len() && 0 <= j < planned[i].len() implies !(
    #[trigger] planned[i][j]).schedule_individual by {
        let k = i - first.len();
        lemma_shared_is_sound(max_parallel, tests, durations, group_defaults, k);
        assert(planned[i] == scheduler::untimed()(shared[k]));
        assert(!shared[k][j].test.schedule_individual);
    }
}

proof fn lemma_filter_in_order<A>(
    s: Seq<A>,
    p: spec_fn(A) -> bool,
    lt: spec_fn(A, A) -> bool,
)
    requires
        ranking::in_rank_order(s, lt),
    ensures
        ranking::in_rank_order(s.filter(p), lt),
    decreases s.len(),
{
    if s.len() == 0 {
        reveal(Seq::filter);
    } else {
        let front = s.drop_last();
        let x = s.last();
        assert(front.push(x) =~= s);
        ranking::lemma_filter_push(front, x, p);
        assert forall|i: int, j: int| 0 <= i < j < front.len() implies !lt(
            #[trigger] front[j],
            #[trigger] front[i],
        ) by {
            assert(!lt(s[j], s[i]));
        }
        lemma_filter_in_order(front, p, lt);
        let kept = front.filter(p);
        let now = s.filter(p);
        assert forall|i: int, j: int| 0 <= i < j < now.len() implies !lt(
            #[trigger] now[j],
            #[trigger] now[i],
        ) by {
            if j < kept.len() {
                assert(!lt(kept[j], kept[i]));
            } else {
                ranking::lemma_filter_elements(front, p, i);
                let k = choose|k: int| 0 <= k < front.len() && front[k] == kept[i];
                assert(!lt(s[s.len() - 1], s[k]));
            }
        }
    }
}

/// Among the shared batches no batch is heavier than one in front of it.
pub proof fn heaviest_shared_batch_comes_first(
    max_parallel: nat,
    tests: Seq<TestInstance>,
    durations: Map<Seq<char>, u64>,
    group_defaults: Map<Seq<char>, u64>,
    i: int,
    j: int,
)
    requires
        0 <= i < j < scheduler::shared_batches(
            max_parallel,
            tests,
            durations,
            group_defaults,
        ).len(),
    ensures
        ({
            let shared = scheduler::shared_batches(max_parallel, tests, durations, group_defaults);
            scheduler::load(shared[i]) >= scheduler::load(shared[j])
        }),
{
    let sorted = scheduler::longest_first(tests, durations, group_defaults);
    let width = scheduler::start_width(max_parallel, tests);
    let packed = scheduler::packed(width, sorted);
    let lt = scheduler::heavier();
    let ordered = ranking::ranked(packed, lt);
    ranking::ranked_is_in_rank_order(packed, lt);
    lemma_filter_in_order(ordered, scheduler::nonempty(), lt);
    let shared = ordered.filter(scheduler::nonempty());
    assert(!lt(shared[j], shared[i]));
}

/// Whether the tests have different ids that together keep to the command
/// length, so that any test can share a batch with any others.
pub open spec fn unhindered(tests: Seq<TimedTest>) -> bool {
    &&& forall|i: int, j: int|
        0 <= i < j < tests.len() ==> (#[trigger] tests[i]).test.id@ != (
        #[trigger] tests[j]).test.id@
    &&& scheduler::command_len(tests) <= scheduler::MAX_BATCH_COMMAND_LEN
}

proof fn lemma_target_exists(batches: Seq<Seq<TimedTest>>, t: TimedTest, k: int)
    requires
        0 <= k < batches.len(),
        scheduler::accepts(batches[k], t),
    ensures
        exists|i: int| scheduler::is_target(batches, t, i),
    decreases scheduler::load(batches[k]), k,
{
    if !scheduler::is_target(batches, t, k) {
        let j = choose|j: int|
            0 <= j < batches.len() && scheduler::accepts(#[trigger] batches[j], t) && !(
            scheduler::load(batches[k]) <= scheduler::load(batches[j]) && (j < k
                ==> scheduler::load(batches[k]) < scheduler::load(batches[j])));
        lemma_target_exists(batches, t, j);
    }
}

/// Packed batches hold nothing but the tests, and no more than their length.
proof fn lemma_packed_within(width: nat, tests: Seq<TimedTest>, i: int)
    requires
        0 <= i < scheduler::packed(width, tests).len(),
    ensures
        scheduler::command_len(scheduler::packed(width, tests)[i]) <= scheduler::command_len(
            tests,
        ),
        forall|j: int|
            0 <= j < scheduler::packed(width, tests)[i].len() ==> tests.contains(
                #[trigger] scheduler::packed(width, tests)[i][j],
            ),
    decreases tests.len(),
{
    if tests.len() > 0 {
        let front = tests.drop_last();
        let t = tests.last();
        let before = scheduler::packed(width, front);
        let now = scheduler::packed(width, tests);
        assert(tests[tests.len() - 1] == t);
        assert forall|x: TimedTest| front.contains(x) implies tests.contains(x) by {
            let k = choose|k: int| 0 <= k < front.len() && front[k] == x;
            assert(tests[k] == x);
        }
        if i < before.len() {
            lemma_packed_within(width, front, i);
            assert(before[i].push(t).drop_last() =~= before[i]);
            assert forall|j: int| 0 <= j < now[i].len() implies tests.contains(
                #[trigger] now[i][j],
            ) by {
                if j < before[i].len() {
                    assert(now[i][j] == before[i][j]);
                }
            }
        } else {
            assert(now[i] == seq![t]);
            assert(seq![t].drop_last() =~= Seq::<TimedTest>::empty());
            assert(scheduler::command_len(seq![t].drop_last()) == 0);
            assert(scheduler::command_len(seq![t]) == t.test.id@.len());
        }
    }
}

/// Where nothing hinders sharing, every batch takes the next test.
proof fn lemma_all_accept(width: nat, tests: Seq<TimedTest>, i: int)
    requires
        tests.len() > 0,
        unhindered(tests),
        0 <= i < scheduler::packed(width, tests.drop_last()).len(),
    ensures
        scheduler::accepts(scheduler::packed(width, tests.drop_last())[i], tests.last()),
{
    let front = tests.drop_last();
    let t = tests.last();
    let b = scheduler::packed(width, front)[i];
    lemma_packed_within(width, front, i);
    if scheduler::holds_id(b, t.test.id@) {
        let j = choose|j: int| 0 <= j < b.len() && (#[trigger] b[j]).test.id@ == t.test.id@;
        assert(front.contains(b[j]));
        let k = choose|k: int| 0 <= k < front.len() && front[k] == b[j];
        assert(tests[k].test.id@ == tests[tests.len() - 1].test.id@);
    }
}

proof fn lemma_unhindered_front(tests: Seq<TimedTest>)
    requires
        tests.len() > 0,
        unhindered(tests),
    ensures
        unhindered(tests.drop_last()),
{
    let front = tests.drop_last();
    assert forall|i: int, j: int| 0 <= i < j < front.len() implies (#[trigger] front[i]).test.id@
        != (#[trigger] front[j]).test.id@ by {
        assert(tests[i].test.id@ != tests[j].test.id@);
    }
}

/// Where nothing hinders sharing, no batch is opened beyond the first ones,
/// and each batch was the lightest when it took its last test.
pub proof fn unhindered_packing_is_balanced(width: nat, tests: Seq<TimedTest>)
    requires
        width > 0,
        unhindered(tests),
    ensures
        scheduler::packed(width, tests).len() == width,
        forall|i: int, j: int|
            0 <= i < width && 0 <= j < width && scheduler::packed(width, tests)[i].len() > 0
                ==> scheduler::load(#[trigger] scheduler::packed(width, tests)[i])
                - scheduler::packed(width, tests)[i].last().nanos <= scheduler::load(
                #[trigger] scheduler::packed(width, tests)[j],
            ),
    decreases tests.len(),
{
    if tests.len() > 0 {
        let front = tests.drop_last();
        let t = tests.last();
        let before = scheduler::packed(width, front);
        let now = scheduler::packed(width, tests);
        lemma_unhindered_front(tests);
        unhindered_packing_is_balanced(width, front);
        assert forall|i: int| 0 <= i < before.len() implies scheduler::accepts(
            #[trigger] before[i],
            t,
        ) by {
            lemma_all_accept(width, tests, i);
        }
        assert(scheduler::accepts(before[0], t));
        lemma_target_exists(before, t, 0);
        let k = choose|i: int| scheduler::is_target(before, t, i);
        assert(now == before.update(k, before[k].push(t)));
        assert(before[k].push(t).drop_last() =~= before[k]);
        assert forall|i: int, j: int|
            0 <= i < width && 0 <= j < width && now[i].len() > 0 implies scheduler::load(
            #[trigger] now[i],
        ) - now[i].last().nanos <= scheduler::load(#[trigger] now[j]) by {
            assert(scheduler::load(before[j]) <= scheduler::load(now[j]));
            if i != k {
                assert(now[i] == before[i]);
            }
        }
    }
}

/// Total of the loads of all batches.
pub open spec fn total_load(batches: Seq<Seq<TimedTest>>) -> nat
    decreases batches.len(),
{
    if batches.len() == 0 {
        0
    } else {
        total_load(batches.drop_last()) + scheduler::load(batches.last())
    }
}

proof fn lemma_total_load_update(batches: Seq<Seq<TimedTest>>, i: int, t: TimedTest)
    requires
        0 <= i < batches.len(),
    ensures
        total_load(batches.update(i, batches[i].push(t))) == total_load(batches) + t.nanos,
    decreases batches.len(),
{
    let now = batches.update(i, batches[i].push(t));
    assert(batches[i].push(t).drop_last() =~= batches[i]);
    if i == batches.len() - 1 {
        assert(now.drop_last() =~= batches.drop_last());
    } else {
        let front = batches.drop_last();
        lemma_total_load_update(front, i, t);
        assert(now.drop_last() =~= front.update(i, front[i].push(t)));
    }
}

proof fn lemma_total_load_of_empties(width: nat)
    ensures
        total_load(Seq::new(width, |i: int| Seq::<TimedTest>::empty())) == 0,
    decreases width,
{
    let rows = Seq::new(width, |i: int| Seq::<TimedTest>::empty());
    if width > 0 {
        lemma_total_load_of_empties((width - 1) as nat);
        assert(rows.drop_last() =~= Seq::new(
            (width - 1) as nat,
            |i: int| Seq::<TimedTest>::empty(),
        ));
    }
}

/// The batches together carry the load of all tests.
pub proof fn packing_keeps_the_load(width: nat, tests: Seq<TimedTest>)
    ensures
        total_load(scheduler::packed(width, tests)) == scheduler::load(tests),
    decreases tests.len(),
{
    if tests.len() == 0 {
        lemma_total_load_of_empties(width);
    } else {
        let front = tests.drop_last();
        let t = tests.last();
        let before = scheduler::packed(width, front);
        packing_keeps_the_load(width, front);
        if exists|i: int| scheduler::is_target(before, t, i) {
            let i = choose|i: int| scheduler::is_target(before, t, i);
            lemma_total_load_update(before, i, t);
        } else {
            let now = before.push(seq![t]);
            assert(now.drop_last() =~= before);
            assert(seq![t].drop_last() =~= Seq::<TimedTest>::empty());
            assert(scheduler::load(seq![t].drop_last()) == 0);
            assert(scheduler::load(seq![t]) == t.nanos);
        }
    }
}

proof fn lemma_total_load_at_least(batches: Seq<Seq<TimedTest>>, least: int)
    requires
        forall|i: int|
            0 <= i < batches.len() ==> least <= scheduler::load(#[trigger] batches[i]),
    ensures
        batches.len() * least <= total_load(batches),
    decreases batches.len(),
{
    if batches.len() > 0 {
        lemma_total_load_at_least(batches.drop_last(), least);
        assert(batches.last() == batches[batches.len() - 1]);
        assert((batches.len() - 1) * least + least == batches.len() * least) by (nonlinear_arith);
    }
}

/// Where nothing hinders sharing, a batch exceeds an even share of the whole
/// load by at most its last test.
pub proof fn unhindered_batch_is_near_an_even_share(width: nat, tests: Seq<TimedTest>, i: int)
    requires
        width > 0,
        unhindered(tests),
        0 <= i < width,
        scheduler::packed(width, tests)[i].len() > 0,
    ensures
        ({
            let b = scheduler::packed(width, tests)[i];
            width * (scheduler::load(b) - b.last().nanos) <= scheduler::load(tests)
        }),
{
    let batches = scheduler::packed(width, tests);
    let least = scheduler::load(batches[i]) - batches[i].last().nanos;
    unhindered_packing_is_balanced(width, tests);
    packing_keeps_the_load(width, tests);
    lemma_total_load_at_least(batches, least);
}

/// Where nothing hinders sharing, there are at most as many shared batches as
/// sandboxes.
pub proof fn unhindered_schedule_keeps_to_max_parallel(
    max_parallel: nat,
    tests: Seq<TestInstance>,
    durations: Map<Seq<char>, u64>,
    group_defaults: Map<Seq<char>, u64>,
)
    requires
        unhindered(scheduler::longest_first(tests, durations, group_defaults)),
    ensures
        scheduler::shared_batches(max_parallel, tests, durations, group_defaults).len() <= if max_parallel
            < 1 {
            1
        } else {
            max_parallel
        },
{
    let sorted = scheduler::longest_first(tests, durations, group_defaults);
    let width = scheduler::start_width(max_parallel, tests);
    let packed = scheduler::packed(width, sorted);
    let ordered = ranking::ranked(packed, scheduler::heavier());
    let timed = tests.filter(scheduler::together()).map_values(
        scheduler::timed(durations, group_defaults),
    );
    ranking::ranked_is_a_permutation(timed, ranking::rank_order::<TimedTest>());
    ranking::ranked_is_a_permutation(packed, scheduler::heavier());
    ordered.lemma_filter_len(scheduler::nonempty());
    if width > 0 {
        unhindered_packing_is_balanced(width, sorted);
    }
}

/// Number of tests that batch `i` gets when `n` tests are dealt out in turn.
pub open spec fn dealt(n: nat, width: nat, i: int) -> int {
    n as int / width as int + if i < n as int % width as int {
        1int
    } else {
        0int
    }
}

/// Which test is the `j`-th of batch `i` when tests are dealt out in turn.
pub open spec fn deal_place(width: nat, i: int, j: int) -> int {
    j * width + i
}

/// Whether the `j`-th test of batch `i` is the one that it gets in turn.
pub open spec fn is_dealt(
    batches: Seq<Seq<TimedTest>>,
    tests: Seq<TimedTest>,
    width: nat,
    i: int,
    j: int,
) -> bool {
    &&& 0 <= deal_place(width, i, j) < tests.len()
    &&& batches[i][j] == tests[deal_place(width, i, j)]
}

/// Whether each of the `width` batches took every `width`-th test.
pub open spec fn dealt_in_turn(
    batches: Seq<Seq<TimedTest>>,
    tests: Seq<TimedTest>,
    width: nat,
) -> bool {
    &&& batches.len() == width
    &&& forall|i: int|
        0 <= i < width ==> (#[trigger] batches[i]).len() == dealt(tests.len(), width, i)
    &&& forall|i: int, j: int|
        0 <= i < width && 0 <= j < batches[i].len() ==> #[trigger] is_dealt(
            batches,
            tests,
            width,
            i,
            j,
        )
}

proof fn lemma_load_of_equals(batch: Seq<TimedTest>, d: nat)
    requires
        forall|i: int| 0 <= i < batch.len() ==> (#[trigger] batch[i]).nanos == d,
    ensures
        scheduler::load(batch) == batch.len() * d,
    decreases batch.len(),
{
    if batch.len() > 0 {
        lemma_load_of_equals(batch.drop_last(), d);
        assert((batch.len() - 1) * d + d == batch.len() * d) by (nonlinear_arith);
    } else {
        assert(0 * d == 0);
    }
}

proof fn lemma_next_deal(n: nat, width: nat)
    requires
        width > 0,
    ensures
        ({
            let q = n as int / width as int;
            let r = n as int % width as int;
            &&& 0 <= r < width
            &&& n == q * width + r
            &&& (n + 1) as int / width as int == if r + 1 < width {
                q
            } else {
                q + 1
            }
            &&& (n + 1) as int % width as int == if r + 1 < width {
                r + 1
            } else {
                0
            }
        }),
{
    let w = width as int;
    let q = n as int / w;
    let r = n as int % w;
    lemma_fundamental_div_mod(n as int, w);
    assert(w * q == q * w) by (nonlinear_arith);
    if r + 1 < w {
        lemma_fundamental_div_mod_converse(n as int + 1, w, q, r + 1);
    } else {
        assert((q + 1) * w == q * w + w) by (nonlinear_arith);
        lemma_fundamental_div_mod_converse(n as int + 1, w, q + 1, 0);
    }
}

/// Where nothing hinders sharing and all tests are expected to take the same
/// time, they are dealt out in turn: each batch takes every `width`-th test.
pub proof fn equal_tests_are_dealt_in_turn(width: nat, tests: Seq<TimedTest>, d: nat)
    requires
        width > 0,
        d > 0,
        unhindered(tests),
        forall|i: int| 0 <= i < tests.len() ==> (#[trigger] tests[i]).nanos == d,
    ensures
        dealt_in_turn(scheduler::packed(width, tests), tests, width),
    decreases tests.len(),
{
    let now = scheduler::packed(width, tests);
    if tests.len() == 0 {
        assert(0int / width as int == 0) by (nonlinear_arith)
            requires
                width > 0,
        ;
        assert(0int % width as int == 0) by (nonlinear_arith)
            requires
                width > 0,
        ;
    } else {
        let front = tests.drop_last();
        let t = tests.last();
        let n = front.len();
        let before = scheduler::packed(width, front);
        lemma_unhindered_front(tests);
        assert forall|i: int| 0 <= i < front.len() implies (#[trigger] front[i]).nanos == d by {
            assert(front[i] == tests[i]);
        }
        equal_tests_are_dealt_in_turn(width, front, d);
        lemma_next_deal(n, width);
        let q = n as int / width as int;
        let r = n as int % width as int;
        assert forall|i: int| 0 <= i < width implies scheduler::accepts(#[trigger] before[i], t)
            && scheduler::load(before[i]) == dealt(n, width, i) * d by {
            lemma_all_accept(width, tests, i);
            assert forall|j: int| 0 <= j < before[i].len() implies (
            #[trigger] before[i][j]).nanos == d by {
                assert(is_dealt(before, front, width, i, j));
            }
            lemma_load_of_equals(before[i], d);
        }
        assert((q + 1) * d == q * d + d) by (nonlinear_arith);
        assert(scheduler::is_target(before, t, r)) by {
            assert(scheduler::load(before[r]) == q * d);
            assert forall|j: int|
                0 <= j < before.len() && scheduler::accepts(#[trigger] before[j], t) implies
                scheduler::load(before[r]) <= scheduler::load(before[j]) && (j < r
                ==> scheduler::load(before[r]) < scheduler::load(before[j])) by {
                assert(scheduler::load(before[j]) == dealt(n, width, j) * d);
            }
        }
        let k = choose|k: int| scheduler::is_target(before, t, k);
        assert(k == r) by {
            assert(scheduler::accepts(before[k], t) && scheduler::accepts(before[r], t));
        }
        assert(now == before.update(r, before[r].push(t)));
        assert forall|i: int| 0 <= i < width implies (#[trigger] now[i]).len() == dealt(
            tests.len(),
            width,
            i,
        ) by {
            assert(before[i].len() == dealt(n, width, i));
        }
        assert forall|i: int, j: int|
            0 <= i < width && 0 <= j < now[i].len() implies #[trigger] is_dealt(
            now,
            tests,
            width,
            i,
            j,
        ) by {
            if j < before[i].len() {
                assert(is_dealt(before, front, width, i, j));
            } else {
                assert(i == r && j == q);
            }
        }
    }
}

proof fn lemma_equal_ranks_stay<A>(s: Seq<A>, lt: spec_fn(A, A) -> bool)
    requires
        forall|i: int, j: int| 0 <= i < s.len() && 0 <= j < s.len() ==> !lt(
            #[trigger] s[i],
            #[trigger] s[j],
        ),
    ensures
        ranking::ranked(s, lt) == s,
    decreases s.len(),
{
    if s.len() > 0 {
        let front = s.drop_last();
        assert forall|i: int, j: int| 0 <= i < front.len() && 0 <= j < front.len() implies !lt(
            #[trigger] front[i],
            #[trigger] front[j],
        ) by {
            assert(!lt(s[i], s[j]));
        }
        lemma_equal_ranks_stay(front, lt);
        if front.len() > 0 {
            assert(!lt(s[s.len() - 1], s[s.len() - 2]));
        }
        assert(front.push(s.last()) =~= s);
    }
}

/// Without durations to go by, tests that can share batches freely are dealt
/// out in turn, in their order.
pub proof fn without_history_tests_are_dealt_in_turn(max_parallel: nat, tests: Seq<TestInstance>)
    requires
        tests.filter(scheduler::together()).len() > 0,
        unhindered(
            tests.filter(scheduler::together()).map_values(
                scheduler::timed(Map::empty(), Map::empty()),
            ),
        ),
    ensures
        ({
            let shared = tests.filter(scheduler::together());
            let width = scheduler::start_width(max_parallel, tests);
            let sorted = scheduler::longest_first(tests, Map::empty(), Map::empty());
            &&& width > 0
            &&& sorted.map_values(the_test()) == shared
            &&& dealt_in_turn(scheduler::packed(width, sorted), sorted, width)
        }),
{
    let shared = tests.filter(scheduler::together());
    let timed = shared.map_values(scheduler::timed(Map::empty(), Map::empty()));
    let width = scheduler::start_width(max_parallel, tests);
    lemma_equal_ranks_stay(timed, ranking::rank_order::<TimedTest>());
    assert(timed.map_values(the_test()) =~= shared);
    equal_tests_are_dealt_in_turn(width, timed, scheduler::DEFAULT_TEST_NANOS as nat);
}

/// The queue after `n` batches were handed out.
pub open spec fn after_pops(queue: Seq<BatchView>, impatient: bool, n: nat) -> Seq<BatchView>
    decreases n,
{
    if n == 0 {
        queue
    } else {
        scheduler::after_pop(after_pops(queue, impatient, (n - 1) as nat), impatient)
    }
}

/// How often a batch and what follows from it are handed out when batches
/// are queued again.
pub open spec fn rounds(b: BatchView) -> nat
    decreases b.tests.len(), scheduler::MAX_SINGLE_TEST_REQUEUES - b.retries,
{
    let mid = b.tests.len() as int / 2;
    if b.tests.len() > 1 {
        1 + rounds(BatchView { tests: b.tests.take(mid), retries: 0 }) + rounds(
            BatchView { tests: b.tests.skip(mid), retries: 0 },
        )
    } else if b.retries < scheduler::MAX_SINGLE_TEST_REQUEUES {
        1 + rounds(BatchView { tests: b.tests, retries: b.retries + 1 })
    } else {
        1
    }
}

/// How often batches are handed out until the queue is empty.
pub open spec fn total_rounds(queue: Seq<BatchView>) -> nat
    decreases queue.len(),
{
    if queue.len() == 0 {
        0
    } else {
        total_rounds(queue.drop_last()) + rounds(queue.last())
    }
}

proof fn lemma_total_rounds_add(a: Seq<BatchView>, b: Seq<BatchView>)
    ensures
        total_rounds(a + b) == total_rounds(a) + total_rounds(b),
    decreases b.len(),
{
    if b.len() == 0 {
        assert(a + b =~= a);
    } else {
        lemma_total_rounds_add(a, b.drop_last());
        assert((a + b).drop_last() =~= a + b.drop_last());
    }
}

proof fn lemma_rounds_positive(b: BatchView)
    ensures
        rounds(b) >= 1,
{
}

/// Each batch handed out brings the impatient queue one step closer to empty.
pub proof fn each_pop_is_one_step_to_the_end(queue: Seq<BatchView>)
    requires
        queue.len() > 0,
    ensures
        total_rounds(scheduler::after_pop(queue, true)) + 1 == total_rounds(queue),
{
    let b = queue[0];
    let rest = queue.skip(1);
    let next = scheduler::followups(b);
    assert(seq![b] + rest =~= queue);
    lemma_total_rounds_add(seq![b], rest);
    lemma_total_rounds_add(rest, next);
    assert(seq![b].drop_last() =~= Seq::<BatchView>::empty());
    assert(total_rounds(seq![b].drop_last()) == 0);
    assert(total_rounds(seq![b]) == rounds(b));
    if next.len() == 2 {
        assert(next.drop_last().drop_last() =~= Seq::<BatchView>::empty());
        assert(next.drop_last().last() == next[0]);
        assert(total_rounds(next.drop_last().drop_last()) == 0);
        assert(total_rounds(next.drop_last()) == rounds(next[0]));
        assert(total_rounds(next) == rounds(next[0]) + rounds(next[1]));
    } else if next.len() == 1 {
        assert(next.drop_last() =~= Seq::<BatchView>::empty());
        assert(total_rounds(next.drop_last()) == 0);
        assert(total_rounds(next) == rounds(next[0]));
    }
}

proof fn lemma_rounds_of_queue(queue: Seq<BatchView>)
    ensures
        total_rounds(queue) == 0 <==> queue.len() == 0,
{
    if queue.len() > 0 {
        lemma_rounds_positive(queue.last());
    }
}

/// The impatient queue hands out batches exactly as often as its rounds say,
/// and is empty after that.
pub proof fn impatient_queue_runs_dry(queue: Seq<BatchView>, n: nat)
    requires
        n <= total_rounds(queue),
    ensures
        total_rounds(after_pops(queue, true, n)) == total_rounds(queue) - n,
        after_pops(queue, true, n).len() == 0 <==> n == total_rounds(queue),
    decreases n,
{
    if n > 0 {
        impatient_queue_runs_dry(queue, (n - 1) as nat);
        let before = after_pops(queue, true, (n - 1) as nat);
        lemma_rounds_of_queue(before);
        each_pop_is_one_step_to_the_end(before);
    }
    lemma_rounds_of_queue(after_pops(queue, true, n));
}

/// Without re-queuing each batch is handed out exactly once, in order.
pub proof fn patient_queue_runs_each_batch_once(queue: Seq<BatchView>, n: nat)
    requires
        n <= queue.len(),
    ensures
        after_pops(queue, false, n) == queue.skip(n as int),
    decreases n,
{
    if n > 0 {
        patient_queue_runs_each_batch_once(queue, (n - 1) as nat);
        assert(queue.skip(n - 1).skip(1) =~= queue.skip(n as int));
    } else {
        assert(queue.skip(0) =~= queue);
    }
}

/// What is queued again for a batch of several tests are two smaller batches
/// that hold its tests in order and start without retries.
pub proof fn followups_halve_a_batch(b: BatchView)
    requires
        b.tests.len() > 1,
    ensures
        ({
            let next = scheduler::followups(b);
            &&& next.len() == 2
            &&& next[0].tests + next[1].tests == b.tests
            &&& 0 < next[0].tests.len() <= next[1].tests.len() <= next[0].tests.len() + 1
            &&& next[0].retries == 0 && next[1].retries == 0
        }),
{
    let next = scheduler::followups(b);
    assert(next[0].tests + next[1].tests =~= b.tests);
}

/// A single test is handed out as often as it may be queued again, and once
/// more.
pub proof fn a_single_test_is_handed_out_four_times(t: TestInstance)
    ensures
        rounds(BatchView { tests: seq![t], retries: 0 }) == 4,
{
    reveal_with_fuel(rounds, 5);
}

/// How long a test is expected to take, in nanoseconds: as long as in its
/// history, else as long as is usual in its group, else a second.
pub open spec fn time_of(
    t: TestInstance,
    durations: Map<Seq<char>, u64>,
    group_defaults: Map<Seq<char>, u64>,
) -> nat {
    if durations.contains_key(t.id@) {
        durations[t.id@] as nat
    } else if group_defaults.contains_key(t.group@) {
        group_defaults[t.group@] as nat
    } else {
        1_000_000_000
    }
}

/// How long the tests of a batch are expected to take together.
pub open spec fn total_time(
    batch: Seq<TestInstance>,
    durations: Map<Seq<char>, u64>,
    group_defaults: Map<Seq<char>, u64>,
) -> nat
    decreases batch.len(),
{
    if batch.len() == 0 {
        0
    } else {
        total_time(batch.drop_last(), durations, group_defaults) + time_of(
            batch.last(),
            durations,
            group_defaults,
        )
    }
}

/// Number of tests that get a batch of their own.
pub open spec fn individual_count(tests: Seq<TestInstance>) -> nat {
    tests.filter(|t: TestInstance| t.schedule_individual).len()
}

/// The row of tests that is packed holds the tests that share batches, each as
/// often as it was given and with the time that it is expected to take.
pub proof fn packed_tests_have_their_expected_times(
    tests: Seq<TestInstance>,
    durations: Map<Seq<char>, u64>,
    group_defaults: Map<Seq<char>, u64>,
    i: int,
)
    requires
        0 <= i < scheduler::longest_first(tests, durations, group_defaults).len(),
    ensures
        ({
            let row = scheduler::longest_first(tests, durations, group_defaults);
            &&& row[i].nanos == time_of(row[i].test, durations, group_defaults)
            &&& !row[i].test.schedule_individual
            &&& tests.contains(row[i].test)
            &&& row.map_values(|t: TimedTest| t.test).to_multiset() == tests.filter(
                |t: TestInstance| !t.schedule_individual,
            ).to_multiset()
        }),
{
    let row = scheduler::longest_first(tests, durations, group_defaults);
    let normal = tests.filter(scheduler::together());
    let timed = normal.map_values(scheduler::timed(durations, group_defaults));
    let p = |t: TestInstance| !t.schedule_individual;
    let f = |t: TimedTest| t.test;
    assert(row.contains(row[i]));
    lemma_longest_first_elements(tests, durations, group_defaults, row[i]);
    ranking::ranked_elements(timed, ranking::rank_order::<TimedTest>(), row[i]);
    ranking::ranked_keeps_images(timed, ranking::rank_order::<TimedTest>(), f);
    assert(timed.map_values(f) =~= normal);
    assert(scheduler::together() =~= p);
}

/// In the row of tests that is packed no test is expected to take longer than
/// one in front of it.
pub proof fn tests_are_packed_longest_first(
    tests: Seq<TestInstance>,
    durations: Map<Seq<char>, u64>,
    group_defaults: Map<Seq<char>, u64>,
    i: int,
    j: int,
)
    requires
        0 <= i < j < scheduler::longest_first(tests, durations, group_defaults).len(),
    ensures
        ({
            let row = scheduler::longest_first(tests, durations, group_defaults);
            row[i].nanos >= row[j].nanos
        }),
{
    let timed = tests.filter(scheduler::together()).map_values(
        scheduler::timed(durations, group_defaults),
    );
    let lt = ranking::rank_order::<TimedTest>();
    <TimedTest as ranking::Ranked>::ranks_are_ordered();
    ranking::ranked_is_in_rank_order(timed, lt);
    let row = ranking::ranked(timed, lt);
    assert(!lt(row[j], row[i]));
}

/// Whether each test takes no longer than those in front of it.
spec fn descends(row: Seq<TimedTest>) -> bool {
    forall|i: int, j: int|
        0 <= i < j < row.len() ==> (#[trigger] row[i]).nanos >= (#[trigger] row[j]).nanos
}

proof fn lemma_packed_descends(width: nat, tests: Seq<TimedTest>)
    requires
        descends(tests),
    ensures
        forall|b: int|
            0 <= b < scheduler::packed(width, tests).len() ==> descends(
                #[trigger] scheduler::packed(width, tests)[b],
            ),
    decreases tests.len(),
{
    if tests.len() > 0 {
        let front = tests.drop_last();
        let t = tests.last();
        let before = scheduler::packed(width, front);
        let now = scheduler::packed(width, tests);
        assert(descends(front)) by {
            assert forall|i: int, j: int| 0 <= i < j < front.len() implies (
            #[trigger] front[i]).nanos >= (#[trigger] front[j]).nanos by {
                assert(tests[i].nanos >= tests[j].nanos);
            }
        }
        lemma_packed_descends(width, front);
        assert forall|b: int| 0 <= b < now.len() implies descends(#[trigger] now[b]) by {
            if b < before.len() {
                assert(descends(before[b]));
                lemma_packed_within(width, front, b);
                assert forall|i: int, j: int| 0 <= i < j < now[b].len() implies (
                #[trigger] now[b][i]).nanos >= (#[trigger] now[b][j]).nanos by {
                    assert(now[b][i] == before[b][i]);
                    if j < before[b].len() {
                        assert(now[b][j] == before[b][j]);
                    } else {
                        assert(front.contains(before[b][i]));
                        let k = choose|k: int| 0 <= k < front.len() && front[k] == before[b][i];
                        assert(tests[k].nanos >= tests[tests.len() - 1].nanos);
                    }
                }
            } else {
                assert(now[b] == seq![t]);
            }
        }
    }
}

proof fn lemma_load_is_total_time(
    b: Seq<TimedTest>,
    durations: Map<Seq<char>, u64>,
    group_defaults: Map<Seq<char>, u64>,
)
    requires
        forall|i: int|
            0 <= i < b.len() ==> (#[trigger] b[i]).nanos == time_of(
                b[i].test,
                durations,
                group_defaults,
            ),
    ensures
        scheduler::load(b) == total_time(
            scheduler::untimed()(b),
            durations,
            group_defaults,
        ),
    decreases b.len(),
{
    let plain = scheduler::untimed()(b);
    if b.len() > 0 {
        let front = b.drop_last();
        assert forall|i: int| 0 <= i < front.len() implies (#[trigger] front[i]).nanos == time_of(
            front[i].test,
            durations,
            group_defaults,
        ) by {
            assert(front[i] == b[i]);
        }
        lemma_load_is_total_time(front, durations, group_defaults);
        assert(plain.drop_last() =~= scheduler::untimed()(front));
        assert(b[b.len() - 1] == b.last());
    }
}

/// A shared batch: its tests come longest first, and its load is the time that
/// they are expected to take together.
proof fn lemma_shared_batch_times(
    max_parallel: nat,
    tests: Seq<TestInstance>,
    durations: Map<Seq<char>, u64>,
    group_defaults: Map<Seq<char>, u64>,
    i: int,
)
    requires
        0 <= i < scheduler::shared_batches(max_parallel, tests, durations, group_defaults).len(),
    ensures
        ({
            let b = scheduler::shared_batches(max_parallel, tests, durations, group_defaults)[i];
            &&& descends(b)
            &&& forall|j: int|
                0 <= j < b.len() ==> (#[trigger] b[j]).nanos == time_of(
                    b[j].test,
                    durations,
                    group_defaults,
                )
            &&& scheduler::load(b) == total_time(
                scheduler::untimed()(b),
                durations,
                group_defaults,
            )
        }),
{
    let b = scheduler::shared_batches(max_parallel, tests, durations, group_defaults)[i];
    let row = scheduler::longest_first(tests, durations, group_defaults);
    let width = scheduler::start_width(max_parallel, tests);
    let packed = scheduler::packed(width, row);
    lemma_shared_is_packed(max_parallel, tests, durations, group_defaults, i);
    let k = choose|k: int| 0 <= k < packed.len() && packed[k] == b;
    assert forall|x: int, y: int| 0 <= x < y < row.len() implies (#[trigger] row[x]).nanos >= (
    #[trigger] row[y]).nanos by {
        tests_are_packed_longest_first(tests, durations, group_defaults, x, y);
    }
    lemma_packed_descends(width, row);
    assert(descends(packed[k]));
    lemma_packed_within(width, row, k);
    assert forall|j: int| 0 <= j < b.len() implies (#[trigger] b[j]).nanos == time_of(
        b[j].test,
        durations,
        group_defaults,
    ) by {
        assert(row.contains(packed[k][j]));
        let m = choose|m: int| 0 <= m < row.len() && row[m] == b[j];
        packed_tests_have_their_expected_times(tests, durations, group_defaults, m);
    }
    lemma_load_is_total_time(b, durations, group_defaults);
}

proof fn lemma_individual_count(tests: Seq<TestInstance>)
    ensures
        individual_count(tests) == tests.filter(scheduler::alone()).len(),
{
    assert(scheduler::alone() =~= |t: TestInstance| t.schedule_individual);
}

/// Within every shared batch of a schedule no test is expected to take longer
/// than one in front of it.
pub proof fn batches_hold_longer_tests_first(
    max_parallel: nat,
    tests: Seq<TestInstance>,
    durations: Map<Seq<char>, u64>,
    group_defaults: Map<Seq<char>, u64>,
    i: int,
    j: int,
    k: int,
)
    requires
        0 <= i < scheduler::schedule(max_parallel, tests, durations, group_defaults).len(),
        0 <= j < k < scheduler::schedule(max_parallel, tests, durations, group_defaults)[i].len(),
    ensures
        ({
            let b = scheduler::schedule(max_parallel, tests, durations, group_defaults)[i];
            time_of(b[j], durations, group_defaults) >= time_of(b[k], durations, group_defaults)
        }),
{
    let first = tests.filter(scheduler::alone());
    if i >= first.len() {
        let shared = scheduler::shared_batches(max_parallel, tests, durations, group_defaults);
        let b = shared[i - first.len()];
        lemma_shared_batch_times(
            max_parallel,
            tests,
            durations,
            group_defaults,
            i - first.len(),
        );
        assert(b[j].nanos >= b[k].nanos);
    }
}

/// In a schedule no shared batch is expected to take longer than one in front
/// of it.
pub proof fn longest_shared_batch_is_handed_out_first(
    max_parallel: nat,
    tests: Seq<TestInstance>,
    durations: Map<Seq<char>, u64>,
    group_defaults: Map<Seq<char>, u64>,
    i: int,
    j: int,
)
    requires
        individual_count(tests) <= i < j < scheduler::schedule(
            max_parallel,
            tests,
            durations,
            group_defaults,
        ).len(),
    ensures
        ({
            let planned = scheduler::schedule(max_parallel, tests, durations, group_defaults);
            total_time(planned[i], durations, group_defaults) >= total_time(
                planned[j],
                durations,
                group_defaults,
            )
        }),
{
    let n = tests.filter(scheduler::alone()).len();
    lemma_individual_count(tests);
    heaviest_shared_batch_comes_first(
        max_parallel,
        tests,
        durations,
        group_defaults,
        i - n,
        j - n,
    );
    lemma_shared_batch_times(max_parallel, tests, durations, group_defaults, i - n);
    lemma_shared_batch_times(max_parallel, tests, durations, group_defaults, j - n);
}

/// Time that the tests of a batch take together.
pub open spec fn total_nanos(batch: Seq<TimedTest>) -> nat
    decreases batch.len(),
{
    if batch.len() == 0 {
        0
    } else {
        total_nanos(batch.drop_last()) + batch.last().nanos as nat
    }
}

/// Whether a batch can take a test: it does not hold a test with this id, and
/// it is empty or all ids together have at most 30000 characters.
pub open spec fn can_take(batch: Seq<TimedTest>, t: TimedTest) -> bool {
    &&& forall|i: int| 0 <= i < batch.len() ==> (#[trigger] batch[i]).test.id@ != t.test.id@
    &&& batch.len() == 0 || id_chars(batch.map_values(|x: TimedTest| x.test)) + t.test.id@.len()
        <= 30_000
}

proof fn lemma_load_is_total_nanos(b: Seq<TimedTest>)
    ensures
        scheduler::load(b) == total_nanos(b),
    decreases b.len(),
{
    if b.len() > 0 {
        lemma_load_is_total_nanos(b.drop_last());
    }
}

proof fn lemma_can_take(b: Seq<TimedTest>, t: TimedTest)
    ensures
        scheduler::accepts(b, t) == can_take(b, t),
{
    lemma_id_chars(b);
    assert(b.map_values(|x: TimedTest| x.test) =~= scheduler::untimed()(b));
    if scheduler::holds_id(b, t.test.id@) {
        let i = choose|i: int| 0 <= i < b.len() && (#[trigger] b[i]).test.id@ == t.test.id@;
        assert(b[i].test.id@ == t.test.id@);
    }
}

/// A test goes to the first of those batches that take the least time among
/// those that can take it, and to a new batch where none can; every other
/// batch stays as it is.
pub proof fn a_test_goes_to_the_lightest_batch(batches: Seq<Seq<TimedTest>>, t: TimedTest) -> (at:
    int)
    ensures
        0 <= at <= batches.len(),
        at == batches.len() ==> scheduler::assigned(batches, t) == batches.push(seq![t]) && forall|
            j: int,
        |
            0 <= j < batches.len() ==> !can_take(#[trigger] batches[j], t),
        at < batches.len() ==> {
            &&& scheduler::assigned(batches, t) == batches.update(at, batches[at].push(t))
            &&& can_take(batches[at], t)
            &&& forall|j: int|
                0 <= j < batches.len() && can_take(#[trigger] batches[j], t) ==> total_nanos(
                    batches[at],
                ) <= total_nanos(batches[j]) && (j < at ==> total_nanos(batches[at]) < total_nanos(
                    batches[j],
                ))
        },
{
    assert forall|j: int| 0 <= j < batches.len() implies #[trigger] can_take(batches[j], t)
        == scheduler::accepts(batches[j], t) && total_nanos(batches[j]) == scheduler::load(
        batches[j],
    ) by {
        lemma_can_take(batches[j], t);
        lemma_load_is_total_nanos(batches[j]);
    }
    if exists|i: int| scheduler::is_target(batches, t, i) {
        let i = choose|i: int| scheduler::is_target(batches, t, i);
        lemma_can_take(batches[i], t);
        lemma_load_is_total_nanos(batches[i]);
        i
    } else {
        assert forall|j: int| 0 <= j < batches.len() implies !can_take(#[trigger] batches[j], t) by {
            if can_take(batches[j], t) {
                lemma_target_exists(batches, t, j);
            }
        }
        batches.len() as int
    }
}

/// Packing starts with empty batches and assigns one test after the other.
pub proof fn packing_assigns_the_tests_in_turn(width: nat, tests: Seq<TimedTest>, t: TimedTest)
    ensures
        scheduler::packed(width, Seq::<TimedTest>::empty()).len() == width,
        forall|i: int|
            0 <= i < width ==> (#[trigger] scheduler::packed(
                width,
                Seq::<TimedTest>::empty(),
            )[i]).len() == 0,
        scheduler::packed(width, tests.push(t)) == scheduler::assigned(
            scheduler::packed(width, tests),
            t,
        ),
{
    assert(tests.push(t).drop_last() =~= tests);
}

proof fn lemma_target_is_the_one(batches: Seq<Seq<TimedTest>>, t: TimedTest, i: int)
    requires
        scheduler::is_target(batches, t, i),
    ensures
        scheduler::assigned(batches, t) == batches.update(i, batches[i].push(t)),
{
    let k = choose|k: int| scheduler::is_target(batches, t, k);
    assert(scheduler::accepts(batches[i], t) && scheduler::accepts(batches[k], t));
    assert(k == i);
}

proof fn lemma_positive_load(b: Seq<TimedTest>)
    requires
        b.len() > 0,
        b.last().nanos > 0,
    ensures
        scheduler::load(b) > 0,
{
}

/// Batches are filled one after the other until each holds a test.
proof fn lemma_batches_fill(width: nat, tests: Seq<TimedTest>)
    requires
        forall|i: int| 0 <= i < tests.len() ==> (#[trigger] tests[i]).nanos > 0,
    ensures
        ({
            let now = scheduler::packed(width, tests);
            &&& now.len() >= width
            &&& tests.len() < width ==> now.len() == width
            &&& forall|i: int|
                0 <= i < now.len() ==> ((#[trigger] now[i]).len() > 0 <==> (i < tests.len() || i
                    >= width || tests.len() >= width))
            &&& forall|i: int|
                0 <= i < now.len() && (#[trigger] now[i]).len() > 0 ==> now[i].last().nanos > 0
        }),
    decreases tests.len(),
{
    if tests.len() > 0 {
        let front = tests.drop_last();
        let t = tests.last();
        assert(t == tests[tests.len() - 1]);
        assert forall|i: int| 0 <= i < front.len() implies (#[trigger] front[i]).nanos > 0 by {
            assert(front[i] == tests[i]);
        }
        lemma_batches_fill(width, front);
        let before = scheduler::packed(width, front);
        let now = scheduler::packed(width, tests);
        let n = front.len() as int;
        if n < width {
            assert(before[n].len() == 0);
            assert(scheduler::accepts(before[n], t));
            assert(scheduler::load(before[n]) == 0);
            assert forall|j: int|
                0 <= j < before.len() && scheduler::accepts(
                    #[trigger] before[j],
                    t,
                ) implies scheduler::load(before[n]) <= scheduler::load(before[j]) && (j < n
                ==> scheduler::load(before[n]) < scheduler::load(before[j])) by {
                if j < n {
                    assert(before[j].len() > 0);
                    lemma_positive_load(before[j]);
                }
            }
            assert(scheduler::is_target(before, t, n));
            lemma_target_is_the_one(before, t, n);
            assert forall|i: int| 0 <= i < now.len() implies ((#[trigger] now[i]).len() > 0 <==> (i
                < tests.len() || i >= width || tests.len() >= width)) by {
                if i != n {
                    assert(now[i] == before[i]);
                }
            }
        } else {
            assert forall|i: int| 0 <= i < now.len() implies (#[trigger] now[i]).len() > 0 by {
                if i < before.len() {
                    assert(before[i].len() > 0);
                }
            }
        }
        assert forall|i: int|
            0 <= i < now.len() && (#[trigger] now[i]).len() > 0 implies now[i].last().nanos > 0 by {
            if i < before.len() {
                if now[i] != before[i] {
                    assert(now[i] == before[i].push(t));
                }
            } else {
                assert(now[i] == seq![t]);
            }
        }
    }
}

proof fn lemma_filter_of_all<A>(s: Seq<A>, p: spec_fn(A) -> bool)
    requires
        forall|i: int| 0 <= i < s.len() ==> p(#[trigger] s[i]),
    ensures
        s.filter(p) == s,
    decreases s.len(),
{
    if s.len() == 0 {
        reveal(Seq::filter);
        assert(s.filter(p) =~= s);
    } else {
        let front = s.drop_last();
        let x = s.last();
        assert forall|i: int| 0 <= i < front.len() implies p(#[trigger] front[i]) by {
            assert(front[i] == s[i]);
        }
        lemma_filter_of_all(front, p);
        assert(front.push(x) =~= s);
        assert(p(s[s.len() - 1]));
        ranking::lemma_filter_push(front, x, p);
    }
}

/// Where every test is expected to take some time, there are as many shared
/// batches as sandboxes or, where there are fewer tests to share them, as
/// tests, and no fewer.
pub proof fn all_sandboxes_get_a_batch(
    max_parallel: nat,
    tests: Seq<TestInstance>,
    durations: Map<Seq<char>, u64>,
    group_defaults: Map<Seq<char>, u64>,
)
    requires
        forall|i: int|
            0 <= i < tests.len() ==> time_of(#[trigger] tests[i], durations, group_defaults) > 0,
    ensures
        ({
            let planned = scheduler::schedule(max_parallel, tests, durations, group_defaults);
            let batches = planned.len() - individual_count(tests);
            let shared = tests.len() - individual_count(tests);
            &&& batches >= shared || (batches >= max_parallel && batches >= 1)
            &&& batches <= shared
        }),
{
    let row = scheduler::longest_first(tests, durations, group_defaults);
    let width = scheduler::start_width(max_parallel, tests);
    let packed = scheduler::packed(width, row);
    let ordered = ranking::ranked(packed, scheduler::heavier());
    let timed = tests.filter(scheduler::together()).map_values(
        scheduler::timed(durations, group_defaults),
    );
    lemma_individual_count(tests);
    lemma_filter_lens(tests);
    ranking::ranked_is_a_permutation(timed, ranking::rank_order::<TimedTest>());
    ranking::ranked_is_a_permutation(packed, scheduler::heavier());
    assert forall|i: int| 0 <= i < row.len() implies (#[trigger] row[i]).nanos > 0 by {
        packed_tests_have_their_expected_times(tests, durations, group_defaults, i);
        let k = choose|k: int| 0 <= k < tests.len() && tests[k] == row[i].test;
        assert(time_of(tests[k], durations, group_defaults) > 0);
    }
    lemma_batches_fill(width, row);
    assert forall|i: int| 0 <= i < ordered.len() implies scheduler::nonempty()(
        #[trigger] ordered[i],
    ) by {
        assert(ordered.contains(ordered[i]));
        ranking::ranked_elements(packed, scheduler::heavier(), ordered[i]);
        let k = choose|k: int| 0 <= k < packed.len() && packed[k] == ordered[i];
        assert(packed[k].len() > 0);
    }
    lemma_filter_of_all(ordered, scheduler::nonempty());
    lemma_packed_len(width, row);
}

proof fn lemma_filter_lens(tests: Seq<TestInstance>)
    ensures
        tests.filter(scheduler::alone()).len() + tests.filter(scheduler::together()).len()
            == tests.len(),
    decreases tests.len(),
{
    if tests.len() == 0 {
        reveal(Seq::filter);
    } else {
        let front = tests.drop_last();
        lemma_filter_lens(front);
        assert(front.push(tests.last()) =~= tests);
        ranking::lemma_filter_push(front, tests.last(), scheduler::alone());
        ranking::lemma_filter_push(front, tests.last(), scheduler::together());
    }
}

proof fn lemma_packed_len(width: nat, tests: Seq<TimedTest>)
    requires
        forall|i: int| 0 <= i < tests.len() ==> (#[trigger] tests[i]).nanos > 0,
    ensures
        tests.len() >= width ==> scheduler::packed(width, tests).len() <= tests.len(),
        tests.len() < width ==> scheduler::packed(width, tests).len() == width,
    decreases tests.len(),
{
    if tests.len() > 0 {
        let front = tests.drop_last();
        assert forall|i: int| 0 <= i < front.len() implies (#[trigger] front[i]).nanos > 0 by {
            assert(front[i] == tests[i]);
        }
        lemma_packed_len(width, front);
        lemma_batches_fill(width, tests);
        lemma_batches_fill(width, front);
        if front.len() < width {
            let before = scheduler::packed(width, front);
            let n = front.len() as int;
            assert(before[n].len() == 0);
            assert(scheduler::accepts(before[n], tests.last()));
            lemma_target_exists(before, tests.last(), n);
        }
    }
}

/// Where nothing hinders sharing, a shared batch of a schedule is expected to
/// take no longer than any other does, but for its last test.
pub proof fn unhindered_schedule_is_balanced(
    max_parallel: nat,
    tests: Seq<TestInstance>,
    durations: Map<Seq<char>, u64>,
    group_defaults: Map<Seq<char>, u64>,
    i: int,
    j: int,
)
    requires
        unhindered(scheduler::longest_first(tests, durations, group_defaults)),
        individual_count(tests) <= i < scheduler::schedule(
            max_parallel,
            tests,
            durations,
            group_defaults,
        ).len(),
        individual_count(tests) <= j < scheduler::schedule(
            max_parallel,
            tests,
            durations,
            group_defaults,
        ).len(),
    ensures
        ({
            let planned = scheduler::schedule(max_parallel, tests, durations, group_defaults);
            total_time(planned[i].drop_last(), durations, group_defaults) <= total_time(
                planned[j],
                durations,
                group_defaults,
            )
        }),
{
    let n = tests.filter(scheduler::alone()).len();
    let shared = scheduler::shared_batches(max_parallel, tests, durations, group_defaults);
    let row = scheduler::longest_first(tests, durations, group_defaults);
    let width = scheduler::start_width(max_parallel, tests);
    let packed = scheduler::packed(width, row);
    lemma_individual_count(tests);
    let (x, y) = (i - n, j - n);
    lemma_shared_is_packed(max_parallel, tests, durations, group_defaults, x);
    lemma_shared_is_packed(max_parallel, tests, durations, group_defaults, y);
    lemma_shared_batch_times(max_parallel, tests, durations, group_defaults, x);
    lemma_shared_batch_times(max_parallel, tests, durations, group_defaults, y);
    let a = choose|a: int| 0 <= a < packed.len() && packed[a] == shared[x];
    let b = choose|b: int| 0 <= b < packed.len() && packed[b] == shared[y];
    if width == 0 {
        let timed = tests.filter(scheduler::together()).map_values(
            scheduler::timed(durations, group_defaults),
        );
        ranking::ranked_is_a_permutation(timed, ranking::rank_order::<TimedTest>());
        assert(row.len() == 0);
        assert(packed.len() == 0);
    }
    unhindered_packing_is_balanced(width, row);
    assert(scheduler::load(packed[a]) - packed[a].last().nanos <= scheduler::load(packed[b]));
    let front = shared[x].drop_last();
    let planned = scheduler::schedule(max_parallel, tests, durations, group_defaults);
    assert(planned[i].drop_last() =~= scheduler::untimed()(front));
    assert forall|k: int| 0 <= k < front.len() implies (#[trigger] front[k]).nanos == time_of(
        front[k].test,
        durations,
        group_defaults,
    ) by {
        assert(front[k] == shared[x][k]);
    }
    lemma_load_is_total_time(front, durations, group_defaults);
}

/// When a batch is handed out, the others move up, and what follows from it
/// goes behind them: nothing unless batches are queued again; the halves of a
/// batch of several tests; a single test with one retry more, as long as it
/// had fewer than three.
pub proof fn what_is_queued_again_goes_to_the_back(queue: Seq<BatchView>, impatient: bool)
    requires
        queue.len() > 0,
    ensures
        ({
            let next = scheduler::after_pop(queue, impatient);
            let n = queue.len() - 1;
            let b = queue[0];
            &&& next.len() >= n
            &&& next.take(n) == queue.skip(1)
            &&& !impatient ==> next.len() == n
            &&& impatient && b.tests.len() > 1 ==> next.len() == n + 2 && next[n].tests
                + next[n + 1].tests == b.tests && next[n].retries == 0 && next[n + 1].retries == 0
            &&& impatient && b.tests.len() <= 1 && b.retries < 3 ==> next.len() == n + 1
                && next[n].tests == b.tests && next[n].retries == b.retries + 1
            &&& impatient && b.tests.len() <= 1 && b.retries >= 3 ==> next.len() == n
        }),
{
    let next = scheduler::after_pop(queue, impatient);
    let n = queue.len() - 1;
    let b = queue[0];
    assert(next.take(n) =~= queue.skip(1));
    if impatient && b.tests.len() > 1 {
        assert(next[n].tests + next[n + 1].tests =~= b.tests);
    }
}

/// Batches are first queued as they are, without retries.
pub proof fn batches_start_without_retries(tests: Seq<TestInstance>)
    ensures
        scheduler::fresh()(tests).tests == tests,
        scheduler::fresh()(tests).retries == 0,
{
}

} // verus!
