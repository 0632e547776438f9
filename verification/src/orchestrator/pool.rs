//! Sandbox pool for reusing sandboxes across test runs.

use crate::config::schema;
use crate::config::schema::{SandboxConfig, SandboxConfigView};
use crate::provider::command::ProviderError;
use crate::ranking;
use crate::text;
use vstd::prelude::*;

verus! {

/// Id of the `i`-th sandbox of a pool.
pub open spec fn pooled_id(id: Seq<char>, i: nat) -> Seq<char> {
    id + "-"@ + text::decimal(i)
}

/// Configuration of the `i`-th sandbox of a pool.
pub open spec fn pooled_config(config: SandboxConfigView, i: nat) -> SandboxConfigView {
    SandboxConfigView { id: pooled_id(config.id, i), ..config }
}

/// Views of configurations, in order.
pub open spec fn config_views(configs: Seq<SandboxConfig>) -> Seq<SandboxConfigView> {
    configs.map_values(|c: SandboxConfig| c@)
}

/// Number of sandboxes at the front that were created.
pub open spec fn created_count<S>(created: Seq<Result<S, ProviderError>>) -> nat
    decreases created.len(),
{
    if created.len() > 0 && created[0] is Ok {
        1 + created_count(created.skip(1))
    } else {
        0
    }
}

/// A pool of reusable sandboxes.
///
/// Sandboxes are added to the pool after initial test execution and can be
/// reused for retry attempts.
pub struct SandboxPool<S> {
    sandboxes: Vec<S>,
}

impl<S> SandboxPool<S> {
    /// The sandboxes in the pool.
    pub closed spec fn held(&self) -> Seq<S> {
        self.sandboxes@
    }

    /// Creates a new empty sandbox pool.
    pub fn new() -> (r: Self)
        ensures
            r.held() == Seq::<S>::empty(),
    {
        SandboxPool { sandboxes: Vec::new() }
    }

    /// The configurations of `count` sandboxes to create: `config` with the
    /// number of the sandbox behind its id.
    pub fn planned(count: usize, config: &SandboxConfig) -> (r: Vec<SandboxConfig>)
        ensures
            config_views(r@) == Seq::new(
                count as nat,
                |i: int| pooled_config(config@, i as nat),
            ),
    {
        let mut out: Vec<SandboxConfig> = Vec::new();
        let mut i: usize = 0;
        while i < count
            invariant
                0 <= i <= count,
                out@.len() == i,
                forall|j: int|
                    0 <= j < i ==> (#[trigger] out@[j])@ == pooled_config(config@, j as nat),
            decreases count - i,
        {
            let mut id: String = config.id.clone();
            text::push_text(&mut id, "-");
            let number = text::decimal_text(i as u64);
            text::push_text(&mut id, number.as_str());
            let one = SandboxConfig {
                id,
                working_dir: schema::copy_option(&config.working_dir),
                env: schema::copy_pairs(&config.env),
                copy_dirs: schema::copy_pairs(&config.copy_dirs),
            };
            out.push(one);
            i += 1;
        }
        proof {
            assert(config_views(out@) =~= Seq::new(
                count as nat,
                |i: int| pooled_config(config@, i as nat),
            ));
        }
        out
    }

    /// Populates the pool with sandboxes in the order in which their creation
    /// ended, failing fast if any creation failed.
    ///
    /// # Errors
    ///
    /// Returns the first error encountered during sandbox creation. The
    /// sandboxes created before it stay in the pool.
    pub fn populate(&mut self, created: Vec<Result<S, ProviderError>>) -> (r: Result<
        (),
        ProviderError,
    >)
        ensures
            ({
                let n = created_count(created@);
                &&& n <= created@.len()
                &&& final(self).held() == old(self).held() + Seq::new(
                    n,
                    |i: int| created@[i]->Ok_0,
                )
                &&& match r {
                    Ok(_) => n == created@.len(),
                    Err(e) => n < created@.len() && created@[n as int] == Err::<S, ProviderError>(
                        e,
                    ),
                }
            }),
    {
        let ghost all = created@;
        let ghost start = self.held();
        let mut back = ranking::reversed(created);
        let ghost mut done: nat = 0;
        proof {
            assert(back@.reverse() =~= all);
            assert(all.skip(0) =~= all);
            assert(start + Seq::new(0, |i: int| all[i]->Ok_0) =~= start);
        }
        while back.len() > 0
            invariant
                done <= all.len(),
                all == created@,
                back@.len() == all.len() - done,
                back@.reverse() == all.skip(done as int),
                done + created_count(all.skip(done as int)) == created_count(all),
                self.held() == start + Seq::new(done, |i: int| all[i]->Ok_0),
                start == old(self).held(),
            decreases back@.len(),
        {
            let ghost back0 = back@;
            let ghost held0 = self.held();
            if let Some(c) = back.pop() {
                proof {
                    assert(c == back0.reverse()[0]);
                    assert(c == all[done as int]);
                    assert(all.skip(done as int)[0] == c);
                    assert(back@.reverse() =~= back0.reverse().skip(1));
                    assert(all.skip(done as int).skip(1) =~= all.skip((done + 1) as int));
                }
                match c {
                    Ok(sandbox) => {
                        self.sandboxes.push(sandbox);
                        proof {
                            done = done + 1;
                            assert(self.held() =~= held0.push(sandbox));
                            assert(start + Seq::new(done, |i: int| all[i]->Ok_0) =~= held0.push(
                                sandbox,
                            ));
                        }
                    },
                    Err(e) => {
                        return Err(e);
                    },
                }
            }
        }
        proof {
            assert(created_count(all.skip(done as int)) == 0);
        }
        Ok(())
    }

    /// Takes all sandboxes out of the pool for parallel execution.
    ///
    /// The pool will be empty after this call.
    pub fn take_all(&mut self) -> (r: Vec<S>)
        ensures
            r@ == old(self).held(),
            final(self).held() == Seq::<S>::empty(),
    {
        let mut out: Vec<S> = Vec::new();
        std::mem::swap(&mut out, &mut self.sandboxes);
        out
    }
}

impl<S> Default for SandboxPool<S> {
    fn default() -> (r: Self)
        ensures
            r.held() == Seq::<S>::empty(),
    {
        Self::new()
    }
}

/// No two sandboxes of a pool have one id.
pub proof fn pooled_ids_are_unique(id: Seq<char>, i: nat, j: nat)
    requires
        i != j,
    ensures
        pooled_id(id, i) != pooled_id(id, j),
{
    let front = id + "-"@;
    let a = text::decimal(i);
    let b = text::decimal(j);
    if front + a == front + b {
        assert((front + a).skip(front.len() as int) =~= a);
        assert((front + b).skip(front.len() as int) =~= b);
        text::decimal_is_injective(i, j);
    }
}

/// Creation stops at the first error: all before it were created, and there is
/// none where all were.
pub proof fn creation_stops_at_the_first_error<S>(created: Seq<Result<S, ProviderError>>)
    ensures
        created_count(created) <= created.len(),
        forall|i: int| 0 <= i < created_count(created) ==> (#[trigger] created[i]) is Ok,
        created_count(created) < created.len() ==> created[created_count(created) as int] is Err,
    decreases created.len(),
{
    if created.len() > 0 && created[0] is Ok {
        let rest = created.skip(1);
        creation_stops_at_the_first_error(rest);
        assert forall|i: int| 0 <= i < created_count(created) implies (
        #[trigger] created[i]) is Ok by {
            if i > 0 {
                assert(rest[i - 1] is Ok);
            }
        }
    }
}

/// A sandbox of a pool differs from what was configured in its id only, which
/// is the configured one, a dash and the number of the sandbox.
pub proof fn pooled_sandboxes_differ_in_their_ids(config: SandboxConfigView, i: nat)
    ensures
        ({
            let c = pooled_config(config, i);
            let n = config.id.len() as int;
            &&& c.id.len() > n + 1
            &&& c.id.take(n) == config.id
            &&& c.id[n] == '-'
            &&& text::number(c.id.skip(n + 1)) == i
            &&& c.working_dir == config.working_dir
            &&& c.env == config.env
            &&& c.copy_dirs == config.copy_dirs
        }),
{
    let c = pooled_config(config, i);
    let n = config.id.len() as int;
    reveal_strlit("-");
    text::decimal_reads_as_the_number(i);
    assert(c.id.take(n) =~= config.id);
    assert(c.id.skip(n + 1) =~= text::decimal(i));
}

} // verus!
