use vstd::prelude::*;
use std::collections::BTreeSet;
use crate::plan::{post_views, Action, PostAction, StepStatus};

verus! {

broadcast use vstd::laws_cmp::group_laws_cmp;

/// Admission counter's initial value; one slot is kept as headroom, so at
/// most four steps run at once.
pub const DEFAULT_CONCURRENCY_LIMIT: usize = 5;

/// One unit of reconciliation work.
pub struct Step {
    pub id: usize,
    pub action: Action,
    pub status: StepStatus,
    /// Steps that must complete successfully before this one may start.
    pub depends_on: BTreeSet<usize>,
}

/// What a finished step reports back to the executor.
pub struct StepOutcome {
    /// The runtime identifier of the resource the step resolved, if any.
    pub resolved: Option<String>,
    /// Compensating actions to run if the whole run fails.
    pub backtrack: Vec<PostAction>,
    /// Deferred actions to run if the whole run succeeds.
    pub finalize: Vec<PostAction>,
    /// The step's error, if it failed.
    pub failure: Option<String>,
}

/// Step store, scheduler state, resolved-reference tables and post-action
/// queues of one run.
pub struct Executor {
    pub steps: Vec<Step>,
    pub ready: Vec<usize>,
    pub slots: usize,
    pub started: bool,
    pub failures: Vec<String>,
    pub backtrack: Vec<PostAction>,
    pub finalize: Vec<PostAction>,
    pub resolved_images: Vec<Option<String>>,
    pub resolved_networks: Vec<Option<String>>,
    pub resolved_volumes: Vec<Option<String>>,
    pub resolved_secrets: Vec<Option<String>>,
}

pub open spec fn running_count(s: Seq<Step>) -> nat
    decreases s.len(),
{
    if s.len() == 0 {
        0
    } else {
        running_count(s.drop_last()) + if s.last().status == StepStatus::Running { 1nat } else { 0nat }
    }
}

pub open spec fn running_weight(st: Step) -> nat {
    if st.status == StepStatus::Running { 1nat } else { 0nat }
}

proof fn lemma_running_update(s: Seq<Step>, i: int, x: Step)
    requires
        0 <= i < s.len(),
    ensures
        running_count(s.update(i, x)) + running_weight(s[i]) == running_count(s) + running_weight(x),
    decreases s.len(),
{
    let t = s.update(i, x);
    if i == s.len() - 1 {
        assert(t.drop_last() =~= s.drop_last());
    } else {
        assert(t.drop_last() =~= s.drop_last().update(i, x));
        lemma_running_update(s.drop_last(), i, x);
    }
}

proof fn lemma_running_zero(s: Seq<Step>)
    requires
        running_count(s) == 0,
    ensures
        forall|i: int| 0 <= i < s.len() ==> s[i].status != StepStatus::Running,
    decreases s.len(),
{
    if s.len() > 0 {
        lemma_running_zero(s.drop_last());
        assert forall|i: int| 0 <= i < s.len() implies s[i].status != StepStatus::Running by {
            if i < s.len() - 1 {
                assert(s[i] == s.drop_last()[i]);
            }
        }
    }
}

proof fn lemma_running_push(s: Seq<Step>, x: Step)
    ensures
        running_count(s.push(x)) == running_count(s) + running_weight(x),
{
    assert(s.push(x).drop_last() =~= s);
}

/// The value recorded for reference `r`, if any.
pub open spec fn table_get(t: Seq<Option<String>>, r: usize) -> Option<Seq<char>> {
    if r < t.len() {
        match t[r as int] {
            Some(v) => Some(v@),
            None => None,
        }
    } else {
        None
    }
}

/// How a table changes when a step reports: the value is recorded for the
/// step's reference if that entry was unset, and nothing else changes.
pub open spec fn table_after(
    before: Seq<Option<String>>,
    after: Seq<Option<String>>,
    r: Option<usize>,
    v: Option<Seq<char>>,
) -> bool {
    forall|q: usize|
        #[trigger] table_get(after, q) == if r == Some(q) && v is Some && table_get(before, q) is None {
            v
        } else {
            table_get(before, q)
        }
}

/// The value a report records: the resolved identifier of a successful step.
pub open spec fn recorded_value(o: StepOutcome) -> Option<Seq<char>> {
    if o.failure is None {
        match o.resolved {
            Some(v) => Some(v@),
            None => None,
        }
    } else {
        None
    }
}

pub open spec fn image_ref(a: Action) -> Option<usize> {
    match a {
        Action::Image(x) => Some(x.resolved.0),
        _ => None,
    }
}

pub open spec fn network_ref(a: Action) -> Option<usize> {
    match a {
        Action::Network(x) => Some(x.resolved.0),
        _ => None,
    }
}

pub open spec fn volume_ref(a: Action) -> Option<usize> {
    match a {
        Action::Volume(x) => Some(x.resolved.0),
        _ => None,
    }
}

pub open spec fn secret_ref(a: Action) -> Option<usize> {
    match a {
        Action::Secret(x) => Some(x.resolved.0),
        _ => None,
    }
}

/// Records `v` for `r` unless a value is already there: entries are never
/// overwritten.
fn table_record(t: &mut Vec<Option<String>>, r: usize, v: String)
    ensures
        forall|q: usize| q != r ==> table_get(final(t)@, q) == table_get(old(t)@, q),
        table_get(final(t)@, r) == match table_get(old(t)@, r) {
            Some(x) => Some(x),
            None => Some(v@),
        },
{
    while t.len() <= r
        invariant
            forall|q: usize| table_get(t@, q) == table_get(old(t)@, q),
        decreases r + 1 - t.len(),
    {
        t.push(None);
    }
    if t[r].is_none() {
        t.set(r, Some(v));
    }
}

fn table_lookup(t: &Vec<Option<String>>, r: usize) -> (res: Option<String>)
    ensures
        match res {
            Some(v) => table_get(t@, r) == Some(v@),
            None => table_get(t@, r) is None,
        },
{
    if r < t.len() {
        match &t[r] {
            Some(v) => Some(v.clone()),
            None => None,
        }
    } else {
        None
    }
}

/// A post-action equal to `p`.
pub fn copy_post(p: &PostAction) -> (r: PostAction)
    ensures
        r@ == p@,
{
    match p {
        PostAction::DeleteContainer { id } => PostAction::DeleteContainer { id: id.clone() },
        PostAction::RestartContainer { id } => PostAction::RestartContainer { id: id.clone() },
        PostAction::DeleteNetwork { id } => PostAction::DeleteNetwork { id: id.clone() },
        PostAction::DeleteVolume { name } => PostAction::DeleteVolume { name: name.clone() },
    }
}

/// Appends copies of `src`, in order, to `dst`.
pub fn append_posts(dst: &mut Vec<PostAction>, src: &Vec<PostAction>)
    ensures
        post_views(final(dst)@) == post_views(old(dst)@) + post_views(src@),
{
    let ghost d0 = post_views(dst@);
    let mut i: usize = 0;
    while i < src.len()
        invariant
            i <= src.len(),
            post_views(dst@) == d0 + post_views(src@.subrange(0, i as int)),
        decreases src.len() - i,
    {
        let p = copy_post(&src[i]);
        let ghost before = dst@;
        dst.push(p);
        proof {
            assert(post_views(dst@) =~= post_views(before).push(p@));
            assert(post_views(src@.subrange(0, i + 1)) =~= post_views(src@.subrange(0, i as int)).push(
                src@[i as int]@,
            ));
        }
        i += 1;
    }
    assert(src@.subrange(0, src.len() as int) =~= src@);
}

impl Executor {
    /// The scheduler's invariant.
    pub open spec fn wf(&self) -> bool {
        let s = self.steps@;
        &&& forall|i: int| 0 <= i < s.len() ==> (#[trigger] s[i]).id == i
        &&& forall|i: int, d: usize|
            0 <= i < s.len() && #[trigger] s[i].depends_on@.contains(d) ==> d < i
        &&& self.slots + running_count(s) == DEFAULT_CONCURRENCY_LIMIT
        &&& self.ready@.no_duplicates()
        &&& forall|k: int|
            0 <= k < self.ready.len() ==> {
                &&& (#[trigger] self.ready@[k]) < s.len()
                &&& s[self.ready@[k] as int].status == StepStatus::Queued
                &&& s[self.ready@[k] as int].depends_on@.is_empty()
            }
        &&& forall|i: int|
            0 <= i < s.len() && (#[trigger] s[i]).status != StepStatus::Queued
                ==> s[i].depends_on@.is_empty()
        &&& !self.started ==> forall|i: int| 0 <= i < s.len() ==> (#[trigger] s[i]).status
            == StepStatus::Queued
        &&& (self.started && self.failures.len() == 0) ==> forall|i: int|
            0 <= i < s.len() && (#[trigger] s[i]).status == StepStatus::Queued
                && s[i].depends_on@.is_empty() ==> self.ready@.contains(i as usize)
        &&& (self.started && self.failures.len() == 0) ==> forall|i: int, c: usize|
            0 <= i < s.len() && c < s.len() && s[c as int].status == StepStatus::Complete
                ==> !#[trigger] s[i].depends_on@.contains(c)
    }

    /// Whether no step is in flight and nothing more will be admitted.
    pub open spec fn finished(&self) -> bool {
        &&& self.started
        &&& self.slots == DEFAULT_CONCURRENCY_LIMIT
        &&& (self.ready.len() == 0 || self.failures.len() > 0)
    }

    pub fn new() -> (r: Executor)
        ensures
            r.wf(),
            r.steps.len() == 0,
            !r.started,
            r.failures.len() == 0,
            r.backtrack.len() == 0,
            r.finalize.len() == 0,
    {
        Executor {
            steps: Vec::new(),
            ready: Vec::new(),
            slots: DEFAULT_CONCURRENCY_LIMIT,
            started: false,
            failures: Vec::new(),
            backtrack: Vec::new(),
            finalize: Vec::new(),
            resolved_images: Vec::new(),
            resolved_networks: Vec::new(),
            resolved_volumes: Vec::new(),
            resolved_secrets: Vec::new(),
        }
    }

    /// Adds a queued step and returns its ID, the number of steps before it.
    /// Dependencies name earlier steps only, which keeps the graph acyclic.
    pub fn new_step(&mut self, action: Action, depends_on: BTreeSet<usize>) -> (id: usize)
        requires
            old(self).wf(),
            !old(self).started,
            old(self).steps.len() < usize::MAX,
            forall|d: usize| depends_on@.contains(d) ==> d < old(self).steps.len(),
        ensures
            final(self).wf(),
            id == old(self).steps.len(),
            final(self).steps@ == old(self).steps@.push(
                Step { id, action, status: StepStatus::Queued, depends_on },
            ),
            final(self).started == old(self).started,
            final(self).failures@ == old(self).failures@,
            final(self).backtrack@ == old(self).backtrack@,
            final(self).finalize@ == old(self).finalize@,
    {
        let id = self.steps.len();
        let step = Step { id, action, status: StepStatus::Queued, depends_on };
        proof {
            lemma_running_push(self.steps@, step);
        }
        self.steps.push(step);
        id
    }
}

impl Executor {
    /// Queues every step that has no dependencies; the run starts here.
    pub fn start(&mut self)
        requires
            old(self).wf(),
            !old(self).started,
        ensures
            final(self).wf(),
            final(self).started,
            final(self).steps@ == old(self).steps@,
            final(self).failures@ == old(self).failures@,
            final(self).backtrack@ == old(self).backtrack@,
            final(self).finalize@ == old(self).finalize@,
            forall|i: usize|
                final(self).ready@.contains(i) <==> (i < final(self).steps.len()
                    && final(self).steps@[i as int].depends_on@.is_empty()),
    {
        let n = self.steps.len();
        let mut ready: Vec<usize> = Vec::new();
        let mut i: usize = 0;
        while i < n
            invariant
                n == self.steps.len(),
                i <= n,
                self.wf(),
                !self.started,
                ready@.no_duplicates(),
                forall|k: int| 0 <= k < ready.len() ==> (#[trigger] ready@[k]) < i
                    && self.steps@[ready@[k] as int].depends_on@.is_empty(),
                forall|j: usize|
                    ready@.contains(j) <==> (j < i && self.steps@[j as int].depends_on@.is_empty()),
            decreases n - i,
        {
            let ghost before = ready@;
            if self.steps[i].depends_on.is_empty() {
                ready.push(i);
                proof {
                    assert forall|j: usize| ready@.contains(j) <==> (j < i + 1 && self.steps@[j as int].depends_on@.is_empty()) by {
                        if before.contains(j) {
                            let k = choose|k: int| 0 <= k < before.len() && before[k] == j;
                            assert(ready@[k] == j);
                        }
                        if j == i {
                            assert(ready@[before.len() as int] == j);
                        }
                        if ready@.contains(j) && j != i {
                            let k = choose|k: int| 0 <= k < ready.len() && ready@[k] == j;
                            assert(k < before.len());
                            assert(before[k] == j);
                        }
                    }
                }
            } else {
                proof {
                    assert forall|j: usize| ready@.contains(j) <==> (j < i + 1 && self.steps@[j as int].depends_on@.is_empty()) by {
                        if j == i && ready@.contains(j) {
                            let k = choose|k: int| 0 <= k < ready.len() && ready@[k] == j;
                            assert(ready@[k] < i);
                        }
                    }
                }
            }
            i += 1;
        }
        self.ready = ready;
        self.started = true;
    }

    /// Takes the next ready step and marks it running, when no failure has
    /// been seen and an admission slot beyond the reserved one is free.
    pub fn dispatch(&mut self) -> (r: Option<usize>)
        requires
            old(self).wf(),
        ensures
            final(self).wf(),
            final(self).started == old(self).started,
            final(self).failures@ == old(self).failures@,
            final(self).backtrack@ == old(self).backtrack@,
            final(self).finalize@ == old(self).finalize@,
            final(self).steps.len() == old(self).steps.len(),
            (old(self).started && old(self).failures.len() == 0 && old(self).slots > 1
                && old(self).ready.len() > 0) == r is Some,
            match r {
                Some(id) => {
                    &&& id == old(self).ready@.last()
                    &&& final(self).ready@ == old(self).ready@.drop_last()
                    &&& final(self).slots == old(self).slots - 1
                    &&& final(self).steps@[id as int].status == StepStatus::Running
                    &&& final(self).steps@[id as int].depends_on@.is_empty()
                    &&& forall|j: int| 0 <= j < final(self).steps.len() && j != id
                        ==> final(self).steps@[j] == old(self).steps@[j]
                },
                None => final(self).steps@ == old(self).steps@ && final(self).ready@ == old(self).ready@
                    && final(self).slots == old(self).slots,
            },
    {
        if !self.started || self.failures.len() > 0 || self.slots <= 1 || self.ready.len() == 0 {
            return None;
        }
        let ghost pre = *self;
        let id = self.ready.pop().unwrap();
        set_status(&mut self.steps, id, StepStatus::Running);
        self.slots = self.slots - 1;
        proof {
            lemma_dispatch_keeps_wf(pre, *self, id);
        }
        Some(id)
    }

    /// Records the report of a running step: the step becomes complete, its
    /// slot is returned and its post-actions are queued. On success its
    /// resolved value is recorded and, while no failure has been seen, every
    /// queued step waiting only on it becomes ready. A failure stops
    /// admission; steps in flight still report.
    pub fn complete(&mut self, id: usize, outcome: StepOutcome)
        requires
            old(self).wf(),
            id < old(self).steps.len(),
            old(self).steps@[id as int].status == StepStatus::Running,
        ensures
            final(self).wf(),
            final(self).started == old(self).started,
            final(self).steps.len() == old(self).steps.len(),
            final(self).slots == old(self).slots + 1,
            final(self).steps@[id as int].status == StepStatus::Complete,
            post_views(final(self).backtrack@) == post_views(old(self).backtrack@) + post_views(
                outcome.backtrack@,
            ),
            post_views(final(self).finalize@) == post_views(old(self).finalize@) + post_views(
                outcome.finalize@,
            ),
            final(self).failures@ == match outcome.failure {
                Some(f) => old(self).failures@.push(f),
                None => old(self).failures@,
            },
            forall|j: int|
                0 <= j < final(self).steps.len() ==> (#[trigger] final(self).steps@[j]).action
                    == old(self).steps@[j].action,
            forall|j: int|
                0 <= j < final(self).steps.len() && j != id ==> (#[trigger] final(self).steps@[j]).status
                    == old(self).steps@[j].status,
            forall|j: int|
                0 <= j < final(self).steps.len() ==> (#[trigger] final(self).steps@[j]).depends_on@
                    == old(self).steps@[j].depends_on@ || (outcome.failure is None && old(self).failures.len()
                    == 0 && final(self).steps@[j].depends_on@ == old(self).steps@[j].depends_on@.remove(id)),
            table_after(old(self).resolved_images@, final(self).resolved_images@,
                image_ref(old(self).steps@[id as int].action), recorded_value(outcome)),
            table_after(old(self).resolved_networks@, final(self).resolved_networks@,
                network_ref(old(self).steps@[id as int].action), recorded_value(outcome)),
            table_after(old(self).resolved_volumes@, final(self).resolved_volumes@,
                volume_ref(old(self).steps@[id as int].action), recorded_value(outcome)),
            table_after(old(self).resolved_secrets@, final(self).resolved_secrets@,
                secret_ref(old(self).steps@[id as int].action), recorded_value(outcome)),
    {
        let ghost old_steps = self.steps@;
        set_status(&mut self.steps, id, StepStatus::Complete);
        self.slots = self.slots + 1;
        proof {
            let s = self.steps@;
            assert(s =~= old_steps.update(id as int, s[id as int]));
            lemma_running_update(old_steps, id as int, s[id as int]);
        }
        append_posts(&mut self.backtrack, &outcome.backtrack);
        append_posts(&mut self.finalize, &outcome.finalize);
        match outcome.failure {
            Some(f) => {
                self.failures.push(f);
            },
            None => {
                if let Some(v) = outcome.resolved {
                    match &self.steps[id].action {
                        Action::Image(a) => table_record(&mut self.resolved_images, a.resolved.0, v),
                        Action::Network(a) => table_record(&mut self.resolved_networks, a.resolved.0, v),
                        Action::Volume(a) => table_record(&mut self.resolved_volumes, a.resolved.0, v),
                        Action::Secret(a) => table_record(&mut self.resolved_secrets, a.resolved.0, v),
                        _ => {},
                    }
                }
                if self.failures.len() == 0 {
                    self.release(id);
                }
            },
        }
    }

    /// Removes a completed step from every queued step's dependencies and
    /// makes ready those that have none left.
    fn release(&mut self, id: usize)
        requires
            id < old(self).steps.len(),
            old(self).steps@[id as int].status == StepStatus::Complete,
            old(self).started,
            old(self).failures.len() == 0,
            // the invariant, except that `id` may still be a dependency
            ({
                let s = old(self).steps@;
                &&& forall|i: int| 0 <= i < s.len() ==> (#[trigger] s[i]).id == i
                &&& forall|i: int, d: usize|
                    0 <= i < s.len() && #[trigger] s[i].depends_on@.contains(d) ==> d < i
                &&& old(self).slots + running_count(s) == DEFAULT_CONCURRENCY_LIMIT
                &&& old(self).ready@.no_duplicates()
                &&& forall|k: int|
                    0 <= k < old(self).ready.len() ==> {
                        &&& (#[trigger] old(self).ready@[k]) < s.len()
                        &&& s[old(self).ready@[k] as int].status == StepStatus::Queued
                        &&& s[old(self).ready@[k] as int].depends_on@.is_empty()
                    }
                &&& forall|i: int|
                    0 <= i < s.len() && (#[trigger] s[i]).status != StepStatus::Queued
                        ==> s[i].depends_on@.is_empty()
                &&& forall|i: int|
                    0 <= i < s.len() && (#[trigger] s[i]).status == StepStatus::Queued
                        && s[i].depends_on@.is_empty() ==> old(self).ready@.contains(i as usize)
                &&& forall|i: int, c: usize|
                    0 <= i < s.len() && c < s.len() && c != id && s[c as int].status
                        == StepStatus::Complete ==> !#[trigger] s[i].depends_on@.contains(c)
            }),
        ensures
            final(self).wf(),
            final(self).started == old(self).started,
            final(self).slots == old(self).slots,
            final(self).failures@ == old(self).failures@,
            final(self).backtrack@ == old(self).backtrack@,
            final(self).finalize@ == old(self).finalize@,
            final(self).resolved_images@ == old(self).resolved_images@,
            final(self).resolved_networks@ == old(self).resolved_networks@,
            final(self).resolved_volumes@ == old(self).resolved_volumes@,
            final(self).resolved_secrets@ == old(self).resolved_secrets@,
            final(self).steps.len() == old(self).steps.len(),
            forall|j: int|
                0 <= j < final(self).steps.len() ==> (#[trigger] final(self).steps@[j]).action
                    == old(self).steps@[j].action && final(self).steps@[j].status
                    == old(self).steps@[j].status,
            forall|j: int|
                0 <= j < final(self).steps.len() ==> (#[trigger] final(self).steps@[j]).depends_on@
                    == old(self).steps@[j].depends_on@ || final(self).steps@[j].depends_on@
                    == old(self).steps@[j].depends_on@.remove(id),
    {
        let mut steps: Vec<Step> = Vec::new();
        let mut ready: Vec<usize> = Vec::new();
        std::mem::swap(&mut self.steps, &mut steps);
        std::mem::swap(&mut self.ready, &mut ready);
        let ghost s0 = steps@;
        release_in(&mut steps, &mut ready, id);
        std::mem::swap(&mut self.steps, &mut steps);
        std::mem::swap(&mut self.ready, &mut ready);
        proof {
            let s = self.steps@;
            assert(running_count(s) == running_count(s0)) by {
                lemma_running_same(s, s0);
            }
            assert forall|i: int, c: usize|
                0 <= i < s.len() && c < s.len() && s[c as int].status == StepStatus::Complete
                    implies !#[trigger] s[i].depends_on@.contains(c) by {
                if c != id {
                    assert(!s0[i].depends_on@.contains(c));
                } else if s[i].status != StepStatus::Queued {
                    assert(s0[i].depends_on@.is_empty());
                }
            }
            assert forall|i: int| 0 <= i < s.len() && (#[trigger] s[i]).status != StepStatus::Queued
                implies s[i].depends_on@.is_empty() by {
                assert(s0[i].depends_on@.is_empty());
                assert(s0[i].depends_on@.remove(id) =~= s0[i].depends_on@);
            }
            assert forall|i: int, d: usize| 0 <= i < s.len() && #[trigger] s[i].depends_on@.contains(d)
                implies d < i by {
                assert(s0[i].depends_on@.contains(d));
            }
            assert forall|i: int| 0 <= i < s.len() implies (#[trigger] s[i]).id == i by {
                assert(s0[i].id == i);
            }
        }
    }

    /// The reference's recorded image ID.
    pub fn resolved_image(&self, r: crate::plan::ResolvedImageRef) -> (v: Option<String>)
        ensures
            match v {
                Some(x) => table_get(self.resolved_images@, r.0) == Some(x@),
                None => table_get(self.resolved_images@, r.0) is None,
            },
    {
        table_lookup(&self.resolved_images, r.0)
    }

    /// The reference's recorded network name.
    pub fn resolved_network(&self, r: crate::plan::ResolvedNetworkRef) -> (v: Option<String>)
        ensures
            match v {
                Some(x) => table_get(self.resolved_networks@, r.0) == Some(x@),
                None => table_get(self.resolved_networks@, r.0) is None,
            },
    {
        table_lookup(&self.resolved_networks, r.0)
    }

    /// The reference's recorded volume name.
    pub fn resolved_volume(&self, r: crate::plan::ResolvedVolumeRef) -> (v: Option<String>)
        ensures
            match v {
                Some(x) => table_get(self.resolved_volumes@, r.0) == Some(x@),
                None => table_get(self.resolved_volumes@, r.0) is None,
            },
    {
        table_lookup(&self.resolved_volumes, r.0)
    }

    /// The reference's recorded secret ID.
    pub fn resolved_secret(&self, r: crate::plan::ResolvedSecretRef) -> (v: Option<String>)
        ensures
            match v {
                Some(x) => table_get(self.resolved_secrets@, r.0) == Some(x@),
                None => table_get(self.resolved_secrets@, r.0) is None,
            },
    {
        table_lookup(&self.resolved_secrets, r.0)
    }

    /// Whether the run is over: nothing is in flight and nothing more will
    /// be admitted.
    pub fn is_done(&self) -> (r: bool)
        ensures
            r == self.finished(),
    {
        self.started && self.slots == DEFAULT_CONCURRENCY_LIMIT && (self.ready.len() == 0
            || self.failures.len() > 0)
    }

    /// Whether the step is in flight.
    pub fn is_running(&self, id: usize) -> (r: bool)
        ensures
            r == (id < self.steps.len() && self.steps@[id as int].status == StepStatus::Running),
    {
        id < self.steps.len() && self.steps[id].status == StepStatus::Running
    }

    /// Empties both queues and returns the one the outcome calls for: the
    /// finalize queue after a clean run, the backtrack queue after a failure.
    pub fn take_post_actions(&mut self) -> (r: Vec<PostAction>)
        requires
            old(self).wf(),
            old(self).finished(),
        ensures
            final(self).wf(),
            final(self).backtrack.len() == 0,
            final(self).finalize.len() == 0,
            r@ == if old(self).failures.len() == 0 { old(self).finalize@ } else { old(self).backtrack@ },
            final(self).steps@ == old(self).steps@,
            final(self).failures@ == old(self).failures@,
    {
        let mut backtrack: Vec<PostAction> = Vec::new();
        let mut finalize: Vec<PostAction> = Vec::new();
        std::mem::swap(&mut self.backtrack, &mut backtrack);
        std::mem::swap(&mut self.finalize, &mut finalize);
        if self.failures.len() == 0 {
            finalize
        } else {
            backtrack
        }
    }
}


/// Removes `id` from the dependencies of every queued step that is not ready,
/// and appends to `ready` those left with none.
fn release_in(steps: &mut Vec<Step>, ready: &mut Vec<usize>, id: usize)
    requires
        old(ready)@.no_duplicates(),
        forall|k: int|
            0 <= k < old(ready).len() ==> {
                &&& (#[trigger] old(ready)@[k]) < old(steps).len()
                &&& old(steps)@[old(ready)@[k] as int].status == StepStatus::Queued
                &&& old(steps)@[old(ready)@[k] as int].depends_on@.is_empty()
            },
        forall|i: int|
            0 <= i < old(steps).len() && (#[trigger] old(steps)@[i]).status == StepStatus::Queued
                && old(steps)@[i].depends_on@.is_empty() ==> old(ready)@.contains(i as usize),
    ensures
        final(steps).len() == old(steps).len(),
        forall|i: int| 0 <= i < final(steps).len() ==> (#[trigger] final(steps)@[i]).id == old(steps)@[i].id
            && final(steps)@[i].action == old(steps)@[i].action && final(steps)@[i].status == old(steps)@[i].status,
        forall|i: int| 0 <= i < final(steps).len() ==> (#[trigger] final(steps)@[i]).depends_on@ == old(steps)@[i].depends_on@
            || final(steps)@[i].depends_on@ == old(steps)@[i].depends_on@.remove(id),
        forall|i: int| 0 <= i < final(steps).len() && (#[trigger] final(steps)@[i]).status == StepStatus::Queued
            ==> !final(steps)@[i].depends_on@.contains(id),
        final(ready)@.no_duplicates(),
        forall|k: int|
            0 <= k < final(ready).len() ==> {
                &&& (#[trigger] final(ready)@[k]) < final(steps).len()
                &&& final(steps)@[final(ready)@[k] as int].status == StepStatus::Queued
                &&& final(steps)@[final(ready)@[k] as int].depends_on@.is_empty()
            },
        forall|i: int|
            0 <= i < final(steps).len() && (#[trigger] final(steps)@[i]).status == StepStatus::Queued
                && final(steps)@[i].depends_on@.is_empty() ==> final(ready)@.contains(i as usize),
{
    let n = steps.len();
        let ghost s0 = steps@;
        let ghost r0 = ready@;
        let mut j: usize = 0;
        while j < n
            invariant
                n == steps.len(),
                j <= n,
                forall|i: int| 0 <= i < n ==> (#[trigger] steps@[i]).id == s0[i].id
                    && steps@[i].action == s0[i].action && steps@[i].status == s0[i].status,
                forall|i: int| j <= i < n ==> (#[trigger] steps@[i]).depends_on@ == s0[i].depends_on@,
                forall|i: int| 0 <= i < j ==> (#[trigger] steps@[i]).depends_on@ == s0[i].depends_on@
                    || steps@[i].depends_on@ == s0[i].depends_on@.remove(id),
                forall|i: int| 0 <= i < j && (#[trigger] steps@[i]).status == StepStatus::Queued
                    ==> !steps@[i].depends_on@.contains(id),
                ready@.no_duplicates(),
                r0.len() <= ready.len(),
                forall|k: int| 0 <= k < r0.len() ==> ready@[k] == r0[k],
                forall|k: int|
                    0 <= k < ready.len() ==> {
                        &&& (#[trigger] ready@[k]) < n
                        &&& steps@[ready@[k] as int].status == StepStatus::Queued
                        &&& steps@[ready@[k] as int].depends_on@.is_empty()
                    },
                forall|k: int| r0.len() <= k < ready.len() ==> (#[trigger] ready@[k]) < j,
                forall|i: int|
                    0 <= i < n && (#[trigger] s0[i]).status == StepStatus::Queued
                        && s0[i].depends_on@.is_empty() ==> r0.contains(i as usize),
                forall|i: int|
                    0 <= i < j && (#[trigger] steps@[i]).status == StepStatus::Queued
                        && steps@[i].depends_on@.is_empty() ==> ready@.contains(i as usize),
            decreases n - j,
        {
            let ghost ready_before = ready@;
            let ghost mut pushed = false;
            if !vec_contains(&ready, j) && steps[j].status == StepStatus::Queued {
                let removed = steps[j].depends_on.remove(&id);
                if removed && steps[j].depends_on.is_empty() {
                    ready.push(j);
                    proof {
                        pushed = true;
                    }
                    proof {
                        assert forall|k: int| 0 <= k < ready_before.len() implies ready_before[k] != j by {
                            assert(ready_before.contains(ready_before[k]));
                        }
                    }
                }
            }
            assert(pushed ==> ready@ == ready_before.push(j));
            assert(!pushed ==> ready@ == ready_before);
            assert(!pushed && !ready_before.contains(j) && steps@[j as int].status == StepStatus::Queued
                ==> (steps@[j as int].depends_on@ == s0[j as int].depends_on@ || !steps@[j as int].depends_on@.is_empty()));
            proof {
                assert forall|k: int| 0 <= k < r0.len() implies ready@[k] == r0[k] by {
                    assert(ready@[k] == ready_before[k]);
                }
                assert forall|i: int|
                    0 <= i < j + 1 && (#[trigger] steps@[i]).status == StepStatus::Queued
                        && steps@[i].depends_on@.is_empty() implies ready@.contains(i as usize) by {
                    if i < j {
                        assert(ready_before.contains(i as usize));
                        let k = choose|k: int| 0 <= k < ready_before.len() && ready_before[k] == i as usize;
                        assert(ready@[k] == i as usize);
                    } else if pushed {
                        assert(ready@[ready.len() - 1] == j);
                    } else if ready_before.contains(i as usize) {
                        let k = choose|k: int| 0 <= k < ready_before.len() && ready_before[k] == i as usize;
                        assert(ready@[k] == i as usize);
                    } else {
                        assert(s0[i].depends_on@.is_empty());
                        assert(r0.contains(i as usize));
                        let k = choose|k: int| 0 <= k < r0.len() && r0[k] == i as usize;
                        assert(ready@[k] == i as usize);
                    }
                }
            }
            j += 1;
        }
}

proof fn lemma_running_same(s: Seq<Step>, t: Seq<Step>)
    requires
        s.len() == t.len(),
        forall|i: int| 0 <= i < s.len() ==> (#[trigger] s[i]).status == t[i].status,
    ensures
        running_count(s) == running_count(t),
    decreases s.len(),
{
    if s.len() > 0 {
        assert forall|i: int| 0 <= i < s.len() - 1 implies (#[trigger] s.drop_last()[i]).status
            == t.drop_last()[i].status by {
            assert(s[i].status == t[i].status);
        }
        lemma_running_same(s.drop_last(), t.drop_last());
    }
}

proof fn lemma_dispatch_keeps_wf(pre: Executor, post: Executor, id: usize)
    requires
        pre.wf(),
        pre.started,
        pre.failures.len() == 0,
        pre.ready.len() > 0,
        pre.slots > 1,
        id == pre.ready@.last(),
        post.ready@ == pre.ready@.drop_last(),
        post.slots == pre.slots - 1,
        post.started == pre.started,
        post.failures@ == pre.failures@,
        post.steps.len() == pre.steps.len(),
        post.steps@[id as int].status == StepStatus::Running,
        post.steps@[id as int].id == pre.steps@[id as int].id,
        post.steps@[id as int].action == pre.steps@[id as int].action,
        post.steps@[id as int].depends_on == pre.steps@[id as int].depends_on,
        forall|j: int| 0 <= j < post.steps.len() && j != id ==> post.steps@[j] == pre.steps@[j],
    ensures
        post.wf(),
        post.steps@[id as int].depends_on@.is_empty(),
{
    let s = post.steps@;
    let old_ready = pre.ready@;
    assert(old_ready[old_ready.len() - 1] == id);
    assert(s =~= pre.steps@.update(id as int, s[id as int]));
    lemma_running_update(pre.steps@, id as int, s[id as int]);
    assert forall|k: int| 0 <= k < post.ready.len() implies (#[trigger] post.ready@[k]) != id by {
        assert(old_ready[k] == post.ready@[k]);
    }
    assert forall|k: int| 0 <= k < post.ready.len() implies {
        &&& (#[trigger] post.ready@[k]) < s.len()
        &&& s[post.ready@[k] as int].status == StepStatus::Queued
        &&& s[post.ready@[k] as int].depends_on@.is_empty()
    } by {
        assert(old_ready[k] == post.ready@[k]);
    }
    assert forall|i: int|
        0 <= i < s.len() && (#[trigger] s[i]).status == StepStatus::Queued
            && s[i].depends_on@.is_empty() implies post.ready@.contains(i as usize) by {
        assert(old_ready.contains(i as usize));
        let k = choose|k: int| 0 <= k < old_ready.len() && old_ready[k] == i as usize;
        assert(k != old_ready.len() - 1);
        assert(post.ready@[k] == i as usize);
    }
    assert forall|i: int, c: usize|
        0 <= i < s.len() && c < s.len() && s[c as int].status == StepStatus::Complete
            implies !#[trigger] s[i].depends_on@.contains(c) by {
        assert(pre.steps@[c as int].status == StepStatus::Complete);
    }
}

fn set_status(steps: &mut Vec<Step>, id: usize, st: StepStatus)
    requires
        id < old(steps).len(),
    ensures
        final(steps).len() == old(steps).len(),
        final(steps)@[id as int].status == st,
        final(steps)@[id as int].id == old(steps)@[id as int].id,
        final(steps)@[id as int].action == old(steps)@[id as int].action,
        final(steps)@[id as int].depends_on == old(steps)@[id as int].depends_on,
        forall|j: int| 0 <= j < final(steps).len() && j != id ==> final(steps)@[j] == old(steps)@[j],
{
    steps[id].status = st;
}

fn vec_contains(v: &Vec<usize>, x: usize) -> (r: bool)
    ensures
        r == v@.contains(x),
{
    let mut i: usize = 0;
    while i < v.len()
        invariant
            i <= v.len(),
            forall|k: int| 0 <= k < i ==> v@[k] != x,
        decreases v.len() - i,
    {
        if v[i] == x {
            return true;
        }
        i += 1;
    }
    false
}

/// A run that finished without failure leaves no step behind: with no step
/// in flight and none ready, every step has completed.
pub proof fn lemma_clean_run_completes_every_step(e: &Executor)
    requires
        e.wf(),
        e.finished(),
        e.failures.len() == 0,
    ensures
        forall|i: int| 0 <= i < e.steps.len() ==> (#[trigger] e.steps@[i]).status == StepStatus::Complete,
{
    let s = e.steps@;
    lemma_running_zero(s);
    assert forall|i: int| 0 <= i < s.len() implies (#[trigger] s[i]).status == StepStatus::Complete by {
        lemma_not_queued(e, i);
    }
}

proof fn lemma_not_queued(e: &Executor, i: int)
    requires
        e.wf(),
        e.finished(),
        e.failures.len() == 0,
        0 <= i < e.steps.len(),
        forall|k: int| 0 <= k < e.steps.len() ==> (#[trigger] e.steps@[k]).status != StepStatus::Running,
    ensures
        e.steps@[i].status == StepStatus::Complete,
    decreases i,
{
    let s = e.steps@;
    if s[i].status == StepStatus::Queued {
        assert forall|d: usize| !s[i].depends_on@.contains(d) by {
            if s[i].depends_on@.contains(d) {
                assert(d < i);
                lemma_not_queued(e, d as int);
            }
        }
        assert(s[i].depends_on@ =~= Set::empty());
        assert(e.ready@.contains(i as usize));
    }
}

} // verus!
