//! The plan builder: reconcile the catalog against the executed set and
//! produce an ordered, direction-aware plan, or fail closed.

use vstd::prelude::*;

use crate::catalog::{MigrationState, MigrationView};
use crate::text::copy_bytes;

verus! {

/// A migration recorded as executed in the bookkeeping table.
/// `executed_at` is in epoch seconds; legacy rows may lack it.
#[derive(Debug, PartialEq, Eq)]
pub struct ExecutedMigration {
    pub id: u32,
    pub executed_at: Option<i64>,
}

/// One unit of planned work: the id, the label, and the SQL text already
/// resolved for the plan's direction.
#[derive(Debug, PartialEq, Eq)]
pub struct MigrationStep {
    pub id: u32,
    pub label: Option<Vec<u8>>,
    pub sql: Vec<u8>,
}

/// Mathematical image of a step.
#[verifier::ext_equal]
pub struct StepView {
    pub id: u32,
    pub label: Option<Seq<u8>>,
    pub sql: Seq<u8>,
}

impl View for MigrationStep {
    type V = StepView;

    open spec fn view(&self) -> StepView {
        StepView {
            id: self.id,
            label: match self.label {
                Some(l) => Some(l@),
                None => None,
            },
            sql: self.sql@,
        }
    }
}

impl DeepView for MigrationStep {
    type V = StepView;

    open spec fn deep_view(&self) -> StepView {
        self.view()
    }
}

/// Mathematical image of a plan.
#[verifier::ext_equal]
pub struct PlanView {
    pub steps: Seq<StepView>,
    pub is_upgrade: bool,
}

/// An ordered, directional plan.  Steps ascend by id for upgrades and
/// descend for downgrades; an empty plan is a valid no-op.
#[derive(Debug)]
pub struct MigrationPlan {
    steps: Vec<MigrationStep>,
    is_upgrade: bool,
}

impl View for MigrationPlan {
    type V = PlanView;

    closed spec fn view(&self) -> PlanView {
        PlanView { steps: self.steps.deep_view(), is_upgrade: self.is_upgrade }
    }
}

impl MigrationPlan {
    /// The planned steps, in execution order.
    pub fn steps(&self) -> (r: &[MigrationStep])
        ensures
            r@.len() == self@.steps.len(),
            forall|i: int| 0 <= i < r@.len() ==> #[trigger] r@[i]@ == self@.steps[i],
    {
        self.steps.as_slice()
    }

    /// Does the plan hold no step at all?
    pub fn is_empty(&self) -> (r: bool)
        ensures
            r == (self@.steps.len() == 0),
    {
        self.steps.len() == 0
    }

    /// Upgrade plans insert bookkeeping rows; downgrade plans delete them.
    pub fn is_upgrade(&self) -> (r: bool)
        ensures
            r == self@.is_upgrade,
    {
        self.is_upgrade
    }
}

/// Why a plan could not be built.
#[derive(Debug, PartialEq, Eq, Structural)]
pub enum PlanError {
    /// The upgrade target lies outside `1..=highest_id`.
    InvalidRevision(u32),
    /// A downgrade would cross this id, which has no downgrade text.
    IrreversibleMigration(u32),
}

/// The ids an upgrade to `target` must run: every id in `1..=target` not
/// yet executed, ascending.
pub open spec fn spec_upgrade_ids(executed: Seq<u32>, target: int) -> Seq<u32>
    decreases target,
{
    if target <= 0 {
        Seq::empty()
    } else {
        spec_upgrade_ids(executed, target - 1) + if executed.contains(target as u32) {
            Seq::empty()
        } else {
            seq![target as u32]
        }
    }
}

/// The step an upgrade runs for one migration.
pub open spec fn spec_upgrade_step(m: MigrationView) -> StepView {
    StepView { id: m.id, label: m.label, sql: m.upgrade_text }
}

/// The step a downgrade runs for one migration.
pub open spec fn spec_downgrade_step(m: MigrationView) -> StepView {
    StepView {
        id: m.id,
        label: m.label,
        sql: match m.downgrade_text {
            Some(d) => d,
            None => Seq::empty(),
        },
    }
}

/// The steps an upgrade to `target` runs, ascending by id.
pub open spec fn spec_plan_upgrade(cat: Seq<MigrationView>, executed: Seq<u32>, target: u32) -> Seq<
    StepView,
> {
    spec_upgrade_ids(executed, target as int).map_values(
        |id: u32| spec_upgrade_step(cat[id - 1]),
    )
}

/// The steps a downgrade from `from` down to just above `target` runs,
/// descending by id, or the first id meeting an irreversible migration.
pub open spec fn spec_plan_downgrade(
    cat: Seq<MigrationView>,
    executed: Seq<u32>,
    from: int,
    target: int,
) -> Result<Seq<StepView>, u32>
    decreases from - target,
{
    if from <= target || from <= 0 {
        Ok(Seq::empty())
    } else if executed.contains(from as u32) {
        if cat[from - 1].downgrade_text is Some {
            match spec_plan_downgrade(cat, executed, from - 1, target) {
                Ok(rest) => Ok(seq![spec_downgrade_step(cat[from - 1])] + rest),
                Err(e) => Err(e),
            }
        } else {
            Err(from as u32)
        }
    } else {
        spec_plan_downgrade(cat, executed, from - 1, target)
    }
}

/// Downgrade planning fails exactly when an executed id above the target
/// lacks downgrade text, and it names the largest such id.
pub proof fn lemma_downgrade_irreversible(
    cat: Seq<MigrationView>,
    executed: Seq<u32>,
    from: int,
    target: int,
)
    requires
        0 <= target,
        from <= cat.len(),
        from <= u32::MAX,
    ensures
        spec_plan_downgrade(cat, executed, from, target) is Err <==> exists|id: int|
            target < id <= from && executed.contains(id as u32) && (#[trigger] cat[id
                - 1].downgrade_text) is None,
        spec_plan_downgrade(cat, executed, from, target) matches Err(e) ==> target < e <= from
            && executed.contains(e) && cat[e - 1].downgrade_text is None && forall|id: int|
            e < id <= from && executed.contains(id as u32) ==> (#[trigger] cat[id
                - 1].downgrade_text) is Some,
    decreases from - target,
{
    if from <= target || from <= 0 {
    } else {
        lemma_downgrade_irreversible(cat, executed, from - 1, target);
        let res = spec_plan_downgrade(cat, executed, from, target);
        if res is Err {
            let e = res->Err_0;
            if executed.contains(from as u32) && cat[from - 1].downgrade_text is None {
                assert(e == from as u32);
            } else {
                assert(spec_plan_downgrade(cat, executed, from - 1, target) == Err::<
                    Seq<StepView>,
                    u32,
                >(e));
                assert forall|id: int|
                    e < id <= from && executed.contains(id as u32) implies (#[trigger] cat[id
                    - 1].downgrade_text) is Some by {
                    if id == from {
                        assert(executed.contains(from as u32));
                        assert(cat[from - 1].downgrade_text is Some);
                    }
                }
            }
        }
    }
}

/// The ids an upgrade runs ascend strictly; each lies in `1..=target`
/// and is not among the executed ids.
pub proof fn lemma_upgrade_ids_ascending(executed: Seq<u32>, target: int)
    requires
        target <= u32::MAX,
    ensures
        forall|a: int, b: int|
            0 <= a < b < spec_upgrade_ids(executed, target).len() ==> spec_upgrade_ids(
                executed,
                target,
            )[a] < spec_upgrade_ids(executed, target)[b],
        forall|k: int|
            0 <= k < spec_upgrade_ids(executed, target).len() ==> 1 <= #[trigger] spec_upgrade_ids(
                executed,
                target,
            )[k] <= target && !executed.contains(spec_upgrade_ids(executed, target)[k]),
        forall|x: u32|
            1 <= x <= target && !executed.contains(x) ==> #[trigger] spec_upgrade_ids(
                executed,
                target,
            ).contains(x),
    decreases target,
{
    if target > 0 {
        lemma_upgrade_ids_ascending(executed, target - 1);
        let prev = spec_upgrade_ids(executed, target - 1);
        let ids = spec_upgrade_ids(executed, target);
        if !executed.contains(target as u32) {
            assert(ids == prev + seq![target as u32]);
            assert forall|a: int, b: int| 0 <= a < b < ids.len() implies ids[a] < ids[b] by {
                if b < prev.len() {
                    assert(ids[a] == prev[a] && ids[b] == prev[b]);
                } else {
                    assert(ids[b] == target as u32);
                    assert(ids[a] == prev[a]);
                    assert(prev[a] <= target - 1);
                }
            }
        } else {
            assert(ids =~= prev);
        }
        assert forall|x: u32|
            1 <= x <= target && !executed.contains(x) implies #[trigger] ids.contains(x) by {
            if x <= target - 1 {
                assert(prev.contains(x));
                let idx = choose|idx: int| 0 <= idx < prev.len() && prev[idx] == x;
                assert(ids[idx] == x);
            } else {
                assert(x == target as u32);
                assert(ids[ids.len() - 1] == x);
            }
        }
    }
}

/// The ordering guarantee, upgrade side: the steps of an upgrade plan
/// ascend strictly by id.  Later migrations may assume earlier schema
/// changes exist, so this order is load-bearing.
pub proof fn lemma_upgrade_plan_ordered(cat: Seq<MigrationView>, executed: Seq<u32>, target: u32)
    requires
        target <= cat.len(),
        forall|i: int| 0 <= i < cat.len() ==> #[trigger] cat[i].id == i + 1,
    ensures
        forall|a: int, b: int|
            0 <= a < b < spec_plan_upgrade(cat, executed, target).len() ==> (
            #[trigger] spec_plan_upgrade(cat, executed, target)[a]).id < (
            #[trigger] spec_plan_upgrade(cat, executed, target)[b]).id,
{
    lemma_upgrade_ids_ascending(executed, target as int);
    let ids = spec_upgrade_ids(executed, target as int);
    let steps = spec_plan_upgrade(cat, executed, target);
    assert forall|k: int| 0 <= k < steps.len() implies (#[trigger] steps[k]).id == ids[k] by {
        assert(steps[k] == spec_upgrade_step(cat[ids[k] - 1]));
        assert(cat[ids[k] - 1].id == ids[k]);
    }
}

/// The ordering guarantee, downgrade side: the steps of a downgrade plan
/// descend strictly by id, each above the target.
pub proof fn lemma_downgrade_plan_ordered(
    cat: Seq<MigrationView>,
    executed: Seq<u32>,
    from: int,
    target: int,
)
    requires
        0 <= target,
        from <= cat.len(),
        from <= u32::MAX,
        forall|i: int| 0 <= i < cat.len() ==> #[trigger] cat[i].id == i + 1,
    ensures
        spec_plan_downgrade(cat, executed, from, target) matches Ok(s) ==> (forall|k: int|
            0 <= k < s.len() ==> target < (#[trigger] s[k]).id <= from) && (forall|a: int, b: int|
            0 <= a < b < s.len() ==> s[a].id > s[b].id),
    decreases from - target,
{
    if from <= target || from <= 0 {
    } else {
        lemma_downgrade_plan_ordered(cat, executed, from - 1, target);
        let res = spec_plan_downgrade(cat, executed, from, target);
        if res is Ok {
            let s = res->Ok_0;
            if executed.contains(from as u32) && cat[from - 1].downgrade_text is Some {
                let rest = spec_plan_downgrade(cat, executed, from - 1, target)->Ok_0;
                assert(s == seq![spec_downgrade_step(cat[from - 1])] + rest);
                assert(s[0].id == from);
                assert forall|k: int| 0 <= k < s.len() implies target < (#[trigger] s[k]).id
                    <= from by {
                    if k > 0 {
                        assert(s[k] == rest[k - 1]);
                    }
                }
                assert forall|a: int, b: int| 0 <= a < b < s.len() implies s[a].id > s[b].id by {
                    if a == 0 {
                        assert(s[b] == rest[b - 1]);
                        assert(rest[b - 1].id <= from - 1);
                    } else {
                        assert(s[a] == rest[a - 1] && s[b] == rest[b - 1]);
                    }
                }
            }
        }
    }
}

/// Does `v` hold `x`?
pub fn contains_u32(v: &Vec<u32>, x: u32) -> (r: bool)
    ensures
        r == v@.contains(x),
{
    let mut i: usize = 0;
    while i < v.len()
        invariant
            i <= v@.len(),
            forall|j: int| 0 <= j < i ==> v@[j] != x,
        decreases v@.len() - i,
    {
        if v[i] == x {
            return true;
        }
        i = i + 1;
    }
    false
}

/// Copy an optional label.
pub(crate) fn copy_label(l: &Option<Vec<u8>>) -> (r: Option<Vec<u8>>)
    ensures
        match l {
            Some(v) => r matches Some(w) && w@ == v@,
            None => r is None,
        },
{
    match l {
        Some(v) => Some(copy_bytes(v)),
        None => None,
    }
}

/// Build the upgrade plan to `target_revision`: every catalog id not yet
/// executed and at most the target, ascending.  Fails with
/// `InvalidRevision` exactly when the target is 0 or above the highest id.
pub fn plan_upgrade(state: &MigrationState, executed: &Vec<u32>, target_revision: u32) -> (r:
    Result<MigrationPlan, PlanError>)
    requires
        state.wf(),
    ensures
        (target_revision == 0 || target_revision > state@.len()) ==> r == Err::<
            MigrationPlan,
            PlanError,
        >(PlanError::InvalidRevision(target_revision)),
        (1 <= target_revision <= state@.len()) ==> (r matches Ok(p) && p@.is_upgrade && p@.steps
            == spec_plan_upgrade(state@, executed@, target_revision)),
{
    let n = state.highest_id();
    if target_revision == 0 || target_revision > n {
        return Err(PlanError::InvalidRevision(target_revision));
    }
    let ghost cat = state@;
    let mut steps: Vec<MigrationStep> = Vec::new();
    let mut id: u64 = 1;
    assert(steps.deep_view() =~~= spec_plan_upgrade(cat, executed@, 0));
    while id <= target_revision as u64
        invariant
            1 <= id <= target_revision + 1,
            target_revision <= n,
            n == state@.len(),
            state.wf(),
            cat == state@,
            steps.deep_view() == spec_plan_upgrade(cat, executed@, (id - 1) as u32),
        decreases target_revision - id + 1,
    {
        if !contains_u32(executed, id as u32) {
            let m = &state.migrations[(id - 1) as usize];
            proof {
                assert(state@[id - 1] == state.migrations@[id - 1]@);
            }
            let step = MigrationStep {
                id: id as u32,
                label: copy_label(&m.label),
                sql: copy_bytes(&m.upgrade_text),
            };
            let ghost prev = steps.deep_view();
            proof {
                assert(state@[id - 1].id == id);
                assert(step@ =~= spec_upgrade_step(cat[id - 1]));
            }
            steps.push(step);
            assert(steps.deep_view() =~~= prev + seq![step@]);
        }
        proof {
            assert(spec_upgrade_ids(executed@, id as int) == spec_upgrade_ids(
                executed@,
                id - 1,
            ) + if executed@.contains(id as u32) {
                Seq::<u32>::empty()
            } else {
                seq![id as u32]
            });
            assert(steps.deep_view() =~~= spec_plan_upgrade(cat, executed@, id as u32));
        }
        id = id + 1;
    }
    Ok(MigrationPlan { steps, is_upgrade: true })
}

/// Build the downgrade plan to `target_revision`: every executed id above
/// the target, descending.  Fails atomically with `IrreversibleMigration`
/// if any such id lacks downgrade text: no partial plan is returned.
pub fn plan_downgrade(state: &MigrationState, executed: &Vec<u32>, target_revision: u32) -> (r:
    Result<MigrationPlan, PlanError>)
    requires
        state.wf(),
        forall|k: int|
            0 <= k < executed@.len() && #[trigger] executed@[k] > target_revision ==> executed@[k]
                <= state@.len(),
    ensures
        match spec_plan_downgrade(state@, executed@, state@.len() as int, target_revision as int) {
            Ok(s) => r matches Ok(p) && !p@.is_upgrade && p@.steps == s,
            Err(id) => r == Err::<MigrationPlan, PlanError>(PlanError::IrreversibleMigration(id)),
        },
{
    let n = state.highest_id();
    let ghost cat = state@;
    let ghost t = target_revision as int;
    let mut steps: Vec<MigrationStep> = Vec::new();
    let mut i: u32 = n;
    loop
        invariant_except_break
            state.wf(),
            cat == state@,
            n == state@.len(),
            t == target_revision as int,
            target_revision <= i <= n || i == n,
            spec_plan_downgrade(cat, executed@, n as int, t) == match spec_plan_downgrade(
                cat,
                executed@,
                i as int,
                t,
            ) {
                Ok(rest) => Ok::<Seq<StepView>, u32>(steps.deep_view() + rest),
                Err(e) => Err::<Seq<StepView>, u32>(e),
            },
        ensures
            spec_plan_downgrade(cat, executed@, n as int, t) == Ok::<Seq<StepView>, u32>(
                steps.deep_view(),
            ),
            cat == state@,
        decreases i,
    {
        if i <= target_revision {
            proof {
                assert(spec_plan_downgrade(cat, executed@, i as int, t) == Ok::<
                    Seq<StepView>,
                    u32,
                >(Seq::empty()));
                assert(steps.deep_view() + Seq::<StepView>::empty() =~~= steps.deep_view());
            }
            break;
        }
        if contains_u32(executed, i) {
            let m = &state.migrations[(i - 1) as usize];
            proof {
                assert(state@[i - 1] == state.migrations@[i - 1]@);
                assert(state@[i - 1].id == i);
            }
            match &m.downgrade_text {
                Some(d) => {
                    let step = MigrationStep {
                        id: i,
                        label: copy_label(&m.label),
                        sql: copy_bytes(d),
                    };
                    let ghost prev = steps.deep_view();
                    proof {
                        assert(step@ =~= spec_downgrade_step(cat[i - 1]));
                    }
                    steps.push(step);
                    proof {
                        assert(steps.deep_view() =~~= prev + seq![step@]);
                        if spec_plan_downgrade(cat, executed@, i - 1, t) is Ok {
                            let rest = spec_plan_downgrade(cat, executed@, i - 1, t)->Ok_0;
                            assert(prev + (seq![spec_downgrade_step(cat[i - 1])] + rest) =~~= (prev
                                + seq![spec_downgrade_step(cat[i - 1])]) + rest);
                        }
                    }
                },
                None => {
                    return Err(PlanError::IrreversibleMigration(i));
                },
            }
        }
        i = i - 1;
    }
    Ok(MigrationPlan { steps, is_upgrade: false })
}

/// Build a plan in the asked direction.
pub fn plan(state: &MigrationState, executed: &Vec<u32>, target_revision: u32, is_upgrade: bool)
    -> (r: Result<MigrationPlan, PlanError>)
    requires
        state.wf(),
        !is_upgrade ==> forall|k: int|
            0 <= k < executed@.len() && #[trigger] executed@[k] > target_revision ==> executed@[k]
                <= state@.len(),
    ensures
        is_upgrade ==> (target_revision == 0 || target_revision > state@.len()) ==> r == Err::<
            MigrationPlan,
            PlanError,
        >(PlanError::InvalidRevision(target_revision)),
        is_upgrade ==> (1 <= target_revision <= state@.len()) ==> (r matches Ok(p)
            && p@.is_upgrade && p@.steps == spec_plan_upgrade(state@, executed@, target_revision)),
        !is_upgrade ==> match spec_plan_downgrade(
            state@,
            executed@,
            state@.len() as int,
            target_revision as int,
        ) {
            Ok(s) => r matches Ok(p) && !p@.is_upgrade && p@.steps == s,
            Err(id) => r == Err::<MigrationPlan, PlanError>(PlanError::IrreversibleMigration(id)),
        },
{
    if is_upgrade {
        plan_upgrade(state, executed, target_revision)
    } else {
        plan_downgrade(state, executed, target_revision)
    }
}

/// What a successful plan for these inputs must look like; the exec
/// planners promise exactly this of every plan they return.
pub open spec fn spec_plan_ok(
    cat: Seq<MigrationView>,
    executed: Seq<u32>,
    target: u32,
    is_upgrade: bool,
    p: PlanView,
) -> bool {
    if is_upgrade {
        p.is_upgrade && p.steps == spec_plan_upgrade(cat, executed, target)
    } else {
        !p.is_upgrade && spec_plan_downgrade(cat, executed, cat.len() as int, target as int)
            == Ok::<Seq<StepView>, u32>(p.steps)
    }
}

/// Planning has no side effects: two plans built from the same catalog,
/// the same executed set, the same target and the same direction are
/// identical.
pub proof fn lemma_replan_idempotent(
    cat: Seq<MigrationView>,
    executed: Seq<u32>,
    target: u32,
    is_upgrade: bool,
    p1: PlanView,
    p2: PlanView,
)
    requires
        spec_plan_ok(cat, executed, target, is_upgrade, p1),
        spec_plan_ok(cat, executed, target, is_upgrade, p2),
    ensures
        p1 == p2,
{
    assert(p1.steps == p2.steps);
    assert(p1 =~= p2);
}

} // verus!
