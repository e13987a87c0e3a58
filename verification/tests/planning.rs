//! Plan building: set reconciliation, ordering, fail-closed planning and
//! idempotent re-planning.

use rmmm::catalog::{Migration, MigrationState};
use rmmm::plan::{plan, plan_downgrade, plan_upgrade, PlanError};

fn bv(s: &str) -> Vec<u8> {
    s.as_bytes().to_vec()
}

fn mig(id: u32, up: &str, down: Option<&str>) -> Migration {
    Migration {
        id,
        label: None,
        upgrade_text: bv(up),
        downgrade_text: down.map(bv),
    }
}

fn three_state() -> MigrationState {
    MigrationState {
        migrations: vec![
            mig(1, "CREATE TABLE a(x INT)", Some("DROP TABLE a")),
            mig(2, "CREATE TABLE b(x INT)", None),
            mig(3, "CREATE TABLE c(x INT)", Some("DROP TABLE c")),
        ],
    }
}

#[test]
fn test_set_reconciliation() {
    // Catalog ids {1,2,3}, executed {1}: upgrading to 3 runs [2, 3].
    let state = three_state();
    let executed = vec![1];
    let p = plan_upgrade(&state, &executed, 3).unwrap();
    let ids: Vec<u32> = p.steps().iter().map(|s| s.id).collect();
    assert_eq!(ids, vec![2, 3]);
    assert_eq!(p.steps()[0].sql, bv("CREATE TABLE b(x INT)"));
    assert_eq!(p.steps()[1].sql, bv("CREATE TABLE c(x INT)"));
    // Upgrading to 1 has nothing to do: an empty plan, not an error.
    let p1 = plan_upgrade(&state, &executed, 1).unwrap();
    assert!(p1.is_empty());
}

#[test]
fn test_invalid_revision() {
    let state = three_state();
    let executed = vec![];
    assert_eq!(
        plan_upgrade(&state, &executed, 0).unwrap_err(),
        PlanError::InvalidRevision(0)
    );
    assert_eq!(
        plan_upgrade(&state, &executed, 4).unwrap_err(),
        PlanError::InvalidRevision(4)
    );
    assert_eq!(
        plan_upgrade(&state, &executed, 99).unwrap_err(),
        PlanError::InvalidRevision(99)
    );
}

#[test]
fn test_downgrade_atomicity() {
    // Id 2 has no downgrade text and executed = {1,2,3}: downgrading to 0
    // fails as a whole with the offending id, and no plan comes back.
    let state = three_state();
    let executed = vec![1, 2, 3];
    let r = plan_downgrade(&state, &executed, 0);
    assert_eq!(r.unwrap_err(), PlanError::IrreversibleMigration(2));
}

#[test]
fn test_downgrade_order_and_texts() {
    let state = MigrationState {
        migrations: vec![
            mig(1, "U1", Some("D1")),
            mig(2, "U2", Some("D2")),
            mig(3, "U3", Some("D3")),
        ],
    };
    let executed = vec![1, 2, 3];
    let p = plan_downgrade(&state, &executed, 1).unwrap();
    let ids: Vec<u32> = p.steps().iter().map(|s| s.id).collect();
    assert_eq!(ids, vec![3, 2]);
    assert_eq!(p.steps()[0].sql, bv("D3"));
    assert_eq!(p.steps()[1].sql, bv("D2"));
    // Downgrading above every executed id is an empty plan.
    let p0 = plan_downgrade(&state, &executed, 3).unwrap();
    assert!(p0.is_empty());
}

#[test]
fn test_duplicate_executed_ids() {
    // A repeated executed id plans the same as a single one.
    let state = three_state();
    let once = plan_upgrade(&state, &vec![1], 3).unwrap();
    let twice = plan_upgrade(&state, &vec![1, 1], 3).unwrap();
    assert_eq!(once.steps(), twice.steps());
}

#[test]
fn test_idempotent_replan() {
    // Planning twice without executing yields an identical plan.
    let state = three_state();
    let executed = vec![1];
    let p1 = plan(&state, &executed, 3, true).unwrap();
    let p2 = plan(&state, &executed, 3, true).unwrap();
    assert_eq!(p1.steps(), p2.steps());
    assert_eq!(p1.is_upgrade(), p2.is_upgrade());
    let d1 = plan(&state, &executed, 0, false).unwrap();
    let d2 = plan(&state, &executed, 0, false).unwrap();
    assert_eq!(d1.steps(), d2.steps());
    assert_eq!(d1.is_upgrade(), d2.is_upgrade());
}
