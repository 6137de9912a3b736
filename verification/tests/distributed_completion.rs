use archon_node::service::{
    recovered_member_outcome, rebind_target, resolve_observed_completion, MemberStatus, RecoveredMember,
};

#[test]
fn restart_recovery_is_member_scoped_and_aggregates_exit_state() {
    // Before the controller restart, a's bindings live in session 1 and
    // b's in session 2.
    // a returns first, under session 3, having exited 0 while detached.
    assert_eq!(recovered_member_outcome(false, Some(0)), RecoveredMember::Adopt);
    assert_eq!(rebind_target(1, Some(3)), Some(3));
    // Recovering a must not rewrite b's binding session.
    assert_eq!(rebind_target(2, Some(2)), None);
    // One member exiting successfully while detached is not whole-job
    // completion.
    let a = Some(MemberStatus { running: false, exit_code: Some(0) });
    assert_eq!(resolve_observed_completion(&[a, None]), None);

    // b returns under session 4, still running.
    assert_eq!(recovered_member_outcome(true, None), RecoveredMember::Adopt);
    assert_eq!(rebind_target(2, Some(4)), Some(4));
    let b = Some(MemberStatus { running: true, exit_code: None });
    assert_eq!(resolve_observed_completion(&[a, b]), None);
}

#[test]
fn restart_recovery_explains_unprovable_member_revocation() {
    // A returning agent that neither runs the member nor knows its exit
    // cannot prove ownership: the lease is revoked.
    assert_eq!(recovered_member_outcome(false, None), RecoveredMember::Revoke);
}
