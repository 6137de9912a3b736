use archon_node::model::NodeId;
use archon_node::service::{
    expiring_leases, restart_decision, unhealthy_machine_leases, LeaseClaims, LeaseTerm, RestartBook, RestartCandidate,
    RestartDecision, MAX_RESTARTS,
};

fn failed(lease: u64, request: u64) -> RestartCandidate {
    RestartCandidate { lease, dead: true, workload: Some((request, true)) }
}

#[test]
fn restarts_back_off_exponentially() {
    // A keep-alive workload (request 1) whose command always fails.
    let mut book = RestartBook::new(2);
    // First failure restarts immediately (first attempt has no backoff debt).
    let restarts = book.take_restarts(&[failed(1, 1)], 10);
    assert_eq!(restarts.len(), 1, "first restart must be immediate");
    assert_eq!(restarts[0], (1, 2));
    // The resubmission (request 2) becomes lease 2 and fails too.
    // Second failure: backoff of 2s since the last restart at t=10.
    let pending = [failed(1, 1), failed(2, 2)];
    assert!(book.take_restarts(&pending, 11).is_empty(), "backoff must hold the restart until the delay elapses");
    let restarts = book.take_restarts(&pending, 12);
    assert_eq!(restarts.len(), 1, "backoff must release when due");
    assert_eq!(restarts[0], (2, 3));
}

#[test]
fn restart_cap_survives_generations() {
    let mut book = RestartBook::new(2);
    let mut request = 1;
    // Fail, restart, admit; jump the clock past any backoff. After five
    // restarts the lineage must stop, even though every attempt has a
    // fresh request id.
    for (attempt, admitted) in (0..10u64).map(|attempt| (attempt, attempt + 1)) {
        let restarts = book.take_restarts(&[failed(admitted, request)], 1_000 + attempt * 120);
        if restarts.is_empty() {
            assert!(attempt >= 5, "the cap must hold at 5, stopped early at {attempt}");
            assert_eq!(attempt, MAX_RESTARTS as u64);
            return;
        }
        assert_eq!(restarts.len(), 1);
        assert_ne!(restarts[0].1, request, "every attempt has a fresh request id");
        request = restarts[0].1;
    }
    panic!("ten attempts should have exhausted the cap");
}

#[test]
fn first_restart_is_immediate_even_at_clock_zero() {
    assert_eq!(restart_decision(0, 0, 0), RestartDecision::Restart);
    let mut book = RestartBook::new(2);
    assert_eq!(book.take_restarts(&[failed(1, 1)], 0), vec![(1, 2)], "the first attempt has no backoff debt");
    assert!(book.take_restarts(&[failed(2, 2)], 1).is_empty(), "the second restart waits two seconds");
    assert_eq!(book.take_restarts(&[failed(2, 2)], 2), vec![(2, 3)]);
}

#[test]
fn run_once_live_and_handled_leases_never_restart() {
    let mut book = RestartBook::new(10);
    let leases = [
        RestartCandidate { lease: 1, dead: true, workload: Some((1, false)) },
        RestartCandidate { lease: 2, dead: false, workload: Some((2, true)) },
        RestartCandidate { lease: 3, dead: true, workload: None },
        RestartCandidate { lease: 4, dead: true, workload: Some((4, true)) },
    ];
    assert_eq!(book.take_restarts(&leases, 100), vec![(4, 10)]);
    // Lease 4 was handled: it is not restarted twice.
    assert!(book.take_restarts(&leases, 1_000).is_empty());
    assert_eq!(book.next_request(), 11);
}

#[test]
fn unhealthy_machine_fails_only_its_live_leases() {
    let lease = |lease: u64, ended: bool, machines: Vec<Option<u64>>| LeaseClaims {
        lease,
        ended,
        machines: machines.into_iter().map(|m| m.map(NodeId)).collect(),
    };
    let leases = [
        lease(1, false, vec![Some(1)]),
        lease(2, false, vec![Some(2)]),
        lease(3, true, vec![Some(1)]),
        lease(4, false, vec![Some(2), Some(1)]),
        lease(5, false, vec![None]),
    ];
    assert_eq!(unhealthy_machine_leases(&leases, NodeId(1)), vec![1, 4]);
    assert_eq!(unhealthy_machine_leases(&leases, NodeId(2)), vec![2, 4]);
    assert!(unhealthy_machine_leases(&leases, NodeId(3)).is_empty());
}

#[test]
fn live_leases_expire_when_their_term_runs_out() {
    let leases = [
        LeaseTerm { lease: 1, live: true, expires_at: 100 },
        LeaseTerm { lease: 2, live: true, expires_at: 101 },
        LeaseTerm { lease: 3, live: false, expires_at: 50 },
    ];
    assert_eq!(expiring_leases(&leases, 99), Vec::<u64>::new());
    assert_eq!(expiring_leases(&leases, 100), vec![1]);
    assert_eq!(expiring_leases(&leases, 200), vec![1, 2]);
}

