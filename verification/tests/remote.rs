use archon_node::agent::{agent_action, endpoint_response, AgentAction};
use archon_node::protocol::{AgentRequest, AgentResponse, BindingScope};
use archon_node::provider::ControlGeneration;

/// One endpoint request through the agent: its control generation is
/// checked first; an admitted prepare is answered with the next handle.
fn handle(control: &mut ControlGeneration, next_handle: &mut u64, request: AgentRequest) -> AgentResponse {
    match agent_action(&request) {
        AgentAction::Endpoint { op, generation, .. } => {
            let endpoint = control.check(generation.session, generation.epoch).map(|_| {
                let handle = *next_handle;
                *next_handle += 1;
                handle
            });
            endpoint_response(op, generation.binding, endpoint, Ok(false))
        }
        other => panic!("expected an endpoint action, got {other:?}"),
    }
}

#[test]
fn stale_sessions_are_rejected_by_the_agent() {
    let mut control = ControlGeneration::new();
    let mut next_handle = 1;
    // Session 2 arrives on a mutating request and becomes the current
    // generation.
    let response = handle(
        &mut control,
        &mut next_handle,
        AgentRequest::Prepare {
            binding: 1,
            lease: 1,
            node: 1,
            provider: 1,
            scope: BindingScope::Exclusive,
            session: 2,
            fence: 1,
            epoch: 1,
        },
    );
    assert!(matches!(response, AgentResponse::Prepared { .. }));
    // An older generation is refused.
    let response = handle(
        &mut control,
        &mut next_handle,
        AgentRequest::Prepare {
            binding: 2,
            lease: 1,
            node: 1,
            provider: 1,
            scope: BindingScope::Exclusive,
            session: 1,
            fence: 1,
            epoch: 1,
        },
    );
    match response {
        AgentResponse::Failed { reason, .. } => assert!(reason.contains("stale")),
        other => panic!("expected Failed, got {other:?}"),
    }
}
