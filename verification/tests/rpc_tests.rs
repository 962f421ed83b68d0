use anyfast::broker::{BrokerState, Mechanism};
use anyfast::hosts::TestableHostsManager;
use anyfast::rpc::{
    check_response, handle_request, PipeClient, ReadBindingParams, ResponseFault, RpcParams,
    RpcRequest, RpcResponse, RpcResult, WriteBindingParams, INVALID_IP, METHOD_NOT_FOUND,
    PERMISSION_DENIED,
};

#[test]
fn test_client_creation() {
    let mut client = PipeClient::new();
    assert!(client.next_id() > 0);
}

#[test]
fn request_ids_increase() {
    let mut client = PipeClient::new();
    let a = client.next_id();
    let b = client.next_id();
    assert!(b > a);
}

#[test]
fn response_success_and_error_shapes() {
    let ok = RpcResponse::success(
        7,
        RpcResult::Read(anyfast::rpc::ReadBindingResult { ip: None }),
    );
    assert_eq!(ok.jsonrpc, "2.0");
    assert_eq!(ok.id, 7);
    assert!(ok.result.is_some());
    assert!(ok.error.is_none());

    let err = RpcResponse::error(7, PERMISSION_DENIED, "Access denied");
    assert!(err.result.is_none());
    let e = err.error.unwrap();
    assert_eq!(e.code, PERMISSION_DENIED);
    assert_eq!(e.message, "Access denied");
    assert_eq!(PERMISSION_DENIED, -1);
}

#[test]
fn client_rejects_mismatched_responses() {
    let wrong_id = RpcResponse::success(
        2,
        RpcResult::Success(anyfast::rpc::SuccessResult { success: true }),
    );
    assert!(matches!(
        check_response(wrong_id, 1),
        Err(ResponseFault::InvalidResponse)
    ));

    let carried = RpcResponse::error(3, INVALID_IP, "nope");
    match check_response(carried, 3) {
        Err(ResponseFault::Rpc { code, .. }) => assert_eq!(code, INVALID_IP),
        _ => panic!("expected the error to be carried through"),
    }

    let good = RpcResponse::success(
        4,
        RpcResult::Success(anyfast::rpc::SuccessResult { success: true }),
    );
    assert!(check_response(good, 4).is_ok());
}

#[test]
fn dispatch_write_then_read_round_trips() {
    // A valid mutation observed through a later read returns the value the
    // mutation wrote, with both calls going through the service dispatch.
    let mut store = TestableHostsManager::new(String::new());
    let write = RpcRequest::new(
        1,
        "write_binding",
        RpcParams::WriteBinding(WriteBindingParams {
            domain: "example.com".into(),
            ip: "1.2.3.4".into(),
        }),
    );
    let resp = handle_request(&mut store, &write, "1.0");
    assert!(resp.error.is_none());

    let read = RpcRequest::new(
        2,
        "read_binding",
        RpcParams::ReadBinding(ReadBindingParams {
            domain: "example.com".into(),
        }),
    );
    let resp = handle_request(&mut store, &read, "1.0");
    match resp.result {
        Some(RpcResult::Read(rb)) => assert_eq!(rb.ip, Some("1.2.3.4".to_string())),
        _ => panic!("expected a read result"),
    }

    // The direct manager observes the very same value.
    assert_eq!(
        store.read_binding("example.com"),
        Some("1.2.3.4".to_string())
    );
}

#[test]
fn dispatch_rejects_invalid_writes_and_unknown_methods() {
    let mut store = TestableHostsManager::new("127.0.0.1\tlocalhost".to_string());
    let bad = RpcRequest::new(
        5,
        "write_binding",
        RpcParams::WriteBinding(WriteBindingParams {
            domain: "example.com".into(),
            ip: "not-an-ip".into(),
        }),
    );
    let resp = handle_request(&mut store, &bad, "1.0");
    assert_eq!(resp.error.unwrap().code, INVALID_IP);
    assert_eq!(store.content(), "127.0.0.1\tlocalhost");

    let unknown = RpcRequest::new(6, "reboot", RpcParams::Empty);
    let resp = handle_request(&mut store, &unknown, "1.0");
    assert_eq!(resp.error.unwrap().code, METHOD_NOT_FOUND);
}

#[test]
fn broker_falls_back_and_remembers_the_failure() {
    // With the service believed up, the plan tries it first; after the
    // attempt fails, the belief clears and the next plan skips the service
    // until a refresh reports it back.
    let mut broker = BrokerState::new(true, false);
    let plan = broker.plan_attempts();
    assert!(matches!(plan[0], Mechanism::Service));
    assert!(matches!(plan[plan.len() - 1], Mechanism::Direct));

    broker.on_mechanism_failed(Mechanism::Service);
    assert!(!broker.is_service_running());
    let plan = broker.plan_attempts();
    assert!(matches!(plan[0], Mechanism::Direct));

    assert!(broker.refresh_service_status(true));
    let plan = broker.plan_attempts();
    assert!(matches!(plan[0], Mechanism::Service));
}

#[test]
fn broker_prefers_helper_over_direct() {
    let mut broker = BrokerState::new(false, true);
    let plan = broker.plan_attempts();
    assert_eq!(plan.len(), 2);
    assert!(matches!(plan[0], Mechanism::Helper));
    assert!(matches!(plan[1], Mechanism::Direct));
    broker.on_mechanism_failed(Mechanism::Helper);
    assert_eq!(broker.plan_attempts().len(), 2);
}
