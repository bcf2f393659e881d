use stax::oauth::{
    access_token_request, device_code_request, next_poll_step, poll_interval_secs,
    AccessTokenRequest, AccessTokenResponse, DeviceCodeRequest, DeviceCodeResponse, PollStep,
    CLIENT_ID,
};

fn device(interval: u64) -> DeviceCodeResponse {
    DeviceCodeResponse {
        device_code: "dev-code".to_string(),
        user_code: "ABCD-1234".to_string(),
        verification_uri: "https://github.com/login/device".to_string(),
        expires_in: 900,
        interval,
    }
}

fn answer(token: Option<&str>, error: Option<&str>, description: Option<&str>) -> AccessTokenResponse {
    AccessTokenResponse {
        access_token: token.map(|s| s.to_string()),
        error: error.map(|s| s.to_string()),
        error_description: description.map(|s| s.to_string()),
    }
}

#[test]
fn test_oauth_client_creation() {
    assert_eq!(CLIENT_ID, "178c6fc778ccc68e1d6a");
}

#[test]
fn test_device_code_request_structure() {
    let request = DeviceCodeRequest {
        client_id: "test_client".to_string(),
        scope: "repo".to_string(),
    };

    assert_eq!(request.client_id, "test_client");
    assert_eq!(request.scope, "repo");
}

#[test]
fn test_access_token_request_structure() {
    let request = AccessTokenRequest {
        client_id: "test_client".to_string(),
        device_code: "test_code".to_string(),
        grant_type: "urn:ietf:params:oauth:grant-type:device_code".to_string(),
    };

    assert_eq!(request.client_id, "test_client");
    assert_eq!(request.device_code, "test_code");
    assert_eq!(
        request.grant_type,
        "urn:ietf:params:oauth:grant-type:device_code"
    );
}

#[test]
fn test_requests_built_for_device_flow() {
    let d = device_code_request(CLIENT_ID);
    assert_eq!(d.client_id, CLIENT_ID);
    assert_eq!(d.scope, "repo,user:email");
    let t = access_token_request(CLIENT_ID, &device(5));
    assert_eq!(t.device_code, "dev-code");
    assert_eq!(t.grant_type, "urn:ietf:params:oauth:grant-type:device_code");
}

#[test]
fn test_poll_interval_never_below_five() {
    assert_eq!(poll_interval_secs(&device(0)), 5);
    assert_eq!(poll_interval_secs(&device(5)), 5);
    assert_eq!(poll_interval_secs(&device(12)), 12);
}

#[test]
fn test_poll_steps() {
    assert_eq!(
        next_poll_step(&answer(Some("tok"), Some("slow_down"), None)),
        PollStep::Token("tok".to_string())
    );
    assert_eq!(next_poll_step(&answer(None, None, None)), PollStep::Wait);
    assert_eq!(
        next_poll_step(&answer(None, Some("authorization_pending"), None)),
        PollStep::Wait
    );
    assert_eq!(
        next_poll_step(&answer(None, Some("slow_down"), None)),
        PollStep::SlowDown
    );
    assert_eq!(
        next_poll_step(&answer(None, Some("expired_token"), None)),
        PollStep::Fail("Device authorization expired. Please try again.".to_string())
    );
    assert_eq!(
        next_poll_step(&answer(None, Some("access_denied"), None)),
        PollStep::Fail("Authorization was denied.".to_string())
    );
    assert_eq!(
        next_poll_step(&answer(None, Some("weird"), Some("broken"))),
        PollStep::Fail("Authorization failed: weird - broken".to_string())
    );
    assert_eq!(
        next_poll_step(&answer(None, Some("weird"), None)),
        PollStep::Fail("Authorization failed: weird - Unknown error".to_string())
    );
}
