//! The GitHub device-flow login: the requests it sends and what it does
//! with each answer while it waits for the user.
use vstd::prelude::*;
use crate::text::str_eq;

verus! {

/// The public client id of the GitHub command-line client, under which the
/// tool asks for a token.
pub const CLIENT_ID: &'static str = "178c6fc778ccc68e1d6a";

/// The grant type of a device-flow token request.
pub const DEVICE_GRANT_TYPE: &'static str = "urn:ietf:params:oauth:grant-type:device_code";

/// Asks GitHub for a device code.
pub struct DeviceCodeRequest {
    pub client_id: String,
    pub scope: String,
}

/// GitHub's answer to a device-code request.
pub struct DeviceCodeResponse {
    pub device_code: String,
    pub user_code: String,
    pub verification_uri: String,
    pub expires_in: u64,
    pub interval: u64,
}

/// Asks GitHub whether the user has authorized the device code yet.
pub struct AccessTokenRequest {
    pub client_id: String,
    pub device_code: String,
    pub grant_type: String,
}

/// GitHub's answer to a token request.
pub struct AccessTokenResponse {
    pub access_token: Option<String>,
    pub error: Option<String>,
    pub error_description: Option<String>,
}

/// What to do after a token request was answered.
#[derive(Debug, PartialEq, Eq)]
pub enum PollStep {
    /// The user authorized the device: here is the token.
    Token(String),
    /// Not yet: ask again after the usual interval.
    Wait,
    /// Asked too often: wait five seconds more, then ask again.
    SlowDown,
    /// Give up, with this message.
    Fail(String),
}

/// The request for a device code with repository and e-mail access.
pub fn device_code_request(client_id: &str) -> (r: DeviceCodeRequest)
    ensures
        r.client_id@ == client_id@,
        r.scope@ == "repo,user:email"@,
{
    DeviceCodeRequest { client_id: client_id.to_owned(), scope: "repo,user:email".to_owned() }
}

/// The token request for the device code GitHub handed out.
pub fn access_token_request(client_id: &str, device: &DeviceCodeResponse) -> (r: AccessTokenRequest)
    ensures
        r.client_id@ == client_id@,
        r.device_code@ == device.device_code@,
        r.grant_type@ == DEVICE_GRANT_TYPE@,
{
    AccessTokenRequest {
        client_id: client_id.to_owned(),
        device_code: device.device_code.clone(),
        grant_type: DEVICE_GRANT_TYPE.to_owned(),
    }
}

/// Seconds between token requests: GitHub's interval, but never under five.
pub fn poll_interval_secs(device: &DeviceCodeResponse) -> (r: u64)
    ensures
        r == if device.interval >= 5 {
            device.interval
        } else {
            5
        },
{
    if device.interval >= 5 {
        device.interval
    } else {
        5
    }
}

/// Decide what to do with an answer to a token request: a token ends the
/// wait; the errors `authorization_pending` and `slow_down` keep it going,
/// `expired_token`, `access_denied` and any other error end it; an answer
/// with neither a token nor an error asks again.
pub fn next_poll_step(resp: &AccessTokenResponse) -> (r: PollStep)
    ensures
        match resp.access_token {
            Some(t) => r == PollStep::Token(t),
            None => match resp.error {
                None => r == PollStep::Wait,
                Some(e) => if e@ == "authorization_pending"@ {
                    r == PollStep::Wait
                } else if e@ == "slow_down"@ {
                    r == PollStep::SlowDown
                } else if e@ == "expired_token"@ {
                    r matches PollStep::Fail(m) && m@ == "Device authorization expired. Please try again."@
                } else if e@ == "access_denied"@ {
                    r matches PollStep::Fail(m) && m@ == "Authorization was denied."@
                } else {
                    r matches PollStep::Fail(m) && m@ == "Authorization failed: "@ + e@ + " - "@ + match resp.error_description {
                        Some(d) => d@,
                        None => "Unknown error"@,
                    }
                },
            },
        },
{
    match &resp.access_token {
        Some(t) => {
            return PollStep::Token(t.clone());
        },
        None => {},
    }
    match &resp.error {
        None => PollStep::Wait,
        Some(e) => {
            if str_eq(e.as_str(), "authorization_pending") {
                PollStep::Wait
            } else if str_eq(e.as_str(), "slow_down") {
                PollStep::SlowDown
            } else if str_eq(e.as_str(), "expired_token") {
                PollStep::Fail("Device authorization expired. Please try again.".to_owned())
            } else if str_eq(e.as_str(), "access_denied") {
                PollStep::Fail("Authorization was denied.".to_owned())
            } else {
                let description = match &resp.error_description {
                    Some(d) => d.as_str(),
                    None => "Unknown error",
                };
                PollStep::Fail(
                    "Authorization failed: ".to_owned().concat(e.as_str()).concat(" - ").concat(
                        description,
                    ),
                )
            }
        },
    }
}

} // verus!
