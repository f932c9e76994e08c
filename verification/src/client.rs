//! The client's settings, connection status and reconnection policy.
use vstd::prelude::*;
use crate::config::{is_default_config, EngineConfig};
use crate::error::{NovaError, NovaResult};
use crate::text::{decimal_string, decimal_text};

verus! {

#[derive(Debug, Clone)]
pub struct ClientSettings {
    pub name: String,
    pub version: String,
    pub auto_connect: bool,
    pub reconnect_attempts: u32,
}

#[derive(Debug, Clone)]
pub struct NetworkConfig {
    pub server_address: String,
    pub connection_timeout: u64,
    pub heartbeat_interval: u64,
    pub max_packet_size: usize,
}

/// Client configuration.
#[derive(Debug, Clone)]
pub struct ClientConfig {
    pub client: ClientSettings,
    pub engine: EngineConfig,
    pub networking: NetworkConfig,
}

impl Default for ClientConfig {
    fn default() -> (c: Self)
        ensures
            c.client.name@ == "Nova Client"@,
            c.client.version@ == "1.0.0"@,
            c.client.auto_connect,
            c.client.reconnect_attempts == 3,
            is_default_config(c.engine),
            c.networking.server_address@ == "127.0.0.1:8080"@,
            c.networking.connection_timeout == 10,
            c.networking.heartbeat_interval == 30,
            c.networking.max_packet_size == 1048576,
    {
        ClientConfig {
            client: ClientSettings {
                name: String::from_str("Nova Client"),
                version: String::from_str("1.0.0"),
                auto_connect: true,
                reconnect_attempts: 3,
            },
            engine: EngineConfig::default(),
            networking: NetworkConfig {
                server_address: String::from_str("127.0.0.1:8080"),
                connection_timeout: 10,
                heartbeat_interval: 30,
                max_packet_size: 1048576,
            },
        }
    }
}

/// The state of the client's connection.
#[derive(Debug, Clone, PartialEq, Eq)]
pub enum ConnectionStatus {
    Disconnected,
    Connecting,
    Connected,
    Reconnecting,
    Failed(String),
}

/// Whether the status is `Connected`.
pub fn is_connected(status: &ConnectionStatus) -> (b: bool)
    ensures
        b == (*status is Connected),
{
    match status {
        ConnectionStatus::Connected => true,
        _ => false,
    }
}

/// Checks that `len` bytes can be sent: they fit in a packet and the client
/// is connected.
pub fn check_send(status: &ConnectionStatus, max_packet_size: usize, len: usize) -> (r: NovaResult<()>)
    ensures
        len > max_packet_size ==> r == Err::<(), NovaError>(NovaError::Generic(r->Err_0->Generic_0))
            && r->Err_0->Generic_0@ == "Packet too large"@,
        len <= max_packet_size && !(*status is Connected) ==> r == Err::<(), NovaError>(NovaError::Generic(r->Err_0->Generic_0))
            && r->Err_0->Generic_0@ == "Not connected to server"@,
        len <= max_packet_size && *status is Connected ==> r is Ok,
{
    if len > max_packet_size {
        return Err(NovaError::Generic(String::from_str("Packet too large")));
    }
    if !is_connected(status) {
        return Err(NovaError::Generic(String::from_str("Not connected to server")));
    }
    Ok(())
}

/// The next reconnection attempt after `attempts_made` failed ones: its
/// number and the seconds to wait before it, while attempts remain.
pub fn next_reconnect(attempts_made: u32, max_attempts: u32) -> (r: Option<(u32, u64)>)
    ensures
        attempts_made >= max_attempts ==> r is None,
        attempts_made < max_attempts ==> r == Some(((attempts_made + 1) as u32, (2 * (attempts_made + 1)) as u64)),
{
    if attempts_made >= max_attempts {
        return None;
    }
    let attempt = attempts_made + 1;
    Some((attempt, 2 * attempt as u64))
}

/// The status and the error once every reconnection attempt has failed.
pub fn reconnect_failure(max_attempts: u32) -> (r: (ConnectionStatus, NovaError))
    ensures
        r.0 is Failed && r.0->Failed_0@ == "Max reconnection attempts exceeded"@,
        r.1 is Generic && r.1->Generic_0@ == "Failed to reconnect after "@ + decimal_text(max_attempts as nat) + " attempts"@,
{
    let status = ConnectionStatus::Failed(String::from_str("Max reconnection attempts exceeded"));
    let msg = String::from_str("Failed to reconnect after ").concat(decimal_string(max_attempts as u64).as_str()).concat(
        " attempts",
    );
    (status, NovaError::Generic(msg))
}

} // verus!
