//! The server's settings and its admission, timeout and tick policies.
use vstd::prelude::*;
use crate::config::{is_default_config, EngineConfig};
use crate::ids::{id_string, id_text};
use crate::text::{chars_of, decimal_string, decimal_text, string_of};

verus! {

#[derive(Debug, Clone)]
pub struct ServerSettings {
    pub name: String,
    pub version: String,
    pub max_clients: usize,
    pub tick_rate: u32,
}

#[derive(Debug, Clone)]
pub struct NetworkConfig {
    pub bind_address: String,
    pub port: u16,
    pub connection_timeout: u64,
    pub max_packet_size: usize,
    pub compression: bool,
}

#[derive(Debug, Clone)]
pub struct GameSettings {
    pub world_size: u32,
    pub max_entities: usize,
    pub physics_enabled: bool,
    pub save_interval: u64,
}

/// Server configuration.
#[derive(Debug, Clone)]
pub struct ServerConfig {
    pub server: ServerSettings,
    pub engine: EngineConfig,
    pub networking: NetworkConfig,
    pub game: GameSettings,
}

impl Default for ServerConfig {
    fn default() -> (c: Self)
        ensures
            c.server.name@ == "Nova Server"@,
            c.server.version@ == "1.0.0"@,
            c.server.max_clients == 100,
            c.server.tick_rate == 60,
            is_default_config(c.engine),
            c.networking.bind_address@ == "0.0.0.0"@,
            c.networking.port == 8080,
            c.networking.connection_timeout == 30,
            c.networking.max_packet_size == 1048576,
            c.networking.compression,
            c.game.world_size == 1000,
            c.game.max_entities == 10000,
            c.game.physics_enabled,
            c.game.save_interval == 300,
    {
        ServerConfig {
            server: ServerSettings {
                name: String::from_str("Nova Server"),
                version: String::from_str("1.0.0"),
                max_clients: 100,
                tick_rate: 60,
            },
            engine: EngineConfig::default(),
            networking: NetworkConfig {
                bind_address: String::from_str("0.0.0.0"),
                port: 8080,
                connection_timeout: 30,
                max_packet_size: 1048576,
                compression: true,
            },
            game: GameSettings { world_size: 1000, max_entities: 10000, physics_enabled: true, save_interval: 300 },
        }
    }
}

/// The periodic work of a game tick.
#[derive(Debug, Clone, Copy, PartialEq, Eq)]
pub struct TickTasks {
    /// Once a minute of ticks: timed-out clients are dropped and the
    /// engine's garbage collector runs.
    pub maintenance: bool,
    /// Once every save interval: the game state is saved.
    pub save: bool,
}

/// The server settings announced to a client in the handshake response.
#[derive(Debug, Clone, Copy, PartialEq, Eq)]
pub struct AdvertisedSettings {
    pub tick_rate: u32,
    pub max_players: u32,
    pub compression_enabled: bool,
    pub heartbeat_interval: u32,
}

/// The server's answer to a client's handshake.
#[derive(Debug, Clone)]
pub struct HandshakeReply {
    pub accepted: bool,
    pub server_version: String,
    pub session_id: String,
    pub settings: AdvertisedSettings,
    pub error_message: Option<String>,
}

/// The session text of a client: its id in hyphenated form, a hyphen, and the
/// milliseconds given.
pub open spec fn session_text_of(client_id: u128, millis: u64) -> Seq<char> {
    id_text(client_id) + "-"@ + decimal_text(millis as nat)
}

/// The session text of a client.
pub fn session_text(client_id: u128, millis: u64) -> (s: String)
    ensures
        s@ == session_text_of(client_id, millis),
{
    let id = id_string(client_id);
    let ms = decimal_string(millis);
    let mut cs = chars_of(id.as_str());
    cs.push('-');
    let mut tail = chars_of(ms.as_str());
    cs.append(&mut tail);
    proof {
        reveal_strlit("-");
        assert(cs@ =~= id_text(client_id) + "-"@ + decimal_text(millis as nat));
    }
    string_of(&cs)
}

/// Seconds between heartbeats that the server asks of its clients.
pub const HEARTBEAT_INTERVAL_SECONDS: u32 = 30;

impl ServerConfig {
    /// Whether a new connection is accepted while `connected` clients are connected.
    pub fn accepts_client(&self, connected: usize) -> (b: bool)
        ensures
            b == (connected < self.server.max_clients),
    {
        connected < self.server.max_clients
    }

    /// Whether a client silent for `idle_nanos` nanoseconds has timed out.
    pub fn is_timed_out(&self, idle_nanos: u128) -> (b: bool)
        ensures
            b == (idle_nanos > self.networking.connection_timeout * 1_000_000_000),
    {
        idle_nanos > self.networking.connection_timeout as u128 * 1_000_000_000u128
    }

    /// Milliseconds between two ticks.
    pub fn tick_interval_ms(&self) -> (ms: u64)
        requires
            self.server.tick_rate > 0,
        ensures
            ms == 1000int / (self.server.tick_rate as int),
    {
        1000 / self.server.tick_rate as u64
    }

    /// The periodic work due at tick number `tick`.
    pub fn tick_tasks(&self, tick: u64) -> (t: TickTasks)
        requires
            self.server.tick_rate > 0,
            self.game.save_interval > 0,
            self.server.tick_rate * self.game.save_interval <= u64::MAX,
        ensures
            t.maintenance == (tick % (self.server.tick_rate * 60) as u64 == 0),
            t.save == (tick % (self.server.tick_rate * self.game.save_interval) as u64 == 0),
    {
        let rate = self.server.tick_rate as u64;
        assert(rate * self.game.save_interval > 0) by (nonlinear_arith)
            requires
                rate > 0,
                self.game.save_interval > 0,
        ;
        TickTasks { maintenance: tick % (rate * 60) == 0, save: tick % (rate * self.game.save_interval) == 0 }
    }

    /// The settings announced in a handshake response; the player limit is
    /// the client limit taken modulo 2^32.
    pub fn advertised_settings(&self) -> (s: AdvertisedSettings)
        ensures
            s.tick_rate == self.server.tick_rate,
            s.max_players == (self.server.max_clients as int) % 0x1_0000_0000int,
            s.compression_enabled == self.networking.compression,
            s.heartbeat_interval == HEARTBEAT_INTERVAL_SECONDS,
    {
        AdvertisedSettings {
            tick_rate: self.server.tick_rate,
            max_players: (self.server.max_clients as u64 % 0x1_0000_0000) as u32,
            compression_enabled: self.networking.compression,
            heartbeat_interval: HEARTBEAT_INTERVAL_SECONDS,
        }
    }

    /// The answer to a handshake of the client with the session `session_id`:
    /// accepted, with the server's version and its advertised settings.
    pub fn handshake_reply(&self, session_id: String) -> (r: HandshakeReply)
        ensures
            r.accepted,
            r.server_version@ == "1.0.0"@,
            r.session_id@ == session_id@,
            r.settings.tick_rate == self.server.tick_rate,
            r.settings.max_players == (self.server.max_clients as int) % 0x1_0000_0000int,
            r.settings.compression_enabled == self.networking.compression,
            r.settings.heartbeat_interval == HEARTBEAT_INTERVAL_SECONDS,
            r.error_message is None,
    {
        HandshakeReply {
            accepted: true,
            server_version: String::from_str("1.0.0"),
            session_id,
            settings: self.advertised_settings(),
            error_message: None,
        }
    }
}

} // verus!
