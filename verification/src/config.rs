//! Configuration values the core is started with.  Reading them from a
//! file is the host's business; the shapes and defaults live here.

use vstd::prelude::*;

verus! {

/// Where the world seed comes from: drawn at random at startup, or set
/// explicitly.
#[derive(Clone, Copy, Debug, PartialEq, Eq, Structural, Hash, PartialOrd, Ord)]
pub enum Seed {
    Random,
    Fixed(u32),
}

impl Seed {
    /// The seed value, given the random draw the host made in case none
    /// was set.
    pub fn value_with(&self, drawn: u32) -> (r: u32)
        ensures
            r == match *self {
                Seed::Random => drawn,
                Seed::Fixed(s) => s,
            },
    {
        match *self {
            Seed::Random => drawn,
            Seed::Fixed(s) => s,
        }
    }
}

impl Default for Seed {
    fn default() -> (r: Seed)
        ensures
            r == Seed::Random,
    {
        Seed::Random
    }
}

/// A fixed spawn position, in whole blocks.
#[derive(Clone, Copy, Debug, PartialEq, Eq, Structural)]
pub struct SpawnPos {
    pub x: i64,
    pub y: i64,
    pub z: i64,
}

/// World options: the seed, the cache bound, the pregenerated square
/// and an optional fixed spawn position.
#[derive(Clone, Copy, Debug, PartialEq, Eq, Structural)]
pub struct WorldConfig {
    pub seed: Seed,
    pub chunks_cached: usize,
    pub spawn: Option<SpawnPos>,
    pub pregen_min: i32,
    pub pregen_max: i32,
}

impl Default for WorldConfig {
    fn default() -> (r: WorldConfig)
        ensures
            r.seed == Seed::Random,
            r.chunks_cached == 4000,
            r.spawn is None,
            r.pregen_min == -12,
            r.pregen_max == 12,
    {
        WorldConfig {
            seed: Seed::Random,
            chunks_cached: 4000,
            spawn: None,
            pregen_min: -12,
            pregen_max: 12,
        }
    }
}

/// How clients connect to the server.
#[derive(Clone, Debug)]
pub enum ConnectionMode {
    Online,
    OnlineNoProxy,
    Offline,
    BungeeCord,
    Velocity { secret: String },
}

impl Default for ConnectionMode {
    fn default() -> (r: ConnectionMode)
        ensures
            r is Online,
    {
        ConnectionMode::Online
    }
}

/// Server options.
#[derive(Clone, Debug)]
pub struct ServerConfig {
    pub max_connections: usize,
    pub max_view_distance: u8,
    pub connection_mode: ConnectionMode,
}

impl Default for ServerConfig {
    fn default() -> (r: ServerConfig)
        ensures
            r.max_connections == 20,
            r.max_view_distance == 20,
            r.connection_mode is Online,
    {
        ServerConfig {
            max_connections: 20,
            max_view_distance: 20,
            connection_mode: ConnectionMode::Online,
        }
    }
}

/// Everything the host reads before the core starts.
#[derive(Clone, Debug)]
pub struct Config {
    /// Whether the host runs its inspector panels; nothing in the core
    /// depends on it.
    pub gui: bool,
    pub world: WorldConfig,
    pub server: ServerConfig,
}

impl Default for Config {
    fn default() -> (r: Config)
        ensures
            !r.gui,
            r.world.seed == Seed::Random,
            r.world.chunks_cached == 4000,
            r.server.max_connections == 20,
            r.server.max_view_distance == 20,
    {
        Config { gui: false, world: WorldConfig::default(), server: ServerConfig::default() }
    }
}

} // verus!
