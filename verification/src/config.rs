//! Engine configuration and its validation.
use vstd::prelude::*;
use crate::error::{NovaError, NovaResult};
use crate::ieee::{bits_less_than, less_than, ONE_BITS, ONE_TENTH_BITS};

verus! {

/// Bit pattern of the single-precision value 0.8, the default GC threshold.
pub const DEFAULT_GC_THRESHOLD_BITS: u32 = 0x3f4c_cccd;

#[derive(Debug, Clone)]
pub struct EngineSettings {
    pub name: String,
    pub version: String,
    pub debug: bool,
}

/// Memory settings. `gc_threshold` holds the bit pattern of a single-precision
/// ratio of the heap.
#[derive(Debug, Clone)]
pub struct MemoryConfig {
    pub heap_size: String,
    pub pool_count: usize,
    pub gc_threshold: u32,
}

#[derive(Debug, Clone)]
pub struct ThreadingConfig {
    pub worker_threads: usize,
    pub main_thread_affinity: Option<usize>,
}

#[derive(Debug, Clone)]
pub struct EventConfig {
    pub queue_size: usize,
    pub priority_levels: usize,
}

#[derive(Debug, Clone)]
pub struct PluginConfig {
    pub directory: String,
    pub auto_load: bool,
    pub hot_reload: bool,
    pub enabled: Vec<String>,
    pub disabled: Vec<String>,
}

/// Engine configuration.
#[derive(Debug, Clone)]
pub struct EngineConfig {
    pub engine: EngineSettings,
    pub memory: MemoryConfig,
    pub threading: ThreadingConfig,
    pub events: EventConfig,
    pub plugins: PluginConfig,
}

/// `num_cpus::get`: the number of logical CPUs available to the process.
/// Its documentation promises at least 1; nothing else is promised.
#[verifier::external_body]
fn logical_cpus() -> (n: usize)
    ensures
        n >= 1,
{
    num_cpus::get()
}

/// The default configuration, apart from the number of worker threads, which
/// is the number of logical CPUs.
pub open spec fn is_default_config(c: EngineConfig) -> bool {
    &&& c.engine.name@ == "Nova Engine"@
    &&& c.engine.version@ == "1.0.0"@
    &&& !c.engine.debug
    &&& c.memory.heap_size@ == "1GB"@
    &&& c.memory.pool_count == 16
    &&& c.memory.gc_threshold == DEFAULT_GC_THRESHOLD_BITS
    &&& c.threading.worker_threads >= 1
    &&& c.threading.main_thread_affinity is None
    &&& c.events.queue_size == 10000
    &&& c.events.priority_levels == 5
    &&& c.plugins.directory@ == "plugins"@
    &&& c.plugins.auto_load
    &&& c.plugins.hot_reload
    &&& c.plugins.enabled@.len() == 0
    &&& c.plugins.disabled@.len() == 0
}

impl Default for EngineConfig {
    fn default() -> (c: Self)
        ensures
            is_default_config(c),
    {
        EngineConfig {
            engine: EngineSettings {
                name: String::from_str("Nova Engine"),
                version: String::from_str("1.0.0"),
                debug: false,
            },
            memory: MemoryConfig {
                heap_size: String::from_str("1GB"),
                pool_count: 16,
                gc_threshold: DEFAULT_GC_THRESHOLD_BITS,
            },
            threading: ThreadingConfig { worker_threads: logical_cpus(), main_thread_affinity: None },
            events: EventConfig { queue_size: 10000, priority_levels: 5 },
            plugins: PluginConfig {
                directory: String::from_str("plugins"),
                auto_load: true,
                hot_reload: true,
                enabled: Vec::new(),
                disabled: Vec::new(),
            },
        }
    }
}

/// The message of the first check that a configuration fails, if any.
pub open spec fn config_problem(c: EngineConfig) -> Option<Seq<char>> {
    if c.memory.pool_count == 0 {
        Some("Memory pool count cannot be zero"@)
    } else if less_than(c.memory.gc_threshold, ONE_TENTH_BITS) || less_than(ONE_BITS, c.memory.gc_threshold) {
        Some("GC threshold must be between 0.1 and 1.0"@)
    } else if c.threading.worker_threads == 0 {
        Some("Worker thread count cannot be zero"@)
    } else if c.events.queue_size == 0 {
        Some("Event queue size cannot be zero"@)
    } else if c.events.priority_levels == 0 {
        Some("Priority levels cannot be zero"@)
    } else {
        None
    }
}

impl EngineConfig {
    /// Replaces this configuration by `other`.
    pub fn merge(&mut self, other: EngineConfig)
        ensures
            *final(self) == other,
    {
        *self = other;
    }

    /// Checks the configuration values; the first failed check gives the error.
    pub fn validate(&self) -> (r: NovaResult<()>)
        ensures
            match config_problem(*self) {
                None => r is Ok,
                Some(msg) => r == Err::<(), NovaError>(NovaError::Config(r->Err_0->Config_0))
                    && r->Err_0->Config_0@ == msg,
            },
    {
        if self.memory.pool_count == 0 {
            return Err(NovaError::config("Memory pool count cannot be zero"));
        }
        if bits_less_than(self.memory.gc_threshold, ONE_TENTH_BITS) || bits_less_than(ONE_BITS, self.memory.gc_threshold) {
            return Err(NovaError::config("GC threshold must be between 0.1 and 1.0"));
        }
        if self.threading.worker_threads == 0 {
            return Err(NovaError::config("Worker thread count cannot be zero"));
        }
        if self.events.queue_size == 0 {
            return Err(NovaError::config("Event queue size cannot be zero"));
        }
        if self.events.priority_levels == 0 {
            return Err(NovaError::config("Priority levels cannot be zero"));
        }
        Ok(())
    }
}

/// The default configuration passes validation.
pub proof fn lemma_default_config_valid(c: EngineConfig)
    requires
        is_default_config(c),
    ensures
        config_problem(c) is None,
{
    assert((0x3f4c_cccdu32 >> 23u32) & 0xffu32 == 126u32 && 0x3f4c_cccdu32 >> 31u32 == 0u32
        && (0x3f4c_cccdu32 & 0x7fff_ffffu32) == 0x3f4c_cccdu32) by (bit_vector);
    assert((0x3dcc_cccdu32 >> 23u32) & 0xffu32 == 123u32 && 0x3dcc_cccdu32 >> 31u32 == 0u32
        && (0x3dcc_cccdu32 & 0x7fff_ffffu32) == 0x3dcc_cccdu32) by (bit_vector);
    assert((0x3f80_0000u32 >> 23u32) & 0xffu32 == 127u32 && 0x3f80_0000u32 >> 31u32 == 0u32
        && (0x3f80_0000u32 & 0x7fff_ffffu32) == 0x3f80_0000u32) by (bit_vector);
}

} // verus!
