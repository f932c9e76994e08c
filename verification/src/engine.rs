//! The engine builder and the per-frame schedule of the main loop.
use vstd::prelude::*;
use crate::config::{is_default_config, EngineConfig};

verus! {

/// Frames per second the main loop aims at.
pub const TARGET_FPS: u64 = 60;

/// What the main loop does besides updating at the end of a frame.
#[derive(Debug, Clone, Copy, PartialEq, Eq)]
pub struct FrameTasks {
    /// Every 5 seconds of frames, the performance statistics are logged.
    pub log_stats: bool,
    /// Every 30 seconds of frames, the garbage collector runs.
    pub collect_garbage: bool,
}

/// The periodic work due after frame number `frame_count`.
pub fn frame_tasks(frame_count: u64) -> (t: FrameTasks)
    ensures
        t.log_stats == (frame_count % (TARGET_FPS * 5) as u64 == 0),
        t.collect_garbage == (frame_count % (TARGET_FPS * 30) as u64 == 0),
{
    FrameTasks {
        log_stats: frame_count % (TARGET_FPS * 5) == 0,
        collect_garbage: frame_count % (TARGET_FPS * 30) == 0,
    }
}

/// Builds an engine configuration step by step from the default one.
pub struct EngineBuilder {
    config: EngineConfig,
}

impl EngineBuilder {
    pub closed spec fn view(&self) -> EngineConfig {
        self.config
    }

    pub fn new() -> (b: Self)
        ensures
            is_default_config(b@),
    {
        EngineBuilder { config: EngineConfig::default() }
    }

    pub fn name(self, name: String) -> (b: Self)
        ensures
            b@ == (EngineConfig { engine: crate::config::EngineSettings { name, ..self@.engine }, ..self@ }),
    {
        let mut s = self;
        s.config.engine.name = name;
        s
    }

    /// Sets the heap size, the pool count and the bits of the GC threshold.
    pub fn memory(self, heap_size: String, pool_count: usize, gc_threshold: u32) -> (b: Self)
        ensures
            b@ == (EngineConfig {
                memory: crate::config::MemoryConfig { heap_size, pool_count, gc_threshold },
                ..self@
            }),
    {
        let mut s = self;
        s.config.memory.heap_size = heap_size;
        s.config.memory.pool_count = pool_count;
        s.config.memory.gc_threshold = gc_threshold;
        s
    }

    pub fn threading(self, worker_threads: usize, main_thread_affinity: Option<usize>) -> (b: Self)
        ensures
            b@ == (EngineConfig {
                threading: crate::config::ThreadingConfig { worker_threads, main_thread_affinity },
                ..self@
            }),
    {
        let mut s = self;
        s.config.threading.worker_threads = worker_threads;
        s.config.threading.main_thread_affinity = main_thread_affinity;
        s
    }

    pub fn events(self, queue_size: usize, priority_levels: usize) -> (b: Self)
        ensures
            b@ == (EngineConfig { events: crate::config::EventConfig { queue_size, priority_levels }, ..self@ }),
    {
        let mut s = self;
        s.config.events.queue_size = queue_size;
        s.config.events.priority_levels = priority_levels;
        s
    }

    pub fn plugins(self, directory: String, auto_load: bool, hot_reload: bool) -> (b: Self)
        ensures
            b@ == (EngineConfig {
                plugins: crate::config::PluginConfig { directory, auto_load, hot_reload, ..self@.plugins },
                ..self@
            }),
    {
        let mut s = self;
        s.config.plugins.directory = directory;
        s.config.plugins.auto_load = auto_load;
        s.config.plugins.hot_reload = hot_reload;
        s
    }

    pub fn debug(self, debug: bool) -> (b: Self)
        ensures
            b@ == (EngineConfig { engine: crate::config::EngineSettings { debug, ..self@.engine }, ..self@ }),
    {
        let mut s = self;
        s.config.engine.debug = debug;
        s
    }

    /// The configuration built so far.
    pub fn config(&self) -> (c: &EngineConfig)
        ensures
            *c == self@,
    {
        &self.config
    }

    /// The configuration the engine is built with.
    pub fn into_config(self) -> (c: EngineConfig)
        ensures
            c == self@,
    {
        self.config
    }
}

impl Default for EngineBuilder {
    fn default() -> (b: Self)
        ensures
            is_default_config(b@),
    {
        Self::new()
    }
}

} // verus!
