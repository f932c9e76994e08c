use nova_core::cli::fill_template;
use nova_core::client::{check_send, next_reconnect, reconnect_failure, ClientConfig, ConnectionStatus};
use nova_core::config::EngineConfig;
use nova_core::engine::{frame_tasks, EngineBuilder};
use nova_core::error::NovaError;
use nova_core::events::{Event, EventPriority, EventSystem, SimpleEventHandler};
use nova_core::ieee::{bits_less_than, ratio_exceeds_bits};
use nova_core::memsize::{parse_memory_size, parse_normalized_memory_size};
use nova_core::plugins::{PluginConfig, PluginManager, PluginPermissions, PluginStatus, SamplePlugin};
use nova_core::protocol::NovaProtocol;
use nova_core::resources::{Resource, ResourceManager};
use nova_core::server::{session_text, ServerConfig};
use nova_core::text::{decimal_string, trim_chars};
use nova_core::texture::{TextureFormat, TextureLoader, TextureMessage, TextureResource};
use nova_core::threading::{check_worker_threads, ComputeTask, IOTask, Task, TaskPriority, TaskQueue, ThreadingStats};
use std::cell::RefCell;
use std::rc::Rc;

struct Numbered(u32);

impl Event for Numbered {
    fn event_type(&self) -> &'static str {
        "numbered"
    }
}

struct Named(&'static str);

impl Event for Named {
    fn event_type(&self) -> &'static str {
        self.0
    }
}

fn texture(bytes: usize) -> TextureResource {
    TextureResource { width: 1, height: 1, data: vec![7u8; bytes], format: "RGB8".to_string() }
}

fn plugin_config(name: &str, deps: &[&str]) -> PluginConfig {
    PluginConfig {
        name: name.to_string(),
        version: "1.0.0".to_string(),
        author: "tester".to_string(),
        description: "a plugin".to_string(),
        dependencies: deps.iter().map(|d| d.to_string()).collect(),
        permissions: PluginPermissions {
            resource_access: vec![],
            event_access: vec![],
            network_access: false,
            file_system_access: false,
        },
        settings: std::collections::HashMap::new(),
    }
}

// ---- error messages ----

#[test]
fn error_message_has_kind_prefix() {
    assert_eq!(NovaError::config("bad value").to_message(), "Configuration error: bad value");
    assert_eq!(NovaError::plugin("x").to_message(), "Plugin error: x");
    assert_eq!(NovaError::Generic("g".to_string()).to_message(), "Generic error: g");
}

#[test]
fn decimal_text_of_numbers() {
    assert_eq!(decimal_string(0), "0");
    assert_eq!(decimal_string(1048576), "1048576");
    assert_eq!(decimal_string(u64::MAX), "18446744073709551615");
}

#[test]
fn trim_removes_unicode_white_space() {
    let cs: Vec<char> = "\u{3000} \t1GB\n ".chars().collect();
    let t: String = trim_chars(&cs).into_iter().collect();
    assert_eq!(t, "1GB");
    let blank: Vec<char> = "  ".chars().collect();
    assert!(trim_chars(&blank).is_empty());
}

// ---- memory sizes ----

#[test]
fn memory_size_units_and_case() {
    assert_eq!(parse_memory_size(" 1gb ").unwrap(), 1 << 30);
    assert_eq!(parse_memory_size("1.5GB").unwrap(), 1610612736);
    assert_eq!(parse_memory_size("0.5KB").unwrap(), 512);
    assert_eq!(parse_memory_size(".25MB").unwrap(), 262144);
    assert_eq!(parse_memory_size("1e3KB").unwrap(), 1024000);
    assert_eq!(parse_memory_size("2.KB").unwrap(), 2048);
    assert_eq!(parse_memory_size("+7B").unwrap(), 7);
    assert_eq!(parse_memory_size("0.0001KB").unwrap(), 0);
}

#[test]
fn memory_size_saturates_and_clamps() {
    assert_eq!(parse_memory_size("-1GB").unwrap(), 0);
    assert_eq!(parse_memory_size("infMB").unwrap(), usize::MAX);
    assert_eq!(parse_memory_size("-infinityMB").unwrap(), 0);
    assert_eq!(parse_memory_size("nanGB").unwrap(), 0);
    assert_eq!(parse_memory_size("99999999999999GB").unwrap(), usize::MAX);
    assert_eq!(parse_memory_size("1e400KB").unwrap(), usize::MAX);
    assert_eq!(parse_memory_size("1e-400KB").unwrap(), 0);
}

#[test]
fn memory_size_reads_the_number_as_a_double() {
    // the decimal text rounds to the nearest double before it is scaled
    assert_eq!(parse_memory_size("1.9999999999999999999GB").unwrap(), 2147483648);
    assert_eq!(parse_memory_size("1.0000000000000001GB").unwrap(), 1 << 30);
    // 2^53 + 1 lies halfway between two doubles and rounds to the even one
    assert_eq!(parse_memory_size("9007199254740993KB").unwrap(), 1usize << 63);
    assert_eq!(parse_memory_size("0.1KB").unwrap(), 102);
    let samples = [
        ("1.9999999999999999999", 30u32),
        ("0.1", 10),
        ("0.3", 20),
        ("123.456", 10),
        ("4.0000000000000000001", 30),
        ("17179869183.999999999", 10),
        ("9007199254740993", 10),
        ("0.000000001", 30),
        ("3.14159265358979323846", 20),
        ("8589934591.9999999", 30),
        ("1e-9", 30),
        ("2.5e9", 10),
    ];
    for (num, k) in samples {
        let unit = match k {
            10 => "KB",
            20 => "MB",
            _ => "GB",
        };
        let expected = (num.parse::<f64>().unwrap() * (1u64 << k) as f64) as usize;
        assert_eq!(parse_memory_size(&format!("{}{}", num, unit)).unwrap(), expected, "{}{}", num, unit);
    }
}

#[test]
fn memory_size_rejects_malformed_text() {
    for bad in ["", "GB", "B", "1e", "1.2.3MB", "-5B", "12 MB", "0x10", "+", "1..0KB", "e5KB"] {
        match parse_memory_size(bad) {
            Err(NovaError::Config(msg)) => assert_eq!(msg, "Invalid memory size format"),
            other => panic!("{:?} gave {:?}", bad, other),
        }
    }
    assert!(parse_memory_size("18446744073709551616").is_err() || usize::BITS < 64);
}

#[test]
fn normalized_memory_size_is_case_sensitive() {
    let lower: Vec<char> = "1gb".chars().collect();
    assert!(parse_normalized_memory_size(&lower).is_err());
    let upper: Vec<char> = "1GB".chars().collect();
    assert_eq!(parse_normalized_memory_size(&upper).unwrap(), 1 << 30);
}

// ---- single-precision comparisons ----

#[test]
fn threshold_comparisons_match_ieee() {
    let vals = [0.0f32, -0.0, 0.1, 0.8, 1.0, 1.5, -2.0, f32::INFINITY, f32::NEG_INFINITY, f32::NAN, 1e-40];
    for a in vals {
        for b in vals {
            assert_eq!(bits_less_than(a.to_bits(), b.to_bits()), a < b, "{} < {}", a, b);
        }
    }
}

#[test]
fn usage_ratio_against_threshold() {
    let t = 0.8f32.to_bits();
    assert!(!ratio_exceeds_bits(80, 100, t));
    assert!(ratio_exceeds_bits(81, 100, t));
    assert!(!ratio_exceeds_bits(0, 0, t));
    assert!(ratio_exceeds_bits(1, 0, t));
    assert!(!ratio_exceeds_bits(1, 0, f32::INFINITY.to_bits()));
    assert!(ratio_exceeds_bits(0, 10, (-1.0f32).to_bits()));
    assert!(!ratio_exceeds_bits(0, 10, (-0.0f32).to_bits()));
    assert!(!ratio_exceeds_bits(5, 10, f32::NAN.to_bits()));
    assert!(ratio_exceeds_bits(1, usize::MAX, 1e-40f32.to_bits()));
    assert!(!ratio_exceeds_bits(usize::MAX, 1, 1e30f32.to_bits()));
}

#[test]
fn usage_ratio_is_rounded_as_single_precision() {
    let one = 1.0f32.to_bits();
    assert!(!ratio_exceeds_bits(16777217, 16777216, one));
    assert!(ratio_exceeds_bits(16777218, 16777216, one));
    let samples: [(usize, usize); 8] = [
        (1, 3),
        (2, 3),
        (123456789, 987654321),
        (usize::MAX, usize::MAX - 1),
        (1 << 40, (1 << 41) + 1),
        (999_999_999, 1_000_000_000),
        (7, 7),
        (33554431, 33554432),
    ];
    for (u, m) in samples {
        for t in [0.1f32, 0.5, 0.8, 0.9999999, 1.0, 0.33333334, 0.6666667] {
            assert_eq!(ratio_exceeds_bits(u, m, t.to_bits()), (u as f32 / m as f32) > t, "{} / {} > {}", u, m, t);
        }
    }
}

// ---- configuration ----

#[test]
fn default_configuration_values() {
    let c = EngineConfig::default();
    assert_eq!(c.engine.name, "Nova Engine");
    assert_eq!(c.memory.heap_size, "1GB");
    assert_eq!(c.memory.gc_threshold, 0.8f32.to_bits());
    assert!(c.threading.worker_threads >= 1);
    assert_eq!(c.events.queue_size, 10000);
    assert_eq!(c.events.priority_levels, 5);
    assert_eq!(c.plugins.directory, "plugins");
}

#[test]
fn each_validation_error() {
    let mut c = EngineConfig::default();
    c.memory.gc_threshold = 0.05f32.to_bits();
    assert_eq!(c.validate(), Err(NovaError::Config("GC threshold must be between 0.1 and 1.0".to_string())));
    c.memory.gc_threshold = 0.1f32.to_bits();
    assert!(c.validate().is_ok());
    c.memory.gc_threshold = 1.0f32.to_bits();
    assert!(c.validate().is_ok());
    c.events.queue_size = 0;
    assert_eq!(c.validate(), Err(NovaError::Config("Event queue size cannot be zero".to_string())));
    c.events.queue_size = 1;
    c.events.priority_levels = 0;
    assert_eq!(c.validate(), Err(NovaError::Config("Priority levels cannot be zero".to_string())));
    c.memory.pool_count = 0;
    assert_eq!(c.validate(), Err(NovaError::Config("Memory pool count cannot be zero".to_string())));
}

#[test]
fn merge_takes_the_other_configuration() {
    let mut a = EngineConfig::default();
    let b = EngineBuilder::new().name("Other".to_string()).into_config();
    a.merge(b);
    assert_eq!(a.engine.name, "Other");
}

#[test]
fn builder_sets_every_section() {
    let c = EngineBuilder::new()
        .memory("64MB".to_string(), 2, 0.5f32.to_bits())
        .threading(3, Some(1))
        .events(10, 2)
        .plugins("mods".to_string(), false, true)
        .debug(true)
        .into_config();
    assert_eq!(c.memory.heap_size, "64MB");
    assert_eq!(c.memory.pool_count, 2);
    assert_eq!(c.threading.worker_threads, 3);
    assert_eq!(c.threading.main_thread_affinity, Some(1));
    assert_eq!(c.events.queue_size, 10);
    assert_eq!(c.plugins.directory, "mods");
    assert!(!c.plugins.auto_load && c.plugins.hot_reload);
    assert!(c.engine.debug);
}

#[test]
fn frame_schedule() {
    assert_eq!(frame_tasks(0).log_stats, true);
    assert_eq!(frame_tasks(300).log_stats, true);
    assert_eq!(frame_tasks(300).collect_garbage, false);
    assert_eq!(frame_tasks(1800).collect_garbage, true);
    assert_eq!(frame_tasks(301).log_stats, false);
}

// ---- events ----

#[test]
fn full_queue_drops_its_oldest_event() {
    let mut es: EventSystem<Numbered, SimpleEventHandler<Numbered, fn(&Numbered) -> nova_core::NovaResult<()>>> =
        EventSystem::new(2, 5);
    es.dispatch(Numbered(1)).unwrap();
    es.dispatch(Numbered(2)).unwrap();
    es.dispatch(Numbered(3)).unwrap();
    assert_eq!(es.get_stats().events_dropped, 1);
    let order: Vec<u32> = es.drain_events().iter().map(|q| q.event.0).collect();
    assert_eq!(order, vec![2, 3]);
}

#[test]
fn higher_priorities_are_processed_first() {
    let mut es: EventSystem<Numbered, SimpleEventHandler<Numbered, fn(&Numbered) -> nova_core::NovaResult<()>>> =
        EventSystem::new(10, 5);
    es.dispatch_with_priority(Numbered(1), EventPriority::Low).unwrap();
    es.dispatch_with_priority(Numbered(2), EventPriority::Immediate).unwrap();
    es.dispatch_with_priority(Numbered(3), EventPriority::Normal).unwrap();
    es.dispatch_with_priority(Numbered(4), EventPriority::Immediate).unwrap();
    let order: Vec<u32> = es.drain_events().iter().map(|q| q.event.0).collect();
    assert_eq!(order, vec![2, 4, 3, 1]);
}

#[test]
fn priority_beyond_the_levels_is_refused() {
    let mut es: EventSystem<Numbered, SimpleEventHandler<Numbered, fn(&Numbered) -> nova_core::NovaResult<()>>> =
        EventSystem::new(10, 2);
    assert_eq!(
        es.dispatch_with_priority(Numbered(1), EventPriority::High),
        Err(NovaError::Event("Invalid priority level".to_string()))
    );
    assert!(es.dispatch_with_priority(Numbered(1), EventPriority::Normal).is_ok());
}

#[test]
fn handlers_receive_events_of_their_kind_and_failures_are_not_counted() {
    let seen = Rc::new(RefCell::new(Vec::new()));
    let seen2 = seen.clone();
    let mut es = EventSystem::new(10, 5);
    es.register_handler(
        "start",
        SimpleEventHandler::new(move |e: &Named| {
            seen2.borrow_mut().push(e.0);
            if e.0 == "start" { Ok(()) } else { Err(NovaError::event("unexpected")) }
        }),
    );
    es.dispatch(Named("start")).unwrap();
    es.dispatch(Named("stop")).unwrap();
    es.dispatch(Named("start")).unwrap();
    es.process_events().unwrap();
    assert_eq!(*seen.borrow(), vec!["start", "start"]);
    let stats = es.get_stats();
    assert_eq!(stats.events_dispatched, 3);
    assert_eq!(stats.events_handled, 2);
    es.clear();
    assert_eq!(es.get_stats().events_dispatched, 0);
}

#[test]
fn unregistering_an_unknown_handler_names_it() {
    let mut es: EventSystem<Numbered, SimpleEventHandler<Numbered, fn(&Numbered) -> nova_core::NovaResult<()>>> =
        EventSystem::new(10, 5);
    assert_eq!(
        es.unregister_handler(42),
        Err(NovaError::Event("Handler 00000000-0000-0000-0000-00000000002a not found".to_string()))
    );
}

#[test]
fn handler_ids_are_version_four_and_can_be_unregistered() {
    fn ok(_: &Numbered) -> nova_core::NovaResult<()> {
        Ok(())
    }
    let mut es: EventSystem<Numbered, SimpleEventHandler<Numbered, fn(&Numbered) -> nova_core::NovaResult<()>>> =
        EventSystem::new(10, 5);
    let a = es.register_handler("numbered", SimpleEventHandler::new(ok as fn(&Numbered) -> nova_core::NovaResult<()>));
    let b = es.register_handler("numbered", SimpleEventHandler::new(ok as fn(&Numbered) -> nova_core::NovaResult<()>));
    assert_ne!(a, b);
    for id in [a, b] {
        assert_eq!((id >> 76) & 0xf, 4);
        assert_eq!((id >> 62) & 0x3, 2);
    }
    assert_eq!(es.unregister_handler(a), Ok(()));
    assert!(es.unregister_handler(a).is_err());
    assert_eq!(es.unregister_handler(b), Ok(()));
}

// ---- resources ----

#[test]
fn usage_over_the_threshold_and_the_heap_is_out_of_memory() {
    let mut rm: ResourceManager<TextureResource> = ResourceManager::new("1000B", 0.8f32.to_bits()).unwrap();
    let base = texture(0).size();
    let first = rm.insert_resource(texture(0), 800, "Texture", 0);
    assert!(first.is_ok());
    assert_eq!(rm.insert_resource(texture(0), 201, "Texture", 0), Err(NovaError::Resource("Out of memory".to_string())));
    assert!(rm.insert_resource(texture(0), 200, "Texture", 0).is_ok());
    let stats = rm.get_memory_stats();
    assert_eq!(stats.total_used, 1000);
    assert_eq!(stats.resource_count, 2);
    assert_eq!(stats.total_allocated, 1000);
    assert!(base >= std::mem::size_of::<TextureResource>());
}

#[test]
fn references_are_counted_until_the_last_release() {
    let mut rm: ResourceManager<TextureResource> = ResourceManager::new("10MB", 0.8f32.to_bits()).unwrap();
    let h = rm.create_resource(texture(16), 0).unwrap();
    let size = texture(16).size();
    assert_eq!(size, 16 + std::mem::size_of::<TextureResource>());
    assert_eq!(rm.get_memory_stats().total_used, size);
    let got = rm.get_resource(&h, 5).unwrap();
    assert_eq!(got.data, vec![7u8; 16]);
    assert!(rm.unload_resource(h).is_ok());
    assert_eq!(rm.get_memory_stats().resource_count, 1);
    assert!(rm.unload_resource(h).is_ok());
    assert_eq!(rm.get_memory_stats().resource_count, 0);
    assert_eq!(rm.get_memory_stats().total_used, 0);
    assert_eq!(rm.unload_resource(h), Err(NovaError::Resource("Resource not found".to_string())));
    assert!(rm.get_resource(&h, 6).is_err());
}

#[test]
fn a_resource_taken_three_times_needs_four_releases() {
    let mut rm: ResourceManager<TextureResource> = ResourceManager::new("10MB", 0.8f32.to_bits()).unwrap();
    let _other = rm.create_resource(texture(8), 0).unwrap();
    let before = rm.get_memory_stats();
    let h = rm.create_resource(texture(32), 1).unwrap();
    for now in 2..5u64 {
        assert_eq!(rm.get_resource(&h, now).unwrap().data, vec![7u8; 32]);
    }
    for _ in 0..3 {
        assert!(rm.unload_resource(h).is_ok());
        let held = rm.get_memory_stats();
        assert_eq!(held.resource_count, before.resource_count + 1);
        assert_eq!(held.total_used, before.total_used + texture(32).size());
    }
    assert!(rm.unload_resource(h).is_ok());
    let after = rm.get_memory_stats();
    assert_eq!(after.resource_count, before.resource_count);
    assert_eq!(after.total_used, before.total_used);
    assert_eq!(rm.unload_resource(h), Err(NovaError::Resource("Resource not found".to_string())));
}

#[test]
fn a_resource_added_under_a_held_id_replaces_it() {
    let mut rm: ResourceManager<TextureResource> = ResourceManager::new("10MB", 0.8f32.to_bits()).unwrap();
    let h = rm.insert_with_id(texture(2), 10, "Texture", 0, 77).unwrap();
    assert_eq!(h.id(), 77);
    let again = rm.insert_with_id(texture(5), 30, "Texture", 1, 77).unwrap();
    assert_eq!(again.id(), 77);
    assert_eq!(rm.get_resource(&again, 2).unwrap().data, vec![7u8; 5]);
    let s = rm.get_memory_stats();
    assert_eq!((s.resource_count, s.total_used), (2, 40));
    assert_eq!(rm.insert_with_id(texture(2), 10, "Texture", 0, 78).map(|h| h.id()), Ok(78));
}

#[test]
fn an_oversized_resource_is_refused_and_nothing_is_stored() {
    let mut rm: ResourceManager<TextureResource> = ResourceManager::new("1KB", 0.8f32.to_bits()).unwrap();
    assert_eq!(rm.create_resource(texture(2048), 0), Err(NovaError::Resource("Out of memory".to_string())));
    let s = rm.get_memory_stats();
    assert_eq!((s.total_used, s.resource_count, s.gc_runs, s.total_allocated), (0, 0, 0, 1024));
}

#[test]
fn garbage_collection_keeps_referenced_resources() {
    let mut rm: ResourceManager<TextureResource> = ResourceManager::new("10MB", 0.8f32.to_bits()).unwrap();
    let h = rm.create_resource(texture(4), 0).unwrap();
    assert!(rm.garbage_collect(1_000_000_000_000).is_ok());
    assert!(rm.get_resource(&h, 1).is_ok());
    assert_eq!(rm.get_memory_stats().gc_runs, 0);
}

#[test]
fn loaded_paths_are_cached() {
    let mut rm: ResourceManager<TextureResource> = ResourceManager::new("10MB", 0.8f32.to_bits()).unwrap();
    assert!(rm.cached_handle("a.png").is_none());
    let h = rm.insert_loaded("a.png", texture(3), 0).unwrap();
    assert_eq!(rm.cached_handle("a.png").map(|c| c.id()), Some(h.id()));
    let stats = rm.get_memory_stats();
    assert_eq!(stats.cache_hits, 1);
    assert_eq!(stats.cache_misses, 1);
}

#[test]
fn bad_heap_size_is_a_configuration_error() {
    let r: Result<ResourceManager<TextureResource>, NovaError> = ResourceManager::new("lots", 0.8f32.to_bits());
    assert!(matches!(r, Err(NovaError::Config(_))));
}

// ---- textures ----

#[test]
fn texture_format_names_round_trip() {
    for name in ["RGBA8", "RGB8", "RGBA16F", "RGBA32F", "DXT1", "DXT5", "BC7"] {
        assert_eq!(TextureFormat::from_name(name).name(), name);
    }
    assert_eq!(TextureFormat::from_name("rgba8"), TextureFormat::Unspecified);
    assert_eq!(TextureFormat::from_name("weird").name(), "RGBA8");
}

#[test]
fn texture_loader_reads_image_files() {
    let loader = TextureLoader;
    assert!(loader.can_load("assets/hero.PNG"));
    assert!(loader.can_load("x.jpeg"));
    assert!(!loader.can_load("notes.txt"));
    assert!(!loader.can_load("noextension"));
    assert!(!loader.can_load(".png"));
    let t = loader.texture_from_bytes(vec![1, 2, 3]);
    assert_eq!((t.width, t.height, t.format.as_str()), (256, 256, "RGBA8"));
    assert_eq!(t.resource_type(), "Texture");
}

// ---- plugins ----

#[test]
fn plugin_lifecycle() {
    let mut pm = PluginManager::new("plugins".to_string(), true, false, "1.0.0".to_string());
    pm.register_plugin(plugin_config("core", &[]), 0).unwrap();
    assert_eq!(pm.get_plugin_status("core"), Some(PluginStatus::Loaded));
    assert_eq!(pm.start_plugin("core"), Err(NovaError::Plugin("Plugin core is not initialized".to_string())));
    assert!(pm.begin_initialize("core").is_ok());
    assert!(pm.finish_initialize("core", Ok(())).is_ok());
    assert_eq!(pm.begin_initialize("core"), Err(NovaError::Plugin("Plugin core is not in loaded state".to_string())));
    assert!(pm.start_plugin("core").is_ok());
    assert_eq!(pm.running_plugins(), vec!["core".to_string()]);
    pm.finish_update("core", &Err(NovaError::plugin("boom")));
    assert_eq!(pm.get_plugin_status("core"), Some(PluginStatus::Error("Plugin error: boom".to_string())));
    assert!(pm.running_plugins().is_empty());
    assert!(pm.begin_stop("core").is_ok());
    assert!(pm.finish_stop("core", Ok(())).is_ok());
    assert_eq!(pm.get_plugin_status("core"), Some(PluginStatus::Stopped));
    assert!(pm.unload_plugin("core").is_ok());
    assert_eq!(pm.unload_plugin("core"), Err(NovaError::Plugin("Plugin core not found".to_string())));
    assert_eq!(pm.get_plugin_status("core"), None);
}

#[test]
fn plugin_dependencies_must_be_registered() {
    let mut pm = PluginManager::new("plugins".to_string(), true, false, "1.0.0".to_string());
    assert_eq!(
        pm.register_plugin(plugin_config("ui", &["core"]), 0),
        Err(NovaError::Plugin("Missing dependency: core".to_string()))
    );
    pm.register_plugin(plugin_config("core", &[]), 0).unwrap();
    assert!(pm.register_plugin(plugin_config("ui", &["core"]), 1).is_ok());
    assert_eq!(pm.list_plugins(), vec!["core".to_string(), "ui".to_string()]);
}

#[test]
fn failed_initialization_is_recorded() {
    let mut pm = PluginManager::new("plugins".to_string(), true, false, "1.0.0".to_string());
    pm.register_plugin(plugin_config("p", &[]), 0).unwrap();
    let err = NovaError::plugin("cannot start");
    assert_eq!(pm.finish_initialize("p", Err(err.clone())), Err(err));
    assert_eq!(pm.get_plugin_status("p"), Some(PluginStatus::Error("Plugin error: cannot start".to_string())));
    assert!(pm.finish_initialize("missing", Ok(())).is_err());
}

#[test]
fn reregistering_a_name_replaces_the_plugin() {
    let mut pm = PluginManager::new("plugins".to_string(), true, false, "1.0.0".to_string());
    let a = pm.register_plugin(plugin_config("p", &[]), 0).unwrap();
    pm.begin_initialize("p").unwrap();
    pm.finish_initialize("p", Ok(())).unwrap();
    let b = pm.register_plugin(plugin_config("p", &[]), 1).unwrap();
    assert_ne!(a, b);
    assert_eq!(pm.list_plugins().len(), 1);
    assert_eq!(pm.get_plugin_status("p"), Some(PluginStatus::Loaded));
}

#[test]
fn sample_plugin_keeps_its_identity() {
    let p = SamplePlugin::new("demo", "0.1", "a demo");
    assert_eq!((p.name.as_str(), p.version.as_str(), p.description.as_str()), ("demo", "0.1", "a demo"));
}

// ---- threading ----

#[test]
fn queue_takes_highest_priority_then_earliest() {
    let mut q = TaskQueue::new();
    q.push("low", TaskPriority::Low, 1);
    q.push("high-late", TaskPriority::High, 5);
    q.push("high-early", TaskPriority::High, 2);
    q.push("normal", TaskPriority::Normal, 0);
    let mut order = Vec::new();
    while let Some(t) = q.pop() {
        order.push(t.task);
    }
    assert_eq!(order, vec!["high-early", "high-late", "normal", "low"]);
    assert!(q.pop().is_none());
}

#[test]
fn task_counters() {
    let mut s = ThreadingStats::new(4);
    s.record_submission();
    s.record_submission();
    s.record_completion(true);
    s.record_completion(false);
    s.record_completion(true);
    assert_eq!(s.total_tasks_submitted, 2);
    assert_eq!(s.total_tasks_completed, 2);
    assert_eq!(s.total_tasks_failed, 1);
    assert_eq!(s.pending_tasks, 0);
    assert_eq!(s.active_threads, 4);
}

#[test]
fn tasks_report_their_names_priorities_and_work() {
    let c = ComputeTask::new("sum".to_string(), 100);
    assert_eq!(c.checksum(), 4950);
    assert_eq!(c.name(), "sum");
    assert!(c.execute().is_ok());
    let io = IOTask::new("read".to_string(), "a.txt".to_string());
    assert_eq!(io.priority(), TaskPriority::High);
    assert_eq!(io.file_path(), "a.txt");
    assert!(io.execute().is_ok());
    assert_eq!(check_worker_threads(0), Err(NovaError::Threading("Worker thread count cannot be zero".to_string())));
    assert!(check_worker_threads(1).is_ok());
}

// ---- protocol ----

#[test]
fn frame_prefix_is_little_endian_length() {
    let p = NovaProtocol::default();
    let framed = p.frame_packet(&[9u8; 300]).unwrap();
    assert_eq!(&framed[..4], &[44, 1, 0, 0]);
    assert_eq!(framed.len(), 304);
}

#[test]
fn partial_and_oversized_frames() {
    let p = NovaProtocol::new(10, false);
    let (r, pos) = p.decode_frame(&[5, 0], 0);
    assert_eq!((r, pos), (Ok(None), 0));
    let (r, pos) = p.decode_frame(&[5, 0, 0, 0, 1, 2], 0);
    assert_eq!((r, pos), (Ok(None), 4));
    let (r, pos) = p.decode_frame(&[11, 0, 0, 0], 0);
    assert_eq!(r, Err(NovaError::Generic("Packet too large: 11 > 10".to_string())));
    assert_eq!(pos, 4);
    let two = [1, 0, 0, 0, 7, 2, 0, 0, 0, 8, 9];
    let (a, pos) = p.decode_frame(&two, 0);
    let (b, end) = p.decode_frame(&two, pos);
    assert_eq!((a.unwrap().unwrap(), b.unwrap().unwrap(), end), (vec![7], vec![8, 9], 11));
    assert_eq!(p.check_message_size(11), Err(NovaError::Generic("Message too large: 11 > 10".to_string())));
}

// ---- client and server ----

#[test]
fn client_defaults_and_send_checks() {
    let c = ClientConfig::default();
    assert_eq!(c.networking.server_address, "127.0.0.1:8080");
    assert_eq!(c.client.reconnect_attempts, 3);
    assert_eq!(check_send(&ConnectionStatus::Connected, 10, 11), Err(NovaError::Generic("Packet too large".to_string())));
    assert_eq!(
        check_send(&ConnectionStatus::Reconnecting, 10, 10),
        Err(NovaError::Generic("Not connected to server".to_string()))
    );
    assert!(check_send(&ConnectionStatus::Connected, 10, 10).is_ok());
}

#[test]
fn reconnection_backs_off_and_gives_up() {
    assert_eq!(next_reconnect(0, 3), Some((1, 2)));
    assert_eq!(next_reconnect(2, 3), Some((3, 6)));
    assert_eq!(next_reconnect(3, 3), None);
    let (status, err) = reconnect_failure(3);
    assert_eq!(status, ConnectionStatus::Failed("Max reconnection attempts exceeded".to_string()));
    assert_eq!(err, NovaError::Generic("Failed to reconnect after 3 attempts".to_string()));
}

#[test]
fn server_policies() {
    let s = ServerConfig::default();
    assert!(s.accepts_client(99));
    assert!(!s.accepts_client(100));
    assert!(!s.is_timed_out(30_000_000_000));
    assert!(s.is_timed_out(30_000_000_001));
    assert_eq!(s.tick_interval_ms(), 16);
    let t0 = s.tick_tasks(0);
    assert!(t0.maintenance && t0.save);
    let t = s.tick_tasks(3600);
    assert!(t.maintenance && !t.save);
    assert!(s.tick_tasks(18000).save);
    let adv = s.advertised_settings();
    assert_eq!((adv.tick_rate, adv.max_players, adv.compression_enabled, adv.heartbeat_interval), (60, 100, true, 30));
}

#[test]
fn a_texture_message_gives_the_texture_back() {
    for name in ["RGBA8", "RGB8", "RGBA16F", "RGBA32F", "DXT1", "DXT5", "BC7", "weird", ""] {
        let t = TextureResource { width: 3, height: 2, data: vec![1u8, 2, 3, 4, 5, 6], format: name.to_string() };
        let msg = t.to_message();
        assert_eq!((msg.width, msg.height, msg.mip_levels, msg.levels.len()), (3, 2, 1, 1));
        assert_eq!((msg.levels[0].level, msg.levels[0].width, msg.levels[0].height), (0, 3, 2));
        assert_eq!(msg.levels[0].data, t.data);
        assert_eq!(msg.format, TextureFormat::from_name(name));
        let back = TextureResource::from_message(&msg);
        assert_eq!((back.width, back.height), (3, 2));
        assert_eq!(back.data, t.data);
        let expected = if name == "weird" || name.is_empty() { "RGBA8" } else { name };
        assert_eq!(back.format, expected);
    }
}

#[test]
fn a_texture_message_without_levels_has_no_pixels() {
    let msg = TextureMessage {
        width: 8,
        height: 8,
        format: TextureFormat::Dxt5,
        mip_levels: 0,
        levels: Vec::new(),
        flags: None,
    };
    let t = TextureResource::from_message(&msg);
    assert_eq!((t.width, t.height, t.data.len(), t.format.as_str()), (8, 8, 0, "DXT5"));
}

#[test]
fn a_template_gets_every_placeholder_filled_in() {
    assert_eq!(fill_template("name = \"{{plugin_name}}\"\n{{plugin_name}}", "{{plugin_name}}", "demo"), "name = \"demo\"\ndemo");
    assert_eq!(fill_template("aaa", "aa", "b"), "ba");
    assert_eq!(fill_template("no placeholder", "{{x}}", "y"), "no placeholder");
    assert_eq!(fill_template("{{x}}{{x}}", "{{x}}", ""), "");
    assert_eq!(fill_template("", "{{x}}", "y"), "");
    for (t, p, v) in [("{{x}}-{{x}}-{", "{{x}}", "ab"), ("xxxx", "xx", "x"), ("é{{n}}ü", "{{n}}", "ß"), ("{{n}", "{{n}}", "z")] {
        assert_eq!(fill_template(t, p, v), t.replace(p, v));
    }
}

#[test]
fn a_handshake_is_answered_with_the_session_and_the_settings() {
    let s = ServerConfig::default();
    let r = s.handshake_reply("abc-0".to_string());
    assert!(r.accepted);
    assert_eq!(r.server_version, "1.0.0");
    assert_eq!(r.session_id, "abc-0");
    assert_eq!(r.error_message, None);
    assert_eq!((r.settings.tick_rate, r.settings.max_players, r.settings.compression_enabled, r.settings.heartbeat_interval), (60, 100, true, 30));
}

#[test]
fn a_session_text_is_the_hyphenated_id_and_the_milliseconds() {
    assert_eq!(session_text(0x0123456789abcdef0123456789abcdef, 42), "01234567-89ab-cdef-0123-456789abcdef-42");
    assert_eq!(session_text(0, 0), "00000000-0000-0000-0000-000000000000-0");
}
