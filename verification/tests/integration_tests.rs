use nova_core::config::EngineConfig;
use nova_core::engine::EngineBuilder;
use nova_core::events::{EngineStartEvent, EventSystem, SimpleEventHandler};
use nova_core::memsize::parse_memory_size;
use nova_core::plugins::PluginManager;
use nova_core::protocol::NovaProtocol;
use nova_core::resources::ResourceManager;
use nova_core::texture::TextureResource;
use nova_core::threading::{ComputeTask, Task, TaskPriority};

#[test]
fn test_resource_manager() {
    let mut resource_manager: ResourceManager<TextureResource> =
        ResourceManager::new("100MB", 0.8f32.to_bits()).unwrap();

    // Test creating a resource
    let texture = TextureResource {
        width: 256,
        height: 256,
        data: vec![0u8; 256 * 256 * 4],
        format: "RGBA8".to_string(),
    };

    let handle = resource_manager.create_resource(texture, 0).unwrap();
    assert!(resource_manager.get_resource(&handle, 1).is_ok());

    // Test memory stats
    let stats = resource_manager.get_memory_stats();
    assert!(stats.resource_count > 0);
    assert!(stats.total_used > 0);
}

#[test]
fn test_event_system() {
    let mut event_system = EventSystem::new(1000, 5);

    // Register an event handler
    let handler = SimpleEventHandler::new(|_event: &EngineStartEvent| {
        println!("Engine started!");
        Ok(())
    });

    let handler_id = event_system.register_handler("engine_start", handler);

    // Dispatch an event
    let result = event_system.dispatch(EngineStartEvent);
    assert!(result.is_ok());

    // Process events
    let result = event_system.process_events();
    assert!(result.is_ok());

    // Unregister handler
    let result = event_system.unregister_handler(handler_id);
    assert!(result.is_ok());
}

#[test]
fn test_plugin_manager() {
    let plugin_manager = PluginManager::new("test_plugins".to_string(), false, false, "1.0.0".to_string());

    // Test plugin list (should be empty initially)
    let plugins = plugin_manager.list_plugins();
    assert!(plugins.is_empty());
}

#[test]
fn test_engine_builder() {
    let builder = EngineBuilder::new()
        .name("Test Engine".to_string())
        .memory("128MB".to_string(), 4, 0.7f32.to_bits())
        .threading(2, None)
        .events(500, 3)
        .debug(true);

    let config = builder.into_config();
    assert!(config.validate().is_ok());
    assert_eq!(config.engine.name, "Test Engine");
}

#[test]
fn test_config_validation() {
    let mut config = EngineConfig::default();

    // Valid config should pass
    assert!(config.validate().is_ok());

    // Invalid configs should fail
    config.memory.pool_count = 0;
    assert!(config.validate().is_err());

    config.memory.pool_count = 8;
    config.memory.gc_threshold = 1.5f32.to_bits();
    assert!(config.validate().is_err());

    config.memory.gc_threshold = 0.8f32.to_bits();
    config.threading.worker_threads = 0;
    assert!(config.validate().is_err());
}

#[test]
fn test_memory_size_parsing() {
    assert_eq!(parse_memory_size("1GB").unwrap(), 1024 * 1024 * 1024);
    assert_eq!(parse_memory_size("512MB").unwrap(), 512 * 1024 * 1024);
    assert_eq!(parse_memory_size("256KB").unwrap(), 256 * 1024);
    assert_eq!(parse_memory_size("1024B").unwrap(), 1024);
    assert_eq!(parse_memory_size("1024").unwrap(), 1024);

    assert!(parse_memory_size("invalid").is_err());
}

#[test]
fn test_task_priority_ordering() {
    let task_low = ComputeTask::new("low".to_string(), 100);
    let task_high = ComputeTask::new("high".to_string(), 100);

    assert_eq!(task_low.priority(), TaskPriority::Normal);
    assert_eq!(task_high.priority(), TaskPriority::Normal);
    assert!(TaskPriority::High > TaskPriority::Normal);
    assert!(TaskPriority::Critical > TaskPriority::High);
}

#[test]
fn test_packet_framing() {
    let protocol = NovaProtocol::default();
    let packet: Vec<u8> = vec![8, 185, 96, 16, 1];

    let encoded = protocol.frame_packet(&packet).unwrap();
    let (decoded, consumed) = protocol.decode_frame(&encoded, 0);
    let decoded = decoded.unwrap().unwrap();

    assert_eq!(packet, decoded);
    assert_eq!(consumed, encoded.len());
}

#[test]
fn test_message_size_limits() {
    let protocol = NovaProtocol::new(100, false); // Small limit for testing

    let large_packet = vec![0u8; 200]; // Larger than limit

    assert!(protocol.frame_packet(&large_packet).is_err());
}
