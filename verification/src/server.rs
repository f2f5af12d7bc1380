pub mod commands_installer;
pub mod config_file_parser;
pub mod global_context;
pub mod global_context_installer;
pub mod http;
pub mod mouse_events;
pub mod process_manager;
