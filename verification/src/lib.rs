//! A small MQTT 3.1.1 broker core: wire codec, topic filters and
//! subscription storage, with their behaviour stated and proved.

pub mod assoc;
pub mod bytes_text;
pub mod client_registry;
pub mod codec;
pub mod config;
pub mod mqtt_protocol;
pub mod platform;
pub mod server;
pub mod subscribe_handlers;

pub use config::{BrokerConfig, ConfigError};
pub use server::{extract_packet_id, MqttPacket, MqttServer};
pub use subscribe_handlers::{SubscribeHandler, TopicRouter};
