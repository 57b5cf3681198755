//! The gateway's configuration data model: the account, broker and
//! application settings, the optional persistence, bot and sensor sections,
//! and the action definitions. Loading this from a file is the shell's
//! concern; the model itself is plain data that the rest of the library
//! works on.

use vstd::prelude::*;

verus! {

/// The whole configuration: the account section, the application section,
/// and the optional feature sections.
#[derive(Debug, Clone)]
pub struct Config {
    pub ssn: SsnConfig,
    pub app: AppConfig,
    pub persist: Option<PersistConfig>,
    pub bot: Option<BotConfig>,
    pub sensors: Option<SensorsConfig>,
    pub actions: Option<Vec<ActionConfig>>,
}

/// The SSN account the gateway serves.
#[derive(Debug, Clone)]
pub struct SsnConfig {
    pub account: u32,
}

/// Application-level settings: the broker address and credentials, and the
/// optional persistence endpoint.
#[derive(Debug, Clone)]
pub struct AppConfig {
    pub name: String,
    pub mqtt_port: u16,
    pub mqtt_host: String,
    pub mqtt_broker_user: String,
    pub mqtt_broker_pass: String,
    pub mqtt_broker_client_id: String,
    pub postgrest_url: Option<String>,
    pub log_to_mqtt: Option<u8>,
}

/// Whether the persistence service starts.
#[derive(Debug, Clone)]
pub struct PersistConfig {
    pub start: u8,
}

/// Whether the bot service starts.
#[derive(Debug, Clone)]
pub struct BotConfig {
    pub start: u8,
}

/// The sensor sections and the logical object they report under.
#[derive(Debug, Clone)]
pub struct SensorsConfig {
    pub obj: u32,
    pub gpio: Option<GpioConfig>,
    pub ds18b20: Option<Ds18b20Config>,
    pub watchdog_tcp: Option<WatchdogTcpConfig>,
}

/// The GPIO scan rate and pin set.
#[derive(Debug, Clone)]
pub struct GpioConfig {
    pub scan_rate: u32,
    pub pins: Vec<GpioPin>,
}

/// One GPIO pin: its chip, number, direction and naming.
#[derive(Debug, Clone)]
pub struct GpioPin {
    pub id: String,
    pub gpiochip: u32,
    pub number: u32,
    pub pin_type: String,
    pub name: String,
    pub comment: Option<String>,
}

/// The DS18B20 temperature sensor masters.
#[derive(Debug, Clone)]
pub struct Ds18b20Config {
    pub masters: Vec<Ds18b20Master>,
}

/// One one-wire master: its bus path, scan rate and attached devices.
#[derive(Debug, Clone)]
pub struct Ds18b20Master {
    pub scan_rate: u32,
    pub path: String,
    pub name: String,
    pub devices: Vec<Ds18b20Device>,
}

/// One temperature sensor on a one-wire bus.
#[derive(Debug, Clone)]
pub struct Ds18b20Device {
    pub id: String,
    pub name: String,
    pub resolution: u8,
}

/// The TCP watchdog destinations.
#[derive(Debug, Clone)]
pub struct WatchdogTcpConfig {
    pub destinations: Vec<WatchdogDestination>,
}

/// One watched TCP destination and the command run for it.
#[derive(Debug, Clone)]
pub struct WatchdogDestination {
    pub id: String,
    pub address: String,
    pub scan_rate: u32,
    pub command: String,
}

/// One configured action: a trigger expression and the expressions to act
/// on when it fires.
#[derive(Debug, Clone)]
pub struct ActionConfig {
    pub id: u32,
    pub expression: String,
    pub act: Vec<String>,
}

} // verus!
