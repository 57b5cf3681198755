use ssn_core::actions::{parse_devices, ActionEngine};
use ssn_core::config::{AppConfig, Config, SsnConfig};
use ssn_core::database::DeviceInfo;
use ssn_core::topic::parse_topic;

#[test]
fn parse_topic_reads_a_sensor_value_path() {
    let r = parse_topic(b"/ssn/acc/1/obj/2/device/temp/3/out");
    let (account, obj, device, channel) = r.expect("topic should parse");
    assert_eq!(account, 1);
    assert_eq!(obj, 2);
    assert_eq!(device, b"temp".to_vec());
    assert_eq!(channel, 3);
}

#[test]
fn parse_topic_rejects_a_path_without_a_channel() {
    assert!(parse_topic(b"/ssn/acc/1/obj/2/device/temp").is_none());
}

#[test]
fn parse_topic_rejects_wrong_literals() {
    assert!(parse_topic(b"/xxx/acc/1/obj/2/device/temp/3/out").is_none());
    assert!(parse_topic(b"/ssn/yyy/1/obj/2/device/temp/3/out").is_none());
}

#[test]
fn parse_topic_rejects_non_numeric_fields() {
    assert!(parse_topic(b"/ssn/acc/abc/obj/2/device/temp/3/out").is_none());
    assert!(parse_topic(b"/ssn/acc/1/obj/2/device/temp/ch/out").is_none());
}

#[test]
fn parse_topic_rejects_values_over_u32() {
    assert!(parse_topic(b"/ssn/acc/99999999999/obj/2/device/temp/3/out").is_none());
}

#[test]
fn parse_devices_extracts_references_in_order() {
    let refs = parse_devices(b"d(sensor1, 3) > 20 && d(\"pump\", 10) < 5");
    assert_eq!(refs.len(), 2);
    assert_eq!(refs[0], (b"sensor1".to_vec(), 3));
    assert_eq!(refs[1], (b"pump".to_vec(), 10));
}

#[test]
fn parse_devices_tolerates_spacing_and_quotes() {
    let refs = parse_devices(b"d(\"boiler\" ,  7)");
    assert_eq!(refs, vec![(b"boiler".to_vec(), 7)]);
}

#[test]
fn parse_devices_ignores_malformed_references() {
    assert!(parse_devices(b"d(, 3) d(name 4) d(name, )").is_empty());
}

#[test]
fn parse_devices_maps_an_oversized_channel_to_zero() {
    let refs = parse_devices(b"d(dev, 99999999999)");
    assert_eq!(refs, vec![(b"dev".to_vec(), 0)]);
}

#[test]
fn engine_finds_actions_for_a_device() {
    let mut engine = ActionEngine::new();
    engine.add_action(1, b"d(temp, 1) > 25".to_vec(), vec![b"act one".to_vec()]);
    engine.add_action(2, b"d(hum, 2) < 40".to_vec(), vec![b"act two".to_vec()]);
    engine.add_action(3, b"d(temp, 1) < 5".to_vec(), Vec::new());
    let hits = engine.get_actions_for_device(b"temp", 1);
    assert_eq!(hits.len(), 2);
    assert_eq!(hits[0].id, 1);
    assert_eq!(hits[1].id, 3);
    assert!(engine.get_actions_for_device(b"temp", 2).is_empty());
    assert!(engine.get_actions_for_device(b"none", 1).is_empty());
}

#[test]
fn config_model_holds_plain_values() {
    let config = Config {
        ssn: SsnConfig { account: 77 },
        app: AppConfig {
            name: String::from("gateway"),
            mqtt_port: 1883,
            mqtt_host: String::from("localhost"),
            mqtt_broker_user: String::from("user"),
            mqtt_broker_pass: String::from("pass"),
            mqtt_broker_client_id: String::from("client"),
            postgrest_url: None,
            log_to_mqtt: Some(1),
        },
        persist: None,
        bot: None,
        sensors: None,
        actions: None,
    };
    assert_eq!(config.ssn.account, 77);
    assert_eq!(config.app.mqtt_port, 1883);
    assert!(config.persist.is_none());
}

#[test]
fn device_info_holds_plain_values() {
    let info = DeviceInfo {
        account: 1,
        object: 2,
        device: String::from("temp"),
        channel: String::from("3"),
        dev_name: String::from("Temperature"),
        dev_descr: None,
        dev_scale: Some(String::from("C")),
        dev_unit_id: Some(4),
        dev_grp: None,
    };
    assert_eq!(info.account, 1);
    assert_eq!(info.dev_scale.as_deref(), Some("C"));
}
