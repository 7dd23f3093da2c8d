//! Tests of the remote credential commands and supporting helpers.
use doorsys::config::MqttConfig;
use doorsys::network::mac_id;
use doorsys::remote::{apply_user_action, is_user_topic, UserAction};
use doorsys::user::UserDB;

#[test]
fn apply_add_and_delete() {
    let mut db = UserDB::new();
    let blob = apply_user_action(&mut db, &UserAction::Add(5));
    assert!(blob.is_some());
    assert!(db.contains(5));
    let _ = apply_user_action(&mut db, &UserAction::Del(5));
    assert!(!db.contains(5));
}

#[test]
fn apply_replace() {
    let mut db = UserDB::new();
    let _ = apply_user_action(&mut db, &UserAction::Add(5));
    let _ = apply_user_action(&mut db, &UserAction::Replace { prev: 5, next: 6 });
    assert!(!db.contains(5));
    assert!(db.contains(6));
}

#[test]
fn apply_bulk() {
    let mut db = UserDB::new();
    let _ = apply_user_action(&mut db, &UserAction::Add(1));
    let _ = apply_user_action(&mut db, &UserAction::Bulk(vec![7, 8, 9]));
    assert!(!db.contains(1));
    assert!(db.contains(7));
    assert!(db.contains(8));
    assert!(db.contains(9));
}

#[test]
fn apply_yields_loadable_image() {
    let mut db = UserDB::new();
    let blob = apply_user_action(&mut db, &UserAction::Bulk(vec![2, 4])).unwrap();
    let restored = UserDB::load(&blob).unwrap();
    assert!(restored.contains(2));
    assert!(restored.contains(4));
    assert!(!restored.contains(3));
}

#[test]
fn topic_routing() {
    assert!(is_user_topic(&String::from("doorsys/user")));
    assert!(!is_user_topic(&String::from("doorsys/audit")));
    assert!(!is_user_topic(&String::from("")));
}

#[test]
fn mac_id_uses_last_three_octets() {
    assert_eq!(mac_id(&[0x11, 0x22, 0x33, 0x44, 0x55, 0x66]), 0x445566);
    assert_eq!(mac_id(&[0, 0, 0, 0, 0, 0]), 0);
    assert_eq!(mac_id(&[0, 0, 0, 0xFF, 0xFF, 0xFF]), 0xFFFFFF);
}

#[test]
fn mqtt_config_holds_settings() {
    let config = MqttConfig::new(
        String::from("mqtt://broker.example:1883"),
        String::from("device"),
        String::from("SECRET-REDACTED"),
    );
    assert_eq!(config.url, "mqtt://broker.example:1883");
    assert_eq!(config.username, "device");
    assert_eq!(config.password, "SECRET-REDACTED");
}
