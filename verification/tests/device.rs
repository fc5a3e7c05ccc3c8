//! Paths, device types, firmware versions, serial links.

use jade_client::cbor::{decode, CborValue};
use jade_client::error::JadeError;
use jade_client::path;
use jade_client::serial::clears_modem_lines;
use jade_client::types::{
    version_at_least, JadeAddressVariant, JadeNetwork, JadePingStatus, JadeState, JadeVersionInfo,
    MIN_JADE_FIRMWARE, MIN_JADE_FIRMWARE_TAPROOT,
};

// ----------------------------------------------------------------------------
// Path validation
// ----------------------------------------------------------------------------

#[test]
fn a_valid_path_lowers_to_the_wire_representation() {
    assert_eq!(
        path::to_wire("m/84'/0'/0'/0/0", false).unwrap(),
        vec![2147483732, 2147483648, 2147483648, 0, 0]
    );
    // The 'h' hardened notation is equivalent to an apostrophe.
    assert_eq!(
        path::to_wire("m/84h/1h/0h", false).unwrap(),
        vec![2147483732, 2147483649, 2147483648]
    );
}

#[test]
fn the_empty_path_is_rejected_unless_explicitly_allowed() {
    // Signing with the master key because a caller passed "" is exactly the
    // outcome this guards against.
    assert!(matches!(
        path::validate("", false).unwrap_err(),
        JadeError::InvalidPath { .. }
    ));
    assert!(matches!(
        path::validate("m", false).unwrap_err(),
        JadeError::InvalidPath { .. }
    ));
    assert!(matches!(
        path::validate("m/", false).unwrap_err(),
        JadeError::InvalidPath { .. }
    ));

    // The master-fingerprint lookup opts in deliberately.
    assert!(path::validate("m", true).is_ok());
    assert_eq!(path::to_wire("m", true).unwrap(), Vec::<u32>::new());
}

#[test]
fn a_path_without_the_m_prefix_is_rejected() {
    assert!(matches!(
        path::validate("84'/0'/0'", false).unwrap_err(),
        JadeError::InvalidPath { .. }
    ));
}

#[test]
fn malformed_and_overdeep_paths_are_rejected() {
    for bad in [
        "m/84'/x/0'",
        "m/84'//0'",
        "m/84'/0'/",
        "n/84'/0'",
        "m/84'/0'/0'/0/0/0/0/0/0",
    ] {
        assert!(
            matches!(
                path::validate(bad, false),
                Err(JadeError::InvalidPath { .. })
            ),
            "{bad} should have been rejected"
        );
    }
}

#[test]
fn the_purpose_element_is_readable_for_variant_cross_checks() {
    assert_eq!(path::purpose("m/84'/0'/0'/0/0"), Some(84));
    assert_eq!(path::purpose("m/44'/0'/0'"), Some(44));
    assert_eq!(path::purpose("m"), None);
}

#[test]
fn path_elements_follow_the_grammar() {
    assert_eq!(path::to_wire("m/+7/007", false).unwrap(), vec![7, 7]);
    assert_eq!(
        path::to_wire("m/2147483647/2147483647'", false).unwrap(),
        vec![0x7fff_ffff, 0xffff_ffff]
    );
    assert_eq!(
        path::to_wire("m/1/2/3/4/5/6/7/8", false).unwrap().len(),
        path::MAX_PATH_DEPTH
    );
    for bad in [
        "m/2147483648",
        "m/4294967296",
        "m/-1",
        "m/+",
        "m/'",
        "m/1''",
        "m/1H",
        "m/ 1",
        "m//",
        "m0",
        "M/0",
    ] {
        assert!(path::to_wire(bad, true).is_err(), "{bad}");
    }
    assert_eq!(path::to_wire("", true).unwrap_err(), invalid("path must start with m"));
    assert_eq!(path::to_wire("m/x", true).unwrap_err(), invalid("path is malformed"));
    assert_eq!(path::to_wire("m", false).unwrap_err(), invalid("path must not be empty"));
    assert_eq!(
        path::to_wire("m/1/2/3/4/5/6/7/8/9", false).unwrap_err(),
        invalid("path is too deep")
    );
    assert_eq!(path::purpose("m/49/0"), Some(49));
    assert_eq!(path::purpose("49/0"), None);
}

fn invalid(details: &str) -> JadeError {
    JadeError::InvalidPath {
        error_details: details.to_string(),
    }
}

// ----------------------------------------------------------------------------
// Types
// ----------------------------------------------------------------------------

#[test]
fn networks_use_jades_own_names() {
    assert_eq!(JadeNetwork::Mainnet.wire_name(), "mainnet");
    assert_eq!(JadeNetwork::Testnet.wire_name(), "testnet");
    // Jade calls regtest "localtest".
    assert_eq!(JadeNetwork::Regtest.wire_name(), "localtest");
}

#[test]
fn variants_map_to_purposes_and_descriptor_strings() {
    let cases = [
        (JadeAddressVariant::Pkh, 44, "pkh(k)"),
        (JadeAddressVariant::ShWpkh, 49, "sh(wpkh(k))"),
        (JadeAddressVariant::Wpkh, 84, "wpkh(k)"),
        (JadeAddressVariant::Tr, 86, "tr(k)"),
    ];
    for (variant, purpose, wire) in cases {
        assert_eq!(variant.purpose(), purpose);
        assert_eq!(variant.wire_name(), wire);
        assert_eq!(JadeAddressVariant::from_purpose(purpose), Some(variant));
    }
    assert_eq!(JadeAddressVariant::from_purpose(48), None);
}

#[test]
fn version_info_maps_from_the_screaming_snake_wire_shape() {
    let wire = cbor_version_info("1.0.34", "LOCKED");
    let info = JadeVersionInfo::from_value(&decode(&wire).unwrap()).unwrap();

    assert_eq!(info.jade_version, "1.0.34");
    assert_eq!(info.jade_state, JadeState::Locked);
    assert_eq!(info.jade_networks.as_deref(), Some("TEST"));
    assert_eq!(info.jade_has_pin, Some(true));
    assert_eq!(info.board_type.as_deref(), Some("JADE_V2"));
    assert_eq!(info.battery_status, Some(4));
}

#[test]
fn an_unrecognised_state_string_does_not_fail_the_decode() {
    let wire = cbor_version_info("9.9.9", "SOMETHING_NEW");
    let info = JadeVersionInfo::from_value(&decode(&wire).unwrap()).unwrap();
    assert_eq!(info.jade_state, JadeState::Unknown);
}

#[test]
fn every_documented_state_string_maps() {
    for (wire, expected) in [
        ("UNINIT", JadeState::Uninit),
        ("UNSAVED", JadeState::Unsaved),
        ("LOCKED", JadeState::Locked),
        ("READY", JadeState::Ready),
        ("TEMP", JadeState::Temp),
    ] {
        let encoded = cbor_version_info("1.0.34", wire);
        let info = JadeVersionInfo::from_value(&decode(&encoded).unwrap()).unwrap();
        assert_eq!(info.jade_state, expected);
    }
}

#[test]
fn version_info_needs_a_version_and_a_state() {
    let text = |v: &str| CborValue::Text(v.to_string());
    let least = CborValue::Pairs(vec![
        (text("JADE_VERSION"), text("1.0.34")),
        (text("JADE_STATE"), text("READY")),
    ]);
    let info = JadeVersionInfo::from_value(&least).unwrap();
    assert_eq!(info.jade_networks, None);
    assert_eq!(info.battery_status, None);

    let stateless = CborValue::Pairs(vec![(text("JADE_VERSION"), text("1.0.34"))]);
    let small = CborValue::Pairs(vec![
        (text("jade_version"), text("1.0.34")),
        (text("jade_state"), text("READY")),
    ]);
    for bad in [stateless, small, CborValue::Null] {
        assert_eq!(
            JadeVersionInfo::from_value(&bad).unwrap_err(),
            JadeError::ProtocolError {
                error_details: "version information is not readable".to_string()
            }
        );
    }
}

#[test]
fn ping_status_maps_from_the_wire_integer() {
    assert_eq!(JadePingStatus::from_wire(0), JadePingStatus::Idle);
    assert_eq!(JadePingStatus::from_wire(1), JadePingStatus::Busy);
    assert_eq!(
        JadePingStatus::from_wire(2),
        JadePingStatus::AwaitingUserInput
    );
}

#[test]
fn an_unrecognised_ping_status_is_unknown() {
    assert_eq!(JadePingStatus::from_wire(3), JadePingStatus::Unknown);
}

fn cbor_version_info(version: &str, state: &str) -> Vec<u8> {
    let text = |v: &str| ciborium::Value::Text(v.to_string());
    let value = ciborium::Value::Map(vec![
        (text("JADE_VERSION"), text(version)),
        (text("JADE_STATE"), text(state)),
        (text("JADE_NETWORKS"), text("TEST")),
        (text("JADE_HAS_PIN"), ciborium::Value::Bool(true)),
        (text("BOARD_TYPE"), text("JADE_V2")),
        (text("BATTERY_STATUS"), ciborium::Value::Integer(4.into())),
    ]);
    let mut encoded = Vec::new();
    ciborium::into_writer(&value, &mut encoded).unwrap();
    encoded
}

// ----------------------------------------------------------------------------
// Firmware versions
// ----------------------------------------------------------------------------

#[test]
fn versions_compare_by_component_not_lexically() {
    assert!(version_at_least("1.0.34", "1.0.34"));
    assert!(version_at_least("1.0.41", "1.0.34"));
    assert!(version_at_least("1.1.0", "1.0.34"));
    assert!(!version_at_least("1.0.33", "1.0.34"));
    assert!(!version_at_least("0.1.48", "1.0.34"));
    // Lexically "1.0.9" sorts after "1.0.34", numerically it does not.
    assert!(!version_at_least("1.0.9", "1.0.34"));
}

#[test]
fn a_build_suffix_does_not_defeat_the_comparison() {
    assert!(version_at_least("1.0.34-dirty", MIN_JADE_FIRMWARE_TAPROOT));
    assert!(version_at_least("1.0.35+ble", MIN_JADE_FIRMWARE_TAPROOT));
}

#[test]
fn an_unparsable_version_never_blocks_the_operation_by_itself() {
    // The device stays the authority; it rejects what it cannot do.
    assert!(!version_at_least("", "1.0.34"));
    assert!(!version_at_least("nonsense", "1.0.34"));
}

#[test]
fn version_comparison_handles_the_edges() {
    assert!(version_at_least("1.0", "1"));
    assert!(version_at_least("1", "1.0.0"));
    assert!(!version_at_least("1", "1.0.1"));
    assert!(version_at_least("4294967295", "4294967294"));
    assert!(!version_at_least("4294967296", "1"));
    assert!(!version_at_least("1..2", "1"));
    assert!(!version_at_least("-1", "0"));
    assert!(!version_at_least("1.0.34", "x"));
    assert!(version_at_least(MIN_JADE_FIRMWARE_TAPROOT, MIN_JADE_FIRMWARE));
}

// ----------------------------------------------------------------------------
// Serial links
// ----------------------------------------------------------------------------

#[test]
fn modem_lines_are_cleared_only_on_the_tty_node() {
    // Linux, and the macOS dial-in node, assert both lines on open, which
    // reboots the device.
    assert!(clears_modem_lines("/dev/ttyUSB0"));
    assert!(clears_modem_lines("/dev/ttyACM0"));
    assert!(clears_modem_lines("/dev/tty.usbserial-01EDCAEC"));

    // The macOS call-out node needs both left asserted.
    assert!(!clears_modem_lines("/dev/cu.usbserial-01EDCAEC"));
    assert!(!clears_modem_lines("COM3"));
    assert!(!clears_modem_lines(""));
}
