use cliptown_desktop::bluetooth::{
    accept_advertisement, candidates, check_discovery_window, outgoing_packets, packet_bytes,
    read_advertisement, receive, scan_lines, session_characteristics, session_reassembler,
    valid_display_name, BluetoothError, CharacteristicInfo, PeripheralProperties,
    SessionCharacteristics, ADVERTISEMENT_CHARACTERISTIC_UUID, INBOUND_CHARACTERISTIC_UUID,
    OUTBOUND_CHARACTERISTIC_UUID,
};
use cliptown_desktop::proximity::{ProximityAdvertisement, ProximityError, SERVICE_UUID};

#[test]
fn display_names_are_rotating_and_bounded() {
    assert!(valid_display_name("CT-A1b2_3"));
    assert!(!valid_display_name("ClipTown-alex-laptop"));
    assert!(!valid_display_name("CT-too-long"));
}

#[test]
fn display_names_of_advertisements_are_recognized() {
    let value = ProximityAdvertisement::derive(&[7; 32], "device-key-1", 0).unwrap();
    assert!(valid_display_name(&value.display_name().unwrap()));
    assert!(!valid_display_name("CT-A1b2+3"));
    assert!(!valid_display_name("ct-A1b2_3"));
    assert!(!valid_display_name("CT-\u{e9}\u{e9}\u{e9}"));
}

fn device(id: &str, name: Option<&str>, service: bool, rssi: Option<i16>) -> PeripheralProperties {
    PeripheralProperties {
        transport_id: id.to_owned(),
        local_name: None,
        advertisement_name: name.map(str::to_owned),
        services: if service { vec![1, SERVICE_UUID] } else { vec![1] },
        rssi,
    }
}

#[test]
fn candidates_are_filtered_and_sorted() {
    let mut renamed = device("e", Some("alex-laptop"), false, Some(-10));
    renamed.local_name = Some("CT-bbbbbb".to_owned());
    let found = vec![
        device("a", Some("CT-aaaaaa"), false, None),
        device("b", Some("alex-laptop"), true, Some(-70)),
        device("c", Some("alex-phone"), false, Some(-1)),
        device("d", None, true, Some(-40)),
        renamed,
        device("f", None, true, Some(-70)),
    ];
    let list = candidates(&found);
    let shown: Vec<(&str, &str, Option<i16>)> = list
        .iter()
        .map(|c| (c.transport_id.as_str(), c.display_name.as_str(), c.rssi))
        .collect();
    assert_eq!(
        shown,
        [
            ("e", "CT-bbbbbb", Some(-10)),
            ("d", "ClipTown nearby device", Some(-40)),
            ("b", "ClipTown nearby device", Some(-70)),
            ("f", "ClipTown nearby device", Some(-70)),
            ("a", "CT-aaaaaa", None),
        ]
    );
    let lines = scan_lines(&list);
    assert_eq!(lines.len(), 5);
    assert_eq!(lines[4].index, 4);
    assert_eq!(lines[4].display_name, "CT-aaaaaa");
    assert!(!format!("{:?}", lines[0]).contains("transport"));
}

#[test]
fn discovery_windows_are_bounded() {
    assert_eq!(check_discovery_window(1, 0), Ok(()));
    assert_eq!(check_discovery_window(29, 999_999_999), Ok(()));
    assert_eq!(check_discovery_window(30, 0), Ok(()));
    assert_eq!(
        check_discovery_window(30, 1),
        Err(BluetoothError::WindowOutOfBounds)
    );
    assert_eq!(
        check_discovery_window(0, 999_999_999),
        Err(BluetoothError::WindowOutOfBounds)
    );
    assert_eq!(
        BluetoothError::WindowOutOfBounds.message(),
        "Bluetooth discovery window is outside reviewed bounds"
    );
}

#[test]
fn characteristics_are_found_in_the_service() {
    let own = |uuid| CharacteristicInfo {
        service_uuid: SERVICE_UUID,
        uuid,
    };
    let foreign = CharacteristicInfo {
        service_uuid: 1,
        uuid: ADVERTISEMENT_CHARACTERISTIC_UUID,
    };
    let mut list = vec![foreign];
    assert_eq!(
        session_characteristics(&list),
        Err(BluetoothError::AdvertisementMissing)
    );
    list.push(own(ADVERTISEMENT_CHARACTERISTIC_UUID));
    assert_eq!(
        session_characteristics(&list),
        Err(BluetoothError::InboundMissing)
    );
    list.push(own(INBOUND_CHARACTERISTIC_UUID));
    assert_eq!(
        session_characteristics(&list),
        Err(BluetoothError::OutboundMissing)
    );
    list.push(own(OUTBOUND_CHARACTERISTIC_UUID));
    list.push(own(OUTBOUND_CHARACTERISTIC_UUID));
    assert_eq!(
        session_characteristics(&list),
        Ok(SessionCharacteristics {
            advertisement: 1,
            inbound: 2,
            outbound: 3
        })
    );
}

#[test]
fn advertisements_are_read_within_bounds() {
    let value = ProximityAdvertisement::derive(&[7; 32], "device-key-1", 0).unwrap();
    let copy = value.clone();
    assert_eq!(read_advertisement(b"{}", |_| Some(copy)), Ok(value.clone()));
    assert_eq!(
        read_advertisement(&[0; 513], |_| unreachable!()),
        Err(BluetoothError::AdvertisementTooLarge)
    );
    assert_eq!(
        read_advertisement(&[0; 512], |_| None),
        Err(BluetoothError::AdvertisementUnreadable)
    );
    let mut wrong = value;
    wrong.service_uuid = 1;
    assert_eq!(
        accept_advertisement(Some(wrong)),
        Err(BluetoothError::Proximity {
            error: ProximityError::InvalidAdvertisement
        })
    );
}

#[test]
fn packets_follow_the_transmission_unit() {
    assert_eq!(packet_bytes(0), 20);
    assert_eq!(packet_bytes(23), 20);
    assert_eq!(packet_bytes(24), 21);
    assert_eq!(packet_bytes(188), 185);
    assert_eq!(packet_bytes(517), 185);
    assert!(outgoing_packets(&[1; 32_768], 0).is_ok());
    assert_eq!(
        outgoing_packets(&[], 185),
        Err(BluetoothError::Proximity {
            error: ProximityError::InvalidFrame
        })
    );
}

#[test]
fn notifications_bring_messages() {
    let message = vec![5_u8; 300];
    let packets = outgoing_packets(&message, 185).unwrap();
    let mut reassembler = session_reassembler().unwrap();
    assert_eq!(receive(&mut reassembler, 1, 2, b"other", 0), Ok(None));
    assert_eq!(receive(&mut reassembler, 2, 2, &packets[0], 0), Ok(None));
    assert_eq!(
        receive(&mut reassembler, 2, 2, &packets[1], 1),
        Ok(Some(message))
    );
    assert_eq!(
        receive(&mut reassembler, 2, 2, b"other", 0),
        Err(ProximityError::InvalidFrame)
    );
}
