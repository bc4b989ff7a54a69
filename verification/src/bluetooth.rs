//! The rules of the BLE central: whom it shows, what it reads and what it sends.
//!
//! It transports only bounded proximity frames; enrolled-device verification, replay checks,
//! consent and decryption are left to the callers of [`crate::proximity`].

use crate::order::{self, Ranked};
use crate::proximity::{
    self, advertisement, fragment_ble_message, frame, BleFrameReassembler, ProximityAdvertisement,
    ProximityError, SERVICE_UUID,
};
use crate::{crypto, text};
use vstd::prelude::*;

verus! {

/// The characteristic from which the advertisement is read.
pub const ADVERTISEMENT_CHARACTERISTIC_UUID: u128 = 0xc11f7a00_7b9e_4d8a_9c3a_4b8a0d86e002;

/// The characteristic to which frames are written.
pub const INBOUND_CHARACTERISTIC_UUID: u128 = 0xc11f7a00_7b9e_4d8a_9c3a_4b8a0d86e003;

/// The characteristic that notifies of frames.
pub const OUTBOUND_CHARACTERISTIC_UUID: u128 = 0xc11f7a00_7b9e_4d8a_9c3a_4b8a0d86e004;

/// The largest advertisement that is read.
pub const MAX_ADVERTISEMENT_BYTES: usize = 512;

/// The number of messages that a session reassembles at a time.
pub const SESSION_MESSAGES: usize = 8;

/// The name of a device that does not show a rotating one.
pub const UNNAMED_DEVICE: &'static str = "ClipTown nearby device";

/// Why the central refuses.
#[derive(Clone, Copy, Debug, PartialEq, Eq, Structural)]
pub enum BluetoothError {
    WindowOutOfBounds,
    AdvertisementMissing,
    InboundMissing,
    OutboundMissing,
    AdvertisementTooLarge,
    AdvertisementUnreadable,
    Proximity { error: ProximityError },
}

impl BluetoothError {
    /// The sentence that is shown to the user.
    pub open spec fn message_text(self) -> &'static str {
        match self {
            BluetoothError::WindowOutOfBounds => "Bluetooth discovery window is outside reviewed bounds",
            BluetoothError::AdvertisementMissing => "ClipTown advertisement characteristic is missing",
            BluetoothError::InboundMissing => "ClipTown inbound characteristic is missing",
            BluetoothError::OutboundMissing => "ClipTown outbound characteristic is missing",
            BluetoothError::AdvertisementTooLarge => "ClipTown advertisement exceeds size limit",
            BluetoothError::AdvertisementUnreadable => "parse ClipTown advertisement",
            BluetoothError::Proximity { error } => error.message_text(),
        }
    }

    /// The sentence that is shown to the user.
    pub fn message(&self) -> (s: &'static str)
        ensures
            s@ == self.message_text()@,
    {
        match self {
            BluetoothError::WindowOutOfBounds => "Bluetooth discovery window is outside reviewed bounds",
            BluetoothError::AdvertisementMissing => "ClipTown advertisement characteristic is missing",
            BluetoothError::InboundMissing => "ClipTown inbound characteristic is missing",
            BluetoothError::OutboundMissing => "ClipTown outbound characteristic is missing",
            BluetoothError::AdvertisementTooLarge => "ClipTown advertisement exceeds size limit",
            BluetoothError::AdvertisementUnreadable => "parse ClipTown advertisement",
            BluetoothError::Proximity { error } => error.message(),
        }
    }
}

// ---------------------------------------------------------------------------
// Discovery
// ---------------------------------------------------------------------------

/// Checks that a discovery window lasts between 1 and 30 seconds.
pub fn check_discovery_window(seconds: u64, nanoseconds: u32) -> (r: Result<(), BluetoothError>)
    ensures
        r == (if 1 <= seconds && (seconds < 30 || (seconds == 30 && nanoseconds == 0)) {
            Ok::<(), BluetoothError>(())
        } else {
            Err(BluetoothError::WindowOutOfBounds)
        }),
{
    if seconds < 1 || seconds > 30 || (seconds == 30 && nanoseconds > 0) {
        return Err(BluetoothError::WindowOutOfBounds);
    }
    Ok(())
}

/// Whether a name is one that advertisements rotate: `CT-` and six URL-safe base64 characters.
pub open spec fn is_display_name(s: Seq<char>) -> bool {
    &&& s.len() == 9
    &&& s.take(3) == "CT-"@
    &&& forall|i: int| 3 <= i < 9 ==> proximity::is_base64url_char(#[trigger] s[i])
}

/// Whether a name is one that advertisements rotate.
pub fn valid_display_name(value: &str) -> (r: bool)
    ensures
        r == is_display_name(value@),
{
    proof {
        reveal_strlit("CT-");
    }
    let chars = text::to_chars(value);
    if chars.len() != 9 {
        return false;
    }
    let head = text::chars_between(chars.as_slice(), 0, 3);
    if !text::same_text(head.as_str(), "CT-") {
        assert(head@ =~= value@.take(3));
        return false;
    }
    assert(head@ =~= value@.take(3));
    let tail = text::chars_between(chars.as_slice(), 3, 9);
    let r = proximity::base64url_chars(tail.as_str());
    proof {
        assert forall|i: int| 3 <= i < 9 implies #[trigger] value@[i] == tail@[i - 3] by {}
        if r {
            assert forall|i: int| 3 <= i < 9 implies proximity::is_base64url_char(
                #[trigger] value@[i],
            ) by {
                assert(proximity::is_base64url_char(tail@[i - 3]));
            }
        } else if is_display_name(value@) {
            assert forall|i: int| 0 <= i < tail@.len() implies proximity::is_base64url_char(
                #[trigger] tail@[i],
            ) by {
                assert(tail@[i] == value@[i + 3]);
            }
        }
    }
    r
}

/// The name of a valid advertisement is one that the central recognizes.
pub proof fn advertised_names_are_recognized(view: advertisement::AdvertisementView)
    requires
        view.is_valid(),
    ensures
        is_display_name("CT-"@ + view.rotating_id.take(6)),
{
    reveal_strlit("CT-");
    let name = "CT-"@ + view.rotating_id.take(6);
    assert(name.take(3) =~= "CT-"@);
    assert forall|i: int| 3 <= i < 9 implies proximity::is_base64url_char(#[trigger] name[i]) by {
        assert(name[i] == view.rotating_id[i - 3]);
    }
}

/// What is known of a device nearby.
#[derive(Clone, Debug, PartialEq, Eq)]
pub struct PeripheralProperties {
    pub transport_id: String,
    pub local_name: Option<String>,
    pub advertisement_name: Option<String>,
    pub services: Vec<u128>,
    pub rssi: Option<i16>,
}

/// A device that is offered to the user.
#[derive(Clone, Debug, PartialEq, Eq)]
pub struct BluetoothCandidate {
    /// Process-local route handle. Never persist or treat it as device identity.
    pub transport_id: String,
    pub display_name: String,
    pub rssi: Option<i16>,
}

/// The contents of a candidate.
#[verifier::ext_equal]
pub struct CandidateView {
    pub transport_id: Seq<char>,
    pub display_name: Seq<char>,
    pub rssi: Option<i16>,
}

impl View for BluetoothCandidate {
    type V = CandidateView;

    open spec fn view(&self) -> CandidateView {
        CandidateView {
            transport_id: self.transport_id@,
            display_name: self.display_name@,
            rssi: self.rssi,
        }
    }
}

/// The contents of candidates.
pub open spec fn candidate_views(list: Seq<BluetoothCandidate>) -> Seq<CandidateView> {
    list.map_values(|c: BluetoothCandidate| c@)
}

/// The name that a device shows: its local name, or else the advertised one.
pub open spec fn shown_name(properties: PeripheralProperties) -> Seq<char> {
    match properties.local_name {
        Some(name) => name@,
        None => match properties.advertisement_name {
            Some(name) => name@,
            None => seq![],
        },
    }
}

/// Whether a device is offered: it has the service, or a rotating name.
pub open spec fn is_offered(properties: PeripheralProperties) -> bool {
    properties.services@.contains(SERVICE_UUID) || is_display_name(shown_name(properties))
}

/// How a device is offered: under no other than a rotating name.
pub open spec fn offered_as(properties: PeripheralProperties) -> CandidateView {
    CandidateView {
        transport_id: properties.transport_id@,
        display_name: if is_display_name(shown_name(properties)) {
            shown_name(properties)
        } else {
            UNNAMED_DEVICE@
        },
        rssi: properties.rssi,
    }
}

/// The devices that are offered, in the order in which they were found.
pub open spec fn offered(found: Seq<PeripheralProperties>) -> Seq<CandidateView>
    decreases found.len(),
{
    if found.len() == 0 {
        seq![]
    } else {
        let before = offered(found.drop_last());
        if is_offered(found.last()) {
            before.push(offered_as(found.last()))
        } else {
            before
        }
    }
}

/// Whether a list contains a UUID.
fn contains_uuid(list: &Vec<u128>, uuid: u128) -> (r: bool)
    ensures
        r == list@.contains(uuid),
{
    let mut i: usize = 0;
    while i < list.len()
        invariant
            i <= list@.len(),
            forall|j: int| 0 <= j < i ==> #[trigger] list@[j] != uuid,
        decreases list@.len() - i,
    {
        if list[i] == uuid {
            assert(list@[i as int] == uuid);
            return true;
        }
        i = i + 1;
    }
    false
}

/// How a device is offered, if it is.
pub fn candidate(properties: &PeripheralProperties) -> (r: Option<BluetoothCandidate>)
    ensures
        r is Some <==> is_offered(*properties),
        r matches Some(c) ==> c@ == offered_as(*properties),
{
    let name = match &properties.local_name {
        Some(name) => name.clone(),
        None => match &properties.advertisement_name {
            Some(name) => name.clone(),
            None => String::new(),
        },
    };
    assert(name@ =~= shown_name(*properties));
    let recognized: bool = valid_display_name(name.as_str());
    if !contains_uuid(&properties.services, SERVICE_UUID) && !recognized {
        return None;
    }
    let display_name = if recognized {
        name
    } else {
        UNNAMED_DEVICE.to_owned()
    };
    Some(
        BluetoothCandidate {
            transport_id: properties.transport_id.clone(),
            display_name,
            rssi: properties.rssi,
        },
    )
}

impl Ranked for BluetoothCandidate {
    /// The stronger signal goes first; an unknown one goes last.
    open spec fn before(&self, other: &Self) -> bool {
        match (self.rssi, other.rssi) {
            (Some(a), Some(b)) => a > b,
            (Some(_), None) => true,
            (None, _) => false,
        }
    }

    proof fn before_is_an_order(a: &Self, b: &Self, c: &Self) {
    }

    fn goes_before(&self, other: &Self) -> (r: bool) {
        match self.rssi {
            Some(a) => match other.rssi {
                Some(b) => a > b,
                None => true,
            },
            None => false,
        }
    }
}

/// The devices that are offered, the strongest signal first; of equal ones, the one that was found
/// first.
pub fn candidates(found: &Vec<PeripheralProperties>) -> (list: Vec<BluetoothCandidate>)
    ensures
        exists|unsorted: Seq<BluetoothCandidate>, order: Seq<usize>|
            {
                &&& candidate_views(unsorted) == offered(found@)
                &&& #[trigger] order::is_stable_order(order, unsorted)
                &&& candidate_views(list@) == order.map_values(|i: usize| unsorted[i as int]@)
            },
{
    let mut unsorted: Vec<BluetoothCandidate> = Vec::new();
    let mut i: usize = 0;
    assert(found@.take(0) =~= Seq::empty());
    assert(candidate_views(unsorted@) =~= Seq::empty());
    while i < found.len()
        invariant
            i <= found@.len(),
            candidate_views(unsorted@) == offered(found@.take(i as int)),
        decreases found@.len() - i,
    {
        let ghost before = candidate_views(unsorted@);
        assert(found@.take(i + 1).drop_last() =~= found@.take(i as int));
        assert(found@.take(i + 1).last() == found@[i as int]);
        match candidate(&found[i]) {
            Some(c) => {
                unsorted.push(c);
                assert(candidate_views(unsorted@) =~= before.push(c@));
            },
            None => {},
        }
        i = i + 1;
    }
    assert(found@.take(i as int) =~= found@);
    let order = order::stable_order(unsorted.as_slice());
    let mut list: Vec<BluetoothCandidate> = Vec::new();
    let mut k: usize = 0;
    while k < order.len()
        invariant
            k <= order@.len(),
            list@.len() == k,
            order::is_stable_order(order@, unsorted@),
            forall|a: int| 0 <= a < k ==> (#[trigger] list@[a])@ == unsorted@[order@[a] as int]@,
        decreases order@.len() - k,
    {
        assert(order@[k as int] < unsorted@.len());
        let c = &unsorted[order[k]];
        list.push(
            BluetoothCandidate {
                transport_id: c.transport_id.clone(),
                display_name: c.display_name.clone(),
                rssi: c.rssi,
            },
        );
        k = k + 1;
    }
    assert(candidate_views(list@) =~= order@.map_values(|i: usize| unsorted@[i as int]@));
    list
}

/// No device is offered under a name of its own: every name that is shown rotates, or is the one
/// for unnamed devices.
pub proof fn offered_names_do_not_identify(found: Seq<PeripheralProperties>, k: int)
    requires
        0 <= k < offered(found).len(),
    ensures
        is_display_name(offered(found)[k].display_name) || offered(found)[k].display_name
            == UNNAMED_DEVICE@,
    decreases found.len(),
{
    if found.len() > 0 {
        let before = offered(found.drop_last());
        if k < before.len() {
            offered_names_do_not_identify(found.drop_last(), k);
        }
    }
}

/// What a scan shows of a candidate: a number, the rotating name and the signal strength, but not
/// the identifier that the operating system uses.
#[derive(Clone, Debug, PartialEq, Eq)]
pub struct ScanLine {
    pub index: usize,
    pub display_name: String,
    pub rssi: Option<i16>,
}

/// What a scan shows of the candidates.
pub fn scan_lines(list: &Vec<BluetoothCandidate>) -> (lines: Vec<ScanLine>)
    ensures
        lines@.len() == list@.len(),
        forall|i: int|
            0 <= i < lines@.len() ==> (#[trigger] lines@[i]).index == i
                && lines@[i].display_name@ == list@[i].display_name@ && lines@[i].rssi
                == list@[i].rssi,
{
    let mut lines: Vec<ScanLine> = Vec::new();
    let mut i: usize = 0;
    while i < list.len()
        invariant
            i <= list@.len(),
            lines@.len() == i,
            forall|j: int|
                0 <= j < i ==> (#[trigger] lines@[j]).index == j && lines@[j].display_name@
                    == list@[j].display_name@ && lines@[j].rssi == list@[j].rssi,
        decreases list@.len() - i,
    {
        lines.push(
            ScanLine { index: i, display_name: list[i].display_name.clone(), rssi: list[i].rssi },
        );
        i = i + 1;
    }
    lines
}

// ---------------------------------------------------------------------------
// Sessions
// ---------------------------------------------------------------------------

/// A characteristic of a connected device.
#[derive(Clone, Copy, Debug, PartialEq, Eq, Structural)]
pub struct CharacteristicInfo {
    pub service_uuid: u128,
    pub uuid: u128,
}

/// Where the three characteristics of a session stand.
#[derive(Clone, Copy, Debug, PartialEq, Eq, Structural)]
pub struct SessionCharacteristics {
    pub advertisement: usize,
    pub inbound: usize,
    pub outbound: usize,
}

/// Whether a characteristic of the service stands at an index, and not before it.
pub open spec fn is_first(list: Seq<CharacteristicInfo>, uuid: u128, i: int) -> bool {
    &&& 0 <= i < list.len()
    &&& list[i] == (CharacteristicInfo { service_uuid: SERVICE_UUID, uuid })
    &&& forall|j: int|
        0 <= j < i ==> #[trigger] list[j] != (CharacteristicInfo {
            service_uuid: SERVICE_UUID,
            uuid,
        })
}

/// Whether the service has a characteristic.
pub open spec fn has_characteristic(list: Seq<CharacteristicInfo>, uuid: u128) -> bool {
    list.contains(CharacteristicInfo { service_uuid: SERVICE_UUID, uuid })
}

/// Where a characteristic of the service stands first.
fn find_characteristic(list: &Vec<CharacteristicInfo>, uuid: u128) -> (r: Option<usize>)
    ensures
        r is Some <==> has_characteristic(list@, uuid),
        r matches Some(i) ==> is_first(list@, uuid, i as int),
{
    let mut i: usize = 0;
    while i < list.len()
        invariant
            i <= list@.len(),
            forall|j: int|
                0 <= j < i ==> #[trigger] list@[j] != (CharacteristicInfo {
                    service_uuid: SERVICE_UUID,
                    uuid,
                }),
        decreases list@.len() - i,
    {
        if list[i].service_uuid == SERVICE_UUID && list[i].uuid == uuid {
            assert(list@[i as int] == (CharacteristicInfo { service_uuid: SERVICE_UUID, uuid }));
            return Some(i);
        }
        i = i + 1;
    }
    None
}

/// The three characteristics of a session.
pub fn session_characteristics(list: &Vec<CharacteristicInfo>) -> (r: Result<
    SessionCharacteristics,
    BluetoothError,
>)
    ensures
        match r {
            Ok(found) => {
                &&& is_first(list@, ADVERTISEMENT_CHARACTERISTIC_UUID, found.advertisement as int)
                &&& is_first(list@, INBOUND_CHARACTERISTIC_UUID, found.inbound as int)
                &&& is_first(list@, OUTBOUND_CHARACTERISTIC_UUID, found.outbound as int)
            },
            Err(e) => e == (if !has_characteristic(list@, ADVERTISEMENT_CHARACTERISTIC_UUID) {
                BluetoothError::AdvertisementMissing
            } else if !has_characteristic(list@, INBOUND_CHARACTERISTIC_UUID) {
                BluetoothError::InboundMissing
            } else {
                BluetoothError::OutboundMissing
            }),
        },
        r is Ok <==> has_characteristic(list@, ADVERTISEMENT_CHARACTERISTIC_UUID)
            && has_characteristic(list@, INBOUND_CHARACTERISTIC_UUID) && has_characteristic(
            list@,
            OUTBOUND_CHARACTERISTIC_UUID,
        ),
{
    let advertisement: usize = match find_characteristic(list, ADVERTISEMENT_CHARACTERISTIC_UUID) {
        Some(i) => i,
        None => {
            return Err(BluetoothError::AdvertisementMissing);
        },
    };
    let inbound: usize = match find_characteristic(list, INBOUND_CHARACTERISTIC_UUID) {
        Some(i) => i,
        None => {
            return Err(BluetoothError::InboundMissing);
        },
    };
    let outbound: usize = match find_characteristic(list, OUTBOUND_CHARACTERISTIC_UUID) {
        Some(i) => i,
        None => {
            return Err(BluetoothError::OutboundMissing);
        },
    };
    Ok(SessionCharacteristics { advertisement, inbound, outbound })
}

/// What becomes of a decoded advertisement: it is handed on where it is valid.
pub open spec fn is_advertisement_outcome(
    decoded: Option<ProximityAdvertisement>,
    r: Result<ProximityAdvertisement, BluetoothError>,
) -> bool {
    match decoded {
        None => r == Err::<ProximityAdvertisement, BluetoothError>(
            BluetoothError::AdvertisementUnreadable,
        ),
        Some(value) => if value@.is_valid() {
            r == Ok::<ProximityAdvertisement, BluetoothError>(value)
        } else {
            r == Err::<ProximityAdvertisement, BluetoothError>(
                BluetoothError::Proximity { error: ProximityError::InvalidAdvertisement },
            )
        },
    }
}

/// Takes a decoded advertisement that is valid.
pub fn accept_advertisement(decoded: Option<ProximityAdvertisement>) -> (r: Result<
    ProximityAdvertisement,
    BluetoothError,
>)
    ensures
        is_advertisement_outcome(decoded, r),
{
    match decoded {
        None => Err(BluetoothError::AdvertisementUnreadable),
        Some(value) => match value.validate() {
            Ok(()) => Ok(value),
            Err(error) => Err(BluetoothError::Proximity { error }),
        },
    }
}

/// Reads an advertisement of bounded size. The decoder is not called on larger ones.
pub fn read_advertisement<F: FnOnce(&[u8]) -> Option<ProximityAdvertisement>>(
    bytes: &[u8],
    decode: F,
) -> (r: Result<ProximityAdvertisement, BluetoothError>)
    requires
        call_requires(decode, (bytes,)),
    ensures
        bytes@.len() > MAX_ADVERTISEMENT_BYTES ==> (r matches Err(e) && e
            == BluetoothError::AdvertisementTooLarge),
        bytes@.len() <= MAX_ADVERTISEMENT_BYTES ==> exists|
            decoded: Option<ProximityAdvertisement>,
        | #[trigger] call_ensures(decode, (bytes,), decoded) && is_advertisement_outcome(decoded, r),
{
    if bytes.len() > MAX_ADVERTISEMENT_BYTES {
        return Err(BluetoothError::AdvertisementTooLarge);
    }
    let decoded = decode(bytes);
    accept_advertisement(decoded)
}

/// The size of the packets for a transmission unit: what is left of it after the header of a
/// write, but between 20 and 185 bytes.
pub open spec fn packet_size(mtu: u16) -> int {
    if mtu < 23 {
        20
    } else if mtu > 188 {
        185
    } else {
        mtu - 3
    }
}

/// The size of the packets for a transmission unit.
pub fn packet_bytes(mtu: u16) -> (n: usize)
    ensures
        n == packet_size(mtu),
{
    let payload: u16 = mtu.saturating_sub(3);
    if payload < 20 {
        20
    } else if payload > 185 {
        185
    } else {
        payload as usize
    }
}

/// Every message of at most 32768 bytes can be sent, whatever the transmission unit.
pub proof fn short_messages_can_be_sent(message: Seq<u8>, mtu: u16)
    requires
        0 < message.len() <= 32_768,
    ensures
        frame::can_fragment(message, packet_size(mtu)),
{
    let size = packet_size(mtu) - 12;
    let len = message.len() as int;
    assert((len + size - 1) / size <= 4096) by (nonlinear_arith)
        requires
            0 < len <= 32_768,
            8 <= size,
    ;
}

/// The packets of an encrypted envelope for a transmission unit.
pub fn outgoing_packets(envelope: &[u8], mtu: u16) -> (r: Result<Vec<Vec<u8>>, BluetoothError>)
    ensures
        !frame::can_fragment(envelope@, packet_size(mtu)) ==> r is Err,
        r matches Ok(packets) ==> exists|frame_id: u32|
            packets@.map_values(|p: Vec<u8>| p@) == #[trigger] frame::fragments(
                envelope@,
                packet_size(mtu),
                frame_id,
            ),
        r matches Err(e) ==> e == (BluetoothError::Proximity {
            error: ProximityError::InvalidFrame,
        }),
        exists|drawn: Result<Vec<u8>, getrandom::Error>| #[trigger]
            crypto::is_random_draw(4, drawn) && frame::is_cut_under(
                envelope@,
                packet_size(mtu),
                drawn,
                match r {
                    Ok(packets) => Ok(packets),
                    Err(_) => Err(ProximityError::InvalidFrame),
                },
            ),
{
    match fragment_ble_message(envelope, packet_bytes(mtu)) {
        Ok(packets) => Ok(packets),
        Err(error) => Err(BluetoothError::Proximity { error }),
    }
}

/// A reassembler for a session.
pub fn session_reassembler() -> (r: Result<BleFrameReassembler, BluetoothError>)
    ensures
        r matches Ok(s) && s.wf() && s@ == (frame::ReassemblerView {
            capacity: SESSION_MESSAGES as nat,
            frames: seq![],
        }),
{
    match BleFrameReassembler::new(SESSION_MESSAGES) {
        Ok(s) => Ok(s),
        Err(error) => Err(BluetoothError::Proximity { error }),
    }
}

/// What a notification brings: a message, nothing yet, or an error. One of another characteristic
/// is passed over.
pub fn receive(
    reassembler: &mut BleFrameReassembler,
    uuid: u128,
    outbound_uuid: u128,
    value: &[u8],
    now_ms: u64,
) -> (r: Result<Option<Vec<u8>>, ProximityError>)
    requires
        old(reassembler).wf(),
    ensures
        final(reassembler).wf(),
        uuid != outbound_uuid ==> r == Ok::<Option<Vec<u8>>, ProximityError>(None)
            && final(reassembler)@ == old(reassembler)@,
        uuid == outbound_uuid ==> (final(reassembler)@, frame::answer_view(r)) == old(
            reassembler,
        )@.adding(value@, now_ms),
{
    if uuid != outbound_uuid {
        return Ok(None);
    }
    reassembler.add(value, now_ms)
}

// ---------------------------------------------------------------------------
// Whom the central shows, and what it reads and sends
// ---------------------------------------------------------------------------

/// The service and its characteristics, and the bounds of a session.
pub proof fn sessions_have_their_bounds()
    ensures
        SERVICE_UUID == 0xc11f7a00_7b9e_4d8a_9c3a_4b8a0d86e001,
        ADVERTISEMENT_CHARACTERISTIC_UUID == SERVICE_UUID + 1,
        INBOUND_CHARACTERISTIC_UUID == SERVICE_UUID + 2,
        OUTBOUND_CHARACTERISTIC_UUID == SERVICE_UUID + 3,
        MAX_ADVERTISEMENT_BYTES == 512,
        SESSION_MESSAGES == 8,
{
}

/// A rotating name is `CT-` and six letters, digits, underscores or hyphens, and nothing else is.
pub proof fn rotating_names_are_told_by_their_characters(s: Seq<char>)
    ensures
        is_display_name(s) <==> s.len() == 9 && s[0] == 'C' && s[1] == 'T' && s[2] == '-' && forall|
            i: int,
        |
            3 <= i < 9 ==> {
                let c = #[trigger] s[i];
                'a' <= c <= 'z' || 'A' <= c <= 'Z' || '0' <= c <= '9' || c == '_' || c == '-'
            },
{
    reveal_strlit("CT-");
    if s.len() == 9 {
        let head = s.take(3);
        if head == "CT-"@ {
            assert(s[0] == head[0] && s[1] == head[1] && s[2] == head[2]);
        }
        if s[0] == 'C' && s[1] == 'T' && s[2] == '-' {
            assert(head =~= "CT-"@);
        }
        if is_display_name(s) {
            assert forall|i: int| 3 <= i < 9 implies {
                let c = #[trigger] s[i];
                'a' <= c <= 'z' || 'A' <= c <= 'Z' || '0' <= c <= '9' || c == '_' || c == '-'
            } by {
                assert(proximity::is_base64url_char(s[i]));
            }
        }
    }
}

/// A device is offered exactly where it has the service, whatever its name, or shows a rotating
/// name: its local one, or the advertised one where it has no local one. It is offered with its
/// route and its signal strength, under the rotating name, or else without a name of its own.
pub proof fn devices_are_offered_by_service_or_name(p: PeripheralProperties)
    ensures
        ({
            let name = if p.local_name is Some {
                p.local_name->Some_0@
            } else if p.advertisement_name is Some {
                p.advertisement_name->Some_0@
            } else {
                Seq::<char>::empty()
            };
            let has_service = exists|i: int|
                0 <= i < p.services@.len() && #[trigger] p.services@[i]
                    == 0xc11f7a00_7b9e_4d8a_9c3a_4b8a0d86e001;
            let shown = offered_as(p);
            &&& is_offered(p) <==> has_service || is_display_name(name)
            &&& shown.transport_id == p.transport_id@
            &&& shown.rssi == p.rssi
            &&& is_display_name(name) ==> shown.display_name == name
            &&& !is_display_name(name) ==> shown.display_name == "ClipTown nearby device"@
        }),
{
    let services = p.services@;
    if services.contains(SERVICE_UUID) {
        let i = choose|i: int| 0 <= i < services.len() && services[i] == SERVICE_UUID;
        assert(services[i] == 0xc11f7a00_7b9e_4d8a_9c3a_4b8a0d86e001);
    }
    assert(shown_name(p) =~= if p.local_name is Some {
        p.local_name->Some_0@
    } else if p.advertisement_name is Some {
        p.advertisement_name->Some_0@
    } else {
        Seq::<char>::empty()
    });
}

/// From which device each offer comes.
proof fn lemma_offers_come_from_devices(found: Seq<PeripheralProperties>) -> (sources: Seq<int>)
    ensures
        sources.len() == offered(found).len(),
        forall|k: int|
            0 <= k < sources.len() ==> 0 <= #[trigger] sources[k] < found.len() && is_offered(
                found[sources[k]],
            ) && offered(found)[k] == offered_as(found[sources[k]]),
        forall|k: int, l: int|
            0 <= k < l < sources.len() ==> #[trigger] sources[k] < #[trigger] sources[l],
        forall|i: int|
            0 <= i < found.len() && is_offered(#[trigger] found[i]) ==> sources.contains(i),
    decreases found.len(),
{
    if found.len() == 0 {
        seq![]
    } else {
        let rest = found.drop_last();
        let n = rest.len() as int;
        let before = lemma_offers_come_from_devices(rest);
        assert forall|i: int| 0 <= i < n implies rest[i] == #[trigger] found[i] by {}
        assert(found.last() == found[n]);
        let sources = if is_offered(found.last()) {
            before.push(n)
        } else {
            before
        };
        assert forall|i: int| 0 <= i < found.len() && is_offered(#[trigger] found[i]) implies sources.contains(
            i,
        ) by {
            if i < n {
                assert(is_offered(rest[i]));
                let k = choose|k: int| 0 <= k < before.len() && before[k] == i;
                assert(sources[k] == i);
            } else {
                assert(sources[before.len() as int] == n);
            }
        }
        assert forall|k: int| 0 <= k < sources.len() implies 0 <= #[trigger] sources[k] < found.len()
            && is_offered(found[sources[k]]) && offered(found)[k] == offered_as(found[sources[k]]) by {
            if k < before.len() {
                assert(sources[k] == before[k]);
                assert(rest[before[k]] == found[before[k]]);
            }
        }
        sources
    }
}

/// Every device that is offered is listed once, and no other. Stronger signals come first, those of
/// unknown strength last, and of equal ones the device that was found first.
pub proof fn offered_devices_are_listed_by_their_signal(
    found: Seq<PeripheralProperties>,
    list: Seq<BluetoothCandidate>,
) -> (sources: Seq<int>)
    requires
        exists|unsorted: Seq<BluetoothCandidate>, order: Seq<usize>|
            {
                &&& candidate_views(unsorted) == offered(found)
                &&& #[trigger] order::is_stable_order(order, unsorted)
                &&& candidate_views(list) == order.map_values(|i: usize| unsorted[i as int]@)
            },
        found.len() <= usize::MAX,
    ensures
        list.len() == sources.len(),
        forall|k: int|
            0 <= k < list.len() ==> 0 <= #[trigger] sources[k] < found.len() && is_offered(
                found[sources[k]],
            ) && list[k]@ == offered_as(found[sources[k]]),
        forall|i: int|
            0 <= i < found.len() && is_offered(#[trigger] found[i]) ==> sources.contains(i),
        forall|k: int, l: int|
            0 <= k < l < list.len() ==> {
                let a = found[#[trigger] sources[k]].rssi;
                let b = found[#[trigger] sources[l]].rssi;
                &&& sources[k] != sources[l]
                &&& a is None ==> b is None
                &&& a is Some && b is Some ==> a->Some_0 >= b->Some_0
                &&& a == b ==> sources[k] < sources[l]
            },
{
    let (unsorted, order) = choose|unsorted: Seq<BluetoothCandidate>, order: Seq<usize>|
        {
            &&& candidate_views(unsorted) == offered(found)
            &&& #[trigger] order::is_stable_order(order, unsorted)
            &&& candidate_views(list) == order.map_values(|i: usize| unsorted[i as int]@)
        };
    let from = lemma_offers_come_from_devices(found);
    let sources = order.map_values(|i: usize| from[i as int]);
    assert(candidate_views(list).len() == list.len());
    assert(candidate_views(unsorted).len() == unsorted.len());
    assert forall|k: int| 0 <= k < list.len() implies 0 <= #[trigger] sources[k] < found.len()
        && is_offered(found[sources[k]]) && list[k]@ == offered_as(found[sources[k]])
        && unsorted[order[k] as int]@ == list[k]@ by {
        assert(order[k] < unsorted.len());
        assert(sources[k] == from[order[k] as int]);
        assert(candidate_views(list)[k] == list[k]@);
        assert(candidate_views(unsorted)[order[k] as int] == unsorted[order[k] as int]@);
    }
    assert forall|i: int| 0 <= i < found.len() && is_offered(#[trigger] found[i]) implies sources.contains(
        i,
    ) by {
        let j = choose|j: int| 0 <= j < from.len() && from[j] == i;
        lemma_offers_are_few(found);
        assert(order.contains(j as usize));
        let k = choose|k: int| 0 <= k < order.len() && order[k] == j as usize;
        assert(sources[k] == i);
    }
    assert forall|k: int, l: int| 0 <= k < l < list.len() implies {
        let a = found[#[trigger] sources[k]].rssi;
        let b = found[#[trigger] sources[l]].rssi;
        &&& sources[k] != sources[l]
        &&& a is None ==> b is None
        &&& a is Some && b is Some ==> a->Some_0 >= b->Some_0
        &&& a == b ==> sources[k] < sources[l]
    } by {
        order::stable_orders_keep_the_order_of_level_items(order, unsorted, k, l);
        let i = order[k] as int;
        let j = order[l] as int;
        assert(unsorted[i]@ == list[k]@ && unsorted[j]@ == list[l]@);
        assert(unsorted[i].rssi == found[sources[k]].rssi);
        assert(unsorted[j].rssi == found[sources[l]].rssi);
        if i < j {
            assert(from[i] < from[j]);
        } else {
            assert(from[j] < from[i]);
        }
    }
    sources
}

proof fn lemma_offers_are_few(found: Seq<PeripheralProperties>)
    ensures
        offered(found).len() <= found.len(),
    decreases found.len(),
{
    if found.len() > 0 {
        lemma_offers_are_few(found.drop_last());
    }
}

/// A characteristic counts only under the service, and the first one that stands there is taken.
pub proof fn characteristics_count_under_the_service(
    list: Seq<CharacteristicInfo>,
    uuid: u128,
    i: int,
)
    ensures
        has_characteristic(list, uuid) <==> exists|j: int|
            0 <= j < list.len() && (#[trigger] list[j]).uuid == uuid && list[j].service_uuid
                == 0xc11f7a00_7b9e_4d8a_9c3a_4b8a0d86e001,
        is_first(list, uuid, i) <==> 0 <= i < list.len() && list[i].uuid == uuid
            && list[i].service_uuid == 0xc11f7a00_7b9e_4d8a_9c3a_4b8a0d86e001 && forall|j: int|
            0 <= j < i ==> (#[trigger] list[j]).uuid != uuid || list[j].service_uuid
                != 0xc11f7a00_7b9e_4d8a_9c3a_4b8a0d86e001,
{
    let wanted = CharacteristicInfo { service_uuid: SERVICE_UUID, uuid };
    if exists|j: int|
        0 <= j < list.len() && (#[trigger] list[j]).uuid == uuid && list[j].service_uuid
            == 0xc11f7a00_7b9e_4d8a_9c3a_4b8a0d86e001 {
        let j = choose|j: int|
            0 <= j < list.len() && (#[trigger] list[j]).uuid == uuid && list[j].service_uuid
                == 0xc11f7a00_7b9e_4d8a_9c3a_4b8a0d86e001;
        assert(list[j] == wanted);
    }
    if has_characteristic(list, uuid) {
        let j = choose|j: int| 0 <= j < list.len() && list[j] == wanted;
        assert(list[j].uuid == uuid);
    }
    if is_first(list, uuid, i) {
        assert forall|j: int| 0 <= j < i implies (#[trigger] list[j]).uuid != uuid
            || list[j].service_uuid != 0xc11f7a00_7b9e_4d8a_9c3a_4b8a0d86e001 by {
            assert(list[j] != wanted);
        }
    }
}

/// An advertisement that was decoded is handed on unchanged exactly where it is valid.
pub proof fn decoded_advertisements_are_handed_on(
    decoded: Option<ProximityAdvertisement>,
    r: Result<ProximityAdvertisement, BluetoothError>,
)
    requires
        is_advertisement_outcome(decoded, r),
    ensures
        r is Ok <==> decoded is Some && decoded->Some_0@.is_valid(),
        r matches Ok(value) ==> decoded == Some(value),
        decoded is None ==> r == Err::<ProximityAdvertisement, BluetoothError>(
            BluetoothError::AdvertisementUnreadable,
        ),
        decoded is Some && !decoded->Some_0@.is_valid() ==> r == Err::<
            ProximityAdvertisement,
            BluetoothError,
        >(BluetoothError::Proximity { error: ProximityError::InvalidAdvertisement }),
{
}

/// Packets fill the transmission unit but for the three bytes of a write; they have at least 20 and
/// at most 185 bytes.
pub proof fn packets_fill_the_transmission_unit(mtu: u16)
    ensures
        20 <= mtu - 3 <= 185 ==> packet_size(mtu) + 3 == mtu,
        mtu - 3 < 20 ==> packet_size(mtu) == 20,
        mtu - 3 > 185 ==> packet_size(mtu) == 185,
{
}

/// Every refusal of the central has its sentence; one of the proximity rules has that of the rules.
pub proof fn bluetooth_errors_have_their_sentences(error: BluetoothError)
    ensures
        error.message_text()@ == (match error {
            BluetoothError::WindowOutOfBounds => {
                "Bluetooth discovery window is outside reviewed bounds"@
            },
            BluetoothError::AdvertisementMissing => {
                "ClipTown advertisement characteristic is missing"@
            },
            BluetoothError::InboundMissing => "ClipTown inbound characteristic is missing"@,
            BluetoothError::OutboundMissing => "ClipTown outbound characteristic is missing"@,
            BluetoothError::AdvertisementTooLarge => "ClipTown advertisement exceeds size limit"@,
            BluetoothError::AdvertisementUnreadable => "parse ClipTown advertisement"@,
            BluetoothError::Proximity { error } => error.message_text()@,
        }),
{
}

} // verus!
