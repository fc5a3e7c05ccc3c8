//! What the device says about itself, and the names it goes by.

use crate::cbor::{lemma_pairs_tree, CborTree, CborValue};
use crate::error::{viewed, ErrorView, JadeError};
use crate::members::{
    bool_member, gives_bool, gives_count, gives_text, has_text_keys, holds, integer_member,
    keys_are_text, lemma_members_are_what_is_given, read_bool, read_integer, read_text,
    text_member, text_view,
};
use crate::text::{
    chars_of, decimal, joined, lemma_join_undoes_split, lemma_numerals_read_back, number,
    read_number, same_text, split, split_at_each, views,
};
use vstd::prelude::*;

verus! {

/// The oldest firmware whose protocol this crate speaks.
pub const MIN_JADE_FIRMWARE: &'static str = "1.0.30";

/// The oldest firmware that handles taproot.
pub const MIN_JADE_FIRMWARE_TAPROOT: &'static str = "1.0.34";

// ----------------------------------------------------------------------------
// Networks and address kinds
// ----------------------------------------------------------------------------
/// A network of the device.
#[derive(Debug, Clone, Copy, PartialEq, Eq, Structural)]
pub enum JadeNetwork {
    Mainnet,
    Testnet,
    Regtest,
}

/// The device's own name for a network.
pub open spec fn network_name(network: JadeNetwork) -> Seq<char> {
    match network {
        JadeNetwork::Mainnet => "mainnet"@,
        JadeNetwork::Testnet => "testnet"@,
        JadeNetwork::Regtest => "localtest"@,
    }
}

impl JadeNetwork {
    /// The device's own name for this network. It calls regtest "localtest".
    pub fn wire_name(self) -> (r: &'static str)
        ensures
            r@ == network_name(self),
    {
        match self {
            JadeNetwork::Mainnet => "mainnet",
            JadeNetwork::Testnet => "testnet",
            JadeNetwork::Regtest => "localtest",
        }
    }
}

/// A kind of single signature address.
#[derive(Debug, Clone, Copy, PartialEq, Eq, Structural)]
pub enum JadeAddressVariant {
    Pkh,
    ShWpkh,
    Wpkh,
    Tr,
}

/// The purpose, the first element of a derivation path, that stands for a kind
/// of address.
pub open spec fn purpose_of(variant: JadeAddressVariant) -> u32 {
    match variant {
        JadeAddressVariant::Pkh => 44,
        JadeAddressVariant::ShWpkh => 49,
        JadeAddressVariant::Wpkh => 84,
        JadeAddressVariant::Tr => 86,
    }
}

/// The descriptor that names a kind of address to the device.
pub open spec fn descriptor_of(variant: JadeAddressVariant) -> Seq<char> {
    match variant {
        JadeAddressVariant::Pkh => "pkh(k)"@,
        JadeAddressVariant::ShWpkh => "sh(wpkh(k))"@,
        JadeAddressVariant::Wpkh => "wpkh(k)"@,
        JadeAddressVariant::Tr => "tr(k)"@,
    }
}

impl JadeAddressVariant {
    /// The purpose that stands for this kind of address.
    pub fn purpose(self) -> (r: u32)
        ensures
            r == purpose_of(self),
    {
        match self {
            JadeAddressVariant::Pkh => 44,
            JadeAddressVariant::ShWpkh => 49,
            JadeAddressVariant::Wpkh => 84,
            JadeAddressVariant::Tr => 86,
        }
    }

    /// The descriptor that names this kind of address to the device.
    pub fn wire_name(self) -> (r: &'static str)
        ensures
            r@ == descriptor_of(self),
    {
        match self {
            JadeAddressVariant::Pkh => "pkh(k)",
            JadeAddressVariant::ShWpkh => "sh(wpkh(k))",
            JadeAddressVariant::Wpkh => "wpkh(k)",
            JadeAddressVariant::Tr => "tr(k)",
        }
    }

    /// The kind of address that a purpose stands for. It undoes
    /// [`JadeAddressVariant::purpose`], and knows no other number.
    pub fn from_purpose(purpose: u32) -> (r: Option<JadeAddressVariant>)
        ensures
            forall|variant: JadeAddressVariant|
                (r == Some(variant)) == (#[trigger] purpose_of(variant) == purpose),
    {
        let r = match purpose {
            44 => Some(JadeAddressVariant::Pkh),
            49 => Some(JadeAddressVariant::ShWpkh),
            84 => Some(JadeAddressVariant::Wpkh),
            86 => Some(JadeAddressVariant::Tr),
            _ => None,
        };
        r
    }
}

/// No two kinds of address share a purpose.
pub proof fn lemma_purposes_differ(a: JadeAddressVariant, b: JadeAddressVariant)
    ensures
        purpose_of(a) == purpose_of(b) ==> a == b,
{
}

// ----------------------------------------------------------------------------
// State
// ----------------------------------------------------------------------------
/// What the device is ready for.
#[derive(Debug, Clone, Copy, PartialEq, Eq, Structural)]
pub enum JadeState {
    /// It holds no wallet.
    Uninit,
    /// It holds a wallet that is not saved yet.
    Unsaved,
    /// It has to be unlocked.
    Locked,
    /// It can be used.
    Ready,
    /// It can be used, with a wallet that it will forget.
    Temp,
    /// It reports a state that this crate does not know.
    Unknown,
}

/// The state that the device calls by this name.
pub open spec fn state_named(name: Seq<char>) -> JadeState {
    if name == "UNINIT"@ {
        JadeState::Uninit
    } else if name == "UNSAVED"@ {
        JadeState::Unsaved
    } else if name == "LOCKED"@ {
        JadeState::Locked
    } else if name == "READY"@ {
        JadeState::Ready
    } else if name == "TEMP"@ {
        JadeState::Temp
    } else {
        JadeState::Unknown
    }
}

impl JadeState {
    /// The state that the device calls by this name. A name that is not known
    /// is no failure.
    pub fn from_wire(name: &str) -> (r: JadeState)
        ensures
            r == state_named(name@),
    {
        if same_text(name, "UNINIT") {
            JadeState::Uninit
        } else if same_text(name, "UNSAVED") {
            JadeState::Unsaved
        } else if same_text(name, "LOCKED") {
            JadeState::Locked
        } else if same_text(name, "READY") {
            JadeState::Ready
        } else if same_text(name, "TEMP") {
            JadeState::Temp
        } else {
            JadeState::Unknown
        }
    }
}

/// What the device is doing.
#[derive(Debug, Clone, Copy, PartialEq, Eq, Structural)]
pub enum JadePingStatus {
    Idle,
    Busy,
    AwaitingUserInput,
    /// It reports a number that this crate does not know.
    Unknown,
}

/// The status that a number stands for.
pub open spec fn ping_status(number: u64) -> JadePingStatus {
    if number == 0 {
        JadePingStatus::Idle
    } else if number == 1 {
        JadePingStatus::Busy
    } else if number == 2 {
        JadePingStatus::AwaitingUserInput
    } else {
        JadePingStatus::Unknown
    }
}

impl JadePingStatus {
    /// The status that a number stands for.
    pub fn from_wire(number: u64) -> (r: JadePingStatus)
        ensures
            r == ping_status(number),
    {
        match number {
            0 => JadePingStatus::Idle,
            1 => JadePingStatus::Busy,
            2 => JadePingStatus::AwaitingUserInput,
            _ => JadePingStatus::Unknown,
        }
    }
}

// ----------------------------------------------------------------------------
// Version information
// ----------------------------------------------------------------------------
/// What the device says about itself.
#[derive(Debug, PartialEq, Eq)]
pub struct JadeVersionInfo {
    pub jade_version: String,
    pub jade_state: JadeState,
    pub jade_networks: Option<String>,
    pub jade_has_pin: Option<bool>,
    pub board_type: Option<String>,
    pub battery_status: Option<u32>,
}

/// The mathematical value of a [`JadeVersionInfo`].
pub struct VersionInfoView {
    pub jade_version: Seq<char>,
    pub jade_state: JadeState,
    pub jade_networks: Option<Seq<char>>,
    pub jade_has_pin: Option<bool>,
    pub board_type: Option<Seq<char>>,
    pub battery_status: Option<u32>,
}

impl View for JadeVersionInfo {
    type V = VersionInfoView;

    open spec fn view(&self) -> VersionInfoView {
        VersionInfoView {
            jade_version: self.jade_version@,
            jade_state: self.jade_state,
            jade_networks: text_view(self.jade_networks),
            jade_has_pin: self.jade_has_pin,
            board_type: text_view(self.board_type),
            battery_status: self.battery_status,
        }
    }
}

/// The version information that an item is, or the error for one that is none.
///
/// The version and the state must be there; the other members may be missing.
/// The names of all of them are in capitals.
pub open spec fn version_info_in(t: CborTree) -> Result<VersionInfoView, ErrorView> {
    let unreadable = Err(ErrorView::ProtocolError("version information is not readable"@));
    match t {
        CborTree::Pairs(entries) => match (
            text_member(entries, "JADE_VERSION"@),
            text_member(entries, "JADE_STATE"@),
            text_member(entries, "JADE_NETWORKS"@),
            bool_member(entries, "JADE_HAS_PIN"@),
            text_member(entries, "BOARD_TYPE"@),
            integer_member(entries, "BATTERY_STATUS"@, 0, u32::MAX as int),
        ) {
            (
                Some(Some(version)),
                Some(Some(state)),
                Some(networks),
                Some(has_pin),
                Some(board),
                Some(battery),
            ) => if keys_are_text(entries) {
                Ok(
                    VersionInfoView {
                        jade_version: version,
                        jade_state: state_named(state),
                        jade_networks: networks,
                        jade_has_pin: has_pin,
                        board_type: board,
                        battery_status: match battery {
                            Some(n) => Some(n as u32),
                            None => None,
                        },
                    },
                )
            } else {
                unreadable
            },
            _ => unreadable,
        },
        _ => unreadable,
    }
}

impl JadeVersionInfo {
    /// Reads the version information in the result of a reply.
    pub fn from_value(value: &CborValue) -> (r: Result<JadeVersionInfo, JadeError>)
        ensures
            viewed(r) == version_info_in(value@),
    {
        broadcast use lemma_pairs_tree;

        if let CborValue::Pairs(entries) = value {
            let version = read_text(entries, "JADE_VERSION");
            let state = read_text(entries, "JADE_STATE");
            let networks = read_text(entries, "JADE_NETWORKS");
            let has_pin = read_bool(entries, "JADE_HAS_PIN");
            let board = read_text(entries, "BOARD_TYPE");
            let battery = read_integer(entries, "BATTERY_STATUS", 0, u32::MAX as i128);
            match (version, state, networks, has_pin, board, battery) {
                (
                    Some(Some(version)),
                    Some(Some(state)),
                    Some(networks),
                    Some(has_pin),
                    Some(board),
                    Some(battery),
                ) => if has_text_keys(entries) {
                    return Ok(
                        JadeVersionInfo {
                            jade_version: version,
                            jade_state: JadeState::from_wire(state.as_str()),
                            jade_networks: networks,
                            jade_has_pin: has_pin,
                            board_type: board,
                            battery_status: match battery {
                                Some(n) => Some(n as u32),
                                None => None,
                            },
                        },
                    );
                },
                _ => {},
            }
        }
        Err(JadeError::protocol("version information is not readable".to_owned()))
    }
}

// ----------------------------------------------------------------------------
// Firmware versions
// ----------------------------------------------------------------------------
/// Whether a character starts the suffix of a version.
pub open spec fn starts_suffix(c: char) -> bool {
    c == '-' || c == '+'
}

/// A version without its build suffix.
pub open spec fn without_suffix(version: Seq<char>) -> Seq<char>
    decreases version.len(),
{
    if version.len() == 0 {
        version
    } else {
        let before = without_suffix(version.drop_last());
        if before.len() < version.len() - 1 || starts_suffix(version.last()) {
            before
        } else {
            version
        }
    }
}

/// The number that one part of a version is, if it fits 32 bits.
pub open spec fn component(part: Seq<char>) -> Option<u32> {
    match number(part) {
        Some(n) => if n <= u32::MAX {
            Some(n as u32)
        } else {
            None
        },
        None => None,
    }
}

/// The numbers of a version, unless one of its parts is none.
pub open spec fn components(version: Seq<char>) -> Option<Seq<u32>> {
    let parts = split(without_suffix(version), '.');
    if forall|i: int| 0 <= i < parts.len() ==> component(#[trigger] parts[i]) is Some {
        Some(Seq::new(parts.len(), |i: int| component(parts[i])->Some_0))
    } else {
        None
    }
}

/// The number at a position of a version; a missing one counts as zero.
pub open spec fn component_at(version: Seq<u32>, i: int) -> u32 {
    if 0 <= i < version.len() {
        version[i]
    } else {
        0
    }
}

/// Whether two versions have the same numbers ahead of a position.
pub open spec fn same_until(a: Seq<u32>, b: Seq<u32>, n: int) -> bool {
    forall|i: int|
        #![trigger component_at(a, i)]
        #![trigger component_at(b, i)]
        0 <= i < n ==> component_at(a, i) == component_at(b, i)
}

/// Whether the numbers of a version are those of another or decide for it: the
/// first that differs is larger.
pub open spec fn not_older(a: Seq<u32>, b: Seq<u32>) -> bool {
    ||| same_until(a, b, a.len() as int) && same_until(a, b, b.len() as int)
    ||| exists|k: int|
        k >= 0 && same_until(a, b, k) && #[trigger] component_at(a, k) > component_at(b, k)
}

/// Whether a version is not older than another. A version that cannot be read
/// is not known to be new enough.
pub open spec fn at_least(version: Seq<char>, minimum: Seq<char>) -> bool {
    match (components(version), components(minimum)) {
        (Some(a), Some(b)) => not_older(a, b),
        _ => false,
    }
}

/// Takes the build suffix off a version.
fn strip_suffix(version: &Vec<char>) -> (r: Vec<char>)
    ensures
        r@ == without_suffix(version@),
{
    let mut out: Vec<char> = Vec::new();
    let mut open = true;
    let mut i: usize = 0;
    proof {
        assert(version@.take(0) =~= out@);
    }
    while i < version.len()
        invariant
            i <= version@.len(),
            out@ == without_suffix(version@.take(i as int)),
            open ==> out@ == version@.take(i as int),
            !open ==> out@.len() < i,
        decreases version@.len() - i,
    {
        proof {
            assert(version@.take(i + 1).drop_last() =~= version@.take(i as int));
            assert(version@.take(i as int).push(version@[i as int]) =~= version@.take(i + 1));
        }
        let c = version[i];
        if c == '-' || c == '+' {
            open = false;
        }
        if open {
            out.push(c);
        }
        i += 1;
    }
    proof {
        assert(version@.take(i as int) =~= version@);
    }
    out
}

/// Reads the numbers of a version.
pub fn read_version(version: &str) -> (r: Option<Vec<u32>>)
    ensures
        components(version@) == (match r {
            Some(numbers) => Some(numbers@),
            None => None,
        }),
{
    let parts = split_at_each(&strip_suffix(&chars_of(version)), '.');
    let ghost texts = split(without_suffix(version@), '.');
    let mut numbers: Vec<u32> = Vec::new();
    let mut i: usize = 0;
    while i < parts.len()
        invariant
            i <= parts@.len(),
            views(parts@) == texts,
            texts == split(without_suffix(version@), '.'),
            numbers@.len() == i,
            forall|k: int| 0 <= k < i ==> component(#[trigger] texts[k]) == Some(numbers@[k]),
        decreases parts@.len() - i,
    {
        proof {
            assert(texts[i as int] == parts@[i as int]@);
        }
        match read_number(&parts[i]) {
            Some(n) => {
                numbers.push(n);
            },
            None => {
                assert(component(texts[i as int]) is None);
                return None;
            },
        }
        i += 1;
    }
    proof {
        assert(numbers@ =~= Seq::new(texts.len(), |k: int| component(texts[k])->Some_0));
    }
    Some(numbers)
}

fn number_at(version: &Vec<u32>, i: usize) -> (r: u32)
    ensures
        r == component_at(version@, i as int),
{
    if i < version.len() {
        version[i]
    } else {
        0
    }
}

/// Compares the numbers of two versions.
fn compare_numbers(a: &Vec<u32>, b: &Vec<u32>) -> (r: bool)
    ensures
        r == not_older(a@, b@),
{
    let longest: usize = if a.len() < b.len() {
        b.len()
    } else {
        a.len()
    };
    let mut i: usize = 0;
    while i < longest
        invariant
            i <= longest,
            longest >= a@.len(),
            longest >= b@.len(),
            longest == a@.len() || longest == b@.len(),
            same_until(a@, b@, i as int),
        decreases longest - i,
    {
        let mine: u32 = number_at(a, i);
        let other: u32 = number_at(b, i);
        if mine > other {
            return true;
        }
        if mine < other {
            proof {
                assert(component_at(a@, i as int) != component_at(b@, i as int));
                assert(!(same_until(a@, b@, a@.len() as int) && same_until(
                    a@,
                    b@,
                    b@.len() as int,
                )));
                assert forall|k: int| k >= 0 && same_until(a@, b@, k) implies !(
                #[trigger] component_at(a@, k) > component_at(b@, k)) by {
                    if k > i {
                        assert(component_at(a@, i as int) == component_at(b@, i as int));
                    } else if k < i {
                        assert(component_at(a@, k) == component_at(b@, k));
                    }
                }
            }
            return false;
        }
        i += 1;
    }
    true
}

/// Tells whether a firmware version is not older than another. The numbers are
/// compared one by one; a build suffix does not count.
pub fn version_at_least(version: &str, minimum: &str) -> (r: bool)
    ensures
        r == at_least(version@, minimum@),
{
    match (read_version(version), read_version(minimum)) {
        (Some(a), Some(b)) => compare_numbers(&a, &b),
        _ => false,
    }
}

/// A version that can be read is not older than itself.
pub proof fn lemma_version_is_not_older_than_itself(version: Seq<char>)
    requires
        components(version) is Some,
    ensures
        at_least(version, version),
{
}

/// A version not older than one that is not older than a third is not older
/// than the third.
pub proof fn lemma_version_order_is_transitive(a: Seq<char>, b: Seq<char>, c: Seq<char>)
    requires
        at_least(a, b),
        at_least(b, c),
    ensures
        at_least(a, c),
{
    lemma_numbers_are_transitive(
        components(a)->Some_0,
        components(b)->Some_0,
        components(c)->Some_0,
    );
}

proof fn lemma_same_everywhere(a: Seq<u32>, b: Seq<u32>)
    requires
        same_until(a, b, a.len() as int),
        same_until(a, b, b.len() as int),
    ensures
        forall|n: int| same_until(a, b, n),
{
    assert forall|n: int| same_until(a, b, n) by {
        assert forall|i: int|
            #![trigger component_at(a, i)]
            #![trigger component_at(b, i)]
            0 <= i < n implies component_at(a, i) == component_at(b, i) by {}
    }
}

proof fn lemma_numbers_are_transitive(a: Seq<u32>, b: Seq<u32>, c: Seq<u32>)
    requires
        not_older(a, b),
        not_older(b, c),
    ensures
        not_older(a, c),
{
    let equal_ab = same_until(a, b, a.len() as int) && same_until(a, b, b.len() as int);
    let equal_bc = same_until(b, c, b.len() as int) && same_until(b, c, c.len() as int);
    if equal_ab {
        lemma_same_everywhere(a, b);
    }
    if equal_bc {
        lemma_same_everywhere(b, c);
    }
    if equal_ab && equal_bc {
        assert(same_until(a, b, c.len() as int) && same_until(b, c, a.len() as int));
        lemma_same_until_chains(a, b, c, a.len() as int);
        lemma_same_until_chains(a, b, c, c.len() as int);
    } else if equal_ab {
        let k = choose|k: int|
            k >= 0 && same_until(b, c, k) && #[trigger] component_at(b, k) > component_at(c, k);
        assert(same_until(a, b, k + 1));
        lemma_same_until_chains(a, b, c, k);
        assert(component_at(a, k) > component_at(c, k));
    } else {
        let j = choose|k: int|
            k >= 0 && same_until(a, b, k) && #[trigger] component_at(a, k) > component_at(b, k);
        if equal_bc {
            assert(same_until(b, c, j + 1));
            lemma_same_until_chains(a, b, c, j);
            assert(component_at(b, j) == component_at(c, j));
            assert(component_at(a, j) > component_at(c, j));
        } else {
            let k = choose|k: int|
                k >= 0 && same_until(b, c, k) && #[trigger] component_at(b, k) > component_at(
                    c,
                    k,
                );
            let first = if j < k {
                j
            } else {
                k
            };
            assert(component_at(a, first) >= component_at(b, first));
            assert(component_at(b, first) >= component_at(c, first));
            lemma_same_until_chains(a, b, c, first);
            assert(component_at(a, first) > component_at(c, first));
        }
    }
}

proof fn lemma_same_until_chains(a: Seq<u32>, b: Seq<u32>, c: Seq<u32>, n: int)
    requires
        same_until(a, b, n),
        same_until(b, c, n),
    ensures
        same_until(a, c, n),
{
    assert forall|i: int|
        #![trigger component_at(a, i)]
        #![trigger component_at(c, i)]
        0 <= i < n implies component_at(a, i) == component_at(c, i) by {
        assert(component_at(a, i) == component_at(b, i));
    }
}

/// Of two versions that can be read, one is not older than the other.
pub proof fn lemma_versions_can_be_compared(a: Seq<char>, b: Seq<char>)
    requires
        components(a) is Some,
        components(b) is Some,
    ensures
        at_least(a, b) || at_least(b, a),
{
    let x = components(a)->Some_0;
    let y = components(b)->Some_0;
    lemma_numbers_can_be_compared(x, y, 0);
}

proof fn lemma_numbers_can_be_compared(a: Seq<u32>, b: Seq<u32>, from: int)
    requires
        0 <= from,
        same_until(a, b, from),
    ensures
        not_older(a, b) || not_older(b, a),
    decreases a.len() + b.len() - from,
{
    assert(same_until(b, a, from));
    if from < a.len() || from < b.len() {
        if component_at(a, from) == component_at(b, from) {
            lemma_numbers_can_be_compared(a, b, from + 1);
        } else if component_at(a, from) > component_at(b, from) {
        } else {
            assert(component_at(b, from) > component_at(a, from));
        }
    }
}

/// A build suffix does not change how a version compares.
pub proof fn lemma_suffix_does_not_count(version: Seq<char>, suffix: Seq<char>)
    requires
        suffix.len() > 0,
        starts_suffix(suffix[0]),
    ensures
        components(version + suffix) == components(version),
{
    lemma_suffix_is_stripped(version, suffix);
}

proof fn lemma_without_suffix_is_shorter(version: Seq<char>)
    ensures
        without_suffix(version).len() <= version.len(),
    decreases version.len(),
{
    if version.len() > 0 {
        lemma_without_suffix_is_shorter(version.drop_last());
    }
}

proof fn lemma_suffix_is_stripped(version: Seq<char>, suffix: Seq<char>)
    requires
        suffix.len() > 0,
        starts_suffix(suffix[0]),
    ensures
        without_suffix(version + suffix) == without_suffix(version),
    decreases suffix.len(),
{
    assert((version + suffix).drop_last() =~= version + suffix.drop_last());
    assert((version + suffix).last() == suffix.last());
    lemma_without_suffix_is_shorter(version);
    if suffix.len() > 1 {
        lemma_suffix_is_stripped(version, suffix.drop_last());
    } else {
        assert(version + suffix.drop_last() =~= version);
    }
}

// ----------------------------------------------------------------------------
// What the names and versions mean
// ----------------------------------------------------------------------------
/// Each network has a name of its own.
pub proof fn lemma_networks_have_their_names(a: JadeNetwork, b: JadeNetwork)
    ensures
        a is Mainnet <==> network_name(a) == "mainnet"@,
        a is Testnet <==> network_name(a) == "testnet"@,
        a is Regtest <==> network_name(a) == "localtest"@,
        network_name(a) == network_name(b) ==> a == b,
{
    reveal_strlit("mainnet");
    reveal_strlit("testnet");
    reveal_strlit("localtest");
    assert("mainnet"@[0] == 'm' && "testnet"@[0] == 't' && "localtest"@[0] == 'l');
}

/// Each kind of address has a purpose and a descriptor of its own.
pub proof fn lemma_variants_have_their_names(a: JadeAddressVariant, b: JadeAddressVariant)
    ensures
        a is Pkh <==> purpose_of(a) == 44,
        a is ShWpkh <==> purpose_of(a) == 49,
        a is Wpkh <==> purpose_of(a) == 84,
        a is Tr <==> purpose_of(a) == 86,
        a is Pkh <==> descriptor_of(a) == "pkh(k)"@,
        a is ShWpkh <==> descriptor_of(a) == "sh(wpkh(k))"@,
        a is Wpkh <==> descriptor_of(a) == "wpkh(k)"@,
        a is Tr <==> descriptor_of(a) == "tr(k)"@,
        descriptor_of(a) == descriptor_of(b) ==> a == b,
{
    reveal_strlit("pkh(k)");
    reveal_strlit("sh(wpkh(k))");
    reveal_strlit("wpkh(k)");
    reveal_strlit("tr(k)");
    assert("pkh(k)"@[0] == 'p' && "sh(wpkh(k))"@[0] == 's' && "wpkh(k)"@[0] == 'w' && "tr(k)"@[0]
        == 't');
}

/// Each state goes by one name, every other name stands for a state that is not
/// known, and the same holds of the numbers of a status.
pub proof fn lemma_states_have_their_names(name: Seq<char>, n: u64)
    ensures
        state_named(name) is Uninit <==> name == "UNINIT"@,
        state_named(name) is Unsaved <==> name == "UNSAVED"@,
        state_named(name) is Locked <==> name == "LOCKED"@,
        state_named(name) is Ready <==> name == "READY"@,
        state_named(name) is Temp <==> name == "TEMP"@,
        ping_status(n) is Idle <==> n == 0,
        ping_status(n) is Busy <==> n == 1,
        ping_status(n) is AwaitingUserInput <==> n == 2,
        ping_status(n) is Unknown <==> n > 2,
{
    reveal_strlit("UNINIT");
    reveal_strlit("UNSAVED");
    reveal_strlit("LOCKED");
    reveal_strlit("READY");
    reveal_strlit("TEMP");
    assert("UNINIT"@.len() == 6 && "UNSAVED"@.len() == 7 && "LOCKED"@.len() == 6);
    assert("READY"@.len() == 5 && "TEMP"@.len() == 4);
    assert("UNINIT"@[0] == 'U' && "LOCKED"@[0] == 'L');
}

/// Whether a map says this about the device, member by member.
pub open spec fn describes(entries: Seq<(CborTree, CborTree)>, info: VersionInfoView) -> bool {
    &&& forall|i: int| 0 <= i < entries.len() ==> (#[trigger] entries[i]).0 is Text
    &&& holds(entries, "JADE_VERSION"@, CborTree::Text(info.jade_version))
    &&& exists|state: Seq<char>| #[trigger]
        holds(entries, "JADE_STATE"@, CborTree::Text(state)) && state_named(state)
            == info.jade_state
    &&& gives_text(entries, "JADE_NETWORKS"@, info.jade_networks)
    &&& gives_bool(entries, "JADE_HAS_PIN"@, info.jade_has_pin)
    &&& gives_text(entries, "BOARD_TYPE"@, info.board_type)
    &&& gives_count(entries, "BATTERY_STATUS"@, info.battery_status)
}

/// A map is read as version information exactly if it says just that, member by
/// member, and nothing else is.
pub proof fn lemma_version_information_is_what_was_sent(t: CborTree, info: VersionInfoView)
    ensures
        version_info_in(t) == Ok::<VersionInfoView, ErrorView>(info) <==> t is Pairs && describes(
            t->Pairs_0,
            info,
        ),
        version_info_in(t) matches Err(e) ==> e == ErrorView::ProtocolError(
            "version information is not readable"@,
        ),
{
    if let CborTree::Pairs(entries) = t {
        lemma_members_are_what_is_given(
            entries,
            "JADE_VERSION"@,
            Some(info.jade_version),
            None,
            None,
        );
        lemma_members_are_what_is_given(entries, "JADE_NETWORKS"@, info.jade_networks, None, None);
        lemma_members_are_what_is_given(entries, "JADE_HAS_PIN"@, None, info.jade_has_pin, None);
        lemma_members_are_what_is_given(entries, "BOARD_TYPE"@, info.board_type, None, None);
        lemma_members_are_what_is_given(
            entries,
            "BATTERY_STATUS"@,
            None,
            None,
            info.battery_status,
        );
        if let Some(Some(state)) = text_member(entries, "JADE_STATE"@) {
            lemma_members_are_what_is_given(entries, "JADE_STATE"@, Some(state), None, None);
            assert(holds(entries, "JADE_STATE"@, CborTree::Text(state)));
        }
        assert forall|state: Seq<char>| #[trigger]
            holds(entries, "JADE_STATE"@, CborTree::Text(state)) implies text_member(
            entries,
            "JADE_STATE"@,
        ) == Some(Some(state)) by {
            lemma_members_are_what_is_given(entries, "JADE_STATE"@, Some(state), None, None);
        }
        if describes(entries, info) {
            let state = choose|state: Seq<char>| #[trigger]
                holds(entries, "JADE_STATE"@, CborTree::Text(state)) && state_named(state)
                    == info.jade_state;
            assert(text_member(entries, "JADE_STATE"@) == Some(Some(state)));
        }
    }
}

/// The value of version information is what its fields hold.
pub proof fn lemma_version_information_shows_its_fields(info: JadeVersionInfo)
    ensures
        info@.jade_version == info.jade_version@,
        info@.jade_state == info.jade_state,
        info@.jade_has_pin == info.jade_has_pin,
        info@.battery_status == info.battery_status,
        info@.jade_networks is Some <==> info.jade_networks is Some,
        info.jade_networks matches Some(text) ==> info@.jade_networks == Some(text@),
        info@.board_type is Some <==> info.board_type is Some,
        info.board_type matches Some(text) ==> info@.board_type == Some(text@),
{
}

/// A version without its suffix is what stands ahead of the first hyphen or
/// plus sign.
pub proof fn lemma_the_suffix_starts_at_a_sign(version: Seq<char>)
    ensures
        ({
            let kept = without_suffix(version);
            &&& kept.len() <= version.len()
            &&& forall|i: int|
                0 <= i < kept.len() ==> kept[i] == version[i] && #[trigger] kept[i] != '-'
                    && kept[i] != '+'
            &&& kept.len() < version.len() ==> version[kept.len() as int] == '-'
                || version[kept.len() as int] == '+'
        }),
    decreases version.len(),
{
    if version.len() > 0 {
        let shorter = version.drop_last();
        lemma_the_suffix_starts_at_a_sign(shorter);
        let before = without_suffix(shorter);
        if before.len() == shorter.len() {
            assert(before =~= shorter);
            if !starts_suffix(version.last()) {
                assert forall|i: int| 0 <= i < version.len() implies #[trigger] version[i] != '-'
                    && version[i] != '+' by {
                    if i < shorter.len() {
                        assert(before[i] == version[i]);
                    }
                }
            }
        }
    }
}

/// A version has these numbers exactly if they are what stands between its
/// dots, suffix aside, one by one.
pub proof fn lemma_versions_are_their_numbers(version: Seq<char>, numbers: Seq<u32>)
    ensures
        components(version) == Some(numbers) <==> {
            let parts = split(without_suffix(version), '.');
            &&& numbers.len() == parts.len()
            &&& forall|i: int|
                0 <= i < parts.len() ==> number(#[trigger] parts[i]) == Some(numbers[i] as nat)
        },
{
    let parts = split(without_suffix(version), '.');
    if components(version) == Some(numbers) {
        assert forall|i: int| 0 <= i < parts.len() implies number(#[trigger] parts[i]) == Some(
            numbers[i] as nat,
        ) by {
            assert(component(parts[i]) is Some);
            assert(numbers[i] == component(parts[i])->Some_0);
        }
    }
    if numbers.len() == parts.len() && forall|i: int|
        0 <= i < parts.len() ==> number(#[trigger] parts[i]) == Some(numbers[i] as nat) {
        assert forall|i: int| 0 <= i < parts.len() implies component(#[trigger] parts[i])
            is Some by {}
        assert(components(version)->Some_0 =~= numbers);
    }
}

/// Some numbers as the text of a version, with dots between them.
pub open spec fn version_text(numbers: Seq<u32>) -> Seq<char> {
    joined(Seq::new(numbers.len(), |i: int| decimal(numbers[i] as nat)), '.')
}

proof fn lemma_joined_keeps_out(parts: Seq<Seq<char>>, separator: char, c: char)
    requires
        c != separator,
        forall|i: int| 0 <= i < parts.len() ==> !(#[trigger] parts[i]).contains(c),
    ensures
        !joined(parts, separator).contains(c),
    decreases parts.len(),
{
    if parts.len() > 1 {
        let before = parts.drop_last();
        assert forall|i: int| 0 <= i < before.len() implies !(#[trigger] before[i]).contains(c) by {
            assert(before[i] == parts[i]);
        }
        lemma_joined_keeps_out(before, separator, c);
        let head = joined(before, separator);
        assert(parts[parts.len() - 1] == parts.last());
        if joined(parts, separator).contains(c) {
            let k = joined(parts, separator).index_of(c);
            if k < head.len() {
                assert(head[k] == c);
                assert(head.contains(c));
            } else if k > head.len() {
                assert(parts.last()[k - head.len() - 1] == c);
                assert(parts.last().contains(c));
            }
        }
    } else if parts.len() == 0 {
        assert(joined(parts, separator) =~= Seq::empty());
    }
}

/// The numbers of a version can be read back from its text.
pub proof fn lemma_written_versions_are_read_back(numbers: Seq<u32>)
    requires
        numbers.len() > 0,
    ensures
        components(version_text(numbers)) == Some(numbers),
{
    let parts = Seq::new(numbers.len(), |i: int| decimal(numbers[i] as nat));
    let text = version_text(numbers);
    assert forall|i: int| 0 <= i < parts.len() implies !(#[trigger] parts[i]).contains('.')
        && !parts[i].contains('-') && !parts[i].contains('+') && number(parts[i]) == Some(
        numbers[i] as nat,
    ) by {
        lemma_numerals_read_back(numbers[i] as nat);
        assert forall|c: char| #[trigger] parts[i].contains(c) implies '0' <= c <= '9' by {
            let k = parts[i].index_of(c);
            assert('0' <= parts[i][k] <= '9');
        }
    }
    lemma_join_undoes_split(parts, '.');
    lemma_joined_keeps_out(parts, '.', '-');
    lemma_joined_keeps_out(parts, '.', '+');
    lemma_the_suffix_starts_at_a_sign(text);
    let kept = without_suffix(text);
    if kept.len() < text.len() {
        assert(text.contains(text[kept.len() as int]));
    }
    assert(kept =~= text);
    lemma_versions_are_their_numbers(text, numbers);
}

/// Versions are compared number by number: the first number decides unless it
/// is the same, then the rest does. A number that is missing counts as zero.
pub proof fn lemma_versions_compare_by_their_first_number(a: Seq<u32>, b: Seq<u32>)
    ensures
        a.len() == 0 && b.len() == 0 ==> not_older(a, b),
        a.len() > 0 && b.len() > 0 ==> (not_older(a, b) <==> a[0] > b[0] || (a[0] == b[0]
            && not_older(a.skip(1), b.skip(1)))),
        a.len() > 0 && b.len() == 0 ==> not_older(a, b),
        a.len() == 0 && b.len() > 0 ==> (not_older(a, b) <==> b[0] == 0 && not_older(a, b.skip(1))),
{
    if a.len() > 0 || b.len() > 0 {
        let x = component_at(a, 0);
        let y = component_at(b, 0);
        let p = if a.len() > 0 {
            a.skip(1)
        } else {
            a
        };
        let q = if b.len() > 0 {
            b.skip(1)
        } else {
            b
        };
        assert forall|i: int| i >= 0 implies #[trigger] component_at(p, i) == component_at(
            a,
            i + 1,
        ) by {}
        assert forall|i: int| i >= 0 implies #[trigger] component_at(q, i) == component_at(
            b,
            i + 1,
        ) by {}
        lemma_not_older_from(a, b, p, q);
        if b.len() == 0 {
            lemma_nothing_is_newer_than_zero(a, b, 0);
        }
    }
}

proof fn lemma_nothing_is_newer_than_zero(a: Seq<u32>, b: Seq<u32>, from: int)
    requires
        b.len() == 0,
        0 <= from,
        same_until(a, b, from),
    ensures
        not_older(a, b),
    decreases a.len() - from,
{
    if from < a.len() {
        if component_at(a, from) == 0 {
            assert(same_until(a, b, from + 1));
            lemma_nothing_is_newer_than_zero(a, b, from + 1);
        } else {
            assert(component_at(a, from) > component_at(b, from));
        }
    }
}

proof fn lemma_not_older_from(a: Seq<u32>, b: Seq<u32>, p: Seq<u32>, q: Seq<u32>)
    requires
        a.len() > 0 || b.len() > 0,
        p.len() == if a.len() > 0 {
            a.len() - 1
        } else {
            0
        },
        q.len() == if b.len() > 0 {
            b.len() - 1
        } else {
            0
        },
        forall|i: int| i >= 0 ==> #[trigger] component_at(p, i) == component_at(a, i + 1),
        forall|i: int| i >= 0 ==> #[trigger] component_at(q, i) == component_at(b, i + 1),
    ensures
        not_older(a, b) <==> component_at(a, 0) > component_at(b, 0) || (component_at(a, 0)
            == component_at(b, 0) && not_older(p, q)),
{
    let x = component_at(a, 0);
    let y = component_at(b, 0);
    if x == y {
        assert forall|n: int| n >= 0 implies (#[trigger] same_until(p, q, n) <==> same_until(
            a,
            b,
            n + 1,
        )) by {
            if same_until(p, q, n) {
                assert forall|i: int|
                    #![trigger component_at(a, i)]
                    #![trigger component_at(b, i)]
                    0 <= i < n + 1 implies component_at(a, i) == component_at(b, i) by {
                    if i > 0 {
                        assert(component_at(p, i - 1) == component_at(q, i - 1));
                    }
                }
            }
            if same_until(a, b, n + 1) {
                assert forall|i: int|
                    #![trigger component_at(p, i)]
                    #![trigger component_at(q, i)]
                    0 <= i < n implies component_at(p, i) == component_at(q, i) by {
                    assert(component_at(a, i + 1) == component_at(b, i + 1));
                }
            }
        }
        if not_older(p, q) {
            if same_until(p, q, p.len() as int) && same_until(p, q, q.len() as int) {
                assert(same_until(a, b, p.len() as int + 1) && same_until(a, b, q.len() as int + 1));
                assert(same_until(a, b, a.len() as int) && same_until(a, b, b.len() as int));
            } else {
                let k = choose|k: int|
                    k >= 0 && same_until(p, q, k) && #[trigger] component_at(p, k) > component_at(
                        q,
                        k,
                    );
                assert(same_until(a, b, k + 1));
                assert(component_at(a, k + 1) > component_at(b, k + 1));
            }
        }
        if not_older(a, b) {
            if same_until(a, b, a.len() as int) && same_until(a, b, b.len() as int) {
                lemma_same_everywhere(a, b);
                assert(same_until(a, b, p.len() as int + 1) && same_until(a, b, q.len() as int + 1));
                assert(same_until(p, q, p.len() as int) && same_until(p, q, q.len() as int));
            } else {
                let k = choose|k: int|
                    k >= 0 && same_until(a, b, k) && #[trigger] component_at(a, k) > component_at(
                        b,
                        k,
                    );
                assert(k > 0);
                assert(same_until(a, b, (k - 1) + 1));
                assert(same_until(p, q, k - 1));
                assert(component_at(p, k - 1) > component_at(q, k - 1));
            }
        }
    } else if x > y {
        assert(same_until(a, b, 0));
    } else {
        if not_older(a, b) {
            if same_until(a, b, a.len() as int) && same_until(a, b, b.len() as int) {
                lemma_same_everywhere(a, b);
                assert(same_until(a, b, 1));
            } else {
                let k = choose|k: int|
                    k >= 0 && same_until(a, b, k) && #[trigger] component_at(a, k) > component_at(
                        b,
                        k,
                    );
                if k > 0 {
                    assert(component_at(a, 0) == component_at(b, 0));
                }
            }
        }
    }
}

/// A firmware of three numbers is not older than another exactly if the first
/// number that differs is larger, or none differs, and any two versions compare
/// as their numbers do. A version that cannot be read is never new enough, nor is
/// any firmware for a minimum that cannot.
pub proof fn lemma_firmware_is_compared_number_by_number(
    a: (u32, u32, u32),
    b: (u32, u32, u32),
    unreadable: Seq<char>,
    other: Seq<char>,
)
    requires
        components(unreadable) is None,
    ensures
        at_least(version_text(seq![a.0, a.1, a.2]), version_text(seq![b.0, b.1, b.2])) <==> {
            ||| a.0 > b.0
            ||| a.0 == b.0 && a.1 > b.1
            ||| a.0 == b.0 && a.1 == b.1 && a.2 >= b.2
        },
        forall|x: Seq<char>, y: Seq<char>|
            components(x) is Some && components(y) is Some ==> (#[trigger] at_least(x, y)
                <==> not_older(components(x)->Some_0, components(y)->Some_0)),
        !at_least(unreadable, other),
        !at_least(other, unreadable),
{
    let x = seq![a.0, a.1, a.2];
    let y = seq![b.0, b.1, b.2];
    lemma_written_versions_are_read_back(x);
    lemma_written_versions_are_read_back(y);
    lemma_versions_compare_by_their_first_number(x, y);
    lemma_versions_compare_by_their_first_number(x.skip(1), y.skip(1));
    lemma_versions_compare_by_their_first_number(x.skip(1).skip(1), y.skip(1).skip(1));
    lemma_versions_compare_by_their_first_number(
        x.skip(1).skip(1).skip(1),
        y.skip(1).skip(1).skip(1),
    );
}

/// The kind of address that a number stands for, if it stands for one, and the
/// number that a kind stands for, undo each other.
pub proof fn lemma_purposes_stand_for_variants(purpose: u32, r: Option<JadeAddressVariant>)
    requires
        call_ensures(JadeAddressVariant::from_purpose, (purpose,), r),
    ensures
        r == Some(JadeAddressVariant::Pkh) <==> purpose == 44,
        r == Some(JadeAddressVariant::ShWpkh) <==> purpose == 49,
        r == Some(JadeAddressVariant::Wpkh) <==> purpose == 84,
        r == Some(JadeAddressVariant::Tr) <==> purpose == 86,
{
    lemma_variants_have_their_names(JadeAddressVariant::Pkh, JadeAddressVariant::Pkh);
    assert(purpose_of(JadeAddressVariant::ShWpkh) == 49);
    assert(purpose_of(JadeAddressVariant::Wpkh) == 84);
    assert(purpose_of(JadeAddressVariant::Tr) == 86);
}

/// The oldest firmware that is supported is 1.0.30, and 1.0.34 for taproot: a
/// firmware of three numbers is new enough exactly if they are not below those.
pub proof fn lemma_the_oldest_firmware(a: u32, b: u32, c: u32)
    ensures
        at_least(version_text(seq![a, b, c]), MIN_JADE_FIRMWARE@) <==> a > 1 || (a == 1 && (b > 0
            || c >= 30)),
        at_least(version_text(seq![a, b, c]), MIN_JADE_FIRMWARE_TAPROOT@) <==> a > 1 || (a == 1
            && (b > 0 || c >= 34)),
{
    reveal_strlit("1.0.30");
    reveal_strlit("1.0.34");
    lemma_version_text_of_three(1, 0, 30);
    lemma_version_text_of_three(1, 0, 34);
    reveal_with_fuel(decimal, 3);
    assert(version_text(seq![1u32, 0u32, 30u32]) =~= "1.0.30"@);
    assert(version_text(seq![1u32, 0u32, 34u32]) =~= "1.0.34"@);
    let empty = Seq::<char>::empty();
    assert(without_suffix(empty) =~= empty);
    assert(split(empty, '.')[0] =~= empty);
    assert(component(split(empty, '.')[0]) is None);
    assert(components(empty) is None);
    lemma_firmware_is_compared_number_by_number((a, b, c), (1, 0, 30), empty, empty);
    lemma_firmware_is_compared_number_by_number((a, b, c), (1, 0, 34), empty, empty);
}

proof fn lemma_version_text_of_three(a: u32, b: u32, c: u32)
    ensures
        version_text(seq![a, b, c]) == decimal(a as nat).push('.') + decimal(b as nat) + seq!['.']
            + decimal(c as nat),
{
    let numbers = seq![a, b, c];
    let parts = Seq::new(numbers.len(), |i: int| decimal(numbers[i] as nat));
    reveal_with_fuel(joined, 4);
    let two = parts.drop_last();
    let one = two.drop_last();
    assert(one[0] == decimal(a as nat));
    assert(two.last() == decimal(b as nat));
    assert(parts.last() == decimal(c as nat));
    assert(joined(one, '.') == decimal(a as nat));
    assert(joined(two, '.') == decimal(a as nat).push('.') + decimal(b as nat));
    assert(joined(parts, '.') =~= decimal(a as nat).push('.') + decimal(b as nat) + seq!['.']
        + decimal(c as nat));
}

} // verus!
