//! Everything that can go wrong, as the caller sees it.

use crate::rpc_code;
use vstd::prelude::*;

verus! {

/// Why an operation failed.
#[derive(Debug, PartialEq, Eq)]
pub enum JadeError {
    /// The link failed, or an earlier failure left it unusable.
    DeviceDisconnected,
    /// The user declined on the device, or the caller cancelled.
    UserCancelled,
    /// The deadline passed.
    Timeout,
    /// The device has to be unlocked first.
    DeviceLocked,
    /// The PIN entered on the device was wrong.
    InvalidPin,
    /// The device returned a transaction without adding a signature.
    NothingSigned,
    /// The request is for another network than the device is set to.
    NetworkMismatch { error_details: String },
    /// The firmware is older than the operation needs.
    UnsupportedFirmware { required: String },
    /// The bytes exchanged do not follow the protocol.
    ProtocolError { error_details: String },
    /// The device reported an error of another kind.
    DeviceError { code: i64, message: String },
    /// The pinserver could not be reached or gave no usable answer.
    PinServerError { error_details: String },
    /// The derivation path is not acceptable.
    InvalidPath { error_details: String },
    /// The partially signed transaction is not acceptable.
    InvalidPsbt { error_details: String },
    /// The transaction is for the keys of another device.
    FingerprintMismatch { device: String, psbt: String },
}

/// A [`JadeError`] with its texts as sequences of characters.
pub enum ErrorView {
    DeviceDisconnected,
    UserCancelled,
    Timeout,
    DeviceLocked,
    InvalidPin,
    NothingSigned,
    NetworkMismatch(Seq<char>),
    UnsupportedFirmware(Seq<char>),
    ProtocolError(Seq<char>),
    DeviceError(i64, Seq<char>),
    PinServerError(Seq<char>),
    InvalidPath(Seq<char>),
    InvalidPsbt(Seq<char>),
    FingerprintMismatch(Seq<char>, Seq<char>),
}

impl View for JadeError {
    type V = ErrorView;

    open spec fn view(&self) -> ErrorView {
        match *self {
            JadeError::DeviceDisconnected => ErrorView::DeviceDisconnected,
            JadeError::UserCancelled => ErrorView::UserCancelled,
            JadeError::Timeout => ErrorView::Timeout,
            JadeError::DeviceLocked => ErrorView::DeviceLocked,
            JadeError::InvalidPin => ErrorView::InvalidPin,
            JadeError::NothingSigned => ErrorView::NothingSigned,
            JadeError::NetworkMismatch { error_details } => ErrorView::NetworkMismatch(
                error_details@,
            ),
            JadeError::UnsupportedFirmware { required } => ErrorView::UnsupportedFirmware(
                required@,
            ),
            JadeError::ProtocolError { error_details } => ErrorView::ProtocolError(error_details@),
            JadeError::DeviceError { code, message } => ErrorView::DeviceError(code, message@),
            JadeError::PinServerError { error_details } => ErrorView::PinServerError(
                error_details@,
            ),
            JadeError::InvalidPath { error_details } => ErrorView::InvalidPath(error_details@),
            JadeError::InvalidPsbt { error_details } => ErrorView::InvalidPsbt(error_details@),
            JadeError::FingerprintMismatch { device, psbt } => ErrorView::FingerprintMismatch(
                device@,
                psbt@,
            ),
        }
    }
}

/// A result with its value and its error replaced by their views.
pub open spec fn viewed<T: View>(r: Result<T, JadeError>) -> Result<T::V, ErrorView> {
    match r {
        Ok(v) => Ok(v@),
        Err(e) => Err(e@),
    }
}

/// The error that stands for an RPC error code.
///
/// A device that does not know a method reports its age rather than a mistake
/// of the host, so that code names the firmware that is needed.
pub open spec fn rpc_error(code: i64, message: Seq<char>, min_firmware: Seq<char>) -> ErrorView {
    if code == rpc_code::USER_CANCELLED {
        ErrorView::UserCancelled
    } else if code == rpc_code::HW_LOCKED {
        ErrorView::DeviceLocked
    } else if code == rpc_code::NETWORK_MISMATCH {
        ErrorView::NetworkMismatch(message)
    } else if code == rpc_code::UNKNOWN_METHOD {
        ErrorView::UnsupportedFirmware(min_firmware)
    } else if code == rpc_code::INVALID_REQUEST || code == rpc_code::PROTOCOL_ERROR {
        ErrorView::ProtocolError(message)
    } else {
        ErrorView::DeviceError(code, message)
    }
}

impl JadeError {
    /// An error about bytes that do not follow the protocol.
    pub fn protocol(details: String) -> (r: JadeError)
        ensures
            r@ == ErrorView::ProtocolError(details@),
    {
        JadeError::ProtocolError { error_details: details }
    }

    /// Turns an RPC error of the device into the error the caller sees.
    pub fn from_rpc(code: i64, message: String, min_firmware: &str) -> (r: JadeError)
        ensures
            r@ == rpc_error(code, message@, min_firmware@),
    {
        if code == rpc_code::USER_CANCELLED {
            JadeError::UserCancelled
        } else if code == rpc_code::HW_LOCKED {
            JadeError::DeviceLocked
        } else if code == rpc_code::NETWORK_MISMATCH {
            JadeError::NetworkMismatch { error_details: message }
        } else if code == rpc_code::UNKNOWN_METHOD {
            JadeError::UnsupportedFirmware { required: min_firmware.to_owned() }
        } else if code == rpc_code::INVALID_REQUEST || code == rpc_code::PROTOCOL_ERROR {
            JadeError::ProtocolError { error_details: message }
        } else {
            JadeError::DeviceError { code, message }
        }
    }
}

// ----------------------------------------------------------------------------
// Laws
// ----------------------------------------------------------------------------
/// Each code of the device has one meaning: what the user declined, a device
/// that is locked, a network that does not match, a method that the firmware
/// does not know, and bytes that it could not follow. Any other code is passed
/// on as it is, with its message.
pub proof fn lemma_codes_have_their_meaning(
    code: i64,
    message: Seq<char>,
    min_firmware: Seq<char>,
)
    ensures
        ({
            let error = rpc_error(code, message, min_firmware);
            &&& error is UserCancelled <==> code == -32000
            &&& error is DeviceLocked <==> code == -32002
            &&& error == ErrorView::NetworkMismatch(message) <==> code == -32003
            &&& error == ErrorView::UnsupportedFirmware(min_firmware) <==> code == -32601
            &&& error == ErrorView::ProtocolError(message) <==> code == -32600 || code == -32001
            &&& error == ErrorView::DeviceError(code, message) <==> !(code == -32000 || code
                == -32002 || code == -32003 || code == -32601 || code == -32600 || code == -32001)
        }),
{
}

/// Seen from outside, an error keeps its kind and its texts, and an outcome is
/// a success exactly if it was one.
pub proof fn lemma_errors_keep_what_they_say(
    text: String,
    other: String,
    code: i64,
    outcome: Result<(), JadeError>,
)
    ensures
        JadeError::DeviceDisconnected@ is DeviceDisconnected,
        JadeError::UserCancelled@ is UserCancelled,
        JadeError::Timeout@ is Timeout,
        JadeError::DeviceLocked@ is DeviceLocked,
        JadeError::InvalidPin@ is InvalidPin,
        JadeError::NothingSigned@ is NothingSigned,
        (JadeError::NetworkMismatch { error_details: text })@ == ErrorView::NetworkMismatch(text@),
        (JadeError::UnsupportedFirmware { required: text })@ == ErrorView::UnsupportedFirmware(
            text@,
        ),
        (JadeError::ProtocolError { error_details: text })@ == ErrorView::ProtocolError(text@),
        (JadeError::DeviceError { code, message: text })@ == ErrorView::DeviceError(code, text@),
        (JadeError::PinServerError { error_details: text })@ == ErrorView::PinServerError(text@),
        (JadeError::InvalidPath { error_details: text })@ == ErrorView::InvalidPath(text@),
        (JadeError::InvalidPsbt { error_details: text })@ == ErrorView::InvalidPsbt(text@),
        (JadeError::FingerprintMismatch { device: text, psbt: other })@
            == ErrorView::FingerprintMismatch(text@, other@),
        viewed(outcome) is Ok <==> outcome is Ok,
        outcome matches Err(e) ==> viewed(outcome) == Err::<(), ErrorView>(e@),
{
}

} // verus!
