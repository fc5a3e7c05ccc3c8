//! Serial links.

use crate::text::starts_with;
use vstd::prelude::*;

verus! {

/// Tells whether the modem lines of a device node have to be cleared once it is
/// open.
///
/// The lines drive the reset and boot pins of the device. On a `/dev/tty` node
/// the kernel asserts them on open, which reboots the device, so they are
/// cleared. Everywhere else, and on the macOS call-out node `/dev/cu.*` above
/// all, clearing them would stop the device answering until it is power cycled.
pub fn clears_modem_lines(path: &str) -> (r: bool)
    ensures
        r == "/dev/tty"@.is_prefix_of(path@),
{
    starts_with(path, "/dev/tty")
}

/// The lines are cleared exactly on nodes whose path starts with "/dev/tty",
/// character by character.
pub proof fn lemma_lines_are_cleared_on_tty_nodes(path: &str, cleared: bool)
    requires
        call_ensures(clears_modem_lines, (path,), cleared),
    ensures
        cleared <==> path@.len() >= 8 && path@.take(8) == seq![
            '/',
            'd',
            'e',
            'v',
            '/',
            't',
            't',
            'y',
        ],
{
    reveal_strlit("/dev/tty");
    assert("/dev/tty"@ =~= seq!['/', 'd', 'e', 'v', '/', 't', 't', 'y']);
    if path@.len() >= 8 {
        assert(path@.take(8) =~= path@.subrange(0, 8));
    }
}

} // verus!
