//! Events delivered to the host callback.

use vstd::prelude::*;

verus! {

/// Kinds of event passed to the host callback.
#[derive(Clone, Copy, Debug, PartialEq, Eq, Structural)]
pub enum ClaideEventType {
    Wakeup,
    Title,
    Bell,
    ChildExit,
    DirectoryChange,
    Progress,
}

impl ClaideEventType {
    pub open spec fn spec_code(self) -> u32 {
        match self {
            ClaideEventType::Wakeup => 0,
            ClaideEventType::Title => 1,
            ClaideEventType::Bell => 2,
            ClaideEventType::ChildExit => 3,
            ClaideEventType::DirectoryChange => 4,
            ClaideEventType::Progress => 5,
        }
    }

    /// The event's number in the callback.
    pub fn code(&self) -> (r: u32)
        ensures
            r == self.spec_code(),
    {
        match self {
            ClaideEventType::Wakeup => 0,
            ClaideEventType::Title => 1,
            ClaideEventType::Bell => 2,
            ClaideEventType::ChildExit => 3,
            ClaideEventType::DirectoryChange => 4,
            ClaideEventType::Progress => 5,
        }
    }
}

/// The integer of a progress event: the state in the second byte, the low
/// byte of the progress in the first (-1, no progress, gives 0xFF).
pub fn progress_event_value(state: u8, progress: i32) -> (r: i32)
    ensures
        r == state * 256 + (progress & 0xff),
        0 <= progress & 0xff <= 0xff,
{
    let low = progress & 0xff;
    assert(0 <= low <= 0xff) by (bit_vector)
        requires
            low == progress & 0xff,
    ;
    let s = state as i32;
    let high = s << 8;
    assert(high == s * 256) by (bit_vector)
        requires
            high == s << 8,
            0 <= s <= 255,
    ;
    let r = high | low;
    assert(r == high + low) by (bit_vector)
        requires
            r == high | low,
            high == s * 256,
            0 <= s <= 255,
            0 <= low <= 0xff,
    ;
    r
}

} // verus!
