//! The device files of /dev: which devices the system offers, their names,
//! and how they answer an I/O control command.
use vstd::prelude::*;

verus! {

/// A device file of /dev.
#[derive(Clone, Copy, Debug, PartialEq, Eq, Structural)]
pub enum DeviceKind {
    /// `/dev/disp`: text mode on the frame buffer.
    Display,
    /// `/dev/fb0`: raw frame buffer access.
    FrameBuffer,
    /// `/dev/tty0`: the UART port.
    Teletype,
    /// `/dev/null`: the null descriptor.
    Null,
}

/// The name of a device file.
pub open spec fn device_name(kind: DeviceKind) -> Seq<char> {
    match kind {
        DeviceKind::Display => "disp"@,
        DeviceKind::FrameBuffer => "fb0"@,
        DeviceKind::Teletype => "tty0"@,
        DeviceKind::Null => "null"@,
    }
}

/// The device files the system offers: the graphics devices only where the
/// graphics driver is loaded, then the UART port and the null device.
pub open spec fn device_list(graphics_loaded: bool) -> Seq<DeviceKind> {
    if graphics_loaded {
        seq![DeviceKind::Display, DeviceKind::FrameBuffer, DeviceKind::Teletype, DeviceKind::Null]
    } else {
        seq![DeviceKind::Teletype, DeviceKind::Null]
    }
}

impl DeviceKind {
    /// The name of the device file.
    pub fn name(&self) -> (r: &'static str)
        ensures
            r@ == device_name(*self),
    {
        match self {
            DeviceKind::Display => "disp",
            DeviceKind::FrameBuffer => "fb0",
            DeviceKind::Teletype => "tty0",
            DeviceKind::Null => "null",
        }
    }

    /// How the device answers an I/O control command: the frame buffer
    /// hands it to the graphics driver (`None`), every other device answers
    /// `usize::MAX`.
    pub fn ioctl_answer(&self) -> (r: Option<usize>)
        ensures
            r == (if *self == DeviceKind::FrameBuffer {
                None::<usize>
            } else {
                Some(usize::MAX)
            }),
    {
        match self {
            DeviceKind::FrameBuffer => None,
            _ => Some(usize::MAX),
        }
    }
}

/// Return all available device files for the system, given whether the
/// graphics driver is loaded.
pub fn get_device_files(graphics_loaded: bool) -> (r: Vec<DeviceKind>)
    ensures
        r@ == device_list(graphics_loaded),
{
    let mut result: Vec<DeviceKind> = Vec::new();

    // Only add graphics devices if the graphics driver is loaded
    if graphics_loaded {
        result.push(DeviceKind::Display);
        result.push(DeviceKind::FrameBuffer);
    }
    result.push(DeviceKind::Teletype);
    result.push(DeviceKind::Null);
    proof {
        if graphics_loaded {
            assert(result@ =~= seq![DeviceKind::Display, DeviceKind::FrameBuffer, DeviceKind::Teletype, DeviceKind::Null]);
        } else {
            assert(result@ =~= seq![DeviceKind::Teletype, DeviceKind::Null]);
        }
    }
    result
}

} // verus!
