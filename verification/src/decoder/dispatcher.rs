//! From the bytes of a frame to its image.

use vstd::prelude::*;
use crate::common::domain::{CrfHeader, ImageData};
use crate::common::error::CrfResult;
use crate::decoder::reconstruct;
use crate::decoder::reconstruct::reconstruct_frame;

verus! {

/// Decodes a frame, its header and its code, in the way that its type and the file ask for.
pub fn dispatch_frame(data: &[u8], header: &CrfHeader) -> (r: CrfResult<ImageData>)
    requires
        reconstruct::sizes_ok(header),
    ensures
        reconstruct::agrees_image(
            r,
            reconstruct::frame_result(data@, reconstruct::setting_of(header)),
            header,
        ),
{
    reconstruct_frame(data, header)
}

} // verus!
