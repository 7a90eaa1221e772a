//! Which device the encoder runs on.

use vstd::prelude::*;

use crate::semantic::encoder::{canonical_devices, device_step};
use crate::semantic::error::SemanticError;

verus! {

/// The canonical devices are the processors of the CPU provider, each counted once.
pub proof fn law_canonical_devices_are_counted(devices: Seq<(Seq<char>, bool)>)
    ensures
        canonical_devices(devices) == devices.filter(
            |device: (Seq<char>, bool)| device.0 == "CPUExecutionProvider"@ && device.1,
        ).len(),
    decreases devices.len(),
{
    reveal(Seq::filter);
    if devices.len() > 0 {
        law_canonical_devices_are_counted(devices.drop_last());
    }
}

/// A processor of the CPU provider is selected, a second one is refused, and any
/// other device is passed over.
pub proof fn law_devices_are_selected_once(
    selected: Option<usize>,
    index: usize,
    provider: Seq<char>,
    processor: bool,
)
    ensures
        ({
            let step = device_step(selected, index, (provider, processor));
            if provider != "CPUExecutionProvider"@ || !processor {
                step == Ok::<Option<usize>, SemanticError>(selected)
            } else if selected is Some {
                step is Err
            } else {
                step == Ok::<Option<usize>, SemanticError>(Some(index))
            }
        }),
{
}

} // verus!
