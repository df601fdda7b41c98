use vstd::prelude::*;

verus! {

/// The analysis windows that a spectral analyzer can apply to a frame.
#[derive(Clone, Copy, Debug, PartialEq, Eq, Structural)]
pub enum WindowKind {
    Rectangular,
    Bartlett,
    Hanning,
    Hamming,
    Blackman,
}

pub open spec fn window_of(index: u8) -> WindowKind {
    if index == 1 {
        WindowKind::Bartlett
    } else if index == 2 {
        WindowKind::Hanning
    } else if index == 3 {
        WindowKind::Hamming
    } else if index == 4 {
        WindowKind::Blackman
    } else {
        WindowKind::Rectangular
    }
}

/// The window selected by `index`: 1 Bartlett, 2 Hanning, 3 Hamming,
/// 4 Blackman, any other value rectangular.
pub fn get(index: u8) -> (r: WindowKind)
    ensures
        r == window_of(index),
{
    match index {
        1 => WindowKind::Bartlett,
        2 => WindowKind::Hanning,
        3 => WindowKind::Hamming,
        4 => WindowKind::Blackman,
        _ => WindowKind::Rectangular,
    }
}

} // verus!
