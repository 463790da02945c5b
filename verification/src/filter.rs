//! Resampling filter tags and the choice of resampling algorithm.

use vstd::prelude::*;

verus! {

/// The closed set of resampling filters a container may record.
#[derive(Debug, Clone, Copy, PartialEq, Eq, Structural)]
pub enum FilterType {
    /// Nearest neighbor
    Nearest,
    /// Linear filter
    Triangle,
    /// Cubic filter
    CatmullRom,
    /// Gaussian filter
    Gaussian,
    /// Lanczos with window 3
    Lanczos3,
}

/// The byte that stands for a filter in the container header; `0` is reserved
/// for "no filter recorded".
pub open spec fn spec_filter_to_u8(value: FilterType) -> u8 {
    match value {
        FilterType::Nearest => 1,
        FilterType::Triangle => 2,
        FilterType::CatmullRom => 3,
        FilterType::Gaussian => 4,
        FilterType::Lanczos3 => 5,
    }
}

/// The filter a header byte stands for; bytes outside `1 ..= 5` fall back to
/// the default filter, so that decoders tolerate tags added later.
pub open spec fn spec_u8_to_filter(value: u8) -> FilterType {
    if value == 1 {
        FilterType::Nearest
    } else if value == 2 {
        FilterType::Triangle
    } else if value == 3 {
        FilterType::CatmullRom
    } else if value == 4 {
        FilterType::Gaussian
    } else if value == 5 {
        FilterType::Lanczos3
    } else {
        FilterType::Nearest
    }
}

pub fn filter_to_u8(value: FilterType) -> (r: u8)
    ensures
        r == spec_filter_to_u8(value),
{
    match value {
        FilterType::Nearest => 1,
        FilterType::Triangle => 2,
        FilterType::CatmullRom => 3,
        FilterType::Gaussian => 4,
        FilterType::Lanczos3 => 5,
    }
}

pub fn u8_to_filter(value: u8) -> (r: FilterType)
    ensures
        r == spec_u8_to_filter(value),
{
    match value {
        1 => FilterType::Nearest,
        2 => FilterType::Triangle,
        3 => FilterType::CatmullRom,
        4 => FilterType::Gaussian,
        5 => FilterType::Lanczos3,
        _ => FilterType::Nearest,
    }
}

/// The filter byte of a container: `0` when no filter was recorded.
pub open spec fn spec_filter_byte(filter: Option<FilterType>) -> u8 {
    match filter {
        Option::None => 0,
        Option::Some(f) => spec_filter_to_u8(f),
    }
}

/// Writing a filter tag and reading it back gives the tag again.
pub proof fn lemma_filter_tag_roundtrip(f: FilterType)
    ensures
        spec_u8_to_filter(spec_filter_to_u8(f)) == f,
{
}

/// A filter kernel of the fast resampling backend.  `Triangle` maps to a
/// different kernel depending on the direction of the resize, so this set is
/// wider than [`FilterType`].
#[derive(Debug, Clone, Copy, PartialEq, Eq, Structural)]
pub enum ResampleKind {
    Bilinear,
    Hamming,
    CatmullRom,
    Gaussian,
    Lanczos3,
}

/// The algorithm family the fast resampling backend is asked for: plain
/// nearest-neighbor, supersampling with a multiplicity (upscale), or a direct
/// convolution kernel (downscale).
#[derive(Debug, Clone, Copy, PartialEq, Eq, Structural)]
pub enum ResizeStrategy {
    Nearest,
    SuperSampling(ResampleKind, u8),
    Convolution(ResampleKind),
}

/// The algorithm family for a filter and a resize direction: a pure function
/// of `(filter, upscale)`, never of image content.
pub open spec fn spec_resizing_algorithm(
    filter: FilterType,
    upscale: bool,
    multiplicity: u8,
) -> ResizeStrategy {
    match filter {
        FilterType::Nearest => ResizeStrategy::Nearest,
        FilterType::Triangle => if upscale {
            ResizeStrategy::SuperSampling(ResampleKind::Bilinear, multiplicity)
        } else {
            ResizeStrategy::Convolution(ResampleKind::Hamming)
        },
        FilterType::CatmullRom => if upscale {
            ResizeStrategy::SuperSampling(ResampleKind::CatmullRom, multiplicity)
        } else {
            ResizeStrategy::Convolution(ResampleKind::CatmullRom)
        },
        FilterType::Gaussian => if upscale {
            ResizeStrategy::SuperSampling(ResampleKind::Gaussian, multiplicity)
        } else {
            ResizeStrategy::Convolution(ResampleKind::Gaussian)
        },
        FilterType::Lanczos3 => if upscale {
            ResizeStrategy::SuperSampling(ResampleKind::Lanczos3, multiplicity)
        } else {
            ResizeStrategy::Convolution(ResampleKind::Lanczos3)
        },
    }
}

impl FilterType {
    /// Picks the fast backend's algorithm family for this filter: a
    /// supersampling strategy when upscaling, a convolution kernel when
    /// downscaling, nearest-neighbor regardless of direction.
    pub fn to_fir_resizing_algorithm(self, upscale: bool, multiplicity: u8) -> (r: ResizeStrategy)
        ensures
            r == spec_resizing_algorithm(self, upscale, multiplicity),
    {
        match self {
            FilterType::Nearest => ResizeStrategy::Nearest,
            FilterType::Triangle => if upscale {
                ResizeStrategy::SuperSampling(ResampleKind::Bilinear, multiplicity)
            } else {
                ResizeStrategy::Convolution(ResampleKind::Hamming)
            },
            FilterType::CatmullRom => if upscale {
                ResizeStrategy::SuperSampling(ResampleKind::CatmullRom, multiplicity)
            } else {
                ResizeStrategy::Convolution(ResampleKind::CatmullRom)
            },
            FilterType::Gaussian => if upscale {
                ResizeStrategy::SuperSampling(ResampleKind::Gaussian, multiplicity)
            } else {
                ResizeStrategy::Convolution(ResampleKind::Gaussian)
            },
            FilterType::Lanczos3 => if upscale {
                ResizeStrategy::SuperSampling(ResampleKind::Lanczos3, multiplicity)
            } else {
                ResizeStrategy::Convolution(ResampleKind::Lanczos3)
            },
        }
    }
}

} // verus!
