//! Conversions from small integers.
use vstd::prelude::*;
use crate::r32_t::r32;
use crate::encoding::lemma_whole_fits;
use vstd::std_specs::convert::FromSpecImpl;

verus! {

/// The magnitude of a signed integer that `From` stores as the numerator.
pub open spec fn magnitude(v: int) -> u32 {
    (if v < 0 { -v } else { v }) as u32
}

impl From<u8> for r32 {
    #[inline]
    fn from(v: u8) -> r32 {
        r32(v as u32)
    }
}

impl FromSpecImpl<u8> for r32 {
    open spec fn obeys_from_spec() -> bool {
        true
    }

    open spec fn from_spec(v: u8) -> r32 {
        r32(v as u32)
    }
}

impl From<i8> for r32 {
    fn from(v: i8) -> r32 {
        let n: u32 = if v == i8::MIN {
            128
        } else if v < 0 {
            (-v) as u32
        } else {
            v as u32
        };
        proof {
            lemma_whole_fits(n);
        }
        r32::from_parts(v < 0, n, 1)
    }
}

impl FromSpecImpl<i8> for r32 {
    open spec fn obeys_from_spec() -> bool {
        true
    }

    open spec fn from_spec(v: i8) -> r32 {
        r32::from_parts_spec(v < 0, magnitude(v as int), 1)
    }
}

impl From<u16> for r32 {
    #[inline]
    fn from(v: u16) -> r32 {
        r32(v as u32)
    }
}

impl FromSpecImpl<u16> for r32 {
    open spec fn obeys_from_spec() -> bool {
        true
    }

    open spec fn from_spec(v: u16) -> r32 {
        r32(v as u32)
    }
}

impl From<i16> for r32 {
    fn from(v: i16) -> r32 {
        let n: u32 = if v == i16::MIN {
            32768
        } else if v < 0 {
            (-v) as u32
        } else {
            v as u32
        };
        proof {
            lemma_whole_fits(n);
        }
        r32::from_parts(v < 0, n, 1)
    }
}

impl FromSpecImpl<i16> for r32 {
    open spec fn obeys_from_spec() -> bool {
        true
    }

    open spec fn from_spec(v: i16) -> r32 {
        r32::from_parts_spec(v < 0, magnitude(v as int), 1)
    }
}

} // verus!
