//! Element types of stored tensors.

use vstd::prelude::*;

verus! {

/// How the elements of a tensor are stored.
#[derive(Debug, Clone, Copy, PartialEq, Eq, Hash, Structural)]
pub enum DType {
    /// 32-bit IEEE 754 floating point (4 bytes per element).
    FP32,
    /// 16-bit IEEE 754 floating point (2 bytes per element).
    FP16,
    /// 8-bit block quantization: 32 values per block, one byte each, and a 16-bit scale.
    Q8_0,
    /// 4-bit block quantization: 32 values per block, half a byte each, and a 16-bit scale.
    Q4_0,
}

/// Values per quantization block.
pub const BLOCK_SIZE: usize = 32;

/// The number of blocks of 32 that hold `n` values.
pub open spec fn block_count(n: nat) -> nat {
    (n + 31) / 32
}

impl DType {
    /// The code by which a file names this type.
    pub open spec fn code(self) -> u32 {
        match self {
            DType::FP32 => 0,
            DType::FP16 => 1,
            DType::Q8_0 => 2,
            DType::Q4_0 => 3,
        }
    }

    /// The type that a code names, if it names one.
    pub open spec fn of_code(v: u32) -> Option<DType> {
        if v == 0 {
            Some(DType::FP32)
        } else if v == 1 {
            Some(DType::FP16)
        } else if v == 2 {
            Some(DType::Q8_0)
        } else if v == 3 {
            Some(DType::Q4_0)
        } else {
            None
        }
    }

    /// Whether values are stored in blocks with a common scale.
    pub open spec fn quantized(self) -> bool {
        self == DType::Q8_0 || self == DType::Q4_0
    }

    /// Bytes per quantization block; 0 for the plain types.
    pub open spec fn block_len(self) -> nat {
        match self {
            DType::Q8_0 => 34,
            DType::Q4_0 => 18,
            _ => 0,
        }
    }

    /// Bytes that `n` values take.
    pub open spec fn stored_len(self, n: nat) -> nat {
        match self {
            DType::FP32 => n * 4,
            DType::FP16 => n * 2,
            _ => block_count(n) * self.block_len(),
        }
    }

    /// The name of the type in messages and on the command line.
    pub open spec fn label(self) -> Seq<char> {
        match self {
            DType::FP32 => "FP32"@,
            DType::FP16 => "FP16"@,
            DType::Q8_0 => "Q8_0"@,
            DType::Q4_0 => "Q4_0"@,
        }
    }

    /// The type with the code `v`, if there is one.
    pub fn from_u32(v: u32) -> (r: Option<DType>)
        ensures
            r == DType::of_code(v),
    {
        match v {
            0 => Some(DType::FP32),
            1 => Some(DType::FP16),
            2 => Some(DType::Q8_0),
            3 => Some(DType::Q4_0),
            _ => None,
        }
    }

    /// The code of this type.
    pub fn to_u32(self) -> (v: u32)
        ensures
            v == self.code(),
    {
        match self {
            DType::FP32 => 0,
            DType::FP16 => 1,
            DType::Q8_0 => 2,
            DType::Q4_0 => 3,
        }
    }

    /// Bytes per element of a plain type; 0 for the quantized types, whose unit is the block.
    pub fn element_size(self) -> (r: usize)
        ensures
            r == match self {
                DType::FP32 => 4usize,
                DType::FP16 => 2usize,
                _ => 0usize,
            },
    {
        match self {
            DType::FP32 => 4,
            DType::FP16 => 2,
            DType::Q8_0 | DType::Q4_0 => 0,
        }
    }

    /// Values per quantization block; 1 for the plain types.
    pub fn block_size(self) -> (r: usize)
        ensures
            r == if self.quantized() {
                32usize
            } else {
                1usize
            },
    {
        match self {
            DType::Q8_0 | DType::Q4_0 => BLOCK_SIZE,
            _ => 1,
        }
    }

    /// Bytes per quantization block: the scale and the packed values.
    pub fn block_bytes(self) -> (r: usize)
        ensures
            r == self.block_len(),
    {
        match self {
            DType::Q8_0 => 34,
            DType::Q4_0 => 18,
            _ => 0,
        }
    }

    /// Bytes that `n_elems` values take.
    pub fn data_bytes(self, n_elems: usize) -> (r: usize)
        requires
            self.stored_len(n_elems as nat) <= usize::MAX,
        ensures
            r == self.stored_len(n_elems as nat),
    {
        match self {
            DType::FP32 => n_elems * 4,
            DType::FP16 => n_elems * 2,
            DType::Q8_0 => blocks_for(n_elems) * 34,
            DType::Q4_0 => blocks_for(n_elems) * 18,
        }
    }

    /// Bytes that `n_elems` values take, or `None` where that number is too large.
    pub fn checked_data_bytes(self, n_elems: usize) -> (r: Option<usize>)
        ensures
            r == if self.stored_len(n_elems as nat) <= usize::MAX {
                Some(self.stored_len(n_elems as nat) as usize)
            } else {
                None
            },
    {
        match self {
            DType::FP32 => n_elems.checked_mul(4),
            DType::FP16 => n_elems.checked_mul(2),
            DType::Q8_0 => blocks_for(n_elems).checked_mul(34),
            DType::Q4_0 => blocks_for(n_elems).checked_mul(18),
        }
    }

    /// The name of the type.
    pub fn name(self) -> (r: &'static str)
        ensures
            r@ == self.label(),
    {
        match self {
            DType::FP32 => "FP32",
            DType::FP16 => "FP16",
            DType::Q8_0 => "Q8_0",
            DType::Q4_0 => "Q4_0",
        }
    }
}

/// The number of blocks of 32 that hold `n` values.
pub fn blocks_for(n: usize) -> (r: usize)
    ensures
        r == block_count(n as nat),
{
    let whole: usize = n / BLOCK_SIZE;
    if n % BLOCK_SIZE == 0 {
        whole
    } else {
        whole + 1
    }
}

/// Every type is found again by its code, and no other code names it.
pub proof fn law_code_names_one_type(t: DType, v: u32)
    ensures
        DType::of_code(t.code()) == Some(t),
        DType::of_code(v) == Some(t) <==> v == t.code(),
{
}

/// What quantization saves: whole blocks of 4-bit values take 9/64 of the bytes of 32-bit values, whole
/// blocks of 8-bit values take 17/64, and 16-bit values take half.
pub proof fn law_quantized_sizes(n: nat)
    requires
        n % 32 == 0,
    ensures
        64 * DType::Q4_0.stored_len(n) == 9 * DType::FP32.stored_len(n),
        64 * DType::Q8_0.stored_len(n) == 17 * DType::FP32.stored_len(n),
        2 * DType::FP16.stored_len(n) == DType::FP32.stored_len(n),
{
}

} // verus!
