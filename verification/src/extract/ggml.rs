//! Element types of GGUF tensors.

use candle_core::quantized::GgmlDType;
use vstd::prelude::*;

verus! {

/// The element types a GGUF tensor can have.
#[derive(Clone, Copy, Debug, PartialEq, Eq, Structural)]
pub enum TensorType {
    F32,
    F16,
    BF16,
    Q4_0,
    Q4_1,
    Q5_0,
    Q5_1,
    Q8_0,
    Q8_1,
    Q2K,
    Q3K,
    Q4K,
    Q5K,
    Q6K,
    Q8K,
}

impl TensorType {
    /// Elements per block: 1 for plain floats, 32 for the legacy quantizations,
    /// 256 for the K-quantizations.
    pub open spec fn block_elems(self) -> usize {
        match self {
            TensorType::F32 | TensorType::F16 | TensorType::BF16 => 1,
            TensorType::Q2K | TensorType::Q3K | TensorType::Q4K | TensorType::Q5K
            | TensorType::Q6K | TensorType::Q8K => 256,
            _ => 32,
        }
    }

    /// Bytes per block.
    pub open spec fn block_bytes(self) -> usize {
        match self {
            TensorType::F32 => 4,
            TensorType::F16 => 2,
            TensorType::BF16 => 2,
            TensorType::Q4_0 => 18,
            TensorType::Q4_1 => 20,
            TensorType::Q5_0 => 22,
            TensorType::Q5_1 => 24,
            TensorType::Q8_0 => 34,
            TensorType::Q8_1 => 36,
            TensorType::Q2K => 84,
            TensorType::Q3K => 110,
            TensorType::Q4K => 144,
            TensorType::Q5K => 176,
            TensorType::Q6K => 210,
            TensorType::Q8K => 292,
        }
    }

    /// The name of the type.
    pub open spec fn spec_name(self) -> Seq<char> {
        match self {
            TensorType::F32 => "F32"@,
            TensorType::F16 => "F16"@,
            TensorType::BF16 => "BF16"@,
            TensorType::Q4_0 => "Q4_0"@,
            TensorType::Q4_1 => "Q4_1"@,
            TensorType::Q5_0 => "Q5_0"@,
            TensorType::Q5_1 => "Q5_1"@,
            TensorType::Q8_0 => "Q8_0"@,
            TensorType::Q8_1 => "Q8_1"@,
            TensorType::Q2K => "Q2K"@,
            TensorType::Q3K => "Q3K"@,
            TensorType::Q4K => "Q4K"@,
            TensorType::Q5K => "Q5K"@,
            TensorType::Q6K => "Q6K"@,
            TensorType::Q8K => "Q8K"@,
        }
    }

    /// The name of the type, as it stands in a manifest.
    pub fn name(self) -> (t: &'static str)
        ensures
            t@ == self.spec_name(),
    {
        match self {
            TensorType::F32 => "F32",
            TensorType::F16 => "F16",
            TensorType::BF16 => "BF16",
            TensorType::Q4_0 => "Q4_0",
            TensorType::Q4_1 => "Q4_1",
            TensorType::Q5_0 => "Q5_0",
            TensorType::Q5_1 => "Q5_1",
            TensorType::Q8_0 => "Q8_0",
            TensorType::Q8_1 => "Q8_1",
            TensorType::Q2K => "Q2K",
            TensorType::Q3K => "Q3K",
            TensorType::Q4K => "Q4K",
            TensorType::Q5K => "Q5K",
            TensorType::Q6K => "Q6K",
            TensorType::Q8K => "Q8K",
        }
    }

    /// Trusted: `candle_core::quantized::GgmlDType::block_size` returns the
    /// number of elements in one block of the type.
    #[verifier::external_body]
    pub(crate) fn block_size(self) -> (n: usize)
        ensures
            n == self.block_elems(),
    {
        let t = match self {
            TensorType::F32 => GgmlDType::F32, TensorType::F16 => GgmlDType::F16,
            TensorType::BF16 => GgmlDType::BF16, TensorType::Q4_0 => GgmlDType::Q4_0,
            TensorType::Q4_1 => GgmlDType::Q4_1, TensorType::Q5_0 => GgmlDType::Q5_0,
            TensorType::Q5_1 => GgmlDType::Q5_1, TensorType::Q8_0 => GgmlDType::Q8_0,
            TensorType::Q8_1 => GgmlDType::Q8_1, TensorType::Q2K => GgmlDType::Q2K,
            TensorType::Q3K => GgmlDType::Q3K, TensorType::Q4K => GgmlDType::Q4K,
            TensorType::Q5K => GgmlDType::Q5K, TensorType::Q6K => GgmlDType::Q6K,
            TensorType::Q8K => GgmlDType::Q8K,
        };
        t.block_size()
    }

    /// Trusted: `candle_core::quantized::GgmlDType::type_size` returns the
    /// number of bytes of one block of the type.
    #[verifier::external_body]
    pub(crate) fn type_size(self) -> (n: usize)
        ensures
            n == self.block_bytes(),
    {
        let t = match self {
            TensorType::F32 => GgmlDType::F32, TensorType::F16 => GgmlDType::F16,
            TensorType::BF16 => GgmlDType::BF16, TensorType::Q4_0 => GgmlDType::Q4_0,
            TensorType::Q4_1 => GgmlDType::Q4_1, TensorType::Q5_0 => GgmlDType::Q5_0,
            TensorType::Q5_1 => GgmlDType::Q5_1, TensorType::Q8_0 => GgmlDType::Q8_0,
            TensorType::Q8_1 => GgmlDType::Q8_1, TensorType::Q2K => GgmlDType::Q2K,
            TensorType::Q3K => GgmlDType::Q3K, TensorType::Q4K => GgmlDType::Q4K,
            TensorType::Q5K => GgmlDType::Q5K, TensorType::Q6K => GgmlDType::Q6K,
            TensorType::Q8K => GgmlDType::Q8K,
        };
        t.type_size()
    }
}

/// Every type has a name of its own, by which it can be told from the others.
pub proof fn law_names_distinct(a: TensorType, b: TensorType)
    requires
        a != b,
    ensures
        a.spec_name() != b.spec_name(),
{
    law_type_name(a);
    law_type_name(b);
}

/// A K-quantized type is called by `Q`, its bits and `K`; a legacy one by `Q`,
/// its bits, `_` and its variant; a float by `F` or `BF` and its bits.
pub proof fn law_type_name(t: TensorType)
    ensures
        t.spec_name() == match t {
            TensorType::F32 => seq!['F', '3', '2'],
            TensorType::F16 => seq!['F', '1', '6'],
            TensorType::BF16 => seq!['B', 'F', '1', '6'],
            TensorType::Q4_0 => seq!['Q', '4', '_', '0'],
            TensorType::Q4_1 => seq!['Q', '4', '_', '1'],
            TensorType::Q5_0 => seq!['Q', '5', '_', '0'],
            TensorType::Q5_1 => seq!['Q', '5', '_', '1'],
            TensorType::Q8_0 => seq!['Q', '8', '_', '0'],
            TensorType::Q8_1 => seq!['Q', '8', '_', '1'],
            TensorType::Q2K => seq!['Q', '2', 'K'],
            TensorType::Q3K => seq!['Q', '3', 'K'],
            TensorType::Q4K => seq!['Q', '4', 'K'],
            TensorType::Q5K => seq!['Q', '5', 'K'],
            TensorType::Q6K => seq!['Q', '6', 'K'],
            TensorType::Q8K => seq!['Q', '8', 'K'],
        },
        t.spec_name().len() == 3 || t.spec_name().len() == 4,
{
    reveal_strlit("F32");
    reveal_strlit("F16");
    reveal_strlit("BF16");
    reveal_strlit("Q4_0");
    reveal_strlit("Q4_1");
    reveal_strlit("Q5_0");
    reveal_strlit("Q5_1");
    reveal_strlit("Q8_0");
    reveal_strlit("Q8_1");
    reveal_strlit("Q2K");
    reveal_strlit("Q3K");
    reveal_strlit("Q4K");
    reveal_strlit("Q5K");
    reveal_strlit("Q6K");
    reveal_strlit("Q8K");
    let s = t.spec_name();
    match t {
        TensorType::F32 => assert(s =~= seq!['F', '3', '2']),
        TensorType::F16 => assert(s =~= seq!['F', '1', '6']),
        TensorType::BF16 => assert(s =~= seq!['B', 'F', '1', '6']),
        TensorType::Q4_0 => assert(s =~= seq!['Q', '4', '_', '0']),
        TensorType::Q4_1 => assert(s =~= seq!['Q', '4', '_', '1']),
        TensorType::Q5_0 => assert(s =~= seq!['Q', '5', '_', '0']),
        TensorType::Q5_1 => assert(s =~= seq!['Q', '5', '_', '1']),
        TensorType::Q8_0 => assert(s =~= seq!['Q', '8', '_', '0']),
        TensorType::Q8_1 => assert(s =~= seq!['Q', '8', '_', '1']),
        TensorType::Q2K => assert(s =~= seq!['Q', '2', 'K']),
        TensorType::Q3K => assert(s =~= seq!['Q', '3', 'K']),
        TensorType::Q4K => assert(s =~= seq!['Q', '4', 'K']),
        TensorType::Q5K => assert(s =~= seq!['Q', '5', 'K']),
        TensorType::Q6K => assert(s =~= seq!['Q', '6', 'K']),
        TensorType::Q8K => assert(s =~= seq!['Q', '8', 'K']),
    }
}

} // verus!
