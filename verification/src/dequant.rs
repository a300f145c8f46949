//! Decoding of block-quantized expert weights.
//!
//! The bytes on disk are in GGML block layout. A decoded weight is kept as the
//! integers it is made of; the floating-point value is the product that its
//! type's documentation gives.
//!
//! ## Q4_0 — 18 bytes per 32-element block
//!   `[d: f16_le (2B)] [qs: 16 × u8]` — each byte packs **two** 4-bit values
//!   (low nibble first, then high nibble). The weight is `(nibble - 8) * d`.
//!
//! ## Q8_0 — 34 bytes per 32-element block
//!   `[qs: 32 × i8] [d: f16_le (2B)]` — the scale comes **after** the quantized
//!   values. The weight is `qs[i] * d`.
//!
//! ## Q4_K — 144 bytes per 256-element super-block
//!   `[d: f16_le] [dmin: f16_le] [scales: 12 × u8] [qs: 128 × u8]` — sixteen
//!   sub-blocks of 16 elements; two sub-blocks share a scale byte (low six bits,
//!   then high two bits). The weight is `(nibble - 8) * (d * scale + dmin)`.

use crate::text::{chars_of, same_text};
use vstd::prelude::*;

verus! {

/// Number of elements per quantized block for Q4_0 and Q8_0.
pub const BLCK_SIZE: usize = 32;

/// Super-block size for K-quants.
pub const QK_K: usize = 256;

/// Number of scale bytes per super-block.
pub const K_SCALE_SIZE: usize = 12;

/// Bytes per Q4_0 block.
pub const Q4_0_BYTES: usize = 18;

/// Bytes per Q8_0 block.
pub const Q8_0_BYTES: usize = 34;

/// Bytes per Q4_K super-block.
pub const Q4_K_BYTES: usize = 144;

/// A weight `q * d`, with the scale `d` as the bits of an f16.
#[derive(Clone, Copy, Debug, PartialEq, Eq, Structural)]
pub struct Scaled {
    pub d: u16,
    pub q: i8,
}

/// A weight `q * (d * scale + dmin)`, with `d` and `dmin` as the bits of f16s.
#[derive(Clone, Copy, Debug, PartialEq, Eq, Structural)]
pub struct ScaledK {
    pub d: u16,
    pub dmin: u16,
    pub scale: u8,
    pub q: i8,
}

// ── Bytes ────────────────────────────────────────────────────────────────────

/// The little-endian number in two bytes.
pub open spec fn le16(data: Seq<u8>, at: int) -> u16 {
    (data[at] + data[at + 1] * 256) as u16
}

/// The little-endian number in four bytes.
pub open spec fn le32(data: Seq<u8>, at: int) -> u32 {
    (data[at] + data[at + 1] * 256 + data[at + 2] * 65536 + data[at + 3] * 16777216) as u32
}

/// A byte read as a two's complement number.
pub open spec fn signed(b: u8) -> i8 {
    (if b < 128 {
        b as int
    } else {
        b - 256
    }) as i8
}

/// The `j`-th 4-bit value of packed bytes: low half first.
pub open spec fn nibble(data: Seq<u8>, at: int, j: int) -> int {
    let b = data[at + j / 2] as int;
    if j % 2 == 0 {
        b % 16
    } else {
        b / 16
    }
}

fn read_le16(data: &[u8], at: usize) -> (v: u16)
    requires
        at + 1 < data@.len(),
    ensures
        v == le16(data@, at as int),
{
    data[at] as u16 + data[at + 1] as u16 * 256
}

fn read_le32(data: &[u8], at: usize) -> (v: u32)
    requires
        at + 3 < data@.len(),
    ensures
        v == le32(data@, at as int),
{
    data[at] as u32 + data[at + 1] as u32 * 256 + data[at + 2] as u32 * 65536 + data[at + 3] as u32
        * 16777216
}

fn read_nibble(data: &[u8], at: usize, j: usize) -> (v: u8)
    requires
        at + j / 2 < data@.len(),
    ensures
        v == nibble(data@, at as int, j as int),
        v < 16,
{
    assert(data.len() == data@.len());
    let b: u8 = data[at + j / 2];
    assert(b & 0x0F == b % 16) by (bit_vector);
    assert(b >> 4 == b / 16) by (bit_vector);
    if j % 2 == 0 {
        b & 0x0F
    } else {
        b >> 4
    }
}

fn read_signed(data: &[u8], at: usize) -> (v: i8)
    requires
        at < data@.len(),
    ensures
        v == signed(data@[at as int]),
{
    let b: u8 = data[at];
    if b < 128 {
        b as i8
    } else {
        (b as i16 - 256) as i8
    }
}

// ── Q4_0 ─────────────────────────────────────────────────────────────────────

/// Element `k` of a Q4_0 matrix, counted row by row.
pub open spec fn q4_0_weight(data: Seq<u8>, k: int) -> Scaled {
    let block = k / 32 * 18;
    Scaled { d: le16(data, block), q: (nibble(data, block + 2, k % 32) - 8) as i8 }
}

/// Decode a Q4_0 weight matrix of `rows × cols` elements, row-major.
pub fn dequant_q4_0(data: &[u8], rows: usize, cols: usize) -> (out: Vec<Scaled>)
    requires
        cols % BLCK_SIZE == 0,
        data@.len() == rows * (cols / BLCK_SIZE) * Q4_0_BYTES,
        rows * cols <= usize::MAX,
    ensures
        out@ == Seq::new((rows * cols) as nat, |k: int| q4_0_weight(data@, k)),
{
    let ghost n = rows * (cols / BLCK_SIZE);
    let len: usize = data.len();
    let mut out: Vec<Scaled> = Vec::new();
    let mut at: usize = 0;
    let ghost mut block: int = 0;
    while at < len
        invariant
            len == data@.len(),
            len == n * 18,
            at == block * 18,
            0 <= block <= n,
            out@.len() == block * 32,
            forall|k: int| 0 <= k < out@.len() ==> #[trigger] out@[k] == q4_0_weight(data@, k),
        decreases len - at,
    {
        let d = read_le16(data, at);
        let mut j: usize = 0;
        while j < 32
            invariant
                len == data@.len(),
                at == block * 18,
                0 <= block,
                at + 18 <= len,
                d == le16(data@, at as int),
                j <= 32,
                out@.len() == block * 32 + j,
                forall|k: int| 0 <= k < out@.len() ==> #[trigger] out@[k] == q4_0_weight(data@, k),
            decreases 32 - j,
        {
            let v = read_nibble(data, at + 2, j);
            let w = Scaled { d, q: v as i8 - 8 };
            assert(w == q4_0_weight(data@, block * 32 + j)) by {
                assert((block * 32 + j) / 32 == block);
                assert((block * 32 + j) % 32 == j);
            }
            out.push(w);
            j = j + 1;
        }
        at = at + 18;
        proof {
            block = block + 1;
        }
    }
    proof {
        assert(n * 32 == rows * cols) by (nonlinear_arith)
            requires
                n == rows * (cols / 32),
                cols % 32 == 0,
        ;
        assert(out@ =~= Seq::new((rows * cols) as nat, |k: int| q4_0_weight(data@, k)));
    }
    out
}

// ── Q8_0 ─────────────────────────────────────────────────────────────────────

/// Element `k` of a Q8_0 matrix, counted row by row.
pub open spec fn q8_0_weight(data: Seq<u8>, k: int) -> Scaled {
    let block = k / 32 * 34;
    Scaled { d: le16(data, block + 32), q: signed(data[block + k % 32]) }
}

/// Decode a Q8_0 weight matrix of `rows × cols` elements, row-major.
pub fn dequant_q8_0(data: &[u8], rows: usize, cols: usize) -> (out: Vec<Scaled>)
    requires
        cols % BLCK_SIZE == 0,
        data@.len() == rows * (cols / BLCK_SIZE) * Q8_0_BYTES,
        rows * cols <= usize::MAX,
    ensures
        out@ == Seq::new((rows * cols) as nat, |k: int| q8_0_weight(data@, k)),
{
    let ghost n = rows * (cols / BLCK_SIZE);
    let len: usize = data.len();
    let mut out: Vec<Scaled> = Vec::new();
    let mut at: usize = 0;
    let ghost mut block: int = 0;
    while at < len
        invariant
            len == data@.len(),
            len == n * 34,
            at == block * 34,
            0 <= block <= n,
            out@.len() == block * 32,
            forall|k: int| 0 <= k < out@.len() ==> #[trigger] out@[k] == q8_0_weight(data@, k),
        decreases len - at,
    {
        let d = read_le16(data, at + 32);
        let mut j: usize = 0;
        while j < 32
            invariant
                len == data@.len(),
                at == block * 34,
                0 <= block,
                at + 34 <= len,
                d == le16(data@, at + 32),
                j <= 32,
                out@.len() == block * 32 + j,
                forall|k: int| 0 <= k < out@.len() ==> #[trigger] out@[k] == q8_0_weight(data@, k),
            decreases 32 - j,
        {
            let w = Scaled { d, q: read_signed(data, at + j) };
            assert(w == q8_0_weight(data@, block * 32 + j)) by {
                assert((block * 32 + j) / 32 == block);
                assert((block * 32 + j) % 32 == j);
            }
            out.push(w);
            j = j + 1;
        }
        at = at + 34;
        proof {
            block = block + 1;
        }
    }
    proof {
        assert(n * 32 == rows * cols) by (nonlinear_arith)
            requires
                n == rows * (cols / 32),
                cols % 32 == 0,
        ;
        assert(out@ =~= Seq::new((rows * cols) as nat, |k: int| q8_0_weight(data@, k)));
    }
    out
}

// ── Q4_K ─────────────────────────────────────────────────────────────────────

/// Element `k` of a Q4_K matrix, counted row by row.
pub open spec fn q4_k_weight(data: Seq<u8>, k: int) -> ScaledK {
    let block = k / 256 * 144;
    let sub = k % 256 / 16;
    let packed = data[block + 4 + sub / 2] as int;
    ScaledK {
        d: le16(data, block),
        dmin: le16(data, block + 2),
        scale: (if sub % 2 == 0 {
            packed % 64
        } else {
            packed / 64
        }) as u8,
        q: (nibble(data, block + 16 + sub * 8, k % 16) - 8) as i8,
    }
}

/// Decode a Q4_K weight matrix of `rows × cols` elements, row-major.
pub fn dequant_q4_k(data: &[u8], rows: usize, cols: usize) -> (out: Vec<ScaledK>)
    requires
        cols % QK_K == 0,
        data@.len() == rows * (cols / QK_K) * Q4_K_BYTES,
        rows * cols <= usize::MAX,
    ensures
        out@ == Seq::new((rows * cols) as nat, |k: int| q4_k_weight(data@, k)),
{
    let ghost n = rows * (cols / QK_K);
    let len: usize = data.len();
    let mut out: Vec<ScaledK> = Vec::new();
    let mut at: usize = 0;
    let ghost mut block: int = 0;
    while at < len
        invariant
            len == data@.len(),
            len == n * 144,
            at == block * 144,
            0 <= block <= n,
            out@.len() == block * 256,
            forall|k: int| 0 <= k < out@.len() ==> #[trigger] out@[k] == q4_k_weight(data@, k),
        decreases len - at,
    {
        let d = read_le16(data, at);
        let dmin = read_le16(data, at + 2);
        let mut j: usize = 0;
        while j < 256
            invariant
                len == data@.len(),
                at == block * 144,
                0 <= block,
                at + 144 <= len,
                d == le16(data@, at as int),
                dmin == le16(data@, at + 2),
                j <= 256,
                out@.len() == block * 256 + j,
                forall|k: int| 0 <= k < out@.len() ==> #[trigger] out@[k] == q4_k_weight(data@, k),
            decreases 256 - j,
        {
            let sub: usize = j / 16;
            let packed: u8 = data[at + 4 + sub / 2];
            assert(packed & 0x3F == packed % 64) by (bit_vector);
            assert(packed >> 6 == packed / 64) by (bit_vector);
            let scale: u8 = if sub % 2 == 0 {
                packed & 0x3F
            } else {
                packed >> 6
            };
            let v = read_nibble(data, at + 16 + sub * 8, j % 16);
            let w = ScaledK { d, dmin, scale, q: v as i8 - 8 };
            assert(w == q4_k_weight(data@, block * 256 + j)) by {
                assert((block * 256 + j) / 256 == block);
                assert((block * 256 + j) % 256 == j);
                assert((block * 256 + j) % 16 == j % 16);
            }
            out.push(w);
            j = j + 1;
        }
        at = at + 144;
        proof {
            block = block + 1;
        }
    }
    proof {
        assert(n * 256 == rows * cols) by (nonlinear_arith)
            requires
                n == rows * (cols / 256),
                cols % 256 == 0,
        ;
        assert(out@ =~= Seq::new((rows * cols) as nat, |k: int| q4_k_weight(data@, k)));
    }
    out
}

// ── F32 ──────────────────────────────────────────────────────────────────────

/// Read the bits of `rows × cols` f32 values, row-major.
fn read_f32_bits(data: &[u8], rows: usize, cols: usize) -> (out: Vec<u32>)
    requires
        data@.len() == rows * cols * 4,
    ensures
        out@ == Seq::new((rows * cols) as nat, |k: int| le32(data@, k * 4)),
{
    let ghost n = rows * cols;
    let len: usize = data.len();
    let mut out: Vec<u32> = Vec::new();
    let mut at: usize = 0;
    while at < len
        invariant
            len == data@.len(),
            len == n * 4,
            at == out@.len() * 4,
            at <= len,
            forall|k: int| 0 <= k < out@.len() ==> #[trigger] out@[k] == le32(data@, k * 4),
        decreases len - at,
    {
        out.push(read_le32(data, at));
        at = at + 4;
    }
    assert(out@ =~= Seq::new((rows * cols) as nat, |k: int| le32(data@, k * 4)));
    out
}

// ── Element types of expert weights ──────────────────────────────────────────

/// How the weights of an expert are stored.
#[allow(non_camel_case_types)]
#[derive(Clone, Copy, Debug, PartialEq, Eq, Structural)]
pub enum ExpertDtype {
    F32,
    Q4_0,
    Q4_K,
    Q8_0,
}

/// A decoded weight matrix, row-major.
pub enum Weights {
    /// The bits of the f32 values.
    F32(Vec<u32>),
    Scaled(Vec<Scaled>),
    ScaledK(Vec<ScaledK>),
}

/// The mathematical counterpart of [`Weights`].
pub enum WeightsView {
    F32(Seq<u32>),
    Scaled(Seq<Scaled>),
    ScaledK(Seq<ScaledK>),
}

impl View for Weights {
    type V = WeightsView;

    open spec fn view(&self) -> WeightsView {
        match self {
            Weights::F32(v) => WeightsView::F32(v@),
            Weights::Scaled(v) => WeightsView::Scaled(v@),
            Weights::ScaledK(v) => WeightsView::ScaledK(v@),
        }
    }
}

/// A letter in upper case, if it is an ASCII letter.
pub open spec fn upper_char(c: char) -> char {
    if 'a' <= c && c <= 'z' {
        (c as int - 32) as char
    } else {
        c
    }
}

/// The ASCII letters of `s` in upper case.
pub open spec fn upper(s: Seq<char>) -> Seq<char> {
    s.map_values(|c: char| upper_char(c))
}

fn to_upper(s: &str) -> (v: Vec<char>)
    ensures
        v@ == upper(s@),
{
    let chars = chars_of(s);
    let mut v: Vec<char> = Vec::new();
    let mut i: usize = 0;
    while i < chars.len()
        invariant
            chars@ == s@,
            i <= chars.len(),
            v@.len() == i,
            forall|k: int| 0 <= k < i ==> #[trigger] v@[k] == upper_char(s@[k]),
        decreases chars.len() - i,
    {
        let c: char = chars[i];
        if 'a' <= c && c <= 'z' {
            v.push((c as u8 - 32) as char);
        } else {
            v.push(c);
        }
        i = i + 1;
    }
    assert(v@ =~= upper(s@));
    v
}

impl ExpertDtype {
    /// The type that a manifest's dtype string stands for, in any letter case:
    /// `Q4_0`, `Q8_0`, or `Q4_K`, `Q4_K_M`, `Q4_K_S`; anything else is `F32`.
    pub open spec fn named(s: Seq<char>) -> ExpertDtype {
        let u = upper(s);
        if u == "Q4_0"@ {
            ExpertDtype::Q4_0
        } else if u == "Q4_K"@ || u == "Q4_K_M"@ || u == "Q4_K_S"@ {
            ExpertDtype::Q4_K
        } else if u == "Q8_0"@ {
            ExpertDtype::Q8_0
        } else {
            ExpertDtype::F32
        }
    }

    /// The bytes of a `rows × cols` matrix. A row takes whole blocks only.
    pub open spec fn proj_bytes(self, rows: int, cols: int) -> int {
        match self {
            ExpertDtype::F32 => rows * cols * 4,
            ExpertDtype::Q4_0 => rows * (cols / 32) * 18,
            ExpertDtype::Q4_K => rows * (cols / 256) * 144,
            ExpertDtype::Q8_0 => rows * (cols / 32) * 34,
        }
    }

    /// The bytes of an expert's three matrices.
    pub open spec fn expert_bytes(self, d_ff: int, d_model: int) -> int {
        2 * self.proj_bytes(d_ff, d_model) + self.proj_bytes(d_model, d_ff)
    }

    /// The number of columns is a whole number of blocks.
    pub open spec fn whole_blocks(self, cols: int) -> bool {
        match self {
            ExpertDtype::F32 => true,
            ExpertDtype::Q4_0 | ExpertDtype::Q8_0 => cols % 32 == 0,
            ExpertDtype::Q4_K => cols % 256 == 0,
        }
    }

    /// The decoded weights of a `rows × cols` matrix.
    pub open spec fn weights(self, data: Seq<u8>, rows: int, cols: int) -> WeightsView {
        let n = (rows * cols) as nat;
        match self {
            ExpertDtype::F32 => WeightsView::F32(Seq::new(n, |k: int| le32(data, k * 4))),
            ExpertDtype::Q4_0 => WeightsView::Scaled(Seq::new(n, |k: int| q4_0_weight(data, k))),
            ExpertDtype::Q4_K => WeightsView::ScaledK(Seq::new(n, |k: int| q4_k_weight(data, k))),
            ExpertDtype::Q8_0 => WeightsView::Scaled(Seq::new(n, |k: int| q8_0_weight(data, k))),
        }
    }

    pub fn from_manifest_str(s: &str) -> (t: Self)
        ensures
            t == ExpertDtype::named(s@),
    {
        let u = to_upper(s);
        let u = u.as_slice();
        if same_text(u, "Q4_0") {
            ExpertDtype::Q4_0
        } else if same_text(u, "Q4_K") || same_text(u, "Q4_K_M") || same_text(u, "Q4_K_S") {
            ExpertDtype::Q4_K
        } else if same_text(u, "Q8_0") {
            ExpertDtype::Q8_0
        } else {
            ExpertDtype::F32
        }
    }

    /// Expected on-disk bytes for an expert with the given dimensions.
    pub fn expert_byte_size(&self, d_ff: usize, d_model: usize) -> (n: usize)
        requires
            self.expert_bytes(d_ff as int, d_model as int) <= usize::MAX,
        ensures
            n == self.expert_bytes(d_ff as int, d_model as int),
    {
        proof {
            self.lemma_proj_bytes(d_ff, d_model);
            self.lemma_proj_bytes(d_model, d_ff);
        }
        let gate_up = 2 * self.proj_byte_size(d_ff, d_model);
        let down = self.proj_byte_size(d_model, d_ff);
        gate_up + down
    }

    pub fn proj_byte_size(&self, rows: usize, cols: usize) -> (n: usize)
        requires
            self.proj_bytes(rows as int, cols as int) <= usize::MAX,
        ensures
            n == self.proj_bytes(rows as int, cols as int),
    {
        proof {
            self.lemma_proj_bytes(rows, cols);
        }
        match self {
            ExpertDtype::F32 => rows * cols * 4,
            ExpertDtype::Q4_0 => rows * (cols / BLCK_SIZE) * Q4_0_BYTES,
            ExpertDtype::Q4_K => rows * (cols / QK_K) * Q4_K_BYTES,
            ExpertDtype::Q8_0 => rows * (cols / BLCK_SIZE) * Q8_0_BYTES,
        }
    }

    /// The bytes of a matrix, unless their number overflows.
    fn checked_proj_size(&self, rows: usize, cols: usize) -> (n: Option<usize>)
        ensures
            n == if self.proj_bytes(rows as int, cols as int) <= usize::MAX {
                Some(self.proj_bytes(rows as int, cols as int) as usize)
            } else {
                None
            },
    {
        proof {
            self.lemma_proj_bytes(rows, cols);
        }
        let (per_row, bytes): (usize, usize) = match self {
            ExpertDtype::F32 => (cols, 4),
            ExpertDtype::Q4_0 => (cols / BLCK_SIZE, Q4_0_BYTES),
            ExpertDtype::Q4_K => (cols / QK_K, Q4_K_BYTES),
            ExpertDtype::Q8_0 => (cols / BLCK_SIZE, Q8_0_BYTES),
        };
        match rows.checked_mul(per_row) {
            Some(blocks) => blocks.checked_mul(bytes),
            None => None,
        }
    }

    /// The bytes of an expert, unless their number overflows.
    pub fn checked_expert_size(&self, d_ff: usize, d_model: usize) -> (n: Option<usize>)
        ensures
            n == if self.expert_bytes(d_ff as int, d_model as int) <= usize::MAX {
                Some(self.expert_bytes(d_ff as int, d_model as int) as usize)
            } else {
                None
            },
    {
        proof {
            self.lemma_proj_bytes(d_ff, d_model);
            self.lemma_proj_bytes(d_model, d_ff);
        }
        match (self.checked_proj_size(d_ff, d_model), self.checked_proj_size(d_model, d_ff)) {
            (Some(gate), Some(down)) => match gate.checked_mul(2) {
                Some(gate_up) => gate_up.checked_add(down),
                None => None,
            },
            _ => None,
        }
    }

    /// Whether the number of columns is a whole number of blocks.
    pub fn takes_whole_blocks(&self, cols: usize) -> (b: bool)
        ensures
            b == self.whole_blocks(cols as int),
    {
        match self {
            ExpertDtype::F32 => true,
            ExpertDtype::Q4_0 | ExpertDtype::Q8_0 => cols % BLCK_SIZE == 0,
            ExpertDtype::Q4_K => cols % QK_K == 0,
        }
    }

    /// The products on the way to a matrix size are no larger than the size.
    pub proof fn lemma_proj_bytes(self, rows: usize, cols: usize)
        ensures
            0 <= rows * cols <= rows * cols * 4,
            0 <= rows * (cols / 32) <= rows * (cols / 32) * 18,
            0 <= rows * (cols / 256) <= rows * (cols / 256) * 144,
            0 <= self.proj_bytes(rows as int, cols as int),
    {
        assert(0 <= rows * cols) by (nonlinear_arith);
        assert(0 <= rows * (cols / 32)) by (nonlinear_arith);
        assert(0 <= rows * (cols / 256)) by (nonlinear_arith);
    }

    /// Decode a `rows × cols` weight matrix.
    pub fn dequant(&self, data: &[u8], rows: usize, cols: usize) -> (w: Weights)
        requires
            self.whole_blocks(cols as int),
            data@.len() == self.proj_bytes(rows as int, cols as int),
            rows * cols <= usize::MAX,
        ensures
            w@ == self.weights(data@, rows as int, cols as int),
    {
        match self {
            ExpertDtype::F32 => Weights::F32(read_f32_bits(data, rows, cols)),
            ExpertDtype::Q4_0 => Weights::Scaled(dequant_q4_0(data, rows, cols)),
            ExpertDtype::Q4_K => Weights::ScaledK(dequant_q4_k(data, rows, cols)),
            ExpertDtype::Q8_0 => Weights::Scaled(dequant_q8_0(data, rows, cols)),
        }
    }
}

// ── Laws ─────────────────────────────────────────────────────────────────────

/// Element `col` of row `row` stands in block `col / size` of the row, at
/// place `col % size`; the rows follow one another.
proof fn lemma_row_major(row: int, col: int, cols: int, size: int)
    requires
        0 <= row,
        0 <= col < cols,
        size > 0,
        cols % size == 0,
    ensures
        (row * cols + col) / size == row * (cols / size) + col / size,
        (row * cols + col) % size == col % size,
        0 <= col % size < size,
{
    let per_row = cols / size;
    vstd::arithmetic::div_mod::lemma_fundamental_div_mod(cols, size);
    vstd::arithmetic::div_mod::lemma_fundamental_div_mod(col, size);
    let q = row * per_row + col / size;
    let r = col % size;
    assert(row * cols + col == q * size + r) by (nonlinear_arith)
        requires
            cols == size * per_row,
            col == size * (col / size) + r,
            q == row * per_row + col / size,
    ;
    vstd::arithmetic::div_mod::lemma_fundamental_div_mod_converse(row * cols + col, size, q, r);
}

/// The Q4_0 weight in row `row` and column `col`: the scale of its block, and
/// its 4-bit value less 8.
pub proof fn law_q4_0_element(data: Seq<u8>, row: int, col: int, cols: int)
    requires
        0 <= row,
        0 <= col < cols,
        cols % 32 == 0,
    ensures
        ({
            let w = q4_0_weight(data, row * cols + col);
            let block = (row * (cols / 32) + col / 32) * 18;
            &&& w.d == le16(data, block)
            &&& w.q == nibble(data, block + 2, col % 32) - 8
            &&& -8 <= w.q <= 7
        }),
{
    lemma_row_major(row, col, cols, 32);
}

/// The Q8_0 weight in row `row` and column `col`: the scale of its block, and
/// its byte read as a signed number.
pub proof fn law_q8_0_element(data: Seq<u8>, row: int, col: int, cols: int)
    requires
        0 <= row,
        0 <= col < cols,
        cols % 32 == 0,
    ensures
        ({
            let w = q8_0_weight(data, row * cols + col);
            let block = (row * (cols / 32) + col / 32) * 34;
            &&& w.d == le16(data, block + 32)
            &&& w.q == signed(data[block + col % 32])
        }),
{
    lemma_row_major(row, col, cols, 32);
}

/// The Q4_K weight in row `row` and column `col`: the scales of its
/// super-block, the 6-bit or 2-bit scale of its sub-block, and its 4-bit value
/// less 8.
pub proof fn law_q4_k_element(data: Seq<u8>, row: int, col: int, cols: int)
    requires
        0 <= row,
        0 <= col < cols,
        cols % 256 == 0,
    ensures
        ({
            let w = q4_k_weight(data, row * cols + col);
            let block = (row * (cols / 256) + col / 256) * 144;
            let sub = col % 256 / 16;
            let packed = data[block + 4 + sub / 2];
            &&& w.d == le16(data, block)
            &&& w.dmin == le16(data, block + 2)
            &&& w.scale == if sub % 2 == 0 {
                packed as int % 64
            } else {
                packed as int / 64
            }
            &&& w.q == nibble(data, block + 16 + sub * 8, col % 16) - 8
            &&& -8 <= w.q <= 7
        }),
{
    lemma_row_major(row, col, cols, 256);
    let k = row * cols + col;
    assert(k % 16 == k % 256 % 16);
    assert(col % 16 == col % 256 % 16);
}

/// With whole blocks in every row, an expert takes as many bytes as its three
/// matrices have blocks: 18 bytes for 32 elements in Q4_0, 34 in Q8_0, 144 for
/// 256 elements in Q4_K, and 4 bytes for each element in F32.
pub proof fn law_expert_bytes(d_ff: nat, d_model: nat)
    ensures
        ExpertDtype::F32.expert_bytes(d_ff as int, d_model as int) == 3 * (d_ff * d_model) * 4,
        d_ff % 32 == 0 && d_model % 32 == 0 ==> {
            &&& ExpertDtype::Q4_0.expert_bytes(d_ff as int, d_model as int) * 32 == 3 * (d_ff
                * d_model) * 18
            &&& ExpertDtype::Q8_0.expert_bytes(d_ff as int, d_model as int) * 32 == 3 * (d_ff
                * d_model) * 34
        },
        d_ff % 256 == 0 && d_model % 256 == 0 ==> ExpertDtype::Q4_K.expert_bytes(
            d_ff as int,
            d_model as int,
        ) * 256 == 3 * (d_ff * d_model) * 144,
{
    assert(d_ff * d_model == d_model * d_ff) by (nonlinear_arith);
    if d_ff % 32 == 0 && d_model % 32 == 0 {
        lemma_whole(d_ff as int, d_model as int, 32);
        lemma_whole(d_model as int, d_ff as int, 32);
    }
    if d_ff % 256 == 0 && d_model % 256 == 0 {
        lemma_whole(d_ff as int, d_model as int, 256);
        lemma_whole(d_model as int, d_ff as int, 256);
    }
}

proof fn lemma_whole(rows: int, cols: int, size: int)
    requires
        size > 0,
        cols % size == 0,
    ensures
        rows * (cols / size) * size == rows * cols,
{
    vstd::arithmetic::div_mod::lemma_fundamental_div_mod(cols, size);
    let q = cols / size;
    assert(rows * q * size == rows * cols) by (nonlinear_arith)
        requires
            cols == size * q,
    ;
}

/// The rows of one matrix, followed by those of another of the same type.
pub open spec fn rows_joined(a: WeightsView, b: WeightsView) -> WeightsView {
    match (a, b) {
        (WeightsView::F32(x), WeightsView::F32(y)) => WeightsView::F32(x + y),
        (WeightsView::Scaled(x), WeightsView::Scaled(y)) => WeightsView::Scaled(x + y),
        (WeightsView::ScaledK(x), WeightsView::ScaledK(y)) => WeightsView::ScaledK(x + y),
        _ => a,
    }
}

/// Rows are decoded one after another, each by itself: decoding two matrices
/// of the same width that follow one another gives the rows of the first, then
/// those of the second.
#[verifier::spinoff_prover]
#[verifier::rlimit(40)]
pub proof fn law_rows_follow(
    t: ExpertDtype,
    a: Seq<u8>,
    b: Seq<u8>,
    r1: nat,
    r2: nat,
    cols: nat,
)
    requires
        t.whole_blocks(cols as int),
        a.len() == t.proj_bytes(r1 as int, cols as int),
        b.len() == t.proj_bytes(r2 as int, cols as int),
    ensures
        t.weights(a + b, (r1 + r2) as int, cols as int) == rows_joined(
            t.weights(a, r1 as int, cols as int),
            t.weights(b, r2 as int, cols as int),
        ),
        (a + b).len() == t.proj_bytes((r1 + r2) as int, cols as int),
{
    let (n1, n2) = ((r1 * cols) as int, (r2 * cols) as int);
    assert((r1 + r2) * cols == n1 + n2 && n1 >= 0 && n2 >= 0) by (nonlinear_arith)
        requires
            n1 == r1 * cols,
            n2 == r2 * cols,
    ;
    let size: int = match t {
        ExpertDtype::F32 => 1,
        ExpertDtype::Q4_0 | ExpertDtype::Q8_0 => 32,
        ExpertDtype::Q4_K => 256,
    };
    let per_row = cols as int / size;
    let (m1, m2) = (r1 * per_row, r2 * per_row);
    lemma_whole(r1 as int, cols as int, size);
    lemma_whole(r2 as int, cols as int, size);
    assert((r1 + r2) * per_row == m1 + m2 && m1 >= 0 && m2 >= 0) by (nonlinear_arith)
        requires
            m1 == r1 * per_row,
            m2 == r2 * per_row,
            per_row >= 0,
    ;
    let both = a + b;
    match t {
        ExpertDtype::F32 => {
            let whole = Seq::new((n1 + n2) as nat, |k: int| le32(both, k * 4));
            let x = Seq::new(n1 as nat, |k: int| le32(a, k * 4));
            let y = Seq::new(n2 as nat, |k: int| le32(b, k * 4));
            assert(whole =~= x + y);
        },
        ExpertDtype::Q4_0 => {
            let whole = Seq::new((n1 + n2) as nat, |k: int| q4_0_weight(both, k));
            let x = Seq::new(n1 as nat, |k: int| q4_0_weight(a, k));
            let y = Seq::new(n2 as nat, |k: int| q4_0_weight(b, k));
            assert forall|k: int| 0 <= k < n1 + n2 implies whole[k] == (x + y)[k] by {
                lemma_q4_0_joined(a, b, m1, m2, k);
            }
            assert(whole =~= x + y);
        },
        ExpertDtype::Q8_0 => {
            let whole = Seq::new((n1 + n2) as nat, |k: int| q8_0_weight(both, k));
            let x = Seq::new(n1 as nat, |k: int| q8_0_weight(a, k));
            let y = Seq::new(n2 as nat, |k: int| q8_0_weight(b, k));
            assert forall|k: int| 0 <= k < n1 + n2 implies whole[k] == (x + y)[k] by {
                lemma_q8_0_joined(a, b, m1, m2, k);
            }
            assert(whole =~= x + y);
        },
        ExpertDtype::Q4_K => {
            let whole = Seq::new((n1 + n2) as nat, |k: int| q4_k_weight(both, k));
            let x = Seq::new(n1 as nat, |k: int| q4_k_weight(a, k));
            let y = Seq::new(n2 as nat, |k: int| q4_k_weight(b, k));
            assert forall|k: int| 0 <= k < n1 + n2 implies whole[k] == (x + y)[k] by {
                lemma_q4_k_joined(a, b, m1, m2, k);
            }
            assert(whole =~= x + y);
        },
    }
}

proof fn lemma_q4_0_joined(a: Seq<u8>, b: Seq<u8>, m1: int, m2: int, k: int)
    requires
        0 <= m1,
        0 <= m2,
        a.len() == m1 * 18,
        b.len() == m2 * 18,
        0 <= k < (m1 + m2) * 32,
    ensures
        q4_0_weight(a + b, k) == if k < m1 * 32 {
            q4_0_weight(a, k)
        } else {
            q4_0_weight(b, k - m1 * 32)
        },
{
    lemma_block_place(k, m1, m2, 32);
}

proof fn lemma_q8_0_joined(a: Seq<u8>, b: Seq<u8>, m1: int, m2: int, k: int)
    requires
        0 <= m1,
        0 <= m2,
        a.len() == m1 * 34,
        b.len() == m2 * 34,
        0 <= k < (m1 + m2) * 32,
    ensures
        q8_0_weight(a + b, k) == if k < m1 * 32 {
            q8_0_weight(a, k)
        } else {
            q8_0_weight(b, k - m1 * 32)
        },
{
    lemma_block_place(k, m1, m2, 32);
}

proof fn lemma_q4_k_joined(a: Seq<u8>, b: Seq<u8>, m1: int, m2: int, k: int)
    requires
        0 <= m1,
        0 <= m2,
        a.len() == m1 * 144,
        b.len() == m2 * 144,
        0 <= k < (m1 + m2) * 256,
    ensures
        q4_k_weight(a + b, k) == if k < m1 * 256 {
            q4_k_weight(a, k)
        } else {
            q4_k_weight(b, k - m1 * 256)
        },
{
    lemma_block_place(k, m1, m2, 256);
    let j = k - m1 * 256;
    assert(k % 16 == k % 256 % 16);
    assert(j % 16 == j % 256 % 16);
}

/// Where element `k` lies in two runs of `m1` and `m2` blocks.
proof fn lemma_block_place(k: int, m1: int, m2: int, size: int)
    requires
        size == 32 || size == 256,
        0 <= k < (m1 + m2) * size,
        0 <= m1,
        0 <= m2,
    ensures
        0 <= k % size < size,
        k < m1 * size ==> 0 <= k / size < m1,
        k >= m1 * size ==> {
            &&& k / size == m1 + (k - m1 * size) / size
            &&& k % size == (k - m1 * size) % size
            &&& 0 <= (k - m1 * size) / size < m2
        },
{
}

/// A two-byte number has its first byte as its low half and its second byte as
/// its high half, and any number is read back from its two halves.
pub proof fn law_le16(data: Seq<u8>, at: int, x: u16)
    ensures
        le16(data, at) as int % 256 == data[at],
        le16(data, at) as int / 256 == data[at + 1],
        data[at] == x as int % 256 && data[at + 1] == x as int / 256 ==> le16(data, at) == x,
{
}

/// A four-byte number has its bytes as its digits to the base 256, the lowest
/// first, and any number is read back from its four digits.
pub proof fn law_le32(data: Seq<u8>, at: int, x: u32)
    ensures
        le32(data, at) as int % 256 == data[at],
        le32(data, at) as int / 256 % 256 == data[at + 1],
        le32(data, at) as int / 65536 % 256 == data[at + 2],
        le32(data, at) as int / 16777216 == data[at + 3],
        ({
            &&& data[at] == x as int % 256
            &&& data[at + 1] == x as int / 256 % 256
            &&& data[at + 2] == x as int / 65536 % 256
            &&& data[at + 3] == x as int / 16777216
        }) ==> le32(data, at) == x,
{
    let (a, b, c, d) = (
        data[at] as int,
        data[at + 1] as int,
        data[at + 2] as int,
        data[at + 3] as int,
    );
    lemma_digits(a, b, c, d);
    if ({
        &&& data[at] == x as int % 256
        &&& data[at + 1] == x as int / 256 % 256
        &&& data[at + 2] == x as int / 65536 % 256
        &&& data[at + 3] == x as int / 16777216
    }) {
        let (p, q) = (x as int / 256, x as int / 65536);
        assert(x == p * 256 + a);
        assert(p / 256 == q && p == q * 256 + b);
        assert(q / 256 == d && q == d * 256 + c);
    }
}

/// The digits of a number to the base 256.
proof fn lemma_digits(a: int, b: int, c: int, d: int)
    requires
        0 <= a < 256,
        0 <= b < 256,
        0 <= c < 256,
        0 <= d < 256,
    ensures
        ({
            let n = a + b * 256 + c * 65536 + d * 16777216;
            &&& 0 <= n <= u32::MAX
            &&& n % 256 == a
            &&& n / 256 % 256 == b
            &&& n / 65536 % 256 == c
            &&& n / 16777216 == d
        }),
{
    let n = a + b * 256 + c * 65536 + d * 16777216;
    let p = b + c * 256 + d * 65536;
    let q = c + d * 256;
    assert(n == p * 256 + a);
    assert(n / 256 == p);
    assert(p == q * 256 + b);
    assert(n == q * 65536 + (a + b * 256));
    assert(n / 65536 == q);
    assert(n == d * 16777216 + (a + b * 256 + c * 65536));
}

/// A signed byte differs from the byte by a multiple of 256; every number from
/// -128 to 127 is read from one byte only.
pub proof fn law_signed(a: u8, b: u8)
    ensures
        (signed(a) - a) % 256 == 0,
        signed(a) == signed(b) ==> a == b,
        a < 128 ==> signed(a) == a,
{
}

/// A byte holds two 4-bit values: the first is its low half, the second its
/// high half.
pub proof fn law_nibbles(data: Seq<u8>, at: int, j: int)
    ensures
        nibble(data, at, 2 * j) + 16 * nibble(data, at, 2 * j + 1) == data[at + j],
        0 <= nibble(data, at, j) < 16,
{
    assert(2 * j / 2 == j && 2 * j % 2 == 0);
    assert((2 * j + 1) / 2 == j && (2 * j + 1) % 2 == 1);
}

/// A Q4_0 block of 18 bytes holds 32 weights: all have the scale in the first
/// two bytes, low byte first; byte `j` of the other sixteen holds weights `2j`
/// and `2j + 1`, each raised by 8, as its low and its high half.
pub proof fn law_q4_0_block(data: Seq<u8>, block: int, j: int)
    requires
        0 <= block,
        0 <= j < 16,
    ensures
        ({
            let w = q4_0_weight(data, 32 * block + 2 * j);
            let v = q4_0_weight(data, 32 * block + 2 * j + 1);
            &&& w.d as int % 256 == data[18 * block]
            &&& w.d as int / 256 == data[18 * block + 1]
            &&& v.d == w.d
            &&& -8 <= w.q <= 7
            &&& -8 <= v.q <= 7
            &&& (w.q + 8) + 16 * (v.q + 8) == data[18 * block + 2 + j]
        }),
{
    let k = 32 * block + 2 * j;
    assert(k / 32 == block && k % 32 == 2 * j);
    assert((k + 1) / 32 == block && (k + 1) % 32 == 2 * j + 1);
    law_nibbles(data, 18 * block + 2, j);
    law_nibbles(data, 18 * block + 2, 2 * j);
    law_nibbles(data, 18 * block + 2, 2 * j + 1);
    law_le16(data, 18 * block, 0);
}

/// A Q8_0 block of 34 bytes holds 32 weights: weight `j` is byte `j` as a
/// signed number; all have the scale in the last two bytes, low byte first.
pub proof fn law_q8_0_block(data: Seq<u8>, block: int, j: int)
    requires
        0 <= block,
        0 <= j < 32,
    ensures
        ({
            let w = q8_0_weight(data, 32 * block + j);
            &&& w.d as int % 256 == data[34 * block + 32]
            &&& w.d as int / 256 == data[34 * block + 33]
            &&& (w.q - data[34 * block + j]) % 256 == 0
        }),
{
    let k = 32 * block + j;
    assert(k / 32 == block && k % 32 == j);
    law_signed(data[34 * block + j], 0);
    law_le16(data, 34 * block + 32, 0);
}

/// A Q4_K super-block of 144 bytes holds 256 weights. All have the scale in the
/// first two bytes and the least value in the next two. Of the 32 weights that
/// share a scale byte, the first sixteen have its low six bits as their scale
/// and the others its high two. Byte `j` of the last 128 holds weights `2j` and
/// `2j + 1`, each raised by 8, as its low and its high half.
pub proof fn law_q4_k_block(data: Seq<u8>, block: int, pair: int, i: int, j: int)
    requires
        0 <= block,
        0 <= pair < 8,
        0 <= i < 16,
        0 <= j < 128,
    ensures
        ({
            let first = q4_k_weight(data, 256 * block + 32 * pair + i);
            let second = q4_k_weight(data, 256 * block + 32 * pair + 16 + i);
            &&& first.scale < 64
            &&& second.scale < 4
            &&& first.scale + 64 * second.scale == data[144 * block + 4 + pair]
        }),
        ({
            let w = q4_k_weight(data, 256 * block + 2 * j);
            let v = q4_k_weight(data, 256 * block + 2 * j + 1);
            &&& w.d as int % 256 == data[144 * block]
            &&& w.d as int / 256 == data[144 * block + 1]
            &&& w.dmin as int % 256 == data[144 * block + 2]
            &&& w.dmin as int / 256 == data[144 * block + 3]
            &&& v.d == w.d
            &&& v.dmin == w.dmin
            &&& v.scale == w.scale
            &&& -8 <= w.q <= 7
            &&& -8 <= v.q <= 7
            &&& (w.q + 8) + 16 * (v.q + 8) == data[144 * block + 16 + j]
        }),
{
    lemma_q4_k_scales(data, block, pair, i);
    lemma_q4_k_values(data, block, j);
}

proof fn lemma_q4_k_scales(data: Seq<u8>, block: int, pair: int, i: int)
    requires
        0 <= block,
        0 <= pair < 8,
        0 <= i < 16,
    ensures
        ({
            let first = q4_k_weight(data, 256 * block + 32 * pair + i);
            let second = q4_k_weight(data, 256 * block + 32 * pair + 16 + i);
            &&& first.scale < 64
            &&& second.scale < 4
            &&& first.scale + 64 * second.scale == data[144 * block + 4 + pair]
        }),
{
    let s = 256 * block + 32 * pair + i;
    lemma_place(block, 32 * pair + i);
    lemma_place(block, 32 * pair + 16 + i);
    let (x, y) = (32 * pair + i, 32 * pair + 16 + i);
    assert(x / 16 == 2 * pair);
    assert(y / 16 == 2 * pair + 1);
    assert(2 * pair / 2 == pair && (2 * pair + 1) / 2 == pair);
}

proof fn lemma_q4_k_values(data: Seq<u8>, block: int, j: int)
    requires
        0 <= block,
        0 <= j < 128,
    ensures
        ({
            let w = q4_k_weight(data, 256 * block + 2 * j);
            let v = q4_k_weight(data, 256 * block + 2 * j + 1);
            &&& w.d as int % 256 == data[144 * block]
            &&& w.d as int / 256 == data[144 * block + 1]
            &&& w.dmin as int % 256 == data[144 * block + 2]
            &&& w.dmin as int / 256 == data[144 * block + 3]
            &&& v.d == w.d
            &&& v.dmin == w.dmin
            &&& v.scale == w.scale
            &&& -8 <= w.q <= 7
            &&& -8 <= v.q <= 7
            &&& (w.q + 8) + 16 * (v.q + 8) == data[144 * block + 16 + j]
        }),
{
    lemma_place(block, 2 * j);
    lemma_place(block, 2 * j + 1);
    let (x, y) = (2 * j, 2 * j + 1);
    let sub = x / 16;
    let m = j % 8;
    assert(y / 16 == sub);
    assert(j == 8 * sub + m);
    assert(x % 16 == 2 * m);
    assert(y % 16 == 2 * m + 1);
    let at = 144 * block + 16 + sub * 8;
    law_nibbles(data, at, m);
    law_nibbles(data, at, 2 * m);
    law_nibbles(data, at, 2 * m + 1);
    law_le16(data, 144 * block, 0);
    law_le16(data, 144 * block + 2, 0);
}

/// Where element `j` of a super-block lies.
proof fn lemma_place(block: int, j: int)
    requires
        0 <= block,
        0 <= j < 256,
    ensures
        (256 * block + j) / 256 == block,
        (256 * block + j) % 256 == j,
        (256 * block + j) % 16 == j % 16,
        (256 * block + j) / 256 * 144 == 144 * block,
{
}

/// A decoded matrix has one weight for each of its elements, row by row: an F32
/// weight is the number in its four bytes, and any other the weight at that
/// place of its type's blocks.
pub proof fn law_weights(t: ExpertDtype, data: Seq<u8>, rows: nat, cols: nat, k: int)
    ensures
        match (t, t.weights(data, rows as int, cols as int)) {
            (ExpertDtype::F32, WeightsView::F32(w)) => {
                &&& w.len() == rows * cols
                &&& 0 <= k < rows * cols ==> {
                    &&& w[k] as int % 256 == data[4 * k]
                    &&& w[k] as int / 256 % 256 == data[4 * k + 1]
                    &&& w[k] as int / 65536 % 256 == data[4 * k + 2]
                    &&& w[k] as int / 16777216 == data[4 * k + 3]
                }
            },
            (ExpertDtype::Q4_0, WeightsView::Scaled(w)) => {
                &&& w.len() == rows * cols
                &&& 0 <= k < rows * cols ==> w[k] == q4_0_weight(data, k)
            },
            (ExpertDtype::Q8_0, WeightsView::Scaled(w)) => {
                &&& w.len() == rows * cols
                &&& 0 <= k < rows * cols ==> w[k] == q8_0_weight(data, k)
            },
            (ExpertDtype::Q4_K, WeightsView::ScaledK(w)) => {
                &&& w.len() == rows * cols
                &&& 0 <= k < rows * cols ==> w[k] == q4_k_weight(data, k)
            },
            _ => false,
        },
{
    law_le32(data, 4 * k, 0);
    assert(rows * cols >= 0) by (nonlinear_arith);
}

/// Decoded weights are kept in the order and in the form in which they are
/// decoded.
pub proof fn law_weights_kept(w: Weights)
    ensures
        match w {
            Weights::F32(v) => w@ == WeightsView::F32(v@),
            Weights::Scaled(v) => w@ == WeightsView::Scaled(v@),
            Weights::ScaledK(v) => w@ == WeightsView::ScaledK(v@),
        },
{
}

/// The bytes of a matrix whose rows hold `blocks` whole blocks and `rest`
/// elements more, which take no room unless the type is F32; an expert takes
/// the bytes of a gate, an up and a down matrix, the last one turned round.
pub proof fn law_proj_bytes(rows: int, blocks: int, rest: int, d_ff: int, d_model: int)
    requires
        0 <= rest,
    ensures
        ExpertDtype::F32.proj_bytes(rows, blocks) == rows * blocks * 4,
        rest < 32 ==> {
            &&& ExpertDtype::Q4_0.proj_bytes(rows, 32 * blocks + rest) == rows * blocks * 18
            &&& ExpertDtype::Q8_0.proj_bytes(rows, 32 * blocks + rest) == rows * blocks * 34
            &&& ExpertDtype::Q4_0.whole_blocks(32 * blocks + rest) == (rest == 0)
            &&& ExpertDtype::Q8_0.whole_blocks(32 * blocks + rest) == (rest == 0)
        },
        rest < 256 ==> {
            &&& ExpertDtype::Q4_K.proj_bytes(rows, 256 * blocks + rest) == rows * blocks
                * 144
            &&& ExpertDtype::Q4_K.whole_blocks(256 * blocks + rest) == (rest == 0)
        },
        ExpertDtype::F32.whole_blocks(rest),
        forall|t: ExpertDtype|
            (#[trigger] t.expert_bytes(d_ff, d_model)) == t.proj_bytes(d_ff, d_model)
                + t.proj_bytes(d_ff, d_model) + t.proj_bytes(d_model, d_ff),
{
    assert(rest < 32 ==> (32 * blocks + rest) / 32 == blocks && (32 * blocks + rest) % 32 == rest);
    assert(rest < 256 ==> (256 * blocks + rest) / 256 == blocks && (256 * blocks + rest) % 256
        == rest);
}

/// What a type is called, each letter in either case. Whatever is not one of
/// these names stands for F32.
pub proof fn law_named(s: Seq<char>)
    ensures
        ExpertDtype::named(s) == ExpertDtype::Q4_0 <==> s.len() == 4 && (s[0] == 'q' || s[0] == 'Q')
            && s[1] == '4' && s[2] == '_' && s[3] == '0',
        ExpertDtype::named(s) == ExpertDtype::Q8_0 <==> s.len() == 4 && (s[0] == 'q' || s[0] == 'Q')
            && s[1] == '8' && s[2] == '_' && s[3] == '0',
        ExpertDtype::named(s) == ExpertDtype::Q4_K <==> {
            &&& s.len() == 4 || s.len() == 6
            &&& s[0] == 'q' || s[0] == 'Q'
            &&& s[1] == '4' && s[2] == '_'
            &&& s[3] == 'k' || s[3] == 'K'
            &&& s.len() == 6 ==> {
                &&& s[4] == '_'
                &&& s[5] == 'm' || s[5] == 'M' || s[5] == 's' || s[5] == 'S'
            }
        },
{
    let u = upper(s);
    reveal_strlit("Q4_0");
    reveal_strlit("Q8_0");
    reveal_strlit("Q4_K");
    reveal_strlit("Q4_K_M");
    reveal_strlit("Q4_K_S");
    assert(u.len() == s.len());
    assert forall|i: int| 0 <= i < s.len() implies #[trigger] u[i] == upper_char(s[i]) by {}
    if s.len() == 4 {
        assert(u =~= seq![u[0], u[1], u[2], u[3]]);
        assert("Q4_0"@ =~= seq!['Q', '4', '_', '0']);
        assert("Q8_0"@ =~= seq!['Q', '8', '_', '0']);
        assert("Q4_K"@ =~= seq!['Q', '4', '_', 'K']);
        assert("Q4_0"@[3] == '0' && "Q8_0"@[1] == '8' && "Q4_K"@[3] == 'K');
    }
    if s.len() == 6 {
        assert(u =~= seq![u[0], u[1], u[2], u[3], u[4], u[5]]);
        assert("Q4_K_M"@ =~= seq!['Q', '4', '_', 'K', '_', 'M']);
        assert("Q4_K_S"@ =~= seq!['Q', '4', '_', 'K', '_', 'S']);
    }
}

/// The block sizes are those of the element types: what the decoder of a type
/// takes for whole blocks, and for the bytes of a matrix, is what the type
/// says.
pub proof fn law_block_sizes(rows: usize, cols: usize)
    ensures
        cols as int % BLCK_SIZE as int == 0 <==> cols as int % 32 == 0,
        cols as int % QK_K as int == 0 <==> cols as int % 256 == 0,
        rows * (cols as int / BLCK_SIZE as int) * Q4_0_BYTES == rows * (cols as int / 32) * 18,
        rows * (cols as int / BLCK_SIZE as int) * Q8_0_BYTES == rows * (cols as int / 32) * 34,
        rows * (cols as int / QK_K as int) * Q4_K_BYTES == rows * (cols as int / 256) * 144,
        BLCK_SIZE == 32,
        QK_K == 256,
        Q4_0_BYTES == 2 + BLCK_SIZE / 2,
        Q8_0_BYTES == BLCK_SIZE + 2,
        Q4_K_BYTES == 4 + K_SCALE_SIZE + QK_K / 2,
        K_SCALE_SIZE == 12,
{
}

} // verus!
