//! Shading types and the bit packing of mesh vertex streams.

use vstd::prelude::*;

verus! {

/// Shading types of ISO 32000-1.
#[derive(Debug, Clone, Copy, PartialEq, Eq, Structural)]
pub enum ShadingType {
    /// Function-based shading (type 1).
    FunctionBased,
    /// Axial shading (type 2): a linear gradient.
    Axial,
    /// Radial shading (type 3): a radial gradient.
    Radial,
    /// Free-form Gouraud-shaded triangle mesh (type 4).
    FreeFormGouraud,
    /// Lattice-form Gouraud-shaded triangle mesh (type 5).
    LatticeFormGouraud,
    /// Coons patch mesh (type 6).
    CoonsPatch,
    /// Tensor-product patch mesh (type 7).
    TensorProductPatch,
}

/// The `/ShadingType` number of each shading type.
pub open spec fn shading_number(t: ShadingType) -> i64 {
    match t {
        ShadingType::FunctionBased => 1,
        ShadingType::Axial => 2,
        ShadingType::Radial => 3,
        ShadingType::FreeFormGouraud => 4,
        ShadingType::LatticeFormGouraud => 5,
        ShadingType::CoonsPatch => 6,
        ShadingType::TensorProductPatch => 7,
    }
}

impl ShadingType {
    /// The `/ShadingType` number.
    pub fn number(&self) -> (n: i64)
        ensures
            n == shading_number(*self),
    {
        match self {
            ShadingType::FunctionBased => 1,
            ShadingType::Axial => 2,
            ShadingType::Radial => 3,
            ShadingType::FreeFormGouraud => 4,
            ShadingType::LatticeFormGouraud => 5,
            ShadingType::CoonsPatch => 6,
            ShadingType::TensorProductPatch => 7,
        }
    }
}

/// The number of colour components of a device colour space: 1 for
/// `DeviceGray`, 4 for `DeviceCMYK`, 3 otherwise (RGB).
pub open spec fn components_of(color_space: Seq<char>) -> usize {
    if color_space == "DeviceGray"@ {
        1
    } else if color_space == "DeviceCMYK"@ {
        4
    } else {
        3
    }
}

/// The number of colour components of a device colour space.
pub fn n_components(color_space: &str) -> (n: usize)
    ensures
        n == components_of(color_space@),
{
    if crate::text::str_eq(color_space, "DeviceGray") {
        1
    } else if crate::text::str_eq(color_space, "DeviceCMYK") {
        4
    } else {
        3
    }
}

/// The integer layout of a free-form Gouraud-shaded triangle mesh (type 4
/// shading): bit widths, colour space, length of the `/Decode` array and the
/// edge flag of each vertex. (Coordinates and colours are not represented.)
#[derive(Debug, Clone)]
pub struct MeshLayout {
    pub color_space: String,
    pub bits_per_coordinate: u8,
    pub bits_per_component: u8,
    pub bits_per_flag: u8,
    pub decode_len: usize,
    pub vertex_flags: Vec<u8>,
}

/// Why a mesh layout is invalid.
#[derive(Debug, Clone, PartialEq, Eq)]
pub enum MeshError {
    /// Bits per coordinate not among 1, 2, 4, 8, 12, 16, 24, 32.
    BitsPerCoordinate(u8),
    /// Bits per component not among 1, 2, 4, 8, 12, 16.
    BitsPerComponent(u8),
    /// Bits per flag not among 2, 4, 8.
    BitsPerFlag(u8),
    /// `/Decode` length differs from `4 + 2 * components`.
    DecodeLength { expected: usize, color_space: String, actual: usize },
    /// No vertex.
    NoVertices,
    /// The first vertex's edge flag is not 0.
    FirstFlagNotZero,
}

/// Permitted bits per coordinate.
pub open spec fn coordinate_bits_ok(b: u8) -> bool {
    b == 1 || b == 2 || b == 4 || b == 8 || b == 12 || b == 16 || b == 24 || b == 32
}

/// Permitted bits per colour component.
pub open spec fn component_bits_ok(b: u8) -> bool {
    b == 1 || b == 2 || b == 4 || b == 8 || b == 12 || b == 16
}

/// Permitted bits per edge flag.
pub open spec fn flag_bits_ok(b: u8) -> bool {
    b == 2 || b == 4 || b == 8
}

/// The `/Decode` length a colour space needs: two per coordinate and two
/// per colour component.
pub open spec fn decode_len_for(color_space: Seq<char>) -> int {
    4 + 2 * components_of(color_space)
}

/// The first failed check of a mesh layout, in order: bits per coordinate,
/// per component, per flag, the `/Decode` length, at least one vertex, a
/// first edge flag of 0.
pub open spec fn mesh_check(
    color_space: Seq<char>,
    bc: u8,
    bm: u8,
    bf: u8,
    decode_len: usize,
    flags: Seq<u8>,
) -> Option<MeshErrorKind> {
    if !coordinate_bits_ok(bc) {
        Some(MeshErrorKind::BitsPerCoordinate)
    } else if !component_bits_ok(bm) {
        Some(MeshErrorKind::BitsPerComponent)
    } else if !flag_bits_ok(bf) {
        Some(MeshErrorKind::BitsPerFlag)
    } else if decode_len != decode_len_for(color_space) {
        Some(MeshErrorKind::DecodeLength)
    } else if flags.len() == 0 {
        Some(MeshErrorKind::NoVertices)
    } else if flags[0] != 0 {
        Some(MeshErrorKind::FirstFlagNotZero)
    } else {
        None
    }
}

/// The kind of a mesh error, without its values.
pub enum MeshErrorKind {
    BitsPerCoordinate,
    BitsPerComponent,
    BitsPerFlag,
    DecodeLength,
    NoVertices,
    FirstFlagNotZero,
}

/// The error a failed check reports, with the offending values.
pub open spec fn mesh_error_of(m: MeshLayout, k: MeshErrorKind) -> MeshError {
    match k {
        MeshErrorKind::BitsPerCoordinate => MeshError::BitsPerCoordinate(m.bits_per_coordinate),
        MeshErrorKind::BitsPerComponent => MeshError::BitsPerComponent(m.bits_per_component),
        MeshErrorKind::BitsPerFlag => MeshError::BitsPerFlag(m.bits_per_flag),
        MeshErrorKind::DecodeLength => MeshError::DecodeLength {
            expected: decode_len_for(m.color_space@) as usize,
            color_space: m.color_space,
            actual: m.decode_len,
        },
        MeshErrorKind::NoVertices => MeshError::NoVertices,
        MeshErrorKind::FirstFlagNotZero => MeshError::FirstFlagNotZero,
    }
}

impl MeshLayout {
    /// Checks the layout against the type 4 constraints (ISO 32000-1
    /// §8.7.4.5.5): permitted bit widths, a `/Decode` length matching the
    /// colour space, at least one vertex, and a first edge flag of 0. The
    /// first failed check is reported.
    pub fn validate(&self) -> (r: Result<(), MeshError>)
        ensures
            match mesh_check(
                self.color_space@,
                self.bits_per_coordinate,
                self.bits_per_component,
                self.bits_per_flag,
                self.decode_len,
                self.vertex_flags@,
            ) {
                None => r is Ok,
                Some(k) => r == Err::<(), MeshError>(mesh_error_of(*self, k)),
            },
    {
        let bc = self.bits_per_coordinate;
        if !(bc == 1 || bc == 2 || bc == 4 || bc == 8 || bc == 12 || bc == 16 || bc == 24 || bc
            == 32) {
            return Err(MeshError::BitsPerCoordinate(bc));
        }
        let bm = self.bits_per_component;
        if !(bm == 1 || bm == 2 || bm == 4 || bm == 8 || bm == 12 || bm == 16) {
            return Err(MeshError::BitsPerComponent(bm));
        }
        let bf = self.bits_per_flag;
        if !(bf == 2 || bf == 4 || bf == 8) {
            return Err(MeshError::BitsPerFlag(bf));
        }
        let expected = 4 + 2 * n_components(self.color_space.as_str());
        if self.decode_len != expected {
            return Err(
                MeshError::DecodeLength {
                    expected,
                    color_space: crate::objects::copy_string(&self.color_space),
                    actual: self.decode_len,
                },
            );
        }
        if self.vertex_flags.len() == 0 {
            return Err(MeshError::NoVertices);
        }
        if self.vertex_flags[0] != 0 {
            return Err(MeshError::FirstFlagNotZero);
        }
        Ok(())
    }
}

/// The decimal digits of `n`, as a string.
fn dec_string(n: u64) -> (s: String)
    ensures
        s@ == crate::text::dec(n as nat),
{
    let v = crate::text::dec_chars(n);
    crate::text::string_of(v.as_slice())
}

impl MeshError {
    /// The message of the error, as a PDF structure error reports it.
    pub fn message(&self) -> (s: String)
        ensures
            s@ == match *self {
                MeshError::BitsPerCoordinate(b) => "BitsPerCoordinate must be 1,2,4,8,12,16,24 or 32, got "@
                    + crate::text::dec(b as nat),
                MeshError::BitsPerComponent(b) => "BitsPerComponent must be 1,2,4,8,12 or 16, got "@
                    + crate::text::dec(b as nat),
                MeshError::BitsPerFlag(b) => "BitsPerFlag must be 2, 4 or 8, got "@ + crate::text::dec(
                    b as nat,
                ),
                MeshError::DecodeLength { expected, color_space, actual } => "Decode must have "@
                    + crate::text::dec(expected as nat) + " entries for "@ + color_space@ + ", got "@
                    + crate::text::dec(actual as nat),
                MeshError::NoVertices => "Mesh shading must have at least one vertex"@,
                MeshError::FirstFlagNotZero => "First mesh vertex must have edge flag 0"@,
            },
    {
        match self {
            MeshError::BitsPerCoordinate(b) => {
                let mut s = "BitsPerCoordinate must be 1,2,4,8,12,16,24 or 32, got ".to_owned();
                let d = dec_string(*b as u64);
                crate::text::append_str(&mut s, d.as_str());
                s
            },
            MeshError::BitsPerComponent(b) => {
                let mut s = "BitsPerComponent must be 1,2,4,8,12 or 16, got ".to_owned();
                let d = dec_string(*b as u64);
                crate::text::append_str(&mut s, d.as_str());
                s
            },
            MeshError::BitsPerFlag(b) => {
                let mut s = "BitsPerFlag must be 2, 4 or 8, got ".to_owned();
                let d = dec_string(*b as u64);
                crate::text::append_str(&mut s, d.as_str());
                s
            },
            MeshError::DecodeLength { expected, color_space, actual } => {
                let mut s = "Decode must have ".to_owned();
                let d = dec_string(*expected as u64);
                crate::text::append_str(&mut s, d.as_str());
                crate::text::append_str(&mut s, " entries for ");
                crate::text::append_str(&mut s, color_space.as_str());
                crate::text::append_str(&mut s, ", got ");
                let a = dec_string(*actual as u64);
                crate::text::append_str(&mut s, a.as_str());
                s
            },
            MeshError::NoVertices => "Mesh shading must have at least one vertex".to_owned(),
            MeshError::FirstFlagNotZero => "First mesh vertex must have edge flag 0".to_owned(),
        }
    }
}

/// Bit `k` (from the most significant) of the low `n` bits of `v`.
pub open spec fn low_bit(v: u64, n: nat, k: int) -> bool {
    ((v >> ((n - 1 - k) as u64)) & 1u64) == 1u64
}

/// The low `n` bits of `v`, most significant first.
pub open spec fn value_bits(v: u64, n: nat) -> Seq<bool> {
    Seq::new(n, |k: int| low_bit(v, n, k))
}

/// The eight bits of `b`, most significant first.
pub open spec fn byte_bits(b: u8) -> Seq<bool> {
    value_bits(b as u64, 8)
}

/// The bits of `bs`, byte after byte.
pub open spec fn bytes_bits(bs: Seq<u8>) -> Seq<bool>
    decreases bs.len(),
{
    if bs.len() == 0 {
        Seq::empty()
    } else {
        bytes_bits(bs.drop_last()) + byte_bits(bs.last())
    }
}

/// `n` zero bits.
pub open spec fn zeros(n: nat) -> Seq<bool> {
    Seq::new(n, |k: int| false)
}

/// A most-significant-bit-first bit packer for mesh vertex streams: bits
/// fill bytes from the top; a partial byte is kept until it is full or
/// padded.
pub struct BitWriter {
    buffer: Vec<u8>,
    current_byte: u8,
    bits_filled: u8,
}

impl BitWriter {
    /// The partial byte holds `bits_filled < 8` bits in its low end.
    pub closed spec fn wf(&self) -> bool {
        &&& self.bits_filled < 8
        &&& (self.current_byte as u64) < (1u64 << (self.bits_filled as u64))
    }

    /// The bytes completed so far.
    pub closed spec fn bytes(&self) -> Seq<u8> {
        self.buffer@
    }

    /// Every bit written so far, in order, completed bytes first.
    pub closed spec fn bits(&self) -> Seq<bool> {
        bytes_bits(self.buffer@) + value_bits(self.current_byte as u64, self.bits_filled as nat)
    }

    /// The number of bits written since the last completed byte.
    pub closed spec fn pending(&self) -> nat {
        self.bits_filled as nat
    }

    /// An empty writer.
    pub fn new() -> (w: BitWriter)
        ensures
            w.wf(),
            w.bits() == Seq::<bool>::empty(),
            w.bytes() == Seq::<u8>::empty(),
            w.pending() == 0,
    {
        let w = BitWriter { buffer: Vec::new(), current_byte: 0, bits_filled: 0 };
        assert(w.bits() =~= Seq::<bool>::empty());
        assert((0u64) < (1u64 << 0u64)) by (bit_vector);
        w
    }

    /// Appends the low `bits` bits of `value`, most significant first.
    pub fn write_bits(&mut self, value: u64, bits: u8)
        requires
            old(self).wf(),
            bits <= 64,
        ensures
            final(self).wf(),
            final(self).bits() == old(self).bits() + value_bits(value, bits as nat),
            final(self).pending() == (old(self).pending() + bits) % 8,
            bytes_bits(final(self).bytes()) == final(self).bits().take(
                final(self).bits().len() - final(self).pending(),
            ),
    {
        let ghost b0 = self.bits();
        let ghost p0 = self.pending();
        let mut i: u8 = bits;
        while i > 0
            invariant
                self.wf(),
                i <= bits <= 64,
                self.bits() == b0 + value_bits(value, bits as nat).take(bits - i),
                self.pending() == (p0 + (bits - i)) % 8,
                bytes_bits(self.buffer@) == self.bits().take(self.bits().len() - self.pending()),
            decreases i,
        {
            i = i - 1;
            let bit = ((value >> i) & 1) as u8;
            let ghost before = self.bits();
            let ghost cur = self.current_byte;
            let ghost n = self.bits_filled;
            self.current_byte = (self.current_byte << 1) | bit;
            self.bits_filled = self.bits_filled + 1;
            proof {
                assert(bit == 0 || bit == 1) by (bit_vector)
                    requires
                        bit == ((value >> i) & 1) as u8,
                ;
                lemma_shift_in(cur, n, bit);
                assert(low_bit(value, bits as nat, bits - 1 - i) == (bit == 1)) by {
                    assert(((bits - 1 - (bits - 1 - i)) as u64) == i as u64);
                    assert((((value >> (i as u64)) & 1u64) == 1u64) == (((value >> i) & 1) as u8 == 1u8))
                        by (bit_vector);
                }
                assert(value_bits(value, bits as nat).take(bits - i) =~= value_bits(
                    value,
                    bits as nat,
                ).take(bits - 1 - i).push(bit == 1));
                assert(self.bits() =~= before.push(bit == 1));
                assert(self.bits() == b0 + value_bits(value, bits as nat).take(bits - i));
            }
            if self.bits_filled == 8 {
                let ghost full = self.current_byte;
                let ghost buf0 = self.buffer@;
                let ghost mid = self.bits();
                assert(mid == bytes_bits(buf0) + byte_bits(full));
                self.buffer.push(self.current_byte);
                self.current_byte = 0;
                self.bits_filled = 0;
                proof {
                    assert(self.buffer@.drop_last() =~= buf0);
                    assert(bytes_bits(self.buffer@) =~= bytes_bits(buf0) + byte_bits(full));
                    assert((0u64) < (1u64 << 0u64)) by (bit_vector);
                    assert(value_bits(0u64, 0) =~= Seq::<bool>::empty());
                    assert(self.bits() =~= mid);
                }
            }
        }
    }

    /// Pads a partial byte with zero bits up to the byte boundary.
    pub fn align_to_byte(&mut self)
        requires
            old(self).wf(),
        ensures
            final(self).wf(),
            final(self).pending() == 0,
            bytes_bits(final(self).bytes()) == final(self).bits(),
            final(self).bits() == old(self).bits() + zeros(
                if old(self).pending() == 0 {
                    0
                } else {
                    (8 - old(self).pending()) as nat
                },
            ),
    {
        if self.bits_filled > 0 {
            let ghost cur = self.current_byte;
            let ghost n = self.bits_filled;
            let ghost before = self.bits();
            self.current_byte = self.current_byte << (8 - self.bits_filled);
            let byte = self.current_byte;
            proof {
                lemma_pad(cur, n);
            }
            let ghost b0 = self.buffer@;
            self.buffer.push(byte);
            self.current_byte = 0;
            self.bits_filled = 0;
            proof {
                assert(self.buffer@.drop_last() =~= b0);
                assert((0u64) < (1u64 << 0u64)) by (bit_vector);
                assert(value_bits(0u64, 0) =~= Seq::<bool>::empty());
                assert(self.bits() =~= before + zeros((8 - n) as nat));
                assert(self.bits() =~= bytes_bits(self.buffer@));
            }
        } else {
            assert(value_bits(self.current_byte as u64, 0) =~= Seq::<bool>::empty());
            assert(self.bits() =~= bytes_bits(self.buffer@));
            assert(self.bits() =~= self.bits() + zeros(0));
        }
    }

    /// The completed bytes (a partial byte is left out unless padded first).
    pub fn into_bytes(self) -> (r: Vec<u8>)
        ensures
            r@ == self.bytes(),
    {
        self.buffer
    }
}

/// Shifting a bit into the low end of a partial byte appends it.
proof fn lemma_shift_in(cur: u8, n: u8, bit: u8)
    requires
        n < 8,
        (cur as u64) < (1u64 << (n as u64)),
        bit <= 1,
    ensures
        value_bits((((cur << 1u8) | bit) as u64), (n + 1) as nat) =~= value_bits(cur as u64, n as nat).push(
            bit == 1,
        ),
        ((((cur << 1u8) | bit) as u64) < (1u64 << ((n + 1) as u64))),
{
    let nc = (cur << 1u8) | bit;
    assert forall|k: int| 0 <= k < n + 1 implies #[trigger] low_bit(nc as u64, (n + 1) as nat, k)
        == if k < n {
        low_bit(cur as u64, n as nat, k)
    } else {
        bit == 1
    } by {
        let s = (n - k) as u64;
        if k < n {
            let s1 = (n - 1 - k) as u64;
            assert(s == s1 + 1);
            lemma_shift_in_bit(cur, n, bit, s1);
        } else {
            assert(s == 0);
            lemma_shift_in_low(cur, bit);
        }
    }
    lemma_shift_in_bound(cur, n, bit);
}

proof fn lemma_shift_in_bit(cur: u8, n: u8, bit: u8, s1: u64)
    by (bit_vector)
    requires
        n < 8,
        s1 < n,
        bit <= 1,
    ensures
        ((((((cur << 1u8) | bit) as u64) >> (s1 + 1)) & 1u64) == 1u64) == ((((cur as u64) >> s1)
            & 1u64) == 1u64),
{
}

proof fn lemma_shift_in_low(cur: u8, bit: u8)
    by (bit_vector)
    requires
        bit <= 1,
    ensures
        ((((((cur << 1u8) | bit) as u64) >> 0u64) & 1u64) == 1u64) == (bit == 1),
{
}

proof fn lemma_shift_in_bound(cur: u8, n: u8, bit: u8)
    by (bit_vector)
    requires
        n < 8,
        (cur as u64) < (1u64 << (n as u64)),
        bit <= 1,
    ensures
        ((((cur << 1u8) | bit) as u64) < (1u64 << ((n + 1) as u64))),
{
}

/// Padding a partial byte of `n` bits with zeros gives its bits, then
/// `8 - n` zeros.
proof fn lemma_pad(cur: u8, n: u8)
    requires
        0 < n < 8,
        (cur as u64) < (1u64 << (n as u64)),
    ensures
        byte_bits(cur << ((8 - n) as u8)) =~= value_bits(cur as u64, n as nat) + zeros((8 - n) as nat),
{
    let b = cur << ((8 - n) as u8);
    assert forall|k: int| 0 <= k < 8 implies #[trigger] low_bit(b as u64, 8, k) == if k < n {
        low_bit(cur as u64, n as nat, k)
    } else {
        false
    } by {
        let s = (8 - 1 - k) as u64;
        if k < n {
            lemma_pad_high(cur, n, (n - 1 - k) as u64);
            assert(s == (n - 1 - k) as u64 + (8 - n) as u64);
        } else {
            lemma_pad_low(cur, n, s);
        }
    }
}

proof fn lemma_pad_high(cur: u8, n: u8, s1: u64)
    by (bit_vector)
    requires
        0 < n < 8,
        s1 < n,
    ensures
        (((((cur << ((8 - n) as u8)) as u64) >> (s1 + (8 - n) as u64)) & 1u64) == 1u64) == ((((cur as u64)
            >> s1) & 1u64) == 1u64),
{
}

proof fn lemma_pad_low(cur: u8, n: u8, s: u64)
    by (bit_vector)
    requires
        0 < n < 8,
        s < (8 - n) as u64,
    ensures
        (((((cur << ((8 - n) as u8)) as u64) >> s) & 1u64) == 1u64) == false,
{
}

/// What mesh validation reports, with the permitted values spelled out
/// (ISO 32000-1 Table 84): bits per coordinate 1, 2, 4, 8, 12, 16, 24 or 32;
/// bits per component 1, 2, 4, 8, 12 or 16; bits per flag 2, 4 or 8; a
/// `/Decode` array of 6 entries for `DeviceGray`, 12 for `DeviceCMYK` and 10
/// for any other colour space; at least one vertex, the first with flag 0.
/// The checks run in that order and the first that fails is reported; a
/// layout that passes them all is valid.
pub proof fn lemma_mesh_check_explicit(
    color_space: Seq<char>,
    bc: u8,
    bm: u8,
    bf: u8,
    decode_len: usize,
    flags: Seq<u8>,
)
    ensures
        ({
            let coord_ok = bc == 1 || bc == 2 || bc == 4 || bc == 8 || bc == 12 || bc == 16 || bc
                == 24 || bc == 32;
            let comp_ok = bm == 1 || bm == 2 || bm == 4 || bm == 8 || bm == 12 || bm == 16;
            let flag_ok = bf == 2 || bf == 4 || bf == 8;
            let decode_ok = if color_space == "DeviceGray"@ {
                decode_len == 6
            } else if color_space == "DeviceCMYK"@ {
                decode_len == 12
            } else {
                decode_len == 10
            };
            let r = mesh_check(color_space, bc, bm, bf, decode_len, flags);
            &&& (r == Some(MeshErrorKind::BitsPerCoordinate) <==> !coord_ok)
            &&& (r == Some(MeshErrorKind::BitsPerComponent) <==> coord_ok && !comp_ok)
            &&& (r == Some(MeshErrorKind::BitsPerFlag) <==> coord_ok && comp_ok && !flag_ok)
            &&& (r == Some(MeshErrorKind::DecodeLength) <==> coord_ok && comp_ok && flag_ok
                && !decode_ok)
            &&& (r == Some(MeshErrorKind::NoVertices) <==> coord_ok && comp_ok && flag_ok
                && decode_ok && flags.len() == 0)
            &&& (r == Some(MeshErrorKind::FirstFlagNotZero) <==> coord_ok && comp_ok && flag_ok
                && decode_ok && flags.len() > 0 && flags[0] != 0)
            &&& (r is None <==> coord_ok && comp_ok && flag_ok && decode_ok && flags.len() > 0
                && flags[0] == 0)
        }),
{
}

/// A layout is never rejected for a permitted number of bits per coordinate:
/// `validate` reports `BitsPerCoordinate` only for a width outside 1, 2, 4,
/// 8, 12, 16, 24 and 32, and always does for one outside them.
pub proof fn lemma_coordinate_bits_accepted(m: MeshLayout, r: Result<(), MeshError>)
    requires
        match mesh_check(
            m.color_space@,
            m.bits_per_coordinate,
            m.bits_per_component,
            m.bits_per_flag,
            m.decode_len,
            m.vertex_flags@,
        ) {
            None => r is Ok,
            Some(k) => r == Err::<(), MeshError>(mesh_error_of(m, k)),
        },
    ensures
        ({
            let b = m.bits_per_coordinate;
            (r matches Err(MeshError::BitsPerCoordinate(x)) && x == b) <==> !(b == 1 || b == 2 || b
                == 4 || b == 8 || b == 12 || b == 16 || b == 24 || b == 32)
        }),
{
    lemma_mesh_check_explicit(
        m.color_space@,
        m.bits_per_coordinate,
        m.bits_per_component,
        m.bits_per_flag,
        m.decode_len,
        m.vertex_flags@,
    );
}

/// Bits are written most significant first: of the `n` bits written for
/// `v`, the `k`-th is the bit of `v` of weight 2^(n-1-k). So the first bit
/// written is the highest of the `n`, the last is the lowest.
pub proof fn lemma_value_bits_msb_first(v: u64, n: nat, k: int)
    requires
        1 <= n <= 64,
        0 <= k < n,
    ensures
        value_bits(v, n)[k] == ((v & (1u64 << ((n - 1 - k) as u64))) != 0u64),
{
    let sh = (n - 1 - k) as u64;
    assert(((((v >> sh) & 1u64) == 1u64) == ((v & (1u64 << sh)) != 0u64))) by (bit_vector)
        requires
            sh < 64,
    ;
}

} // verus!
