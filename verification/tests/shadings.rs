//! Bit packing of mesh vertex streams, colour component counts and shading
//! type numbers.

use oxidize_pdf_core::shading::{n_components, BitWriter, ShadingType};

#[test]
fn test_bitwriter_single_value_byte_aligned() {
    // 4 bits 0b1011 then pad to a byte → 0b1011_0000.
    let mut w = BitWriter::new();
    w.write_bits(0b1011, 4);
    w.align_to_byte();
    assert_eq!(w.into_bytes(), vec![0xB0]);
}

#[test]
fn test_bitwriter_value_spans_two_bytes() {
    // 9-bit value 0x1FF crosses the byte boundary: 1111_1111 | 1___ then pad.
    let mut w = BitWriter::new();
    w.write_bits(0b1_1111_1111, 9);
    w.align_to_byte();
    assert_eq!(w.into_bytes(), vec![0xFF, 0x80]);
}

#[test]
fn test_bitwriter_accumulates_across_writes() {
    // 0b10 then 0b110 → 0b10110, padded to 0b1011_0000.
    let mut w = BitWriter::new();
    w.write_bits(0b10, 2);
    w.write_bits(0b110, 3);
    w.align_to_byte();
    assert_eq!(w.into_bytes(), vec![0xB0]);
}

#[test]
fn bitwriter_keeps_only_the_low_bits() {
    // Only the low 4 bits of 0xFA (0b1010) are written.
    let mut w = BitWriter::new();
    w.write_bits(0xFA, 4);
    w.write_bits(0x5, 4);
    assert_eq!(w.into_bytes(), vec![0xA5]);
}

#[test]
fn bitwriter_full_width_value() {
    let mut w = BitWriter::new();
    w.write_bits(0x0123_4567_89AB_CDEF, 64);
    assert_eq!(
        w.into_bytes(),
        vec![0x01, 0x23, 0x45, 0x67, 0x89, 0xAB, 0xCD, 0xEF]
    );
}

#[test]
fn bitwriter_partial_byte_is_not_emitted_before_padding() {
    let mut w = BitWriter::new();
    w.write_bits(0b101, 3);
    assert_eq!(w.into_bytes(), Vec::<u8>::new());
}

#[test]
fn bitwriter_align_on_boundary_adds_nothing() {
    let mut w = BitWriter::new();
    w.write_bits(0xAB, 8);
    w.align_to_byte();
    w.align_to_byte();
    assert_eq!(w.into_bytes(), vec![0xAB]);
}

#[test]
fn bitwriter_zero_width_write_is_a_no_op() {
    let mut w = BitWriter::new();
    w.write_bits(0xFFFF, 0);
    w.write_bits(0b1, 1);
    w.align_to_byte();
    assert_eq!(w.into_bytes(), vec![0x80]);
}

#[test]
fn n_components_per_device_space() {
    assert_eq!(n_components("DeviceGray"), 1);
    assert_eq!(n_components("DeviceRGB"), 3);
    assert_eq!(n_components("DeviceCMYK"), 4);
    assert_eq!(n_components("Lab"), 3);
}

#[test]
fn shading_type_numbers() {
    assert_eq!(ShadingType::FunctionBased.number(), 1);
    assert_eq!(ShadingType::Axial.number(), 2);
    assert_eq!(ShadingType::Radial.number(), 3);
    assert_eq!(ShadingType::FreeFormGouraud.number(), 4);
    assert_eq!(ShadingType::LatticeFormGouraud.number(), 5);
    assert_eq!(ShadingType::CoonsPatch.number(), 6);
    assert_eq!(ShadingType::TensorProductPatch.number(), 7);
}

use oxidize_pdf_core::shading::{MeshError, MeshLayout};

/// The layout of three RGB vertices with flags 0, 1, 1 and default widths.
fn sample_rgb_layout() -> MeshLayout {
    MeshLayout {
        color_space: "DeviceRGB".to_string(),
        bits_per_coordinate: 16,
        bits_per_component: 8,
        bits_per_flag: 8,
        decode_len: 10,
        vertex_flags: vec![0, 1, 1],
    }
}

#[test]
fn mesh_layout_valid() {
    assert_eq!(sample_rgb_layout().validate(), Ok(()));
}

#[test]
fn mesh_layout_rejects_invalid_bits() {
    let mut m = sample_rgb_layout();
    m.bits_per_coordinate = 5;
    assert_eq!(m.validate(), Err(MeshError::BitsPerCoordinate(5)));
    assert_eq!(
        MeshError::BitsPerCoordinate(5).message(),
        "BitsPerCoordinate must be 1,2,4,8,12,16,24 or 32, got 5"
    );

    let mut m = sample_rgb_layout();
    m.bits_per_component = 3;
    assert_eq!(m.validate(), Err(MeshError::BitsPerComponent(3)));

    let mut m = sample_rgb_layout();
    m.bits_per_flag = 3;
    assert_eq!(m.validate(), Err(MeshError::BitsPerFlag(3)));
    assert_eq!(
        MeshError::BitsPerFlag(3).message(),
        "BitsPerFlag must be 2, 4 or 8, got 3"
    );
}

#[test]
fn mesh_layout_rejects_decode_length_mismatch() {
    let mut m = sample_rgb_layout();
    m.decode_len = 8;
    let err = m.validate().unwrap_err();
    assert_eq!(
        err,
        MeshError::DecodeLength {
            expected: 10,
            color_space: "DeviceRGB".to_string(),
            actual: 8
        }
    );
    assert_eq!(err.message(), "Decode must have 10 entries for DeviceRGB, got 8");

    let mut g = sample_rgb_layout();
    g.color_space = "DeviceGray".to_string();
    g.decode_len = 6;
    assert_eq!(g.validate(), Ok(()));
}

#[test]
fn mesh_layout_rejects_empty_vertices() {
    let mut m = sample_rgb_layout();
    m.vertex_flags.clear();
    assert_eq!(m.validate(), Err(MeshError::NoVertices));
    assert_eq!(
        MeshError::NoVertices.message(),
        "Mesh shading must have at least one vertex"
    );
}

#[test]
fn mesh_layout_rejects_nonzero_first_flag() {
    let mut m = sample_rgb_layout();
    m.vertex_flags[0] = 1;
    assert_eq!(m.validate(), Err(MeshError::FirstFlagNotZero));
    assert_eq!(
        MeshError::FirstFlagNotZero.message(),
        "First mesh vertex must have edge flag 0"
    );
}

#[test]
fn mesh_layout_reports_the_first_failed_check() {
    let m = MeshLayout {
        color_space: "DeviceCMYK".to_string(),
        bits_per_coordinate: 7,
        bits_per_component: 7,
        bits_per_flag: 7,
        decode_len: 0,
        vertex_flags: vec![],
    };
    assert_eq!(m.validate(), Err(MeshError::BitsPerCoordinate(7)));
}
