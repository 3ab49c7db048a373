use inkline::geometry::{GpuGeometry, GpuVertex};
use inkline::model::BlendMode;
use inkline::raster::{
    alpha_blend, buffer_size_to_allocate, color_blend, layer_needs_redraw, padded_bytes_per_row,
    unpad_rows, BlendFactor, BlendOperation,
};
use inkline::storage::{
    decode_recent_projects, encode_recent_projects, pack_project, remember_project,
    unpack_project, MAX_RECENT_PROJECTS,
};

fn vertex(x: u32) -> GpuVertex {
    GpuVertex { position: [x, x], color: [0, 0, 0, 0] }
}

#[test]
fn append_offsets_indices() {
    let mut geometry = GpuGeometry { vertices: vec![vertex(0), vertex(1)], indices: vec![0, 1, 1] };
    let other = GpuGeometry {
        vertices: vec![vertex(2), vertex(3), vertex(4)],
        indices: vec![0, 1, 2],
    };
    geometry.append(other);
    assert_eq!(geometry.vertices.len(), 5);
    assert_eq!(geometry.indices, vec![0, 1, 1, 2, 3, 4]);
    let mut empty = GpuGeometry::new();
    empty.append(geometry.clone());
    assert_eq!(empty, geometry);
}

#[test]
fn blend_equations() {
    let multiply = color_blend(BlendMode::Multiply);
    assert_eq!(multiply.src_factor, BlendFactor::Dst);
    assert_eq!(multiply.dst_factor, BlendFactor::Zero);
    let subtract = color_blend(BlendMode::Subtract);
    assert_eq!(subtract.operation, BlendOperation::Subtract);
    assert_eq!(color_blend(BlendMode::Normal), alpha_blend());
    assert_eq!(color_blend(BlendMode::Screen).src_factor, BlendFactor::OneMinusDst);
}

#[test]
fn redraw_decision() {
    assert!(layer_needs_redraw(true, false, false, false));
    assert!(layer_needs_redraw(false, true, true, false));
    assert!(!layer_needs_redraw(false, true, false, false));
    assert!(layer_needs_redraw(false, false, false, true));
    assert!(!layer_needs_redraw(false, false, true, false));
}

#[test]
fn buffer_sizes() {
    assert_eq!(buffer_size_to_allocate(4, 0), None);
    assert_eq!(buffer_size_to_allocate(0, 2), Some(4));
    assert_eq!(buffer_size_to_allocate(100, 120), Some(120));
    assert_eq!(buffer_size_to_allocate(120, 120), None);
}

#[test]
fn rows_are_padded_to_256_bytes() {
    assert_eq!(padded_bytes_per_row(64), Some(256));
    assert_eq!(padded_bytes_per_row(65), Some(512));
    assert_eq!(padded_bytes_per_row(1), Some(256));
    assert_eq!(padded_bytes_per_row(0), Some(0));
    assert_eq!(padded_bytes_per_row(u32::MAX / 2), None);
}

#[test]
fn unpadding_drops_the_row_padding() {
    let mapped: Vec<u8> = (0..12u8).collect();
    let rgba = unpad_rows(&mapped, 1, 3, 4);
    assert_eq!(rgba, mapped);
    let mapped: Vec<u8> = (0..20u8).collect();
    let rgba = unpad_rows(&mapped, 1, 2, 8);
    assert_eq!(rgba, vec![0, 1, 2, 3, 8, 9, 10, 11]);
    assert!(unpad_rows(&mapped, 1, 0, 8).is_empty());
}

#[test]
fn project_bytes_round_trip() {
    let serialized: Vec<u8> = b"inkline inkline inkline inkline".to_vec();
    let packed = pack_project(&serialized).unwrap();
    assert_ne!(packed, serialized);
    assert_eq!(unpack_project(&packed).unwrap(), serialized);
    assert!(unpack_project(b"not a zlib stream").is_none());
}

#[test]
fn recent_projects_encoding_round_trip() {
    let projects = vec!["a.bin".to_string(), "b.bin".to_string()];
    let bytes = encode_recent_projects(&projects).unwrap();
    assert_ne!(bytes, b"a.binb.bin".to_vec());
    assert_eq!(decode_recent_projects(&bytes).unwrap(), projects);
    assert!(decode_recent_projects(&[1, 2, 3]).is_none());
}

#[test]
fn remembering_moves_a_project_to_the_front() {
    let mut recent: Vec<String> = Vec::new();
    remember_project(&mut recent, "   ");
    assert!(recent.is_empty());
    remember_project(&mut recent, "  a.bin  ");
    remember_project(&mut recent, "b.bin");
    remember_project(&mut recent, "a.bin");
    assert_eq!(recent, vec!["a.bin".to_string(), "b.bin".to_string()]);
    for k in 0..20 {
        remember_project(&mut recent, &format!("p{k}.bin"));
    }
    assert_eq!(recent.len(), MAX_RECENT_PROJECTS);
    assert_eq!(recent[0], "p19.bin");
}

#[test]
fn remembered_list_never_repeats_a_path() {
    let mut recent: Vec<String> = Vec::new();
    for k in 0..30 {
        remember_project(&mut recent, &format!("p{}.bin", k % 7));
        let mut sorted = recent.clone();
        sorted.sort();
        sorted.dedup();
        assert_eq!(sorted.len(), recent.len());
        assert!(recent.len() <= MAX_RECENT_PROJECTS);
        assert_eq!(recent[0], format!("p{}.bin", k % 7));
    }
    assert_eq!(recent.len(), 7);
}

#[test]
fn remembering_trims_unicode_whitespace() {
    let mut recent: Vec<String> = Vec::new();
    remember_project(&mut recent, "\u{3000}\u{a0} x.bin\t\n");
    assert_eq!(recent, vec!["x.bin".to_string()]);
    remember_project(&mut recent, "\u{2028}\u{85}");
    assert_eq!(recent, vec!["x.bin".to_string()]);
}

#[test]
fn recent_projects_are_stored_as_counted_utf8_strings() {
    let bytes = encode_recent_projects(&vec!["ab".to_string(), "é".to_string()]).unwrap();
    let mut expected = vec![2, 0, 0, 0, 0, 0, 0, 0];
    expected.extend_from_slice(&[2, 0, 0, 0, 0, 0, 0, 0, b'a', b'b']);
    expected.extend_from_slice(&[2, 0, 0, 0, 0, 0, 0, 0, 0xc3, 0xa9]);
    assert_eq!(bytes, expected);
}
