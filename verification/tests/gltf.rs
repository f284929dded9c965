use claymore::gltf::{
    glb_chunks, mesh_from_doc, read_indices, AccessorJson, AttrsJson, GltfDoc, PrimJson, ViewJson,
};

fn tiny_bin() -> Vec<u8> {
    let mut bin = Vec::new();
    for p in [[0f32, 0.0, 0.0], [1.0, 0.0, 0.0], [0.0, 1.0, 0.0]] {
        for c in p {
            bin.extend_from_slice(&c.to_le_bytes());
        }
    }
    for _ in 0..3 {
        for c in [0f32, 0.0, 1.0] {
            bin.extend_from_slice(&c.to_le_bytes());
        }
    }
    for i in [0u16, 1, 2] {
        bin.extend_from_slice(&i.to_le_bytes());
    }
    while bin.len() % 4 != 0 {
        bin.push(0);
    }
    bin
}

fn glb(json: &[u8], bin: &[u8]) -> Vec<u8> {
    let total = 12 + 8 + json.len() + 8 + bin.len();
    let mut out = Vec::new();
    out.extend_from_slice(b"glTF");
    out.extend_from_slice(&2u32.to_le_bytes());
    out.extend_from_slice(&(total as u32).to_le_bytes());
    out.extend_from_slice(&(json.len() as u32).to_le_bytes());
    out.extend_from_slice(b"JSON");
    out.extend_from_slice(json);
    out.extend_from_slice(&(bin.len() as u32).to_le_bytes());
    out.extend_from_slice(b"BIN\0");
    out.extend_from_slice(bin);
    out
}

fn acc(view: u64, comp: u64, count: u64) -> AccessorJson {
    AccessorJson { count: Some(count), component_type: Some(comp), buffer_view: Some(view), byte_offset: None }
}

fn view(off: u64, len: u64) -> ViewJson {
    ViewJson { byte_offset: Some(off), byte_length: Some(len), byte_stride: None }
}

fn tiny_doc(normal: Option<u64>) -> GltfDoc {
    GltfDoc {
        has_meshes: true,
        primitive: Some(PrimJson {
            attributes: Some(AttrsJson { position: Some(0), normal }),
            indices: Some(2),
        }),
        accessors: Some(vec![acc(0, 5126, 3), acc(1, 5126, 3), acc(2, 5123, 3)]),
        views: Some(vec![view(0, 36), view(36, 36), view(72, 6)]),
    }
}

fn err_text<T>(r: Result<T, claymore::gltf::Error>) -> String {
    match r {
        Ok(_) => panic!("expected an error"),
        Err(e) => e.message().to_string(),
    }
}

#[test]
fn tiny_glb_splits_into_json_and_bin() {
    let bin = tiny_bin();
    let mut json = b"{\"asset\":{\"version\":\"2.0\"}}".to_vec();
    json.extend_from_slice(b"  \0\0");
    let bytes = glb(&json, &bin);
    let (j, b) = glb_chunks(&bytes).expect("split tiny GLB");
    assert_eq!(j, "{\"asset\":{\"version\":\"2.0\"}}");
    assert_eq!(b, &bin[..]);
    let mesh = mesh_from_doc(&tiny_doc(Some(1)), b).expect("read tiny mesh");
    assert_eq!(mesh.positions.len(), 3);
    assert_eq!(mesh.normals.len(), 3);
    assert_eq!(mesh.indices, vec![0, 1, 2]);
    assert_eq!(mesh.positions[1], (1f32.to_bits(), 0, 0));
    assert_eq!(mesh.normals[2], (0, 0, 1f32.to_bits()));
}

#[test]
fn glb_header_errors() {
    assert_eq!(err_text(glb_chunks(b"glTF")), "glb too short");
    let mut bytes = glb(b"{}  ", &[]);
    bytes[0] = b'x';
    assert_eq!(err_text(glb_chunks(&bytes)), "missing glTF magic");
    let mut bytes = glb(b"{}  ", &[]);
    bytes[4] = 3;
    assert_eq!(err_text(glb_chunks(&bytes)), "unsupported glTF version 3");
    let mut bytes = glb(b"{}  ", &[]);
    bytes[8] = 0xff;
    bytes[9] = 0xff;
    assert_eq!(err_text(glb_chunks(&bytes)), "glb length exceeds buffer");
    let mut bytes = glb(b"{}  ", &[]);
    bytes[12] = 200;
    assert_eq!(err_text(glb_chunks(&bytes)), "chunk overrun");
    let mut bytes = glb(b"{}  ", &[1, 2, 3, 4]);
    bytes[16] = b'X';
    assert_eq!(err_text(glb_chunks(&bytes)), "no JSON chunk");
    let bytes = glb(&[0xff, 0xfe, 0x20, 0x20], &[]);
    assert!(err_text(glb_chunks(&bytes)).contains("utf-8"));
}

#[test]
fn mesh_errors_and_default_normals() {
    let bin = tiny_bin();
    let mesh = mesh_from_doc(&tiny_doc(None), &bin).expect("no normals is fine");
    assert_eq!(mesh.normals, vec![(0, 1f32.to_bits(), 0); 3]);
    let mut d = tiny_doc(None);
    d.has_meshes = false;
    assert_eq!(err_text(mesh_from_doc(&d, &bin)), "no meshes");
    let mut d = tiny_doc(None);
    d.primitive = None;
    assert_eq!(err_text(mesh_from_doc(&d, &bin)), "no primitives");
    let mut d = tiny_doc(None);
    d.views = None;
    assert_eq!(err_text(mesh_from_doc(&d, &bin)), "no bufferViews");
    let mut d = tiny_doc(None);
    d.primitive = Some(PrimJson { attributes: Some(AttrsJson { position: Some(9), normal: None }), indices: Some(2) });
    assert_eq!(err_text(mesh_from_doc(&d, &bin)), "accessor OOB");
    let mut d = tiny_doc(None);
    d.accessors = Some(vec![acc(0, 5126, 7), acc(1, 5126, 3), acc(2, 5123, 3)]);
    assert_eq!(err_text(mesh_from_doc(&d, &bin)), "vec3 overrun");
    let mut d = tiny_doc(None);
    d.accessors = Some(vec![acc(0, 5126, 3), acc(1, 5126, 3), acc(2, 5126, 3)]);
    assert_eq!(err_text(mesh_from_doc(&d, &bin)), "bad index componentType 5126");
    let mut d = tiny_doc(None);
    d.views = Some(vec![view(0, 36), view(36, 36), view(72, 600)]);
    assert_eq!(err_text(mesh_from_doc(&d, &bin)), "buffer overrun");
    let mut d = tiny_doc(None);
    d.accessors = Some(vec![acc(0, 5126, 0), acc(1, 5126, 3), acc(2, 5123, 3)]);
    assert_eq!(err_text(mesh_from_doc(&d, &bin)), "empty positions");
    let accs = [acc(0, 5121, 3), acc(0, 5125, 2)];
    let views = [view(0, 8)];
    assert_eq!(read_indices(&accs, &views, &[7, 8, 9, 0, 1, 0, 0, 1], 0).unwrap(), vec![7, 8, 9]);
    assert_eq!(read_indices(&accs, &views, &[7, 8, 9, 0, 1, 0, 0, 1], 1).unwrap(), vec![0x0009_0807, 0x0100_0001]);
}
