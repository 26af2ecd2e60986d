use tensorpeek::builder;
use tensorpeek::sniff::{detect, Format};

#[test]
fn magic_bytes_identify_each_format() {
    let st = builder::safetensors(&[("t", "F32", &[2])], &[]);
    assert_eq!(
        detect(&st[..16], st.len() as u64, "x.bin"),
        Some(Format::Safetensors)
    );
    let gg = builder::GgufBuilder::demo().build();
    assert_eq!(
        detect(&gg[..16], gg.len() as u64, "x.bin"),
        Some(Format::Gguf)
    );
    let np = builder::npy("<f4", false, &[2]);
    assert_eq!(
        detect(&np[..16], np.len() as u64, "x.bin"),
        Some(Format::Npy)
    );
    let nz = builder::npz(&[("a.npy", builder::npy("<f4", false, &[2]), false)]);
    assert_eq!(
        detect(&nz[..16], nz.len() as u64, "x.bin"),
        Some(Format::Npz)
    );
}

#[test]
fn magic_beats_a_lying_extension() {
    let gg = builder::GgufBuilder::demo().build();
    assert_eq!(
        detect(&gg[..16], gg.len() as u64, "model.safetensors"),
        Some(Format::Gguf)
    );
}

#[test]
fn safetensors_heuristic_requires_a_plausible_length_and_brace() {
    // Header length larger than the file: not safetensors.
    let mut b = u64::MAX.to_le_bytes().to_vec();
    b.push(b'{');
    assert_eq!(detect(&b, 9, "x.bin"), None);
    // Plausible length but no '{': not safetensors.
    let mut b = 8u64.to_le_bytes().to_vec();
    b.push(b'x');
    assert_eq!(detect(&b, 100, "x.bin"), None);
}

#[test]
fn extension_fallback_unknowns_and_name_round_trip() {
    assert_eq!(detect(&[], 0, "weights.npz"), Some(Format::Npz));
    assert_eq!(detect(&[0u8; 16], 16, "model.GGUF"), Some(Format::Gguf));
    assert_eq!(detect(&[0u8; 16], 16, "mystery.bin"), None);
    for f in [Format::Safetensors, Format::Gguf, Format::Npy, Format::Npz] {
        assert_eq!(Format::from_name(f.name()), Some(f));
    }
    assert_eq!(Format::from_name("onnx"), None);
}
