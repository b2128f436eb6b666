//! The pack manifest: what makes one sound, and what it answers.
use tr_infer::json::{parse, to_compact, Json};
use tr_infer::manifest::{canonical, FileEntry, Manifest, ManifestError, Shard, TensorEntry, TensorKind, FORMAT_VERSION};
use tr_infer::sha256::sha256;

fn json(s: &str) -> Json {
    parse(s.as_bytes()).unwrap()
}

fn tensor(name: &str, tile: Option<usize>, kind: TensorKind, nbytes: usize) -> TensorEntry {
    TensorEntry {
        name: name.to_string(),
        tile,
        kind,
        shard: Shard { kind: "full".to_string(), ranges: vec![], start: 0, len: 0 },
        bits: 4,
        kb: 32,
        count: 1,
        layer: None,
        rows: 16,
        k: 64,
        stride: nbytes,
        nbytes,
        file: "a.bin".to_string(),
        offset: 0,
        shape: vec![2, 3],
        row_bytes: 5,
    }
}

/// A manifest of one file of 1000 bytes, with the hash that its identity has.
fn manifest(tensors: Vec<TensorEntry>) -> Manifest {
    let identity = json("{\"b\":[1,2],\"a\":\"x\"}");
    let digest = sha256(to_compact(&canonical(&identity)).as_bytes());
    let hash: String = digest[..8].iter().map(|b| format!("{b:02x}")).collect();
    Manifest {
        format_version: FORMAT_VERSION,
        hash,
        identity,
        source_gguf: "m.gguf".to_string(),
        shards: vec![],
        config: vec![
            ("architecture".to_string(), json("\"qwen\"")),
            ("qwen.layers".to_string(), json("48")),
            ("qwen.eps".to_string(), json("0.5")),
            ("qwen.sections".to_string(), json("[11,11,10,\"x\"]")),
        ],
        chat_template: String::new(),
        n_tiles: 2,
        layer_ids: vec![0],
        n_expert_packed: 0,
        n_vocab: 10,
        files: vec![FileEntry { name: "a.bin".to_string(), bytes: 1000 }],
        tokenizer: "tok.json".to_string(),
        tensors,
        overlay_of: None,
    }
}

/// The verdict on one tensor in a file that is as large as it should be.
fn verdict(t: TensorEntry) -> Result<(), ManifestError> {
    manifest(vec![t]).validate(&vec![Some(1000)])
}

#[test]
fn a_sound_manifest_passes() {
    // a strip of two blocks of 4 bits: two headers and two halves of 256 bytes
    assert!(verdict(tensor("w", Some(0), TensorKind::Tq, 640)).is_ok());
    assert!(verdict(tensor("n", None, TensorKind::F32, 24)).is_ok());
    assert!(verdict(tensor("e", None, TensorKind::Iq4nlRows, 80)).is_ok());
    let mut t = tensor("v", None, TensorKind::Bf16Strips, 0);
    t.rows = 3;
    t.k = 32;
    t.nbytes = 16 * 32 * 2;
    let mut m = manifest(vec![t]);
    m.files[0].bytes = 2000;
    assert!(m.validate(&vec![Some(2000)]).is_ok());
}

#[test]
fn every_flaw_is_told() {
    let mut m = manifest(vec![]);
    m.format_version = 1;
    assert!(matches!(m.validate(&vec![Some(1000)]), Err(ManifestError::FormatVersion { found: 1 })));
    let mut m = manifest(vec![]);
    let right = m.hash.clone();
    m.hash = "00".to_string();
    match m.validate(&vec![Some(1000)]) {
        Err(ManifestError::Hash { computed }) => assert_eq!(computed, right),
        other => panic!("{other:?}"),
    }
    let m = manifest(vec![]);
    assert!(matches!(m.validate(&vec![None]), Err(ManifestError::Stat { file: 0 })));
    assert!(matches!(m.validate(&vec![Some(999)]), Err(ManifestError::FileSize { file: 0, found: 999 })));
    let mut t = tensor("n", None, TensorKind::F32, 24);
    t.file = "b.bin".to_string();
    assert!(matches!(verdict(t), Err(ManifestError::UnknownFile { tensor: 0 })));
    let mut t = tensor("n", None, TensorKind::F32, 24);
    t.offset = 977;
    assert!(matches!(verdict(t), Err(ManifestError::Beyond { tensor: 0 })));
    let mut t = tensor("w", None, TensorKind::Tq, 640);
    t.bits = 3;
    assert!(matches!(verdict(t), Err(ManifestError::Codec { tensor: 0 })));
    assert!(matches!(verdict(tensor("w", None, TensorKind::Tq, 641)), Err(ManifestError::TqSize { tensor: 0 })));
    let mut t = tensor("w", None, TensorKind::Tq, 640);
    t.k = 65;
    assert!(matches!(verdict(t), Err(ManifestError::TqColumns { tensor: 0 })));
    assert!(matches!(verdict(tensor("n", None, TensorKind::F32, 25)), Err(ManifestError::F32Size { tensor: 0 })));
    assert!(matches!(verdict(tensor("e", None, TensorKind::Iq4nlRows, 81)), Err(ManifestError::Iq4nlSize { tensor: 0 })));
    assert!(matches!(verdict(tensor("v", None, TensorKind::Bf16Strips, 81)), Err(ManifestError::Bf16Strips { tensor: 0 })));
}

#[test]
fn the_manifest_answers_for_its_configuration_and_tensors() {
    let m = manifest(vec![
        tensor("w", Some(0), TensorKind::Tq, 640),
        tensor("w", Some(1), TensorKind::Tq, 640),
        tensor("n", None, TensorKind::F32, 24),
        tensor("u", Some(1), TensorKind::Tq, 640),
    ]);
    assert_eq!(m.arch(), "qwen");
    assert_eq!(m.cfg_u64("layers"), Some(48));
    assert_eq!(m.cfg_u64("eps"), None);
    assert_eq!(m.cfg_u64("absent"), None);
    assert_eq!(m.cfg_arr_u64("sections"), vec![11, 11, 10]);
    assert!(m.cfg_arr_u64("absent").is_empty());
    assert_eq!(m.tensor("w", Some(1)).unwrap().tile, Some(1));
    assert!(m.tensor("w", None).is_none());
    assert!(m.tensor("n", None).is_some());
    assert_eq!(m.tensors_on_tile(1), vec![1, 3]);
    assert_eq!(m.shared_tensors(), vec![2]);
    assert_eq!(m.bytes_on_tile(1), 1280);
    assert_eq!(m.bytes_on_tile(7), 0);
    assert_eq!(m.tensors[0].codec().block_bytes(), 320);
}

#[test]
fn complaints_name_what_is_wrong() {
    let told = |m: Manifest, size: Option<u64>| m.complaint(&m.validate(&vec![size]).unwrap_err());
    let of = |t: TensorEntry| told(manifest(vec![t]), Some(1000));
    let mut m = manifest(vec![]);
    m.format_version = 1;
    assert_eq!(told(m, Some(1000)), "pack format_version 1 != 2");
    let mut m = manifest(vec![]);
    let right = std::mem::replace(&mut m.hash, "0".to_string());
    assert_eq!(told(m, Some(1000)), format!("manifest hash mismatch: 0 != computed {right}"));
    assert_eq!(told(manifest(vec![]), None), "stat a.bin");
    assert_eq!(told(manifest(vec![]), Some(999)), "a.bin: size 999 != manifest 1000");
    let mut t = tensor("w", None, TensorKind::F32, 24);
    t.file = "b.bin".to_string();
    assert_eq!(of(t), "w: unknown file b.bin");
    let mut t = tensor("w", None, TensorKind::F32, 24);
    t.offset = 977;
    assert_eq!(of(t), "w: section beyond end of a.bin");
    let mut t = tensor("w", None, TensorKind::Tq, 640);
    t.bits = 3;
    assert_eq!(of(t), "w: no codec of 3 bits in blocks of 32");
    assert_eq!(of(tensor("w", None, TensorKind::Tq, 641)), "w: tq size mismatch (manifest 641 vs codec 640)");
    let mut t = tensor("w", None, TensorKind::Tq, 640);
    t.rows = usize::MAX;
    assert_eq!(of(t), "w: tq size mismatch (manifest 640 vs codec too many)");
    let mut t = tensor("w", None, TensorKind::Tq, 640);
    t.k = 65;
    assert_eq!(of(t), "w: k 65 not a multiple of kb 32");
    assert_eq!(of(tensor("n", None, TensorKind::F32, 25)), "n: f32 size mismatch");
    assert_eq!(of(tensor("e", None, TensorKind::Iq4nlRows, 81)), "e: iq4nl size mismatch");
    assert_eq!(of(tensor("v", None, TensorKind::Bf16Strips, 81)), "v: bf16 strips size mismatch (rows 16 k 64 nbytes 81)");
}
