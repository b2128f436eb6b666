//! Packed weights and the manifest's hash.
use tr_infer::codec::{block_q, pack_ref, pad_rows, Codec, STRIP};
use tr_infer::amx_i8::{expand_block, tile_dots, MAX_ROWS};
use tr_infer::gemv::{block_dots, row_groups, rows_per_pass};
use tr_infer::json::{parse, to_compact};
use tr_infer::manifest::canonical;
use tr_infer::sha256::sha256;

#[test]
fn sizes_match_python() {
    assert_eq!(Codec::new(4, 32).block_bytes(), 64 + 256);
    assert_eq!(Codec::new(5, 32).block_bytes(), 64 + 256 + 64);
    assert_eq!(Codec::new(8, 32).block_bytes(), 64 + 512);
    assert_eq!(Codec::new(5, 16).block_bytes(), 64 + 128 + 32);
    assert_eq!(Codec::new(4, 32).matrix_bytes(80, 2560), 5 * 80 * 320);
    assert_eq!(Codec::new(5, 16).matrix_bytes(2560, 80), 160 * 5 * 224);
}

fn f16_to_f32(h: u16) -> f32 {
    half::f16::from_bits(h).to_f32()
}

/// The weights of a packed matrix, row by row.
fn dequant(buf: &[u8], rows: usize, k: usize, c: Codec) -> Vec<f32> {
    let nb = k / c.kb;
    let bb = c.block_bytes();
    let mut out = vec![0f32; rows * k];
    for row in 0..rows {
        let (s, r) = (row / STRIP, row % STRIP);
        for b in 0..nb {
            let blk = &buf[(s * nb + b) * bb..(s * nb + b + 1) * bb];
            let d = f16_to_f32(u16::from_le_bytes([blk[2 * r], blk[2 * r + 1]]));
            let m = f16_to_f32(u16::from_le_bytes([blk[32 + 2 * r], blk[32 + 2 * r + 1]]));
            for kk in 0..c.kb {
                out[row * k + b * c.kb + kk] = d * block_q(blk, c, r, kk) as f32 + m;
            }
        }
    }
    out
}

#[test]
fn pack_ref_roundtrip() {
    for &(bits, kb, rows, k) in &[(4u8, 32usize, 40usize, 64usize), (5, 32, 16, 96), (8, 32, 33, 32), (5, 16, 16, 80), (8, 16, 16, 48)] {
        let c = Codec::new(bits, kb);
        let nb = k / kb;
        let mut seed = 12345u32;
        let mut rnd = || {
            seed = seed.wrapping_mul(1664525).wrapping_add(1013904223);
            seed >> 8
        };
        let q: Vec<u32> = (0..rows * k).map(|_| rnd() % (1 << bits)).collect();
        let d: Vec<u16> = (0..rows * nb).map(|_| half::f16::from_f32((rnd() % 1000) as f32 * 1e-4 + 1e-3).to_bits()).collect();
        let m: Vec<u16> = (0..rows * nb).map(|_| half::f16::from_f32((rnd() % 2000) as f32 * 1e-3 - 1.0).to_bits()).collect();
        let buf = pack_ref(rows, k, c, &q, &d, &m);
        assert_eq!(buf.len(), c.matrix_bytes(rows, k));
        let w = dequant(&buf, rows, k, c);
        for r in 0..rows {
            for kk in 0..k {
                let want = f16_to_f32(d[r * nb + kk / kb]) * q[r * k + kk] as f32 + f16_to_f32(m[r * nb + kk / kb]);
                assert_eq!(w[r * k + kk], want, "bits {bits} kb {kb} [{r}][{kk}]");
            }
        }
    }
}

#[test]
fn rows_are_padded_to_strips() {
    assert_eq!(pad_rows(0), 0);
    assert_eq!(pad_rows(1), 16);
    assert_eq!(pad_rows(16), 16);
    assert_eq!(pad_rows(17), 32);
    assert_eq!(Codec::new(5, 32).q_bytes(), 256);
    assert_eq!(Codec::new(8, 32).strip_bytes(64), 2 * 576);
}

#[test]
fn block_dots_are_exact() {
    for &(bits, kb) in &[(4u8, 32usize), (5, 32), (8, 32), (4, 16), (5, 16), (8, 16)] {
        let c = Codec::new(bits, kb);
        let q: Vec<u32> = (0..16 * kb as u32).map(|i| (i * 7 + 3) % (1 << bits)).collect();
        let buf = pack_ref(16, kb, c, &q, &[0; 16], &[0; 16]);
        let x: Vec<i8> = (0..kb).map(|i| (i as i32 * 11 % 255 - 127) as i8).collect();
        let d = block_dots(&buf, c, &x);
        for r in 0..16 {
            let want: i32 = (0..kb).map(|kk| q[r * kb + kk] as i32 * x[kk] as i32).sum();
            assert_eq!(d[r], want, "bits {bits} kb {kb} row {r}");
        }
    }
    // the largest sums there are
    let c = Codec::new(8, 32);
    let buf = pack_ref(16, 32, c, &[255; 512], &[0; 16], &[0; 16]);
    assert_eq!(block_dots(&buf, c, &[-128; 32])[0], -255 * 128 * 32);
}

#[test]
fn a_tile_gives_the_sums_of_its_block() {
    assert_eq!(MAX_ROWS, 16);
    for &(bits, kb) in &[(4u8, 32usize), (5, 32), (8, 32), (4, 16), (5, 16), (8, 16)] {
        let c = Codec::new(bits, kb);
        let q: Vec<u32> = (0..16 * kb as u32).map(|i| (i * 13 + 5) % (1 << bits)).collect();
        let buf = pack_ref(16, kb, c, &q, &[0; 16], &[0; 16]);
        let tile = expand_block(&buf, c);
        assert_eq!(tile.len(), 16 * kb);
        for r in 0..16 {
            for kk in 0..kb {
                assert_eq!(tile[kk / 4 * 64 + r * 4 + kk % 4] as u32, q[r * kb + kk]);
            }
        }
        let x: Vec<i8> = (0..kb).map(|i| (i as i32 * 29 % 256 - 128) as i8).collect();
        let d = tile_dots(&tile, kb, &x);
        assert_eq!(d, block_dots(&buf, c, &x));
        assert_eq!(d[3], (0..kb).map(|i| q[3 * kb + i] as i32 * x[i] as i32).sum::<i32>());
    }
}

#[test]
fn rows_are_grouped_without_gaps() {
    assert_eq!(rows_per_pass(false), 8);
    assert_eq!(rows_per_pass(true), 4);
    assert_eq!(row_groups(21, 8), vec![(0, 8), (8, 16), (16, 21)]);
    assert_eq!(row_groups(16, 16), vec![(0, 16)]);
    assert!(row_groups(0, 8).is_empty());
}

#[test]
fn sha256_known() {
    let d = sha256(b"abc");
    assert_eq!(d[0], 0xba);
    assert_eq!(d[31], 0xad);
}

#[test]
fn sha256_across_block_boundaries() {
    let hex = |b: &[u8]| sha256(b).iter().map(|x| format!("{x:02x}")).collect::<String>();
    assert_eq!(hex(b""), "e3b0c44298fc1c149afbf4c8996fb92427ae41e4649b934ca495991b7852b855");
    assert_eq!(hex(b"abcdbcdecdefdefgefghfghighijhijkijkljklmklmnlmnomnopnopq"), "248d6a61d20638b8e5c026930c3e6039a33ce45964ff2167f6ecedd419db06c1");
    assert_eq!(hex(&[b'a'; 64]), "ffe054fe7ae0cb6dc65c3af9b61d5209f439851db43d0ba5997337df154668eb");
}

#[test]
fn canonical_form_sorts_keys_at_every_level() {
    let v = parse(br#"{"b":[{"z":1,"a":2}],"a":null}"#).unwrap();
    assert_eq!(to_compact(&canonical(&v)), r#"{"a":null,"b":[{"a":2,"z":1}]}"#);
}
