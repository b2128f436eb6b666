//! Routing, sparse selection, hashing and tiles.
use tr_infer::amx::{strip_lines, tile_plan, tile_rows, unpacked_place, TileRows};
use tr_infer::attn::{in_view, window_rows, Bf16};
use tr_infer::iq4nl::{block_scale, row_values, KVALUES};
use tr_infer::order::{order_key, LEAST};
use tr_infer::ple::PleHash;
use tr_infer::qsa::{is_sparse, n_complete_blocks, select_ranges};
use tr_infer::quant::QAct;
use tr_infer::rope::{component, pair_entries, pair_position};
use tr_infer::router::{topk_sorted, MassBasis, MoeArgs, MoePolicy, MOE_K_MAX};

fn keys(x: &[f32]) -> Vec<i64> {
    x.iter().map(|v| order_key(v.to_bits()).unwrap_or(LEAST - 1)).collect()
}

#[test]
fn keys_order_as_the_numbers_do() {
    let x = [f32::NEG_INFINITY, f32::MIN, -1.5, -f32::MIN_POSITIVE, -1e-45, -0.0, 0.0, 1e-45, 1.0, 1.0000001, f32::MAX, f32::INFINITY];
    for a in x {
        for b in x {
            let (ka, kb) = (order_key(a.to_bits()).unwrap(), order_key(b.to_bits()).unwrap());
            assert_eq!(a < b, ka < kb, "{a} {b}");
            assert_eq!(a == b, ka == kb, "{a} {b}");
        }
    }
    assert_eq!(order_key(f32::NEG_INFINITY.to_bits()), Some(LEAST));
    assert_eq!(order_key(f32::NAN.to_bits()), None);
    assert_eq!(order_key((-f32::NAN).to_bits()), None);
}

#[test]
fn eos_cuts_window_and_hash_is_deterministic() {
    let h = PleHash { ngram: 3, per_gram: 2, eos: 9, mult: vec![23703573157769, 20109073645365, 8052911324071], offsets: vec![0, 100, 200, 300], vocab: vec![97, 89, 83, 79] };
    let mut a = [0u32; 4];
    let mut b = [0u32; 4];
    h.rows(5, &[3, 4], &mut a);
    h.rows(5, &[3, 4], &mut b);
    assert_eq!(a, b);
    // with EOS at i-1 the whole history is EOS, same as no history
    h.rows(5, &[3, 9], &mut a);
    h.rows(5, &[], &mut b);
    assert_eq!(a, b);
    for (i, r) in a.iter().enumerate() {
        assert!(*r as u64 >= h.offsets[i] && (*r as u64) < h.offsets[i] + h.vocab[i]);
    }
}

#[test]
fn hash_rows_by_hand() {
    let h = PleHash { ngram: 3, per_gram: 1, eos: 9, mult: vec![3, 5, 7], offsets: vec![10, 20], vocab: vec![1000, 1000] };
    assert_eq!(h.n_heads(), 2);
    let mut out = [0u32; 3];
    out[2] = 77;
    h.rows(2, &[4, 6], &mut out);
    // two tokens: 2*3 ^ 6*5; three: that ^ 4*7
    assert_eq!(out, [(6 ^ 30) + 10, (6 ^ 30 ^ 28) + 20, 77]);
}

#[test]
fn dense_below_width() {
    let mut rg = Vec::new();
    assert!(!select_ranges(&vec![0; 512], 2050, 4, 2048, &mut rg));
    assert_eq!(rg, vec![(0, 2051)]);
}

#[test]
fn sparse_picks_best_blocks_and_tail() {
    // r = 4, top_k = 8: width 11. pos = 22 -> n_kv 23, tail_start 20 (tail 3), 5 complete blocks,
    // slots 8 -> 2 whole blocks, no partial.
    let scores = [0.5, 3.0, 0.0, 3.0, 1.0];
    let mut rg = Vec::new();
    assert!(select_ranges(&keys(&scores), 22, 4, 8, &mut rg));
    assert_eq!(rg, vec![(4, 4), (12, 4), (20, 3)]);
    // pos = 23 -> n_kv 24, tail 0, 6 blocks, slots 11 -> 2 whole + 3 of the third best (block 4)
    let scores = [0.5, 3.0, 0.0, 3.0, 1.0, 0.7];
    assert!(select_ranges(&keys(&scores), 23, 4, 8, &mut rg));
    assert_eq!(rg, vec![(4, 4), (12, 7)]); // 12..16 whole, 16..19 partial (merged)
    // ties: lowest index wins
    let scores = [1.0, 1.0, 1.0, 1.0, 1.0, 1.0];
    assert!(select_ranges(&keys(&scores), 23, 4, 8, &mut rg));
    assert_eq!(rg, vec![(0, 11)]);
}

#[test]
fn sparse_selection_always_has_its_width() {
    assert_eq!(n_complete_blocks(22, 4), 5);
    assert!(!is_sparse(10, 4, 8));
    assert!(is_sparse(11, 4, 8));
    let mut rg = Vec::new();
    for pos in 11..200usize {
        let scores: Vec<i64> = (0..60).map(|i| (i * 37 + 11) % 23).collect();
        assert!(select_ranges(&scores, pos, 4, 8, &mut rg));
        assert_eq!(rg.iter().map(|r| r.1).sum::<u32>(), 11);
        assert!(rg.windows(2).all(|w| w[0].0 + w[0].1 < w[1].0));
        assert!(rg.iter().all(|r| (r.0 + r.1) as usize <= pos + 1));
    }
    // nothing but the tail
    assert!(select_ranges(&[5], 4, 4, 0, &mut rg) == is_sparse(4, 4, 0));
}

/// Cumulative softmax masses of sorted logits against a denominator over `of`.
fn reached(top: &[f32], of: &[f32], mass: f32) -> Vec<bool> {
    let mx = top[0];
    let denom: f32 = of.iter().map(|v| (v - mx).exp()).sum();
    let mut acc = 0f32;
    top.iter()
        .map(|v| {
            acc += (v - mx).exp() / denom;
            acc >= mass
        })
        .collect()
}

fn route_mass(logits: &[f32], p: &MoePolicy<f32>) -> (usize, Vec<u32>) {
    let top = topk_sorted(&keys(logits), p.max, LEAST);
    let v: Vec<f32> = top.iter().map(|s| logits[s.index as usize]).collect();
    let r = match p.basis {
        MassBasis::All => reached(&v, logits, p.mass),
        MassBasis::Top => reached(&v, &v, p.mass),
    };
    let n = p.experts(p.mass.to_bits(), &r);
    (n, top[..n].iter().map(|s| s.index).collect())
}

fn route_topk(logits: &[f32], k: usize) -> Vec<u32> {
    topk_sorted(&keys(logits), k, LEAST).iter().map(|s| s.index).collect()
}

#[test]
fn stops_at_the_target_mass_within_bounds() {
    // peaked: 0.61 / 0.19 / 0.09 / 0.05 / 0.025 / 0.015 / ... as in the design note
    let mut logits = vec![-12.0f32; 512];
    for (i, p) in [0.61f32, 0.19, 0.09, 0.05, 0.025, 0.015].iter().enumerate() {
        logits[i * 7] = p.ln();
    }
    let mx = logits.iter().cloned().fold(f32::NEG_INFINITY, f32::max);
    let sum: f32 = logits.iter().map(|v| (v - mx).exp()).sum();
    let pr: Vec<f32> = logits.iter().map(|v| (v - mx).exp() / sum).collect();
    let pol = MoePolicy { min: 1, max: 10, mass: 0.95, basis: MassBasis::All };
    let (n, ids) = route_mass(&logits, &pol);
    // the 506 background experts hold ~0.3 % of the mass: four experts reach 0.95
    let cum: Vec<f32> = (1..=6).map(|k| pr[..].iter().enumerate().filter(|(i, _)| i % 7 == 0 && i / 7 < k).map(|(_, &p)| p).sum()).collect();
    let expect = cum.iter().position(|&m| m >= 0.95).unwrap() + 1;
    assert_eq!(n, expect);
    assert_eq!(&ids[..n], &(0..n as u32).map(|i| i * 7).collect::<Vec<_>>()[..]);
    assert_eq!(ids, route_topk(&logits, n));
    // floor and cap
    let all = |min, max, mass| MoePolicy { min, max, mass, basis: MassBasis::All };
    assert_eq!(route_mass(&logits, &all(8, 10, 0.5)).0, 8);
    assert_eq!(route_mass(&logits, &all(1, 3, 0.999)).0, 3);
    assert_eq!(route_mass(&logits, &all(1, 32, 1.0)).0, 32);
    // flat: every expert ~ 1/512, so 0.95 needs the cap
    let flat = vec![0.5f32; 512];
    let (n, ids) = route_mass(&flat, &all(1, 10, 0.95));
    assert_eq!(n, 10);
    assert_eq!(&ids[..10], &(0..10u32).collect::<Vec<_>>()[..]); // ties: lowest index first
    // relative to the top-max candidates: the flat router needs 10 of 10 for 0.95 too, but the
    // peaked one stops where the renormalised top-10 weights reach the target
    let top = |min, max, mass| MoePolicy { min, max, mass, basis: MassBasis::Top };
    assert_eq!(route_mass(&flat, &top(1, 10, 0.95)).0, 10);
    assert_eq!(route_mass(&flat, &top(1, 10, 0.05)).0, 1);
    let tid = route_topk(&logits, 10);
    let tw: Vec<f32> = {
        let e: Vec<f32> = tid.iter().map(|&i| (logits[i as usize] - mx).exp()).collect();
        let s: f32 = e.iter().sum();
        e.iter().map(|v| v / s).collect()
    };
    let mut acc = 0f32;
    let expect = tw.iter().position(|&x| { acc += x; acc >= 0.9 }).unwrap() + 1;
    let (n, ids) = route_mass(&logits, &top(1, 10, 0.9));
    assert_eq!(n, expect);
    assert_eq!(&ids[..expect], &tid[..expect]);
    // min = max = k reproduces the top k exactly (either basis)
    let logits: Vec<f32> = (0..512).map(|i| ((i * 37) % 101) as f32 * 0.1).collect();
    let tid = route_topk(&logits, 10);
    for pol in [all(10, 10, 0.5), top(10, 10, 0.5)] {
        let (n, ids) = route_mass(&logits, &pol);
        assert_eq!(n, 10);
        assert_eq!(ids, tid);
    }
    let valid = |p: MoePolicy<f32>, n: usize| p.validate(n, p.mass.to_bits(), &p.mass.to_string());
    assert!(valid(all(0, 10, 0.9), 512).is_err());
    assert!(valid(all(1, 33, 0.9), 512).is_err());
    assert!(valid(all(1, 20, 0.9), 16).is_err());
    assert!(valid(all(1, 10, 0.0), 512).is_err());
    assert!(valid(all(1, 10, 0.9), 512).is_ok());
}

#[test]
fn picks_top_and_renormalises() {
    let logits: Vec<f32> = (0..512).map(|i| ((i * 37) % 101) as f32 * 0.1).collect();
    let ids = route_topk(&logits, 10);
    let mut sorted = logits.clone();
    sorted.sort_by(|a, b| b.partial_cmp(a).unwrap());
    for j in 0..10 {
        assert_eq!(logits[ids[j] as usize], sorted[j]);
    }
}

fn reference(logits: &[f32], k: usize) -> Vec<u32> {
    let mut taken = vec![false; logits.len()];
    let mut ids = Vec::new();
    for _ in 0..k {
        let mut best = u32::MAX;
        let mut bv = f32::NEG_INFINITY;
        for (i, &v) in logits.iter().enumerate() {
            if !taken[i] && v > bv {
                bv = v;
                best = i as u32;
            }
        }
        taken[best as usize] = true;
        ids.push(best);
    }
    ids
}

#[test]
fn matches_sequential_selection_with_ties() {
    let mut seed = 3u32;
    for _ in 0..200 {
        let logits: Vec<f32> = (0..512)
            .map(|_| {
                seed = seed.wrapping_mul(1664525).wrapping_add(1013904223);
                ((seed >> 20) % 40) as f32 * 0.25 // many exact ties
            })
            .collect();
        assert_eq!(route_topk(&logits, 10), reference(&logits, 10));
    }
}

#[test]
fn free_slots_are_left_where_scores_are_not_numbers() {
    let logits = [f32::NAN, 1.0, f32::NEG_INFINITY, 2.0];
    let t = topk_sorted(&keys(&logits), 4, LEAST);
    assert_eq!(t.iter().map(|s| s.index).collect::<Vec<_>>(), vec![3, 1, u32::MAX, u32::MAX]);
    assert_eq!(t[2].key, LEAST);
}

#[test]
fn policy_messages_and_defaults() {
    let args = |mass, min, max| MoeArgs { mass, min, max, basis: MassBasis::default() };
    assert_eq!(MassBasis::default(), MassBasis::Top);
    assert_eq!(args(None, None, None).resolve(10, 512, 0, "").unwrap(), None);
    assert_eq!(args(None, Some(1), None).resolve(10, 512, 0, "").unwrap_err(), "--moe-min / --moe-max need --moe-mass");
    let p = args(Some(0.9f32), None, None).resolve(10, 512, 0.9f32.to_bits(), "0.9").unwrap().unwrap();
    assert_eq!((p.min, p.max, p.mass), (1, 10, 0.9));
    assert_eq!(args(Some(0.9f32), Some(5), Some(3)).resolve(10, 512, 0.9f32.to_bits(), "0.9").unwrap_err(), "moe policy: need 1 <= min (5) <= max (3)");
    assert_eq!(args(Some(0.9f32), None, Some(33)).resolve(10, 512, 0.9f32.to_bits(), "0.9").unwrap_err(), "moe policy: max (33) above the limit (32)");
    assert_eq!(args(Some(0.9f32), None, Some(20)).resolve(10, 16, 0.9f32.to_bits(), "0.9").unwrap_err(), "moe policy: max (20) above the limit (16)");
    assert_eq!(args(Some(0f32), None, None).resolve(10, 512, 0.0f32.to_bits(), "0").unwrap_err(), "moe policy: target mass (0) must be positive");
    assert_eq!(MOE_K_MAX, 32);
}

#[test]
fn windows_of_ranges_split_anywhere() {
    let ranges = [(4u32, 4u32), (12, 3), (20, 2)];
    let all = vec![4, 5, 6, 7, 12, 13, 14, 20, 21];
    let mut rows = vec![1, 2, 3];
    window_rows(&ranges, 0, 9, &mut rows);
    assert_eq!(rows, all);
    for t in 0..=9usize {
        let mut a = Vec::new();
        let mut b = Vec::new();
        window_rows(&ranges, 0, t, &mut a);
        window_rows(&ranges, t, 9, &mut b);
        a.extend(b);
        assert_eq!(a, all);
    }
    window_rows(&ranges, 3, 6, &mut rows);
    assert_eq!(rows, vec![7, 12, 13]);
    window_rows(&ranges, 8, 100, &mut rows);
    assert_eq!(rows, vec![21]);
    window_rows(&ranges, 5, 5, &mut rows);
    assert!(rows.is_empty());
    assert!(in_view(0b0000_0100, 2) && !in_view(0b0000_0100, 1));
}

#[test]
fn half_width_numbers_round_to_nearest_even() {
    for x in [0.0f32, 1.0, -2.5, 3.1415927, 1e-20, -7.77e12, 65504.0] {
        let b = x.to_bits();
        let r = ((b >> 16) & 1) + 0x7FFF;
        assert_eq!(Bf16::from_single(b).0, ((b + r) >> 16) as u16);
    }
    assert_eq!(Bf16::from_single(0x3f80_8000).0, 0x3f80, "a tie goes to the even one");
    assert_eq!(Bf16::from_single(0x3f81_8000).0, 0x3f82);
    assert_eq!(Bf16(0x4049).to_single(), 0x4049_0000);
    assert_eq!(half::bf16::from_bits(0x4049).to_f32().to_bits(), Bf16(0x4049).to_single());
}

#[test]
fn tiles_cover_every_row_of_every_strip() {
    assert_eq!(strip_lines(128), 64);
    let (steps, last) = tile_plan(3, 37, TileRows::default());
    assert_eq!(steps.len(), 2 * 2);
    let at: Vec<_> = steps.iter().map(|s| (s.strip, s.strips, s.row, s.tiles.0, s.tiles.1, s.reload)).collect();
    assert_eq!(at, vec![(0, 2, 0, 16, 16, true), (0, 2, 32, 5, 0, true), (2, 1, 0, 16, 16, true), (2, 1, 32, 5, 0, true)]);
    assert_eq!(last, TileRows(5, 0));
    // a configuration that is loaded is not loaded again
    let (steps, _) = tile_plan(4, 20, TileRows(16, 4));
    assert!(steps.iter().all(|s| !s.reload));
    assert!(tile_plan(4, 0, TileRows(1, 1)).0.is_empty());
    assert_eq!(tile_rows(TileRows(5, 0)), [5, 5, 1, 1, 5, 1, 16, 16]);
}

#[test]
fn unpacked_weights_fill_their_lines() {
    let k = 8;
    let mut seen = vec![false; 16 * k];
    for n in 0..16 {
        for kk in 0..k {
            let at = unpacked_place(n, kk);
            assert!(!seen[at]);
            seen[at] = true;
        }
    }
    assert!(seen.iter().all(|&x| x));
    assert_eq!(unpacked_place(3, 5), 2 * 32 + 7);
}

#[test]
fn rotary_components_take_turns() {
    let s = [11, 11, 10];
    let pos = [3, 40, 700];
    for (i, p) in [(0usize, 3u32), (1, 40), (2, 700), (3, 3), (31, 40)] {
        assert_eq!(pair_position(i, s, pos), p, "pair {i}");
    }
    assert_eq!(component(29, s), 2);
    assert_eq!(component(32, s), 0, "past its section the first component takes over");
    assert_eq!(pair_entries(5, 64), (5, 37));
}

#[test]
fn four_bit_codes_stand_for_their_values() {
    let mut src = vec![0u8; 36];
    src[0] = 0x34;
    src[1] = 0x12;
    src[2] = 0xf0; // values 0 and 16 of the first block
    src[18 + 2 + 15] = 0x8f; // values 15 and 31 of the second
    let v = row_values(&src, 64);
    assert_eq!(v.len(), 64);
    assert_eq!((v[0], v[16]), (KVALUES[0], KVALUES[15]));
    assert_eq!((v[32 + 15], v[32 + 31]), (113, 1));
    assert_eq!(block_scale(&src, 0), 0x1234);
    assert_eq!(row_values(&src, 63).len(), 32);
}

#[test]
fn blocks_are_clamped_and_summed() {
    let mut a = QAct::zeros(2, 64, 32, 0f32);
    assert_eq!(a.nb(), 2);
    assert_eq!((a.q.len(), a.scale.len(), a.sum.len()), (128, 4, 4));
    let mut q = vec![1i32; 32];
    q[0] = 200;
    q[1] = -200;
    a.set_block(1, 1, &q, 0.5);
    assert_eq!(&a.q[96..99], &[127, -128, 1]);
    assert_eq!(a.sum[3], 30);
    assert_eq!(a.scale[3], 0.5);
    assert!(a.q[..96].iter().all(|&x| x == 0));
    assert_eq!(a.sum[..3], [0, 0, 0]);
}

#[test]
fn a_block_sum_wraps_and_a_block_may_be_long() {
    let mut a = QAct::zeros(1, 64, 64, 0f32);
    let mut q = vec![0i32; 64];
    q[0] = i32::MAX;
    q[63] = 2;
    a.set_block(0, 0, &q, 1.0);
    assert_eq!((a.q[0], a.q[63]), (127, 2));
    assert_eq!(a.sum[0], i32::MIN + 1);
}

#[test]
fn the_last_position_is_seen_whole() {
    let mut rg = Vec::new();
    let pos = u32::MAX as usize - 1;
    assert!(!select_ranges(&[0], pos, 1 << 31, 1 << 32, &mut rg));
    assert_eq!(rg, vec![(0, u32::MAX)]);
    // one block of all but the last token, of which nothing fits behind the tail
    assert!(select_ranges(&[0], pos, pos, 1, &mut rg));
    assert_eq!(rg.iter().map(|r| r.1 as u64).sum::<u64>(), pos as u64);
    assert_eq!(rg.last().map(|r| r.0 as u64 + r.1 as u64), Some(u32::MAX as u64));
}

#[test]
fn a_whole_mass_takes_as_many_as_may_be() {
    let p = MoePolicy { min: 1, max: 4, mass: 1.0f32, basis: MassBasis::All };
    assert_eq!(p.experts(1f32.to_bits(), &[true; 4]), 4);
    assert_eq!(p.experts(2.5f32.to_bits(), &[true; 4]), 4);
    assert_eq!(p.experts(f32::INFINITY.to_bits(), &[true; 4]), 4);
    assert_eq!(p.experts(0.9f32.to_bits(), &[true; 4]), 1);
    assert_eq!(p.experts(0.9f32.to_bits(), &[false, false, true, true]), 3);
    assert_eq!(p.experts((-1f32).to_bits(), &[true; 4]), 1);
}
