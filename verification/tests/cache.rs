//! The prefix cache: keys, objects, roles, the store and its index.
use tr_infer::backend::{Backend, MemBackend};
use tr_infer::buf::AlignedBuf;
use tr_infer::cache::{Cache, CacheError};
use tr_infer::key::{prefix_keys, root_key, PrefixKey};
use tr_infer::object::{decode_header, encode_header, header_json_len, parse_name, Kind, ObjectError, ObjectMeta, ALIGN};
use tr_infer::policy::{Policies, RolePolicy};
use tr_infer::role::{chunk_spans, Role, Span};

#[test]
fn aligned_and_zeroed() {
    let mut b = AlignedBuf::new(5000);
    assert_eq!(b.as_slice().as_ptr() as usize % ALIGN, 0);
    assert_eq!(b.len(), 5000);
    assert_eq!(b.capacity(), 8192);
    assert!(b.as_slice().iter().all(|&x| x == 0));
    b.set(4999, 7);
    b.set_len(8192);
    assert_eq!(b.as_slice()[4999], 7);
    let e = AlignedBuf::new(0);
    assert!(e.is_empty());
    assert_eq!(e.capacity(), ALIGN);
}

#[test]
fn buffer_takes_a_write_at_an_offset() {
    let mut b = AlignedBuf::new(10);
    b.write(3, &[1, 2, 3]);
    assert_eq!(b.as_slice(), &[0, 0, 0, 1, 2, 3, 0, 0, 0, 0]);
}

#[test]
fn bytes_behind_the_visible_length_are_kept() {
    let mut b = AlignedBuf::new(6);
    b.write(2, &[4, 5, 6, 7]);
    b.set_len(3);
    assert_eq!(b.as_slice(), &[0, 0, 4]);
    b.write(0, &[9]);
    b.set_len(8);
    assert_eq!(b.as_slice(), &[9, 0, 4, 5, 6, 7, 0, 0]);
    assert_eq!(b.as_slice().as_ptr() as usize % ALIGN, 0);
}

#[test]
fn keys_are_stable_and_sensitive() {
    let root = root_key(&["pack-abc", "f16", "8", "-", "-", "1"]);
    let k1 = prefix_keys(&root, &[1, 2, 3], &[]);
    let k2 = prefix_keys(&root, &[1, 2, 3], &[]);
    assert_eq!(k1, k2);
    assert_eq!(k1.len(), 4);
    assert_eq!(k1[0], root);
    // a prefix shares its keys
    let k3 = prefix_keys(&root, &[1, 2, 9], &[]);
    assert_eq!(k3[..3], k1[..3]);
    assert_ne!(k3[3], k1[3]);
    // the root changes everything but the sequence stays consistent
    let root2 = root_key(&["pack-abc", "bf16", "8", "-", "-", "1"]);
    assert_ne!(prefix_keys(&root2, &[1, 2, 3], &[])[1], k1[1]);
    // images: same ids, different content -> different keys from the image on
    let a = prefix_keys(&root, &[1, 7, 7, 2], &[(1, 0xabc, 2)]);
    let b = prefix_keys(&root, &[1, 7, 7, 2], &[(1, 0xdef, 2)]);
    assert_eq!(a[1], b[1]);
    assert_ne!(a[2], b[2]);
    assert_ne!(a[4], b[4]);
    assert_ne!(a[2], k1[2]);
}

#[test]
fn hex_round_trip() {
    let k = root_key(&["x"]);
    assert_eq!(PrefixKey::parse(&k.hex()), Some(k));
    let j = serde_json::to_string(&k.hex()).unwrap();
    let back: String = serde_json::from_str(&j).unwrap();
    assert_eq!(PrefixKey::parse(&back), Some(k));
    assert!(PrefixKey::parse("zz").is_none());
}

#[test]
fn hex_refuses_wrong_lengths_and_reads_upper_case() {
    let k = root_key(&["x"]);
    let h = k.hex();
    assert_eq!(h.len(), 32);
    assert!(PrefixKey::parse(&h[..30]).is_none());
    assert!(PrefixKey::parse(&format!("{h}00")).is_none());
    assert_eq!(PrefixKey::parse(&h.to_uppercase()), Some(k));
}

#[test]
fn header_round_trip_and_padding() {
    let root = root_key(&["r"]);
    let m = ObjectMeta::rows(root, root_key(&["k"]), root, 10, 13, Role::User, vec![5, 6, 7], 77777);
    let h = encode_header(&m).unwrap();
    assert_eq!(h.len() % ALIGN, 0);
    let (back, off) = decode_header(h.as_slice()).unwrap();
    assert_eq!(back, m);
    assert_eq!(off, h.len());
    assert_eq!(m.name(), format!("{}.rows", root_key(&["k"]).hex()));
    assert_eq!(parse_name(&m.name()), Some((root_key(&["k"]), Kind::Rows)));
    assert_eq!(parse_name("index.json"), None);
    assert_eq!(m.footprint(), 4096 + 77824, "header page + body padded to 4 KiB");
    let s = ObjectMeta::snapshot(root, root_key(&["s"]), 13, Some(Role::User), 4096);
    assert_eq!(s.name(), format!("{}.snap", root_key(&["s"]).hex()));
    s.validate().unwrap();
    // truncated / wrong format are errors
    assert!(decode_header(&h.as_slice()[..100]).is_err());
    let mut bad = m.clone();
    bad.format = 99;
    let hb = encode_header(&bad).unwrap();
    assert!(decode_header(hb.as_slice()).is_err());
    let mut bad = m.clone();
    bad.tokens.pop();
    assert!(bad.validate().is_err());
}

#[test]
fn header_keeps_every_field() {
    let root = root_key(&["r"]);
    let mut m = ObjectMeta::snapshot(root, root_key(&["k"]), 7, None, 12);
    m.last_used = 1_700_000_000;
    let h = encode_header(&m).unwrap();
    let (back, _) = decode_header(h.as_slice()).unwrap();
    assert_eq!(back.role, None);
    assert_eq!(back.last_used, 1_700_000_000);
    assert_eq!((back.start, back.end, back.bytes), (m.start, m.end, m.bytes));
    // the length of the JSON part stands in front, low byte first
    let b = h.as_slice();
    let n = u64::from_le_bytes([b[0], b[1], b[2], b[3], b[4], b[5], b[6], b[7]]) as usize;
    let v: serde_json::Value = serde_json::from_slice(&b[8..8 + n]).unwrap();
    assert_eq!(v["kind"], serde_json::Value::from("snapshot"));
    assert_eq!(v["bytes"], serde_json::Value::from(12));
    assert!(b[8 + n..].iter().all(|&x| x == 0));
}

#[test]
fn chunks_end_at_role_boundaries_then_every_chunk_len() {
    let spans = [Span::new(0, 10, Role::System), Span::new(10, 25, Role::User), Span::new(25, 27, Role::Reasoning)];
    let c = chunk_spans(&spans, 0, 8);
    assert_eq!(
        c,
        vec![Span::new(0, 8, Role::System), Span::new(8, 10, Role::System), Span::new(10, 18, Role::User), Span::new(18, 25, Role::User), Span::new(25, 27, Role::Reasoning)]
    );
    // `from` clips the first chunk
    let c = chunk_spans(&spans, 12, 100);
    assert_eq!(c, vec![Span::new(12, 25, Role::User), Span::new(25, 27, Role::Reasoning)]);
    assert!(chunk_spans(&spans, 27, 8).is_empty());
    assert_eq!(chunk_spans(&spans, 0, 0).len(), 27, "chunk_len 0 behaves as 1");
}

#[test]
fn role_names_round_trip() {
    for r in [Role::System, Role::User, Role::Reasoning, Role::Tool, Role::Assistant] {
        assert_eq!(Role::parse(r.name()), Some(r));
        let j = serde_json::to_string(r.name()).unwrap();
        assert_eq!(j, format!("\"{}\"", r.name()));
    }
    assert_eq!(Role::parse("developer"), None);
}

fn root() -> PrefixKey {
    root_key(&["pack", "f16", "8", "-", "-", "1"])
}

/// Store rows chunks for `spans` of `toks` (chunk_len 4) and a snapshot at every given position.
fn save(c: &mut Cache<MemBackend>, toks: &[u32], spans: &[Span], snapshots_at: &[usize]) {
    let keys = prefix_keys(&c.root(), toks, &[]);
    for ch in chunk_spans(spans, 0, 4) {
        let body = vec![ch.role as u8; 100 * ch.len()];
        let m = ObjectMeta::rows(c.root(), keys[ch.end], keys[ch.start], ch.start, ch.end, ch.role, toks[ch.start..ch.end].to_vec(), body.len() as u64);
        c.put(m, &body).unwrap();
    }
    for &p in snapshots_at {
        let body = vec![0xAAu8; 5000];
        let role = spans.iter().find(|s| s.end == p).map(|s| s.role);
        c.put(ObjectMeta::snapshot(c.root(), keys[p], p, role, body.len() as u64), &body).unwrap();
    }
}

#[test]
fn restore_finds_the_deepest_complete_chain() {
    let mut c = Cache::open(MemBackend::new(), 1 << 30, root()).unwrap();
    let toks: Vec<u32> = (100..110).collect();
    let spans = [Span::new(0, 6, Role::System), Span::new(6, 10, Role::User)];
    save(&mut c, &toks, &spans, &[6, 10]);
    assert_eq!(c.stats().rows, 3, "6 = 4 + 2, then 4");
    assert_eq!(c.stats().snapshots, 2);
    // the same prompt: the end snapshot
    let keys = prefix_keys(&root(), &toks, &[]);
    let plan = c.best_restore(&keys).unwrap();
    assert_eq!(plan.pos, 10);
    assert_eq!(plan.rows.iter().map(|r| (r.start, r.end)).collect::<Vec<_>>(), vec![(0, 4), (4, 6), (6, 10)]);
    assert_eq!(plan.rows[2].tokens, toks[6..10]);
    // a prompt that diverges inside the user turn: the system boundary
    let mut t2 = toks.clone();
    t2[8] = 999;
    t2.push(1);
    let k2 = prefix_keys(&root(), &t2, &[]);
    let plan = c.best_restore(&k2).unwrap();
    assert_eq!(plan.pos, 6);
    assert_eq!(plan.rows.len(), 2);
    // a prompt shorter than the first snapshot: nothing
    assert!(c.best_restore(&keys[..5]).is_none());
    // a prompt that is exactly the prefix up to a snapshot
    assert_eq!(c.best_restore(&keys[..7]).unwrap().pos, 6);
    // a different root sees nothing
    let other = prefix_keys(&root_key(&["other"]), &toks, &[]);
    assert!(c.best_restore(&other).is_none());
    assert_eq!(c.stats().hits, 3);
    assert_eq!(c.stats().misses, 2);
}

#[test]
fn broken_chain_falls_back_and_is_repaired_by_the_next_save() {
    let mut c = Cache::open(MemBackend::new(), 1 << 30, root()).unwrap();
    let toks: Vec<u32> = (0..10).collect();
    let spans = [Span::new(0, 6, Role::System), Span::new(6, 10, Role::User)];
    save(&mut c, &toks, &spans, &[6, 10]);
    let keys = prefix_keys(&root(), &toks, &[]);
    // lose the chunk [4,6): the snapshot at 6 and the one at 10 are both unreachable
    c.forget(keys[6], Kind::Rows);
    assert!(c.best_restore(&keys).is_none());
    // the next save re-creates exactly the missing chunk (dedupe by key)
    let before = c.stats().objects;
    save(&mut c, &toks, &spans, &[6, 10]);
    assert_eq!(c.stats().objects, before + 1);
    assert_eq!(c.best_restore(&keys).unwrap().pos, 10);
}

#[test]
fn lru_evicts_by_bytes_across_kinds_and_touch_protects() {
    // rows chunk footprint = 4096 header + 4096 body; snapshot 4096 + 8192
    let mut c = Cache::open(MemBackend::new(), 70_000, root()).unwrap();
    let toks: Vec<u32> = (0..12).collect();
    let spans = [Span::new(0, 12, Role::User)];
    save(&mut c, &toks, &spans, &[4, 8, 12]);
    assert_eq!(c.stats().bytes, 3 * 8192 + 3 * 12288);
    assert_eq!(c.stats().objects, 6);
    let keys = prefix_keys(&root(), &toks, &[]);
    // a hit touches its chain: rows 0..4, 4..8 and the snapshot at 8
    assert_eq!(c.best_restore(&keys[..9]).unwrap().pos, 8);
    // a big object pushes the store over budget: the untouched objects go first, oldest first
    let big = vec![1u8; 20_000];
    c.put(ObjectMeta::snapshot(root(), root_key(&["big"]), 99, None, big.len() as u64), &big).unwrap();
    assert!(c.stats().bytes <= 70_000);
    assert!(!c.has(keys[12], Kind::Rows), "rows 8..12 was the least recently used");
    assert!(!c.has(keys[4], Kind::Snapshot), "then the snapshot at 4");
    assert!(c.has(keys[12], Kind::Snapshot));
    assert!(c.has(keys[4], Kind::Rows) && c.has(keys[8], Kind::Rows) && c.has(keys[8], Kind::Snapshot));
    assert_eq!(c.stats().evicted, 2);
    assert_eq!(c.best_restore(&keys).unwrap().pos, 8, "12 lost its chain, 8 is intact");
    // a store opened over budget trims itself
    let c2 = Cache::open(MemBackend::new(), 0, root()).unwrap();
    assert_eq!(c2.stats().objects, 0);
}

/// A store with the objects of another, and the given index.
fn copied(be: &mut MemBackend, index: Option<&[u8]>) -> MemBackend {
    let mut fresh = MemBackend::new();
    for m in be.list().unwrap() {
        let mut b = vec![0u8; m.bytes as usize];
        be.get(&m.name(), &mut b).unwrap();
        fresh.put(&m, &b).unwrap();
    }
    match index {
        Some(i) => fresh.put_index(i).unwrap(),
        None => {
            let i = be.get_index().unwrap().unwrap();
            fresh.put_index(&i).unwrap()
        }
    }
    fresh
}

#[test]
fn index_persists_lru_order_and_rebuilds_from_headers() {
    let toks: Vec<u32> = (0..8).collect();
    let spans = [Span::new(0, 8, Role::Tool)];
    let be = {
        let mut c = Cache::open(MemBackend::new(), 1 << 30, root()).unwrap();
        save(&mut c, &toks, &spans, &[8]);
        let keys = prefix_keys(&root(), &toks, &[]);
        c.touch_object(keys[4], Kind::Rows); // the oldest object becomes the newest
        c.flush().unwrap();
        copied(c.backend(), None)
    };
    let keys = prefix_keys(&root(), &toks, &[]);
    // with the index: the touched chunk survives a tight budget, the snapshot is the first out
    let mut c = Cache::open(be, 1 << 30, root()).unwrap();
    assert!(c.open_report().index_loaded);
    assert_eq!(c.open_report().objects, 3);
    let mut order: Vec<_> = c.eviction_order();
    assert_eq!(order.pop(), Some((keys[4], Kind::Rows)), "touched last");
    // without the index (corrupt): rebuilt from headers, objects intact
    let fresh = copied(c.backend(), Some(b"not json"));
    let c2 = Cache::open(fresh, 1 << 30, root()).unwrap();
    assert!(!c2.open_report().index_loaded);
    assert_eq!(c2.stats().objects, 3);
    // a foreign root's objects are dropped on open
    let mut fb = MemBackend::new();
    let m = ObjectMeta::snapshot(root_key(&["foreign"]), root_key(&["x"]), 1, None, 4);
    fb.put(&m, &[0; 4]).unwrap();
    let ok = ObjectMeta::snapshot(root(), root_key(&["y"]), 1, None, 4);
    fb.put(&ok, &[0; 4]).unwrap();
    let c3 = Cache::open(fb, 1 << 30, root()).unwrap();
    assert_eq!(c3.open_report().dropped_foreign, 1);
    assert_eq!(c3.stats().objects, 1);
}

#[test]
fn priority_tiers_evict_low_roles_first_and_ttl_expires_idle_objects() {
    let mut pol = Policies::default();
    pol.reasoning = RolePolicy { priority: 1, ..Default::default() };
    pol.system = RolePolicy { priority: 9, ..Default::default() };
    // budget: 3 rows chunks (8192 each) + 2 snapshots (12288) = 49152; one more chunk overflows
    let mut c = Cache::open_with(MemBackend::new(), 49_152, root(), pol.clone()).unwrap();
    let toks: Vec<u32> = (0..12).collect();
    let spans = [Span::new(0, 4, Role::System), Span::new(4, 8, Role::Reasoning), Span::new(8, 12, Role::User)];
    let keys = prefix_keys(&root(), &toks, &[]);
    save(&mut c, &toks, &spans, &[4, 12]);
    assert_eq!(c.stats().objects, 5);
    // the user chunk is the most recent, the system chunk the oldest, yet the reasoning
    // chunk (priority 1) goes first when something has to
    let extra = vec![0u8; 100];
    let m = ObjectMeta::rows(root(), root_key(&["x"]), root_key(&["p"]), 100, 101, Role::Assistant, vec![7], extra.len() as u64);
    c.put(m, &extra).unwrap();
    assert!(!c.has(keys[8], Kind::Rows), "reasoning chunk evicted first");
    assert!(c.has(keys[4], Kind::Rows) && c.has(keys[12], Kind::Rows));
    // the snapshot at 4 carries the system role (tier 9); the one at 12 the user role (tier 5):
    // the next overflow takes the user-tier objects (oldest first: rows 8..12 then snap 12)
    let m = ObjectMeta::rows(root(), root_key(&["y"]), root_key(&["p"]), 200, 201, Role::Assistant, vec![7], 8000);
    c.put(m, &vec![0u8; 8000]).unwrap();
    assert!(c.has(keys[4], Kind::Rows) && c.has(keys[4], Kind::Snapshot), "system tier survives");
    assert!(!c.has(keys[12], Kind::Rows));
    // ttl: objects idle longer than the role's ttl are dropped on the next insert / lookup
    let mut pol2 = Policies::default();
    pol2.tool = RolePolicy { ttl: Some(10), ..Default::default() };
    let mut c2 = Cache::open_with(MemBackend::new(), 1 << 30, root(), pol2).unwrap();
    let spans2 = [Span::new(0, 4, Role::Tool), Span::new(4, 8, Role::User)];
    save(&mut c2, &toks[..8], &spans2, &[8]);
    assert_eq!(c2.stats().objects, 3);
    // age the tool chunk
    let k2 = prefix_keys(&root(), &toks[..8], &[]);
    let at = c2.meta(k2[4], Kind::Rows).unwrap().last_used;
    c2.touch_object_at(k2[4], Kind::Rows, at - 100);
    assert!(c2.best_restore(&k2).is_none(), "the chain lost its tool chunk");
    assert_eq!(c2.stats().expired, 1);
    assert_eq!(c2.take_pending_delete().len(), 1);
    assert_eq!(c2.stats().objects, 2);
    // policies are visible and describable
    assert_eq!(c.policies().reasoning.priority, 1);
    assert!(pol.describe().contains("reasoning: priority 1"));
    assert_eq!(Policies::default().describe(), "default for every role");
}

#[test]
fn get_errors_forget_the_object_and_put_errors_leave_the_index_clean() {
    let mut be = MemBackend::new();
    be.fail_next_put = true;
    let mut c = Cache::open(be, 1 << 30, root()).unwrap();
    let m = ObjectMeta::snapshot(root(), root_key(&["s"]), 3, None, 4);
    assert!(c.put(m.clone(), &[0; 4]).is_err());
    assert_eq!(c.stats().objects, 0);
    c.put(m.clone(), &[0; 4]).unwrap();
    assert_eq!(c.stats().objects, 1);
    // wrong buffer length -> backend error -> object dropped
    let mut wrong = [0u8; 3];
    assert!(c.get(m.key, Kind::Snapshot, &mut wrong).is_err());
    assert_eq!(c.stats().objects, 0);
    // wrong root is refused
    let bad = ObjectMeta::snapshot(root_key(&["z"]), root_key(&["s2"]), 3, None, 4);
    assert!(c.put(bad, &[0; 4]).is_err());
    c.clear().unwrap();
    assert_eq!(c.stats().bytes, 0);
}

#[test]
fn what_was_put_is_got_and_errors_name_their_cause() {
    let mut c = Cache::open(MemBackend::new(), 1 << 30, root()).unwrap();
    let m = ObjectMeta::snapshot(root(), root_key(&["s"]), 3, Some(Role::Tool), 4);
    c.put(m.clone(), &[9, 8, 7, 6]).unwrap();
    let mut body = [0u8; 4];
    let back = c.get(m.key, Kind::Snapshot, &mut body).unwrap();
    assert_eq!(body, [9, 8, 7, 6]);
    assert_eq!(back.role, Some(Role::Tool));
    let bad = ObjectMeta::snapshot(root_key(&["z"]), root_key(&["s2"]), 3, None, 4);
    assert!(matches!(c.put(bad, &[0; 4]), Err(CacheError::WrongRoot)));
    let mut none = [0u8; 4];
    assert!(c.get(root_key(&["nothing"]), Kind::Rows, &mut none).is_err());
}

#[test]
fn an_object_that_is_not_written_does_not_reach_the_backend() {
    let mut c = Cache::open(MemBackend::new(), 1 << 30, root()).unwrap();
    let m = ObjectMeta::snapshot(root(), root_key(&["s"]), 3, None, 4);
    c.put(m.clone(), &[1; 4]).unwrap();
    c.backend().fail_next_put = true;
    // one of another root, and one that is there
    let bad = ObjectMeta::snapshot(root_key(&["z"]), root_key(&["s2"]), 3, None, 4);
    assert!(matches!(c.put(bad, &[0; 4]), Err(CacheError::WrongRoot)));
    c.put(m.clone(), &[2; 4]).unwrap();
    assert!(c.backend().fail_next_put, "no write was tried");
    assert_eq!(c.backend().names(), vec![m.name()]);
    let mut body = [0u8; 4];
    c.get(m.key, Kind::Snapshot, &mut body).unwrap();
    assert_eq!(body, [1; 4]);
    // a cleared store is empty and its index names nothing
    c.clear().unwrap();
    assert!(c.backend().is_empty());
    let bytes = c.backend().get_index().unwrap().unwrap();
    assert!(tr_infer::index::read_index(&bytes, &root()).unwrap().is_empty());
}

#[test]
fn unused_object_is_not_expired_within_its_ttl() {
    let mut pol = Policies::default();
    pol.user = RolePolicy { ttl: Some(60), ..Default::default() };
    let mut c = Cache::open_with_at(MemBackend::new(), 1 << 30, root(), pol, 1000).unwrap();
    let mut m = ObjectMeta::snapshot(root(), root_key(&["s"]), 3, Some(Role::User), 4);
    m.last_used = 1000;
    c.put_at(m.clone(), &[0; 4], 1000).unwrap();
    assert!(c.expire_idle_at(1060).is_empty());
    assert_eq!(c.expire_idle_at(1061), vec![m.name()]);
    assert!(!c.has(m.key, Kind::Snapshot));
}

#[test]
fn every_use_gets_the_next_number() {
    let toks: Vec<u32> = (0..8).collect();
    let keys = prefix_keys(&root(), &toks, &[]);
    let mut c = Cache::open(MemBackend::new(), 1 << 30, root()).unwrap();
    save(&mut c, &toks, &[Span::new(0, 8, Role::Tool)], &[8]);
    c.touch_object(keys[4], Kind::Rows);
    c.touch_object(keys[4], Kind::Rows);
    c.touch_object(keys[5], Kind::Rows); // there is none
    c.flush().unwrap();
    let bytes = c.backend().get_index().unwrap().unwrap();
    let lines = tr_infer::index::read_index(&bytes, &root()).unwrap();
    let shown: Vec<(String, u64)> = lines.into_iter().map(|r| (r.name, r.seq)).collect();
    let name = |k: PrefixKey, kind: Kind| tr_infer::object::object_name(&k, kind);
    assert_eq!(shown, vec![(name(keys[8], Kind::Rows), 2), (name(keys[8], Kind::Snapshot), 3), (name(keys[4], Kind::Rows), 5)]);
    // the store that is opened again counts from one
    let again = copied(c.backend(), None);
    let mut c = Cache::open(again, 1 << 30, root()).unwrap();
    c.touch_object(keys[8], Kind::Rows);
    c.flush().unwrap();
    let bytes = c.backend().get_index().unwrap().unwrap();
    let seqs: Vec<u64> = tr_infer::index::read_index(&bytes, &root()).unwrap().iter().map(|r| r.seq).collect();
    assert_eq!(seqs, vec![2, 3, 4]);
}

#[test]
fn refused_objects_are_told() {
    let told = |m: &ObjectMeta| m.validate().unwrap_err().text(&m.name());
    let key = root_key(&["k"]);
    let name = format!("{}.snap", key.hex());
    let mut m = ObjectMeta::snapshot(root(), key, 4, None, 8);
    m.format = 7;
    assert_eq!(told(&m), "object format 7 (this build reads 1)");
    m.format = 1;
    m.start = 5;
    assert_eq!(told(&m), format!("object {name} has start 5 > end 4"));
    m.start = 3;
    assert_eq!(told(&m), format!("snapshot object {name} spans 3..4"));
    let mut m = ObjectMeta::rows(root(), key, key, 3, 5, Role::User, vec![1, 2], 8);
    m.role = None;
    assert_eq!(told(&m), format!("rows object {}.rows has no role", key.hex()));
    m.tokens.pop();
    assert_eq!(told(&m), format!("rows object {}.rows covers 2 positions but lists 1 tokens", key.hex()));
    assert_eq!(header_json_len(&[1, 2]).unwrap_err().text(""), "short header");
    assert_eq!(header_json_len(&[0; 8]).unwrap_err().text(""), "implausible header length 0");
    assert_eq!(decode_header(&[9, 0, 0, 0, 0, 0, 0, 0, 1]).unwrap_err().text(""), "header truncated: 9 of 17 bytes");
    assert_eq!(decode_header(&[1, 0, 0, 0, 0, 0, 0, 0, 1]).unwrap_err().text(""), "object header");
    assert_eq!(ObjectError::TooLarge.text(""), "the object header does not fit the address space");
}

#[test]
fn an_object_stored_again_is_not_deleted_for_its_old_expiry() {
    let mut pol = Policies::default();
    pol.tool = RolePolicy { ttl: Some(10), ..Default::default() };
    let mut c = Cache::open_with_at(MemBackend::new(), 1 << 30, root(), pol, 0).unwrap();
    let k = prefix_keys(&root(), &[1, 2], &[]);
    let mut m = ObjectMeta::rows(root(), k[2], k[0], 0, 2, Role::Tool, vec![1, 2], 4);
    m.last_used = 100;
    let mut other = ObjectMeta::rows(root(), k[1], k[0], 0, 1, Role::Tool, vec![1], 4);
    other.last_used = 100;
    c.put_at(m.clone(), &[1; 4], 100).unwrap();
    c.put_at(other.clone(), &[2; 4], 100).unwrap();
    // both idle out while a restore point is looked for, and wait to be deleted
    assert!(c.best_restore_at(&k, 200).is_none());
    assert_eq!(c.stats().objects, 0);
    // one of them is stored again: only the other one is deleted
    m.last_used = 200;
    c.put_at(m.clone(), &[3; 4], 200).unwrap();
    assert!(c.has(m.key, Kind::Rows));
    let mut body = [0u8; 4];
    assert_eq!(c.get_at(m.key, Kind::Rows, &mut body, 201).unwrap().tokens, vec![1, 2]);
    assert_eq!(body, [3; 4]);
    assert_eq!(c.backend().names(), vec![m.name()]);
    // the same where the caller writes and deletes
    assert!(c.best_restore_at(&k, 300).is_none());
    m.last_used = 300;
    assert!(c.insert_at(m.clone(), 300).unwrap().is_empty());
    assert!(c.has(m.key, Kind::Rows));
    // what waits to be deleted goes with all the rest
    c.put_at(ObjectMeta::snapshot(root(), k[1], 1, None, 2), &[0; 2], 305).unwrap();
    assert!(c.best_restore_at(&k, 400).is_none());
    assert_eq!((c.stats().objects, c.backend().names().len()), (1, 2));
    c.clear().unwrap();
    assert!(c.backend().names().is_empty());
}

#[test]
fn object_names_are_hexadecimal_digits_and_an_extension() {
    assert_eq!(parse_name(&("+0".repeat(16) + ".rows")), None);
    assert_eq!(parse_name(&("0+".repeat(16) + ".snap")), None);
    assert_eq!(parse_name(&("0".repeat(32) + ".rows")), Some((PrefixKey([0; 16]), Kind::Rows)));
    assert_eq!(parse_name(&("Af".repeat(16) + ".snap")), Some((PrefixKey([0xaf; 16]), Kind::Snapshot)));
    for s in ["", "index.json", ".rows", "0.rows"] {
        assert_eq!(parse_name(s), None);
    }
    assert_eq!(parse_name(&("0".repeat(31) + ".rows")), None);
    assert_eq!(parse_name(&("0".repeat(33) + ".rows")), None);
    assert_eq!(parse_name(&("0".repeat(32) + ".tmp")), None);
    assert_eq!(PrefixKey::parse(&"+f".repeat(16)), None);
}

/// A header with that JSON.
fn framed(json: &str) -> Vec<u8> {
    let mut b = (json.len() as u64).to_le_bytes().to_vec();
    b.extend_from_slice(json.as_bytes());
    b
}

#[test]
fn headers_are_read_as_objects_or_lists_and_repeat_nothing() {
    let k = "00112233445566778899aabbccddeeff";
    let front = format!("\"format\":1,\"root\":\"{k}\",\"kind\":\"snapshot\",\"key\":\"{k}\",\"parent\":\"{k}\"");
    let tail = "\"start\":3,\"end\":3,\"bytes\":4,\"last_used\":5";
    let want = decode_header(&framed(&format!("{{{front},{tail}}}"))).unwrap().0;
    assert_eq!((want.start, want.bytes, want.kind, want.role), (3, 4, Kind::Snapshot, None));
    let same = |json: String| assert_eq!(decode_header(&framed(&json)).unwrap().0, want);
    let refused = |json: String| assert_eq!(decode_header(&framed(&json)).unwrap_err(), ObjectError::Json);
    // spaces, another order and unknown members, even twice
    same(format!(" {{ {tail} , {front} }} "));
    same(format!("{{{front},{tail},\"x\":[{{\"format\":2}}],\"x\":\"\\\"format\\\":2\"}}"));
    // the list of all fields, and a kind as an object
    same(format!("[1,\"{k}\",\"snapshot\",\"{k}\",\"{k}\",3,3,null,[],4,5]"));
    same(format!("[1,\"{k}\",{{\"snapshot\":null}},\"{k}\",\"{k}\",3,3,null,[],4,5]"));
    // a field named twice, however it is written; a list with one field less or more
    refused(format!("{{{front},{tail},\"bytes\":4}}"));
    refused(format!("{{{front},{tail},\"\\u0062ytes\":4}}"));
    refused(format!("[1,\"{k}\",\"snapshot\",\"{k}\",\"{k}\",3,3,null,[],4]"));
    refused(format!("[1,\"{k}\",\"snapshot\",\"{k}\",\"{k}\",3,3,null,[],4,5,6]"));
    refused(format!("{{{front},\"start\":3,\"end\":3,\"last_used\":5}}"));
    refused(format!("[1,\"{k}\",{{\"snapshot\":1}},\"{k}\",\"{k}\",3,3,null,[],4,5]"));
}

#[test]
fn a_header_is_refused_where_its_object_is_not_sound_or_it_is_cut() {
    let k = root_key(&["k"]);
    let mut m = ObjectMeta::snapshot(root(), k, 3, None, 4);
    let h = encode_header(&m).unwrap();
    assert_eq!(h.len() % ALIGN, 0);
    let mut more = h.as_slice().to_vec();
    more.extend_from_slice(&[7; 9]);
    assert_eq!(decode_header(&more).unwrap(), (m.clone(), h.len()));
    let json = header_json_len(h.as_slice()).unwrap();
    for n in [0, 7, 8, 9, 8 + json - 1] {
        assert!(decode_header(&h.as_slice()[..n]).is_err());
    }
    m.start = 2;
    assert!(m.validate().is_err());
    assert_eq!(decode_header(encode_header(&m).unwrap().as_slice()).unwrap_err(), m.validate().unwrap_err());
}
