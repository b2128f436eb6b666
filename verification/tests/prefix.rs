//! What of a request is stored, and what of a prompt is restored.
use tr_infer::backend::{Backend, MemBackend};
use tr_infer::index::{read_index, sort_by_age, write_index, Record};
use tr_infer::key::{prefix_keys, root_key, PrefixKey};
use tr_infer::object::{Kind, ObjectMeta};
use tr_infer::policy::Policies;
use tr_infer::prefix::{
    check_position, check_rows, end_role, extend_keys, rows_match, PrefixCache, RestoreFlaw, Rules, SnapshotPolicy,
};
use tr_infer::role::{Role, Span};

fn rules(policy: SnapshotPolicy) -> Rules {
    Rules { chunk_len: 4, policy, min_tokens: 2, roles: Policies::default() }
}

fn opened(policy: SnapshotPolicy) -> PrefixCache<MemBackend> {
    PrefixCache::open_at(MemBackend::new(), 1 << 20, rules(policy), &["pack", "f16"], 1000).unwrap()
}

fn turns() -> Vec<Span> {
    vec![Span::new(0, 3, Role::System), Span::new(3, 4, Role::User), Span::new(4, 10, Role::Assistant)]
}

#[test]
fn snapshots_are_taken_where_long_spans_end() {
    let r = rules(SnapshotPolicy::Message);
    // the user's span is shorter than two tokens
    assert_eq!(r.snapshot_points(&turns(), 0, 10), vec![(3, Role::System), (10, Role::Assistant)]);
    assert_eq!(r.snapshot_points(&turns(), 3, 10), vec![(10, Role::Assistant)]);
    assert_eq!(r.snapshot_points(&turns(), 0, 9), vec![(3, Role::System)]);
    assert!(rules(SnapshotPolicy::Request).snapshot_points(&turns(), 0, 10).is_empty());
    assert_eq!(SnapshotPolicy::parse("message"), Some(SnapshotPolicy::Message));
    assert_eq!(SnapshotPolicy::parse("request"), Some(SnapshotPolicy::Request));
    assert_eq!(SnapshotPolicy::parse("never"), None);
}

#[test]
fn nothing_is_stored_behind_a_role_that_is_not_kept() {
    let mut r = rules(SnapshotPolicy::Message);
    assert_eq!(r.persist_cut(&turns()), usize::MAX);
    r.roles.get_mut(Role::User).persist = false;
    assert_eq!(r.persist_cut(&turns()), 3);
    assert_eq!(r.snapshot_points(&turns(), 0, 10), vec![(3, Role::System)]);
    assert_eq!(r.chunks_to_store(&turns(), 10), vec![Span::new(0, 3, Role::System)]);
    let r = rules(SnapshotPolicy::Message);
    assert_eq!(
        r.chunks_to_store(&turns(), 9),
        vec![Span::new(0, 3, Role::System), Span::new(3, 4, Role::User), Span::new(4, 8, Role::Assistant)]
    );
    assert_eq!(end_role(&turns(), 4), Some(Role::User));
    assert_eq!(end_role(&turns(), 5), Some(Role::Assistant));
    assert_eq!(end_role(&turns(), 0), None);
}

#[test]
fn generated_tokens_continue_the_chain() {
    let root = root_key(&["pack"]);
    let mut keys = prefix_keys(&root, &[1, 2], &[]);
    extend_keys(&mut keys, &[3, 4]);
    assert_eq!(keys, prefix_keys(&root, &[1, 2, 3, 4], &[]));
}

/// Store what the plan of a save asks for, each row a byte.
fn save(c: &mut PrefixCache<MemBackend>, ids: &[u32], spans: &[Span], logits: u64) -> (usize, bool) {
    let keys = c.keys(ids, &[]);
    let plan = c.save_plan(&keys, spans, ids.len());
    let n = plan.rows.len();
    for (i, (ch, flush)) in plan.rows.into_iter().enumerate() {
        assert_eq!(flush, i + 1 == n);
        let body = vec![ch.start as u8; ch.end - ch.start];
        let m = c.rows_meta(&keys, ids, ch, body.len() as u64);
        assert_eq!((m.start, m.end, m.role), (ch.start, ch.end, Some(ch.role)));
        c.store_at(m, &body, 1001).unwrap();
    }
    if plan.snapshot {
        let m = c.snapshot_meta(keys[ids.len()], ids.len(), plan.role, 8 + logits);
        c.store_at(m, &vec![9; 8 + logits as usize], 1001).unwrap();
    }
    (n, plan.snapshot)
}

#[test]
fn what_a_request_stored_is_restored_by_the_next() {
    let mut c = opened(SnapshotPolicy::Message);
    let ids: Vec<u32> = (0..10).collect();
    assert_eq!(save(&mut c, &ids, &turns(), 4), (4, true));
    // nothing is missing the second time
    assert_eq!(save(&mut c, &ids, &turns(), 4), (0, false));
    let longer: Vec<u32> = (0..12).collect();
    let keys = c.keys(&longer, &[]);
    let plan = c.plan_restore_at(&keys, 12, 8, 1002).unwrap();
    assert_eq!(plan.pos, 10);
    assert_eq!(plan.rows.iter().map(|r| (r.start, r.end)).collect::<Vec<_>>(), vec![(0, 3), (3, 4), (4, 8), (8, 10)]);
    let mut body = vec![0u8; 4];
    c.read_at(plan.rows[2].key, Kind::Rows, &mut body, 1002).unwrap();
    assert_eq!(body, vec![4, 4, 4, 4]);
    for r in &plan.rows {
        assert!(rows_match(r, &longer));
        assert_eq!(check_rows(r, &longer, r.bytes as usize), Ok(()));
    }
    let other: Vec<u32> = (100..112).collect();
    assert!(!rows_match(&plan.rows[0], &other));
    assert_eq!(check_rows(&plan.rows[0], &other, 3), Err(RestoreFlaw::Tokens { start: 0, end: 3 }));
    assert_eq!(
        check_rows(&plan.rows[0], &longer, 7),
        Err(RestoreFlaw::RowBytes { start: 0, end: 3, bytes: 3, want: 7 })
    );
    assert_eq!(check_position(10, 10), Ok(()));
    assert_eq!(check_position(9, 10), Err(RestoreFlaw::Position { found: 9, indexed: 10 }));
}

#[test]
fn a_whole_prompt_needs_its_logits() {
    let mut c = opened(SnapshotPolicy::Message);
    let ids: Vec<u32> = (0..10).collect();
    let first: Vec<u32> = (0..3).collect();
    save(&mut c, &first, &turns()[..1], 4);
    // the snapshot at the end holds no logits: the next best point is taken
    save(&mut c, &ids, &turns(), 0);
    let keys = c.keys(&ids, &[]);
    assert_eq!(c.plan_restore_at(&keys, 10, 8, 1002).unwrap().pos, 3);
    assert_eq!(c.plan_restore_at(&keys, 10, 7, 1002).unwrap().pos, 10);
}

#[test]
fn an_object_that_cannot_be_read_is_dropped() {
    let mut c = opened(SnapshotPolicy::Message);
    let ids: Vec<u32> = (0..10).collect();
    save(&mut c, &ids, &turns(), 4);
    let keys = c.keys(&ids, &[]);
    let name = c.cache.meta(keys[3], Kind::Rows).unwrap().name();
    c.cache.backend().delete(&name).unwrap();
    let mut body = vec![0u8; 3];
    assert!(c.read_at(keys[3], Kind::Rows, &mut body, 1002).is_err());
    assert!(!c.cache.has(keys[3], Kind::Rows));
    // with the first chunk gone nothing is restorable
    assert!(c.plan_restore_at(&keys, 10, 8, 1002).is_none());
    assert!(c.describe("0.00", "1.0").starts_with("prefix cache at memory"));
}

fn meta(root: PrefixKey, n: u32, last_used: u64) -> ObjectMeta {
    let keys = prefix_keys(&root, &[n], &[]);
    let mut m = ObjectMeta::rows(root, keys[1], root, 0, 1, Role::User, vec![n], 4);
    m.last_used = last_used;
    m
}

#[test]
fn the_index_is_read_back_and_orders_the_objects() {
    let root = root_key(&["pack"]);
    let (a, b) = (meta(root, 1, 5), meta(root, 2, 9));
    let lines = vec![
        Record { name: a.name(), last_used: 5, seq: 7 },
        Record { name: b.name(), last_used: 9, seq: 3 },
    ];
    let text = write_index(&root, &lines);
    let back = read_index(text.as_bytes(), &root).unwrap();
    assert_eq!(back.len(), 2);
    assert_eq!((back[0].name.as_str(), back[0].last_used, back[0].seq), (a.name().as_str(), 5, 7));
    assert!(read_index(b"{}", &root).is_none());
    assert!(read_index(b"not json", &root).is_none());
    assert!(read_index(text.as_bytes(), &root_key(&["other"])).is_none());
    // the list of its fields is an index too; a field named twice is none
    let list = format!("[1,\"{}\",[[\"{}\",5,7]]]", root.hex(), a.name());
    assert_eq!(read_index(list.as_bytes(), &root).unwrap()[0].seq, 7);
    let twice = text.replacen("{", "{\"format\":1,", 1);
    assert!(read_index(twice.as_bytes(), &root).is_none());
    let order: Vec<String> = sort_by_age(vec![a, b], &back).iter().map(|m| m.name()).collect();
    assert_eq!(order, vec![lines[1].name.clone(), lines[0].name.clone()]);
}

#[test]
fn an_object_that_cannot_be_read_is_forgotten() {
    let mut c = opened(SnapshotPolicy::Message);
    let ids: Vec<u32> = (0..10).collect();
    save(&mut c, &ids, &turns(), 4);
    let keys = c.keys(&ids, &[]);
    let plan = c.plan_restore_at(&keys, 10, 8, 1002).unwrap();
    let key = plan.rows[1].key;
    assert_eq!(c.read_done(key, Kind::Rows, true, 1003), None);
    assert!(c.plan_restore_at(&keys, 10, 8, 1003).is_some());
    assert!(c.read_done(key, Kind::Rows, false, 1004).is_some());
    assert_eq!(c.read_done(key, Kind::Rows, false, 1005), None);
    // the chain has a gap now
    assert!(c.plan_restore_at(&keys, 10, 8, 1006).is_none());
}

#[test]
fn objects_that_do_not_serve_are_told() {
    assert_eq!(RestoreFlaw::Tokens { start: 3, end: 9 }.text(), "rows 3..9 hold other tokens (hash collision?)");
    assert_eq!(
        RestoreFlaw::RowBytes { start: 0, end: 4, bytes: 80, want: 96 }.text(),
        "rows 0..4 are 80 bytes, this engine expects 96"
    );
    assert_eq!(RestoreFlaw::Position { found: 4, indexed: 8 }.text(), "snapshot is at position 4 but was indexed at 8");
}

#[test]
fn a_store_is_opened_with_what_it_holds() {
    let mut c = opened(SnapshotPolicy::Message);
    let ids: Vec<u32> = (0..10).collect();
    save(&mut c, &ids, &turns(), 8);
    c.cache.flush().unwrap();
    let before = c.cache.stats();
    assert!(before.objects > 0);
    let order = c.cache.eviction_order();
    let kept = std::mem::take(c.cache.backend());
    let d = PrefixCache::open_at(kept, 1 << 20, rules(SnapshotPolicy::Message), &["pack", "f16"], 1001).unwrap();
    assert_eq!(d.cache.stats().objects, before.objects);
    assert!(d.cache.open_report().index_loaded);
    assert_eq!(d.cache.eviction_order(), order);
}
