//! Settings: the schema, defaults, flags and what is told of them.
use config::Source;
use tr_infer::backend::{Backend, MemBackend};
use tr_infer::config::{AppConfig, Provenance, select_files};
use tr_infer::defaults;
use tr_infer::flags::{CacheArgs, Cmd, GenerateArgs, ImageArgs, MoeFlags, OverlayArgs, PackArgs, RuntimeArgs, SampleArgs, SmokeArgs, StoreArgs};
use tr_infer::generation::{chat_prompt, check_images, check_room, decode_steps, drafts_for, file_block, probe_prompt, random_prompt, sum_u64, wanted_byte, whole_pages, Hits, Output, Shown, Step, BLOCK};
use tr_infer::json::{parse, to_compact, Json};
use tr_infer::key::root_key;
use tr_infer::object::{Kind, ObjectMeta};
use tr_infer::overrides::Ov;
use tr_infer::policy::{Policies, RolePolicy};
use tr_infer::prefix::SnapshotPolicy;
use tr_infer::report::{age, clear, redact, role_labels, role_line, role_stats, root_line, root_stats, roots, total_bytes, Settled};
use tr_infer::role::Role;
use tr_infer::roles::{parse_cache_role, Setting};
use tr_infer::schema::{check_keys, edit_distance, hint_for, known_keys};
use tr_infer::serving::{cache_opts, check_access, model_id, ServeOpts};
use tr_infer::text::{is_white, read_u64, to_chars, trimmed};
use tr_infer::yaml::{scalar, to_yaml};

type Config = AppConfig<f32, f64>;

fn json(s: &str) -> Json {
    parse(s.as_bytes()).unwrap()
}

/// What a settings file in YAML holds.
fn file(text: &str) -> Json {
    table(&config::File::from_str(text, config::FileFormat::Yaml).collect().unwrap())
}

fn table(map: &config::Map<String, config::Value>) -> Json {
    Json::Object(map.iter().map(|(k, v)| (k.clone(), tree(v))).collect())
}

fn tree(v: &config::Value) -> Json {
    match &v.kind {
        config::ValueKind::Nil => Json::Null,
        config::ValueKind::Table(t) => table(t),
        config::ValueKind::Array(a) => Json::Array(a.iter().map(tree).collect()),
        config::ValueKind::Boolean(b) => Json::Bool(*b),
        config::ValueKind::String(s) => Json::Text(s.clone()),
        other => Json::Number(other.to_string()),
    }
}

/// A tree as a value whose tables have no order.
fn unordered(v: &Json) -> serde_json::Value {
    serde_json::from_str(&to_compact(v)).unwrap()
}

#[test]
fn schema_keys_cover_the_sections() {
    let k = known_keys();
    for want in ["pack", "runtime.ctx", "runtime.ple_mmap", "overlays.mtp", "spec.k", "moe.mass", "moe.basis", "sampling.temp", "sampling.think_top_k", "image.max_tokens", "server.api_key", "server.reasoning", "cache.dir", "cache.snapshots", "cache.roles.reasoning.persist", "cache.roles.tool.ttl", "generate.images", "bench.tg_batch", "load_bench.gib_per_node"] {
        assert!(k.iter().any(|x| x == want), "missing {want} in {k:?}");
    }
    // sections are tables, not leaves
    assert!(!k.iter().any(|x| x == "runtime"));
}

#[test]
fn unknown_file_keys_are_rejected_with_a_hint() {
    let e = check_keys("typo.yaml", &file("runtime:\n  cxt: 4096\n")).unwrap_err();
    assert!(e.contains("runtime.cxt"), "{e}");
    assert!(e.contains("runtime.ctx"), "{e}");
    let e = check_keys("typo2.yaml", &file("moe:\n  masss: 0.9\nnonsense: 1\n")).unwrap_err();
    assert!(e.contains("moe.masss") && e.contains("moe.mass"), "{e}");
    assert!(e.contains("nonsense"), "{e}");
    // a missing --config file is an error, a missing searched file is not
    assert!(select_files(&vec!["/nope/x.yaml".to_string()], &None, &vec![], false).required);
    assert!(!select_files(&vec![], &None, &vec!["/nope/x.yaml".to_string()], false).required);
    // an empty or absent section is neither a typo nor a parse error
    let empty = file("runtime:\nmoe: {}\nserver:\n  port: 1\n");
    assert!(check_keys("empty.yaml", &empty).is_ok());
    assert_eq!(unordered(&empty)["server"]["port"], serde_json::Value::from(1));
    assert!(unordered(&empty)["runtime"].is_null());
}

#[test]
fn a_key_inside_a_role_is_checked_too() {
    let e = check_keys("f.yaml", &json(r#"{"cache":{"roles":{"reasoning":{"persits":false}}}}"#)).unwrap_err();
    assert!(e.contains("cache.roles.reasoning.persits") && e.contains("persist"), "{e}");
    assert_eq!(edit_distance("kitten", "sitting"), 3);
    assert_eq!(edit_distance("", "abc"), 3);
    assert_eq!(hint_for("runtime.cxt").as_deref(), Some("runtime.ctx"));
    assert_eq!(hint_for("zzzzzzzzzzzzzzzzzzzzzzzz"), None);
}

#[test]
fn overrides_nest_and_keep_f32_precision() {
    let mut o = Ov::new();
    o.set("runtime.ctx", Some(Json::Number("8".into())));
    o.set("runtime.kv", Some(Json::Text("bf16".into())));
    o.set("runtime.batch", None);
    o.set("sampling.temp", Some(Json::Number(0.95f32.to_string())));
    o.set("sampling.top_p", None);
    o.set_list("generate.images", vec![Json::Text("a.png".into())]);
    o.set_list("overlays.mtp", vec![]);
    let v: serde_json::Value = serde_json::from_str(&to_compact(&o.into_value())).unwrap();
    assert_eq!(v["runtime"]["ctx"], serde_json::Value::from(8));
    assert_eq!(v["runtime"]["kv"], serde_json::Value::from("bf16"));
    assert!(v["runtime"].get("batch").is_none());
    assert_eq!(v["sampling"]["temp"].to_string(), "0.95", "f32 must not widen to 0.949999988");
    assert!(v["sampling"].get("top_p").is_none());
    assert_eq!(v["generate"]["images"], serde_json::Value::from(vec!["a.png"]));
    assert!(v.get("overlays").is_none());
}

#[test]
fn defaults_are_applied_per_command() {
    let c = Config::default();
    assert_eq!(c.runtime(defaults::CTX).ctx, 4096);
    assert_eq!(c.runtime(defaults::CTX_SERVE).ctx, 8192);
    assert_eq!(c.sampling(0.0, 0.95).temp, 0.0);
    assert_eq!(c.sampling(0.6, 0.95).temp, 0.6);
    assert_eq!(c.runtime(defaults::CTX).batch, 256);
    assert_eq!(c.runtime(defaults::CTX).kv, "f16");
    assert_eq!(c.runtime(defaults::CTX).spec_k, 3);
    assert_eq!(c.moe().basis, "top");
    assert_eq!(c.server().port, 8080);
    assert_eq!(c.generate().n_predict, 32);
    assert!(c.cache(32.0).dir.is_none(), "no cache unless a directory is set");
    assert_eq!(c.cache(32.0).chunk_len, 256);
    assert_eq!(c.cache(32.0).snapshots, "message");
    assert_eq!(c.cache(32.0).max_gib, 32.0);
    assert_eq!(c.cache(32.0).roles, Policies::default());
    // per-role policies resolve with defaults per field; ttl 0 means none
    let mut c = Config::default();
    c.cache.roles.reasoning.persist = Some(false);
    c.cache.roles.tool.ttl = Some(3600);
    c.cache.roles.tool.priority = Some(1);
    c.cache.roles.user.ttl = Some(0);
    let p = c.cache(32.0).roles;
    assert!(!p.reasoning.persist && p.reasoning.priority == 5 && p.reasoning.snapshot);
    assert_eq!(p.tool.ttl, Some(3600));
    assert_eq!(p.tool.priority, 1);
    assert_eq!(p.user.ttl, None);
    assert!(c.cache(32.0).validate().is_ok());
    c.cache.roles.system.priority = Some(12);
    assert_eq!(c.cache(32.0).validate().unwrap_err(), "cache.roles.system.priority must be 0..=9 (got 12)");
    assert!(c.runtime(defaults::CTX).pack().is_err());
    // one runtime.ctx in the file still means "for whatever I run"
    let mut c = Config::default();
    c.runtime.ctx = Some(60000);
    assert_eq!(c.runtime(defaults::CTX).ctx, 60000);
    assert_eq!(c.runtime(defaults::CTX_SERVE).ctx, 60000);
    assert!(c.runtime(defaults::CTX).kv().is_ok());
    c.runtime.kv = Some("q8".into());
    assert!(c.runtime(defaults::CTX).kv().is_err());
    c.moe.basis = Some("sideways".into());
    assert!(c.moe().kernel().is_err());
}

#[test]
fn yaml_output_is_readable_and_reloadable() {
    let text = "pack: /packs/base\nruntime:\n  ctx: 1000\n  ple_mmap: true\nserver:\n  host: 0.0.0.0\n  api_key: \"s3cr:et\"\ngenerate:\n  images:\n    - a.png\n";
    let f = file(text);
    assert!(check_keys("yaml.yaml", &f).is_ok());
    // the same settings with leaves that nothing set
    let c = match file(text) {
        Json::Object(mut sections) => {
            sections.push(("moe".into(), json(r#"{"mass":null,"min":null}"#)));
            sections.push(("bench".into(), Json::Null));
            Json::Object(sections)
        },
        _ => unreachable!(),
    };
    let y = to_yaml(&c, true);
    assert!(y.contains("pack: /packs/base"), "{y}");
    assert!(y.contains("  ctx: 1000"), "{y}");
    assert!(y.contains("  ple_mmap: true"), "{y}");
    assert!(y.contains("\"s3cr:et\""), "{y}");
    assert!(y.contains("    - a.png"), "{y}");
    assert!(!y.contains("null"), "unset leaves are dropped:\n{y}");
    // f32 must read back as it was written, not as its f64 widening
    let mut c3 = Ov::new();
    c3.set("moe.mass", Some(Json::Number(0.8f32.to_string())));
    c3.set("sampling.top_p", Some(Json::Number(0.95f32.to_string())));
    c3.set("load_bench.gib_per_node", Some(Json::Number(0.1f64.to_string())));
    let y3 = to_yaml(&c3.into_value(), true);
    assert!(y3.contains("mass: 0.8") && !y3.contains("0.800000011920929"), "{y3}");
    assert!(y3.contains("top_p: 0.95"), "{y3}");
    assert!(y3.contains("gib_per_node: 0.1"), "f64 keeps its own precision:\n{y3}");
    // what it prints, it can read back
    let back = file(&y);
    assert!(check_keys("yaml2.yaml", &back).is_ok());
    assert_eq!(unordered(&back), unordered(&f));
    // the resolved view keeps the nulls, so "unset" stays visible
    let rt = Config::default().runtime(defaults::CTX);
    let cores = rt.cores_per_node.map_or(Json::Null, |n| Json::Number(n.to_string()));
    let r = to_yaml(&Json::Object(vec![("cores_per_node".into(), cores)]), false);
    assert!(r.contains("cores_per_node: null"), "{r}");
}

#[test]
fn texts_are_quoted_where_they_would_read_as_something_else() {
    for t in ["1.5", "true", "null", "-inf", "1e5", "", " x", "nan"] {
        assert!(scalar(&Json::Text(t.into())).starts_with('"'), "{t:?}");
    }
    assert_eq!(scalar(&Json::Text("f16".into())), "f16");
}

#[test]
fn quoting_follows_what_reads_as_a_number() {
    for t in ["1", "-1", "+1", "1.", ".5", "1e3", "1E-3", "1e", "e3", ".", "-", "inf", "infinity", "NaN", "0x10", "1_0", "1..2", "abc"] {
        let quoted = scalar(&Json::Text(t.into())).starts_with('"');
        if t.parse::<f64>().is_ok() {
            assert!(quoted, "{t}");
        }
    }
}

#[test]
fn role_settings_are_typed_by_their_keys() {
    let a = parse_cache_role("tool=ttl:3600, priority:1").unwrap();
    assert_eq!(a.role, "tool");
    assert_eq!(a.pairs, vec![("ttl".to_string(), Setting::Count(3600)), ("priority".to_string(), Setting::Count(1))]);
    assert_eq!(parse_cache_role(" reasoning =persist: false,").unwrap().pairs[0].1, Setting::Switch(false));
    assert_eq!(parse_cache_role("tool").unwrap_err(), "expected ROLE=KEY:VALUE[,KEY:VALUE]");
    assert_eq!(parse_cache_role("nobody=ttl:1").unwrap_err(), "unknown role \"nobody\": system, user, reasoning, tool or assistant");
    assert_eq!(parse_cache_role("tool=ttl").unwrap_err(), "\"ttl\": expected KEY:VALUE");
    assert_eq!(parse_cache_role("tool=persist:1").unwrap_err(), "persist must be true or false");
    assert_eq!(parse_cache_role("tool=priority:10").unwrap_err(), "priority must be 0..=9");
    assert_eq!(parse_cache_role("tool=ttl:x").unwrap_err(), "ttl must be a number of seconds");
    assert_eq!(parse_cache_role("tool=color:1").unwrap_err(), "unknown key \"color\": persist, priority, ttl or snapshot");
    assert_eq!(parse_cache_role("tool= ,").unwrap_err(), "no KEY:VALUE given");
    assert_eq!(parse_cache_role("tool=ttl:+5").unwrap().pairs[0].1, Setting::Count(5));
}

fn no_store() -> StoreArgs {
    StoreArgs { cache_dir: None, cache_backend: None, cache_chunk_len: None, cache_max_gib: None, cache_snapshots: None, cache_snapshot_min_tokens: None, cache_staging_mib: None }
}

#[test]
fn flags_set_their_keys_and_nothing_else() {
    let c = Cmd::Generate {
        pack: PackArgs { pack: Some("/p".into()) },
        runtime: RuntimeArgs { ctx: Some(100), batch: None, kv: None, cores_per_node: None, ple_mmap: Some(true), pin_heap: None },
        overlays: OverlayArgs { mtp: None, vision: None, spec_k: Some(2) },
        moe: MoeFlags { moe_mass: Some("0.95".into()), moe_min: None, moe_max: None, moe_basis: None, moe_profile: None },
        sampling: SampleArgs { temp: None, top_k: None, top_p: None },
        images: ImageArgs { image_min_tokens: None, image_max_tokens: None },
        generate: GenerateArgs { prompt: Some("hi".into()), prompt_file: None, n_predict: None, seed: Some(7), dump: None, chat: None, no_think: None },
        image: vec!["a.png".into()],
    };
    assert_eq!(c.name(), Some("generate"));
    assert_eq!(to_compact(&c.overrides().into_value()), r#"{"pack":"/p","runtime":{"ctx":100,"ple_mmap":true},"spec":{"k":2},"moe":{"mass":0.95},"generate":{"prompt":"hi","images":["a.png"]},"sampling":{"seed":7}}"#);
    let c = Cmd::Cache { cache: CacheArgs { roles: vec![parse_cache_role("tool=ttl:5").unwrap()], store: StoreArgs { cache_dir: Some("/kv".into()), ..no_store() } } };
    assert_eq!(c.name(), Some("cache"));
    assert_eq!(to_compact(&c.overrides().into_value()), r#"{"cache":{"roles":{"tool":{"ttl":5}},"dir":"/kv"}}"#);
    let c = Cmd::NumaSmoke { smoke: SmokeArgs { mib: Some(3) } };
    assert_eq!(c.name(), None);
    let v = c.overrides().into_value();
    assert!(check_keys("flags", &v).is_ok());
    assert_eq!(to_compact(&Cmd::Topology.overrides().into_value()), "{}");
}

#[test]
fn files_are_searched_only_where_none_is_named() {
    let named = vec!["a.yaml".to_string()];
    let searched = vec!["/etc/x.yaml".to_string()];
    let s = select_files(&named, &Some("b.yaml:c.yaml".into()), &searched, false);
    assert_eq!((s.files, s.required), (vec!["a.yaml".to_string()], true));
    let s = select_files(&vec![], &Some("b.yaml:c.yaml".into()), &searched, false);
    assert_eq!(s.files, vec!["b.yaml".to_string(), "c.yaml".to_string()]);
    let s = select_files(&vec![], &None, &searched, false);
    assert_eq!((s.files, s.required), (searched.clone(), false));
    assert!(select_files(&named, &None, &searched, true).files.is_empty());
    let _ = |p: Provenance| p.summary();
}

#[test]
fn the_key_is_not_shown() {
    let v = redact(json(r#"{"server":{"api_key":"s","port":1},"api_key":"other"}"#));
    assert_eq!(to_compact(&v), r#"{"server":{"api_key":"<set, redacted>","port":1},"api_key":"other"}"#);
    assert_eq!(to_compact(&redact(json(r#"{"server":{"api_key":null}}"#))), r#"{"server":{"api_key":null}}"#);
    assert_eq!(to_compact(&redact(json("[1]"))), "[1]");
    assert_eq!(Settled::parse("spec_probe"), Ok(Settled::SpecProbe));
    assert!(Settled::parse("topology").unwrap_err().ends_with("(got topology)"));
}

fn serve() -> ServeOpts {
    ServeOpts { continuous: false, max_sequences: 16, kv_cache_mib: None, prefill_chunk: 32, max_queue: 128, batch: 256, mtp: false, spec_k: 3, vision: false }
}

#[test]
fn server_settings_are_checked_together() {
    assert!(serve().check().is_ok());
    assert_eq!(ServeOpts { max_queue: 0, ..serve() }.check().unwrap_err(), "max queue must be positive");
    let c = ServeOpts { continuous: true, kv_cache_mib: Some(64), ..serve() };
    assert!(c.check().is_ok());
    assert_eq!(ServeOpts { mtp: true, ..c }.check().unwrap_err(), "continuous batching requires text-only execution without MTP or vision");
    assert_eq!(ServeOpts { max_sequences: 256, ..c }.check().unwrap_err(), "max sequences must be positive and smaller than batch size");
    assert_eq!(ServeOpts { prefill_chunk: 0, ..c }.check().unwrap_err(), "prefill chunk must be positive");
    assert_eq!(ServeOpts { kv_cache_mib: Some(0), ..c }.check().unwrap_err(), "--continuous requires a positive --kv-cache-mib budget per tile");
    assert_eq!(ServeOpts { mtp: true, spec_k: 8, ..serve() }.check().unwrap_err(), "--spec-k must be 1..7 with --mtp");
    assert_eq!(ServeOpts { mtp: true, spec_k: 7, batch: 4, ..serve() }.batch_max(), 8);
    assert_eq!(ServeOpts { batch: 0, ..serve() }.batch_max(), 1);
    assert_eq!((serve().max_choices(), c.max_choices()), (1, 16));
    assert_eq!(model_id(&None, &Some("d".into())), "d");
    assert_eq!(model_id(&None, &None), "tr-infer");
    let mut cfg = Config::default();
    assert!(check_access(&cfg.server()).is_err());
    cfg.server.no_auth = Some(true);
    assert!(check_access(&cfg.server()).is_ok());
}

#[test]
fn cache_settings_are_checked_where_a_directory_is_set() {
    let mut c = Config::default();
    assert!(cache_opts(&c.cache(32.0), None).unwrap().is_none());
    c.cache.dir = Some("/kv".into());
    c.cache.staging_mib = Some(2);
    let o = cache_opts(&c.cache(32.0), Some(1 << 35)).unwrap().unwrap();
    assert_eq!((o.dir.as_str(), o.max_bytes, o.staging_bytes, o.snapshots), ("/kv", 1 << 35, 2 << 20, SnapshotPolicy::Message));
    assert_eq!(cache_opts(&c.cache(32.0), None).unwrap_err(), "cache.max_gib must be positive");
    c.cache.chunk_len = Some(0);
    assert_eq!(cache_opts(&c.cache(32.0), Some(1)).unwrap_err(), "cache.chunk_len must be positive");
    c.cache.snapshots = Some("never".into());
    assert_eq!(cache_opts(&c.cache(32.0), Some(1)).unwrap_err(), "cache.snapshots must be message or request (got never)");
}

#[test]
fn prompts_of_the_command_line() {
    assert_eq!(chat_prompt("Hi \n", 0, true), "<|im_start|>user\nHi<|im_end|>\n<|im_start|>assistant\n<think>\n\n</think>\n\n");
    assert_eq!(chat_prompt("x", 1, false), "<|im_start|>user\n<|vision_start|><|image_pad|><|vision_end|>x<|im_end|>\n<|im_start|>assistant\n<think>\n");
    assert!(probe_prompt("x ").starts_with("<|im_start|>user\nx <|im_end|>"));
    assert!(check_images(1, true, false).is_err() && check_images(0, false, false).is_ok());
    assert_eq!(check_room(10, 5, 14).unwrap_err(), "prompt (10) + n_predict (5) exceeds --ctx 14");
    assert!(check_room(10, 5, 15).is_ok());
    assert_eq!((drafts_for(false, 3), drafts_for(true, 0), drafts_for(true, 9)), (0, 1, 7));
}

#[test]
fn output_is_shown_once_and_ends_where_it_should() {
    let mut o = Output::new(3, 9);
    assert_eq!(o.push(1), Step::More(2));
    assert!(!o.push_drafts(&[2]));
    assert_eq!(o.push(3), Step::Full);
    let mut o = Output::new(10, 9);
    assert!(o.push_drafts(&[4, 9, 5]));
    assert_eq!(o.ids(), &vec![4, 9]);
    assert_eq!(o.push(9), Step::Ended);
    let mut s = Shown::new();
    assert_eq!(s.show("ab\u{FFFD}").as_deref(), Some("ab"));
    assert_eq!(s.show("ab"), None);
    assert_eq!(s.show("abé").as_deref(), Some("é"));
    assert_eq!(s.rest("abé!"), "!");
    assert_eq!(s.rest("ab"), "");
}

#[test]
fn benchmark_inputs() {
    let (p, rng) = random_prompt(12345, 3);
    let mut want = Vec::new();
    let mut r = 12345u64;
    for _ in 0..3 {
        r = r.wrapping_mul(6364136223846793005).wrapping_add(1442695040888963407);
        want.push(((r >> 33) % 200000) as u32);
    }
    assert_eq!((p, rng), (want, r));
    assert_eq!((decode_steps(64, 8), decode_steps(65, 8), decode_steps(0, 8)), (8, 9, 0));
    let v: Vec<u64> = (0..1003u64).map(|i| i.wrapping_mul(0x9E3779B97F4A7C15)).collect();
    assert_eq!(sum_u64(&v), v.iter().fold(0u64, |a, &b| a.wrapping_add(b)));
    let b = file_block(2);
    assert_eq!(b.len(), BLOCK);
    for off in [0usize, 1, 77, BLOCK - 1, BLOCK, 3 * BLOCK + 5] {
        assert_eq!(wanted_byte(off, 2), b[off % BLOCK]);
    }
    assert_eq!(whole_pages(0x20_0001), 0x20_0000);
    let mut h = Hits::new();
    h.count(true, true, false);
    h.count(false, true, true);
    assert_eq!((h.tried, h.first, h.second, h.third), (2, 1, 1, 0));
}

#[test]
fn a_store_is_summed_up_and_emptied() {
    let (r1, r2) = (root_key(&["a"]), root_key(&["b"]));
    let mut m1 = ObjectMeta::rows(r1, root_key(&["k1"]), r1, 0, 3, Role::Tool, vec![1, 2, 3], 5000);
    m1.last_used = 100;
    let mut m2 = ObjectMeta::snapshot(r1, root_key(&["k2"]), 3, None, 100);
    m2.last_used = 4000;
    let mut m3 = ObjectMeta::snapshot(r2, root_key(&["k3"]), 3, Some(Role::Tool), 100);
    m3.last_used = 50;
    let all = vec![m1.clone(), m2, m3];
    let mut want = vec![r1.hex(), r2.hex()];
    want.sort();
    assert_eq!(roots(&all), want);
    let s = root_stats(&all, &r1.hex());
    assert_eq!((s.rows, s.snapshots, s.bytes, s.oldest, s.newest), (1, 1, (4096 + 8192 + 4096 + 4096), 100, 4000));
    assert_eq!(total_bytes(&all), 4096 + 8192 + 4 * 4096);
    assert_eq!(role_labels(&all), vec!["(no role)", "tool"]);
    let t = role_stats(&all, "tool");
    assert_eq!((t.chunks, t.tokens, t.snapshots), (1, 3, 1));
    assert_eq!((age(4000, 100).as_str(), age(100_000, 100).as_str(), age(0, 9).as_str(), age(599, 0).as_str()), ("1h", "1d", "0m", "9m"));
    assert_eq!(root_line("r", &s, "0.01", 4000), "  root r: 1 rows chunks, 1 snapshots, 0.01 GiB, last used 0m .. 1h ago");
    let mut pol = Policies::default();
    assert_eq!(role_line(Some(Role::Tool), &t, "3", &pol), "  tool: 1 chunks, 3 tokens, 1 snapshots");
    pol.tool = RolePolicy { ttl: Some(60), ..Default::default() };
    assert_eq!(role_line(Some(Role::Tool), &t, "3", &pol), "  tool: 1 chunks, 3 tokens, 1 snapshots  [persist true, priority 5, ttl 60, snapshots true]");
    let mut be = MemBackend::new();
    be.put(&m1, &vec![0; 5000]).unwrap();
    assert_eq!(clear(&mut be), Ok(1));
    assert!(be.is_empty());
    assert_eq!(be.get_index().unwrap().unwrap(), b"{}");
    assert_eq!(m1.kind, Kind::Rows);
}

#[test]
fn white_space_and_numbers_read_as_usual() {
    for c in (0u32..0x3100).filter_map(char::from_u32) {
        assert_eq!(is_white(c), c.is_whitespace(), "{:x}", c as u32);
    }
    assert_eq!(trimmed(&to_chars("\u{3000} a b\t")), to_chars("a b"));
    for t in ["0", "007", "18446744073709551615", "18446744073709551616", "", "-1", "1a"] {
        assert_eq!(read_u64(&to_chars(t)), t.parse::<u64>().ok(), "{t}");
    }
}

#[test]
fn files_are_searched_for_from_the_machine_to_the_directory() {
    let home = Some("/home/a".to_string());
    assert_eq!(
        tr_infer::config::search_path(&None, &home),
        vec!["/etc/tr-infer/config.yaml", "/home/a/.config/tr-infer/config.yaml", "tr-infer.yaml"]
    );
    assert_eq!(tr_infer::config::search_path(&Some("/x/".to_string()), &home)[1], "/x/tr-infer/config.yaml");
    assert_eq!(tr_infer::config::search_path(&None, &None), vec!["/etc/tr-infer/config.yaml", "tr-infer.yaml"]);
}

/// A store in memory that refuses after so many calls.
struct Failing {
    inner: MemBackend,
    left: usize,
}

impl Failing {
    fn call(&mut self, what: &str) -> Result<(), String> {
        if self.left == 0 {
            return Err(format!("no {what}"));
        }
        self.left -= 1;
        Ok(())
    }
}

impl Backend for Failing {
    fn put(&mut self, meta: &ObjectMeta, body: &[u8]) -> Result<(), String> {
        self.inner.put(meta, body)
    }
    fn get(&mut self, name: &str, body: &mut [u8]) -> Result<ObjectMeta, String> {
        self.inner.get(name, body)
    }
    fn delete(&mut self, name: &str) -> Result<(), String> {
        self.call("deletion")?;
        self.inner.delete(name)
    }
    fn list(&mut self) -> Result<Vec<ObjectMeta>, String> {
        self.call("listing")?;
        self.inner.list()
    }
    fn put_index(&mut self, json: &[u8]) -> Result<(), String> {
        self.call("index")?;
        self.inner.put_index(json)
    }
    fn get_index(&mut self) -> Result<Option<Vec<u8>>, String> {
        self.inner.get_index()
    }
    fn describe(&self) -> String {
        self.inner.describe()
    }
}

#[test]
fn a_store_is_emptied_as_far_as_its_backend_goes() {
    let cases = [(0, Err("no listing".to_string()), 2), (1, Err("no deletion".to_string()), 2), (2, Err("no deletion".to_string()), 1), (3, Err("no index".to_string()), 0), (4, Ok(2), 0)];
    for (calls, answer, rest) in cases {
        let mut b = Failing { inner: MemBackend::new(), left: calls };
        for name in ["x", "y"] {
            b.put(&ObjectMeta::snapshot(root_key(&["r"]), root_key(&[name]), 1, None, 4), &[0; 4]).unwrap();
        }
        assert_eq!(clear(&mut b), answer);
        assert_eq!(b.inner.len(), rest);
        assert_eq!(b.get_index().unwrap().is_some(), calls == 4);
    }
}

#[test]
fn the_edit_distance_counts_single_edits() {
    let d = |a: &str, b: &str| edit_distance(a, b);
    assert_eq!((d("abc", "abc"), d("abc", "abd"), d("abc", "ab"), d("abc", "xabc")), (0, 1, 1, 1));
    // a swap is two edits; a letter of two bytes is two
    assert_eq!((d("ab", "ba"), d("", "é"), d("ba", "ab")), (2, 2, 2));
    for (a, b, c) in [("kitten", "sitting", "mitten"), ("", "abc", "xyz"), ("ctx", "cxt", "ctxs")] {
        assert!(d(a, c) <= d(a, b) + d(b, c));
        assert_eq!(d(a, b), d(b, a));
    }
}
