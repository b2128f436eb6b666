//! The command-line flags: which key each of them sets, for each command.
use crate::json::{items_view, number, number_view, text_value, Json, JsonView, MemberView};
use crate::overrides::{with_path, Ov};
use crate::role::Role;
use crate::roles::{is_setting, CacheRoleArg, RoleArgView};
use crate::schema::{key_list, KEYS, KEY_COUNT};
use crate::text::{concat, owned, push_text};
use vstd::prelude::*;

verus! {

/// A flag: the key it sets, and the value where it was passed.
pub struct FlagView {
    pub key: Seq<char>,
    pub value: Option<JsonView>,
}

pub open spec fn text_flag(key: Seq<char>, v: Option<String>) -> FlagView {
    FlagView {
        key,
        value: match v {
            Some(s) => Some(JsonView::Text(s@)),
            None => None,
        },
    }
}

pub open spec fn number_flag(key: Seq<char>, v: Option<u64>) -> FlagView {
    FlagView {
        key,
        value: match v {
            Some(n) => Some(number_view(n as nat)),
            None => None,
        },
    }
}

pub open spec fn switch_flag(key: Seq<char>, v: Option<bool>) -> FlagView {
    FlagView {
        key,
        value: match v {
            Some(b) => Some(JsonView::Bool(b)),
            None => None,
        },
    }
}

/// A fraction is given by its decimal text.
pub open spec fn fraction_flag(key: Seq<char>, v: Option<String>) -> FlagView {
    FlagView {
        key,
        value: match v {
            Some(s) => Some(JsonView::Number(s@)),
            None => None,
        },
    }
}

/// The tree after the first `n` flags.
pub open spec fn applied(m: Seq<MemberView>, f: Seq<FlagView>, n: int) -> Seq<MemberView>
    decreases n,
{
    if n <= 0 {
        m
    } else {
        let before = applied(m, f, n - 1);
        match f[n - 1].value {
            Some(v) => with_path(before, f[n - 1].key, v),
            None => before,
        }
    }
}

/// The tree after all flags.
pub open spec fn all_applied(m: Seq<MemberView>, f: Seq<FlagView>) -> Seq<MemberView> {
    applied(m, f, f.len() as int)
}

proof fn lemma_applied_concat(m: Seq<MemberView>, a: Seq<FlagView>, b: Seq<FlagView>, n: int)
    requires
        0 <= n <= b.len(),
    ensures
        applied(m, a + b, a.len() + n) == applied(all_applied(m, a), b, n),
    decreases n,
{
    if n > 0 {
        lemma_applied_concat(m, a, b, n - 1);
        assert((a + b)[a.len() + n - 1] == b[n - 1]);
    } else {
        lemma_applied_prefix(m, a, b, a.len() as int);
    }
}

proof fn lemma_applied_prefix(m: Seq<MemberView>, a: Seq<FlagView>, b: Seq<FlagView>, n: int)
    requires
        0 <= n <= a.len(),
    ensures
        applied(m, a + b, n) == applied(m, a, n),
    decreases n,
{
    if n > 0 {
        lemma_applied_prefix(m, a, b, n - 1);
        assert((a + b)[n - 1] == a[n - 1]);
    }
}

/// One list of flags behind another.
proof fn lemma_all_applied(m: Seq<MemberView>, a: Seq<FlagView>, b: Seq<FlagView>)
    ensures
        all_applied(m, a + b) == all_applied(all_applied(m, a), b),
{
    lemma_applied_concat(m, a, b, b.len() as int);
}

fn text_of(v: &Option<String>) -> (r: Option<Json>)
    ensures
        crate::json::view_of(r) == text_flag(Seq::empty(), *v).value,
{
    match v {
        Some(s) => Some(text_value(s.as_str())),
        None => None,
    }
}

fn number_of(v: Option<u64>) -> (r: Option<Json>)
    ensures
        crate::json::view_of(r) == number_flag(Seq::empty(), v).value,
{
    match v {
        Some(n) => Some(number(n)),
        None => None,
    }
}

fn switch_of(v: Option<bool>) -> (r: Option<Json>)
    ensures
        crate::json::view_of(r) == switch_flag(Seq::empty(), v).value,
{
    match v {
        Some(b) => Some(Json::Bool(b)),
        None => None,
    }
}

fn fraction_of(v: &Option<String>) -> (r: Option<Json>)
    ensures
        crate::json::view_of(r) == fraction_flag(Seq::empty(), *v).value,
{
    match v {
        Some(s) => Some(Json::Number(owned(s.as_str()))),
        None => None,
    }
}

/// The pack directory.
pub struct PackArgs {
    pub pack: Option<String>,
}

impl PackArgs {
    pub open spec fn flags(self) -> Seq<FlagView> {
        seq![
            text_flag("pack"@, self.pack),
        ]
    }

    pub fn apply(&self, o: &mut Ov)
        ensures
            final(o)@ == all_applied(old(o)@, self.flags()),
    {
        proof {
            reveal_with_fuel(applied, 2);
        }
        o.set("pack", text_of(&self.pack));
    }
}

/// Model-load settings shared by every command that loads a model.
pub struct RuntimeArgs {
    pub ctx: Option<u64>,
    pub batch: Option<u64>,
    pub kv: Option<String>,
    pub cores_per_node: Option<u64>,
    pub ple_mmap: Option<bool>,
    pub pin_heap: Option<String>,
}

impl RuntimeArgs {
    pub open spec fn flags(self) -> Seq<FlagView> {
        seq![
            number_flag("runtime.ctx"@, self.ctx),
            number_flag("runtime.batch"@, self.batch),
            text_flag("runtime.kv"@, self.kv),
            number_flag("runtime.cores_per_node"@, self.cores_per_node),
            switch_flag("runtime.ple_mmap"@, self.ple_mmap),
            text_flag("runtime.pin_heap"@, self.pin_heap),
        ]
    }

    pub fn apply(&self, o: &mut Ov)
        ensures
            final(o)@ == all_applied(old(o)@, self.flags()),
    {
        proof {
            reveal_with_fuel(applied, 7);
        }
        o.set("runtime.ctx", number_of(self.ctx));
        o.set("runtime.batch", number_of(self.batch));
        o.set("runtime.kv", text_of(&self.kv));
        o.set("runtime.cores_per_node", number_of(self.cores_per_node));
        o.set("runtime.ple_mmap", switch_of(self.ple_mmap));
        o.set("runtime.pin_heap", text_of(&self.pin_heap));
    }
}

/// Overlay packs and speculative decoding.
pub struct OverlayArgs {
    pub mtp: Option<String>,
    pub vision: Option<String>,
    pub spec_k: Option<u64>,
}

impl OverlayArgs {
    pub open spec fn flags(self) -> Seq<FlagView> {
        seq![
            text_flag("overlays.mtp"@, self.mtp),
            text_flag("overlays.vision"@, self.vision),
            number_flag("spec.k"@, self.spec_k),
        ]
    }

    pub fn apply(&self, o: &mut Ov)
        ensures
            final(o)@ == all_applied(old(o)@, self.flags()),
    {
        proof {
            reveal_with_fuel(applied, 4);
        }
        o.set("overlays.mtp", text_of(&self.mtp));
        o.set("overlays.vision", text_of(&self.vision));
        o.set("spec.k", number_of(self.spec_k));
    }
}

/// Cumulative-mass expert routing; the mass by its decimal text.
pub struct MoeFlags {
    pub moe_mass: Option<String>,
    pub moe_min: Option<u64>,
    pub moe_max: Option<u64>,
    pub moe_basis: Option<String>,
    pub moe_profile: Option<bool>,
}

impl MoeFlags {
    pub open spec fn flags(self) -> Seq<FlagView> {
        seq![
            fraction_flag("moe.mass"@, self.moe_mass),
            number_flag("moe.min"@, self.moe_min),
            number_flag("moe.max"@, self.moe_max),
            text_flag("moe.basis"@, self.moe_basis),
            switch_flag("moe.profile"@, self.moe_profile),
        ]
    }

    pub fn apply(&self, o: &mut Ov)
        ensures
            final(o)@ == all_applied(old(o)@, self.flags()),
    {
        proof {
            reveal_with_fuel(applied, 6);
        }
        o.set("moe.mass", fraction_of(&self.moe_mass));
        o.set("moe.min", number_of(self.moe_min));
        o.set("moe.max", number_of(self.moe_max));
        o.set("moe.basis", text_of(&self.moe_basis));
        o.set("moe.profile", switch_of(self.moe_profile));
    }
}

/// Sampling; fractions by their decimal text.
pub struct SampleArgs {
    pub temp: Option<String>,
    pub top_k: Option<u64>,
    pub top_p: Option<String>,
}

impl SampleArgs {
    pub open spec fn flags(self) -> Seq<FlagView> {
        seq![
            fraction_flag("sampling.temp"@, self.temp),
            number_flag("sampling.top_k"@, self.top_k),
            fraction_flag("sampling.top_p"@, self.top_p),
        ]
    }

    pub fn apply(&self, o: &mut Ov)
        ensures
            final(o)@ == all_applied(old(o)@, self.flags()),
    {
        proof {
            reveal_with_fuel(applied, 4);
        }
        o.set("sampling.temp", fraction_of(&self.temp));
        o.set("sampling.top_k", number_of(self.top_k));
        o.set("sampling.top_p", fraction_of(&self.top_p));
    }
}

/// Sampling inside the `<think>` block; fractions by their decimal text.
pub struct ThinkArgs {
    pub think_temp: Option<String>,
    pub think_top_p: Option<String>,
    pub think_top_k: Option<u64>,
}

impl ThinkArgs {
    pub open spec fn flags(self) -> Seq<FlagView> {
        seq![
            fraction_flag("sampling.think_temp"@, self.think_temp),
            fraction_flag("sampling.think_top_p"@, self.think_top_p),
            number_flag("sampling.think_top_k"@, self.think_top_k),
        ]
    }

    pub fn apply(&self, o: &mut Ov)
        ensures
            final(o)@ == all_applied(old(o)@, self.flags()),
    {
        proof {
            reveal_with_fuel(applied, 4);
        }
        o.set("sampling.think_temp", fraction_of(&self.think_temp));
        o.set("sampling.think_top_p", fraction_of(&self.think_top_p));
        o.set("sampling.think_top_k", number_of(self.think_top_k));
    }
}

/// Image size limits in tokens.
pub struct ImageArgs {
    pub image_min_tokens: Option<u64>,
    pub image_max_tokens: Option<u64>,
}

impl ImageArgs {
    pub open spec fn flags(self) -> Seq<FlagView> {
        seq![
            number_flag("image.min_tokens"@, self.image_min_tokens),
            number_flag("image.max_tokens"@, self.image_max_tokens),
        ]
    }

    pub fn apply(&self, o: &mut Ov)
        ensures
            final(o)@ == all_applied(old(o)@, self.flags()),
    {
        proof {
            reveal_with_fuel(applied, 3);
        }
        o.set("image.min_tokens", number_of(self.image_min_tokens));
        o.set("image.max_tokens", number_of(self.image_max_tokens));
    }
}

/// The prefix cache of the server, but for its roles; the size by its decimal text.
pub struct StoreArgs {
    pub cache_dir: Option<String>,
    pub cache_backend: Option<String>,
    pub cache_chunk_len: Option<u64>,
    pub cache_max_gib: Option<String>,
    pub cache_snapshots: Option<String>,
    pub cache_snapshot_min_tokens: Option<u64>,
    pub cache_staging_mib: Option<u64>,
}

impl StoreArgs {
    pub open spec fn flags(self) -> Seq<FlagView> {
        seq![
            text_flag("cache.dir"@, self.cache_dir),
            text_flag("cache.backend"@, self.cache_backend),
            number_flag("cache.chunk_len"@, self.cache_chunk_len),
            fraction_flag("cache.max_gib"@, self.cache_max_gib),
            text_flag("cache.snapshots"@, self.cache_snapshots),
            number_flag("cache.snapshot_min_tokens"@, self.cache_snapshot_min_tokens),
            number_flag("cache.staging_mib"@, self.cache_staging_mib),
        ]
    }

    pub fn apply(&self, o: &mut Ov)
        ensures
            final(o)@ == all_applied(old(o)@, self.flags()),
    {
        proof {
            reveal_with_fuel(applied, 8);
        }
        o.set("cache.dir", text_of(&self.cache_dir));
        o.set("cache.backend", text_of(&self.cache_backend));
        o.set("cache.chunk_len", number_of(self.cache_chunk_len));
        o.set("cache.max_gib", fraction_of(&self.cache_max_gib));
        o.set("cache.snapshots", text_of(&self.cache_snapshots));
        o.set("cache.snapshot_min_tokens", number_of(self.cache_snapshot_min_tokens));
        o.set("cache.staging_mib", number_of(self.cache_staging_mib));
    }
}

/// What the vision encoder's command is for.
pub struct EmbedArgs {
    pub image: Option<String>,
    pub out: Option<String>,
    pub reps: Option<u64>,
}

impl EmbedArgs {
    pub open spec fn flags(self) -> Seq<FlagView> {
        seq![
            text_flag("vision_embed.image"@, self.image),
            text_flag("vision_embed.out"@, self.out),
            number_flag("vision_embed.reps"@, self.reps),
        ]
    }

    pub fn apply(&self, o: &mut Ov)
        ensures
            final(o)@ == all_applied(old(o)@, self.flags()),
    {
        proof {
            reveal_with_fuel(applied, 4);
        }
        o.set("vision_embed.image", text_of(&self.image));
        o.set("vision_embed.out", text_of(&self.out));
        o.set("vision_embed.reps", number_of(self.reps));
    }
}

/// The memory test.
pub struct SmokeArgs {
    pub mib: Option<u64>,
}

impl SmokeArgs {
    pub open spec fn flags(self) -> Seq<FlagView> {
        seq![
            number_flag("numa_smoke.mib"@, self.mib),
        ]
    }

    pub fn apply(&self, o: &mut Ov)
        ensures
            final(o)@ == all_applied(old(o)@, self.flags()),
    {
        proof {
            reveal_with_fuel(applied, 2);
        }
        o.set("numa_smoke.mib", number_of(self.mib));
    }
}

/// The loading benchmark; the size by its decimal text.
pub struct LoadArgs {
    pub dir: Option<String>,
    pub gib_per_node: Option<String>,
    pub keep: Option<bool>,
}

impl LoadArgs {
    pub open spec fn flags(self) -> Seq<FlagView> {
        seq![
            text_flag("load_bench.dir"@, self.dir),
            fraction_flag("load_bench.gib_per_node"@, self.gib_per_node),
            switch_flag("load_bench.keep"@, self.keep),
        ]
    }

    pub fn apply(&self, o: &mut Ov)
        ensures
            final(o)@ == all_applied(old(o)@, self.flags()),
    {
        proof {
            reveal_with_fuel(applied, 4);
        }
        o.set("load_bench.dir", text_of(&self.dir));
        o.set("load_bench.gib_per_node", fraction_of(&self.gib_per_node));
        o.set("load_bench.keep", switch_of(self.keep));
    }
}

/// What is generated, but for the images.
pub struct GenerateArgs {
    pub prompt: Option<String>,
    pub prompt_file: Option<String>,
    pub n_predict: Option<u64>,
    pub seed: Option<u64>,
    pub dump: Option<bool>,
    pub chat: Option<bool>,
    pub no_think: Option<bool>,
}

impl GenerateArgs {
    pub open spec fn flags(self) -> Seq<FlagView> {
        seq![
            text_flag("generate.prompt"@, self.prompt),
            text_flag("generate.prompt_file"@, self.prompt_file),
            number_flag("generate.n_predict"@, self.n_predict),
            number_flag("sampling.seed"@, self.seed),
            switch_flag("generate.dump"@, self.dump),
            switch_flag("generate.chat"@, self.chat),
            switch_flag("generate.no_think"@, self.no_think),
        ]
    }

    pub fn apply(&self, o: &mut Ov)
        ensures
            final(o)@ == all_applied(old(o)@, self.flags()),
    {
        proof {
            reveal_with_fuel(applied, 8);
        }
        o.set("generate.prompt", text_of(&self.prompt));
        o.set("generate.prompt_file", text_of(&self.prompt_file));
        o.set("generate.n_predict", number_of(self.n_predict));
        o.set("sampling.seed", number_of(self.seed));
        o.set("generate.dump", switch_of(self.dump));
        o.set("generate.chat", switch_of(self.chat));
        o.set("generate.no_think", switch_of(self.no_think));
    }
}

/// What the benchmark measures.
pub struct BenchArgs {
    pub pp: Option<u64>,
    pub tg: Option<u64>,
    pub reps: Option<u64>,
    pub tg_batch: Option<u64>,
}

impl BenchArgs {
    pub open spec fn flags(self) -> Seq<FlagView> {
        seq![
            number_flag("bench.pp"@, self.pp),
            number_flag("bench.tg"@, self.tg),
            number_flag("bench.reps"@, self.reps),
            number_flag("bench.tg_batch"@, self.tg_batch),
        ]
    }

    pub fn apply(&self, o: &mut Ov)
        ensures
            final(o)@ == all_applied(old(o)@, self.flags()),
    {
        proof {
            reveal_with_fuel(applied, 5);
        }
        o.set("bench.pp", number_of(self.pp));
        o.set("bench.tg", number_of(self.tg));
        o.set("bench.reps", number_of(self.reps));
        o.set("bench.tg_batch", number_of(self.tg_batch));
    }
}

/// The server.
pub struct ServeArgs {
    pub continuous: Option<bool>,
    pub max_sequences: Option<u64>,
    pub kv_cache_mib: Option<u64>,
    pub prefill_chunk: Option<u64>,
    pub max_queue: Option<u64>,
    pub host: Option<String>,
    pub port: Option<u64>,
    pub api_key: Option<String>,
    pub no_auth: Option<bool>,
    pub model_name: Option<String>,
    pub reasoning: Option<String>,
}

impl ServeArgs {
    pub open spec fn flags(self) -> Seq<FlagView> {
        seq![
            switch_flag("server.continuous"@, self.continuous),
            number_flag("server.max_sequences"@, self.max_sequences),
            number_flag("server.kv_cache_mib"@, self.kv_cache_mib),
            number_flag("server.prefill_chunk"@, self.prefill_chunk),
            number_flag("server.max_queue"@, self.max_queue),
            text_flag("server.host"@, self.host),
            number_flag("server.port"@, self.port),
            text_flag("server.api_key"@, self.api_key),
            switch_flag("server.no_auth"@, self.no_auth),
            text_flag("server.model_name"@, self.model_name),
            text_flag("server.reasoning"@, self.reasoning),
        ]
    }

    pub fn apply(&self, o: &mut Ov)
        ensures
            final(o)@ == all_applied(old(o)@, self.flags()),
    {
        proof {
            reveal_with_fuel(applied, 12);
        }
        o.set("server.continuous", switch_of(self.continuous));
        o.set("server.max_sequences", number_of(self.max_sequences));
        o.set("server.kv_cache_mib", number_of(self.kv_cache_mib));
        o.set("server.prefill_chunk", number_of(self.prefill_chunk));
        o.set("server.max_queue", number_of(self.max_queue));
        o.set("server.host", text_of(&self.host));
        o.set("server.port", number_of(self.port));
        o.set("server.api_key", text_of(&self.api_key));
        o.set("server.no_auth", switch_of(self.no_auth));
        o.set("server.model_name", text_of(&self.model_name));
        o.set("server.reasoning", text_of(&self.reasoning));
    }
}

/// The probe of the draft head.
pub struct ProbeArgs {
    pub prompt: Option<String>,
    pub chat: Option<bool>,
    pub n_predict: Option<u64>,
}

impl ProbeArgs {
    pub open spec fn flags(self) -> Seq<FlagView> {
        seq![
            text_flag("spec_probe.prompt"@, self.prompt),
            switch_flag("spec_probe.chat"@, self.chat),
            number_flag("spec_probe.n_predict"@, self.n_predict),
        ]
    }

    pub fn apply(&self, o: &mut Ov)
        ensures
            final(o)@ == all_applied(old(o)@, self.flags()),
    {
        proof {
            reveal_with_fuel(applied, 4);
        }
        o.set("spec_probe.prompt", text_of(&self.prompt));
        o.set("spec_probe.chat", switch_of(self.chat));
        o.set("spec_probe.n_predict", number_of(self.n_predict));
    }
}

/// What is tokenized.
pub struct TokenizeArgs {
    pub prompt: Option<String>,
    pub prompt_file: Option<String>,
}

impl TokenizeArgs {
    pub open spec fn flags(self) -> Seq<FlagView> {
        seq![
            text_flag("tokenize.prompt"@, self.prompt),
            text_flag("tokenize.prompt_file"@, self.prompt_file),
        ]
    }

    pub fn apply(&self, o: &mut Ov)
        ensures
            final(o)@ == all_applied(old(o)@, self.flags()),
    {
        proof {
            reveal_with_fuel(applied, 3);
        }
        o.set("tokenize.prompt", text_of(&self.prompt));
        o.set("tokenize.prompt_file", text_of(&self.prompt_file));
    }
}

/// The barrier benchmark.
pub struct BarrierArgs {
    pub rounds: Option<u64>,
    pub cores_per_node: Option<u64>,
}

impl BarrierArgs {
    pub open spec fn flags(self) -> Seq<FlagView> {
        seq![
            number_flag("barrier_bench.rounds"@, self.rounds),
            number_flag("runtime.cores_per_node"@, self.cores_per_node),
        ]
    }

    pub fn apply(&self, o: &mut Ov)
        ensures
            final(o)@ == all_applied(old(o)@, self.flags()),
    {
        proof {
            reveal_with_fuel(applied, 3);
        }
        o.set("barrier_bench.rounds", number_of(self.rounds));
        o.set("runtime.cores_per_node", number_of(self.cores_per_node));
    }
}

/// The prefix cache of the server.
pub struct CacheArgs {
    pub roles: Vec<CacheRoleArg>,
    pub store: StoreArgs,
}

/// The key of a setting of a role.
pub open spec fn role_key(role: Seq<char>, key: Seq<char>) -> Seq<char> {
    "cache.roles."@ + role + "."@ + key
}

/// The first `n` settings of a role.
pub open spec fn pair_flags(r: RoleArgView, n: int) -> Seq<FlagView> {
    Seq::new(
        n as nat,
        |i: int| FlagView { key: role_key(r.role, r.pairs[i].key), value: Some(r.pairs[i].value) },
    )
}

/// The settings of the first `n` roles, one behind another.
pub open spec fn role_flags(r: Seq<CacheRoleArg>, n: int) -> Seq<FlagView>
    decreases n,
{
    if n <= 0 {
        Seq::empty()
    } else {
        role_flags(r, n - 1) + pair_flags(r[n - 1]@, r[n - 1]@.pairs.len() as int)
    }
}

fn apply_role(r: &CacheRoleArg, o: &mut Ov)
    ensures
        final(o)@ == all_applied(old(o)@, pair_flags(r@, r@.pairs.len() as int)),
{
    let n: usize = r.pairs.len();
    let mut i: usize = 0;
    let ghost all = pair_flags(r@, n as int);
    while i < n
        invariant
            n == r.pairs@.len(),
            all == pair_flags(r@, n as int),
            i <= n,
            o@ == applied(old(o)@, all, i as int),
        decreases n - i,
    {
        let mut path: String = concat("cache.roles.", r.role.as_str());
        push_text(&mut path, ".");
        push_text(&mut path, r.pairs[i].0.as_str());
        assert(path@ =~= all[i as int].key);
        o.set(path.as_str(), Some(r.pairs[i].1.to_json()));
        i = i + 1;
    }
}

impl CacheArgs {
    pub open spec fn flags(self) -> Seq<FlagView> {
        role_flags(self.roles@, self.roles@.len() as int) + self.store.flags()
    }

    pub fn apply(&self, o: &mut Ov)
        ensures
            final(o)@ == all_applied(old(o)@, self.flags()),
    {
        let n: usize = self.roles.len();
        let mut i: usize = 0;
        while i < n
            invariant
                n == self.roles@.len(),
                i <= n,
                o@ == all_applied(old(o)@, role_flags(self.roles@, i as int)),
            decreases n - i,
        {
            proof {
                let r = self.roles@[i as int]@;
                lemma_all_applied(old(o)@, role_flags(self.roles@, i as int), pair_flags(r, r.pairs.len() as int));
            }
            apply_role(&self.roles[i], o);
            i = i + 1;
        }
        proof {
            lemma_all_applied(old(o)@, role_flags(self.roles@, n as int), self.store.flags());
        }
        self.store.apply(o);
    }
}

/// A flag that may be given several times.
pub open spec fn list_flag(key: Seq<char>, v: Seq<String>) -> FlagView {
    FlagView {
        key,
        value: if v.len() == 0 {
            None
        } else {
            Some(JsonView::Array(Seq::new(v.len(), |i: int| JsonView::Text(v[i]@))))
        },
    }
}

fn list_of(v: &Vec<String>) -> (r: Vec<Json>)
    ensures
        items_view(r@) == Seq::new(v@.len(), |i: int| JsonView::Text(v@[i]@)),
{
    let n: usize = v.len();
    let mut r: Vec<Json> = Vec::new();
    let mut i: usize = 0;
    while i < n
        invariant
            n == v@.len(),
            i <= n,
            r@.len() == i,
            forall|j: int| 0 <= j < i ==> (#[trigger] r@[j])@ == JsonView::Text(v@[j]@),
        decreases n - i,
    {
        r.push(text_value(v[i].as_str()));
        i = i + 1;
    }
    assert(items_view(r@) =~= Seq::new(v@.len(), |i: int| JsonView::Text(v@[i]@)));
    r
}

/// A command with the flags it was given.
pub enum Cmd {
    /// Inspect or empty the store of the prefix cache.
    Cache { cache: CacheArgs },
    /// Print the merged configuration.
    Config,
    /// Print the topology of the machine.
    Topology,
    /// Encode an image.
    VisionEmbed { pack: PackArgs, runtime: RuntimeArgs, overlays: OverlayArgs, images: ImageArgs, embed: EmbedArgs },
    /// Test the memory of every tile.
    NumaSmoke { smoke: SmokeArgs },
    /// Time the loading of files.
    LoadBench { load: LoadArgs },
    /// Generate text.
    Generate { pack: PackArgs, runtime: RuntimeArgs, overlays: OverlayArgs, sampling: SampleArgs, moe: MoeFlags, images: ImageArgs, generate: GenerateArgs, image: Vec<String> },
    /// Measure prompt processing and generation.
    Bench { pack: PackArgs, runtime: RuntimeArgs, overlays: OverlayArgs, moe: MoeFlags, bench: BenchArgs },
    /// Serve the API.
    Serve { pack: PackArgs, runtime: RuntimeArgs, overlays: OverlayArgs, sampling: SampleArgs, think: ThinkArgs, moe: MoeFlags, images: ImageArgs, cache: CacheArgs, serve: ServeArgs },
    /// Measure the draft head.
    SpecProbe { pack: PackArgs, runtime: RuntimeArgs, overlays: OverlayArgs, probe: ProbeArgs },
    /// Print token ids.
    Tokenize { pack: PackArgs, tokenize: TokenizeArgs },
    /// Measure barriers.
    BarrierBench { barrier: BarrierArgs },
}

impl Cmd {
    /// The flags of the command, in the order in which they are set.
    pub open spec fn flags(self) -> Seq<FlagView> {
        match self {
            Cmd::Cache { cache } => cache.flags(),
            Cmd::Config => Seq::empty(),
            Cmd::Topology => Seq::empty(),
            Cmd::VisionEmbed { pack, runtime, overlays, images, embed } => pack.flags() + runtime.flags() + overlays.flags() + images.flags() + embed.flags(),
            Cmd::NumaSmoke { smoke } => smoke.flags(),
            Cmd::LoadBench { load } => load.flags(),
            Cmd::Generate { pack, runtime, overlays, sampling, moe, images, generate, image } => pack.flags() + runtime.flags() + overlays.flags() + sampling.flags() + moe.flags() + images.flags() + generate.flags() + seq![list_flag("generate.images"@, image@)],
            Cmd::Bench { pack, runtime, overlays, moe, bench } => pack.flags() + runtime.flags() + overlays.flags() + moe.flags() + bench.flags(),
            Cmd::Serve { pack, runtime, overlays, sampling, think, moe, images, cache, serve } => pack.flags() + runtime.flags() + overlays.flags() + sampling.flags() + think.flags() + moe.flags() + images.flags() + cache.flags() + serve.flags(),
            Cmd::SpecProbe { pack, runtime, overlays, probe } => pack.flags() + runtime.flags() + overlays.flags() + probe.flags(),
            Cmd::Tokenize { pack, tokenize } => pack.flags() + tokenize.flags(),
            Cmd::BarrierBench { barrier } => barrier.flags(),
        }
    }

    /// The name by which a command with settings of its own is asked for.
    pub fn name(&self) -> (r: Option<&'static str>)
        ensures
            match self {
                Cmd::Cache { .. } => r matches Some(s) && s@ == "cache"@,
                Cmd::VisionEmbed { .. } => r matches Some(s) && s@ == "vision-embed"@,
                Cmd::Generate { .. } => r matches Some(s) && s@ == "generate"@,
                Cmd::Bench { .. } => r matches Some(s) && s@ == "bench"@,
                Cmd::Serve { .. } => r matches Some(s) && s@ == "serve"@,
                Cmd::SpecProbe { .. } => r matches Some(s) && s@ == "spec-probe"@,
                Cmd::Tokenize { .. } => r matches Some(s) && s@ == "tokenize"@,
                _ => r is None,
            },
    {
        match self {
            Cmd::Cache { .. } => Some("cache"),
            Cmd::VisionEmbed { .. } => Some("vision-embed"),
            Cmd::Generate { .. } => Some("generate"),
            Cmd::Bench { .. } => Some("bench"),
            Cmd::Serve { .. } => Some("serve"),
            Cmd::SpecProbe { .. } => Some("spec-probe"),
            Cmd::Tokenize { .. } => Some("tokenize"),
            _ => None,
        }
    }

    /// The flags that were actually given, as the configuration source that wins.
    pub fn overrides(&self) -> (o: Ov)
        ensures
            o@ == all_applied(Seq::empty(), self.flags()),
    {
        let mut o: Ov = Ov::new();
        let ghost none = Seq::<MemberView>::empty();
        match self {
            Cmd::Cache { cache } => {
                cache.apply(&mut o);
            },
            Cmd::VisionEmbed { pack, runtime, overlays, images, embed } => {
                proof {
                    lemma_all_applied(none, pack.flags(), runtime.flags());
                    lemma_all_applied(none, pack.flags() + runtime.flags(), overlays.flags());
                    lemma_all_applied(none, pack.flags() + runtime.flags() + overlays.flags(), images.flags());
                    lemma_all_applied(none, pack.flags() + runtime.flags() + overlays.flags() + images.flags(), embed.flags());
                }
                pack.apply(&mut o);
                runtime.apply(&mut o);
                overlays.apply(&mut o);
                images.apply(&mut o);
                embed.apply(&mut o);
            },
            Cmd::NumaSmoke { smoke } => {
                smoke.apply(&mut o);
            },
            Cmd::LoadBench { load } => {
                load.apply(&mut o);
            },
            Cmd::Generate { pack, runtime, overlays, sampling, moe, images, generate, image } => {
                proof {
                    lemma_all_applied(none, pack.flags(), runtime.flags());
                    lemma_all_applied(none, pack.flags() + runtime.flags(), overlays.flags());
                    lemma_all_applied(none, pack.flags() + runtime.flags() + overlays.flags(), sampling.flags());
                    lemma_all_applied(none, pack.flags() + runtime.flags() + overlays.flags() + sampling.flags(), moe.flags());
                    lemma_all_applied(none, pack.flags() + runtime.flags() + overlays.flags() + sampling.flags() + moe.flags(), images.flags());
                    lemma_all_applied(none, pack.flags() + runtime.flags() + overlays.flags() + sampling.flags() + moe.flags() + images.flags(), generate.flags());
                    lemma_all_applied(none, pack.flags() + runtime.flags() + overlays.flags() + sampling.flags() + moe.flags() + images.flags() + generate.flags(), seq![list_flag("generate.images"@, image@)]);
                }
                pack.apply(&mut o);
                runtime.apply(&mut o);
                overlays.apply(&mut o);
                sampling.apply(&mut o);
                moe.apply(&mut o);
                images.apply(&mut o);
                generate.apply(&mut o);
                proof {
                    reveal_with_fuel(applied, 2);
                }
                let list: Vec<Json> = list_of(image);
                assert(items_view(list@).len() == list@.len());
                o.set_list("generate.images", list);
            },
            Cmd::Bench { pack, runtime, overlays, moe, bench } => {
                proof {
                    lemma_all_applied(none, pack.flags(), runtime.flags());
                    lemma_all_applied(none, pack.flags() + runtime.flags(), overlays.flags());
                    lemma_all_applied(none, pack.flags() + runtime.flags() + overlays.flags(), moe.flags());
                    lemma_all_applied(none, pack.flags() + runtime.flags() + overlays.flags() + moe.flags(), bench.flags());
                }
                pack.apply(&mut o);
                runtime.apply(&mut o);
                overlays.apply(&mut o);
                moe.apply(&mut o);
                bench.apply(&mut o);
            },
            Cmd::Serve { pack, runtime, overlays, sampling, think, moe, images, cache, serve } => {
                proof {
                    lemma_all_applied(none, pack.flags(), runtime.flags());
                    lemma_all_applied(none, pack.flags() + runtime.flags(), overlays.flags());
                    lemma_all_applied(none, pack.flags() + runtime.flags() + overlays.flags(), sampling.flags());
                    lemma_all_applied(none, pack.flags() + runtime.flags() + overlays.flags() + sampling.flags(), think.flags());
                    lemma_all_applied(none, pack.flags() + runtime.flags() + overlays.flags() + sampling.flags() + think.flags(), moe.flags());
                    lemma_all_applied(none, pack.flags() + runtime.flags() + overlays.flags() + sampling.flags() + think.flags() + moe.flags(), images.flags());
                    lemma_all_applied(none, pack.flags() + runtime.flags() + overlays.flags() + sampling.flags() + think.flags() + moe.flags() + images.flags(), cache.flags());
                    lemma_all_applied(none, pack.flags() + runtime.flags() + overlays.flags() + sampling.flags() + think.flags() + moe.flags() + images.flags() + cache.flags(), serve.flags());
                }
                pack.apply(&mut o);
                runtime.apply(&mut o);
                overlays.apply(&mut o);
                sampling.apply(&mut o);
                think.apply(&mut o);
                moe.apply(&mut o);
                images.apply(&mut o);
                cache.apply(&mut o);
                serve.apply(&mut o);
            },
            Cmd::SpecProbe { pack, runtime, overlays, probe } => {
                proof {
                    lemma_all_applied(none, pack.flags(), runtime.flags());
                    lemma_all_applied(none, pack.flags() + runtime.flags(), overlays.flags());
                    lemma_all_applied(none, pack.flags() + runtime.flags() + overlays.flags(), probe.flags());
                }
                pack.apply(&mut o);
                runtime.apply(&mut o);
                overlays.apply(&mut o);
                probe.apply(&mut o);
            },
            Cmd::Tokenize { pack, tokenize } => {
                proof {
                    lemma_all_applied(none, pack.flags(), tokenize.flags());
                }
                pack.apply(&mut o);
                tokenize.apply(&mut o);
            },
            Cmd::BarrierBench { barrier } => {
                barrier.apply(&mut o);
            },
            Cmd::Config => {},
            Cmd::Topology => {},
        }
        o
    }
}

/// Whether every flag of a list sets a settable key.
pub open spec fn settable(f: Seq<FlagView>) -> bool {
    forall|i: int| 0 <= i < f.len() ==> key_list().contains((#[trigger] f[i]).key)
}

proof fn lemma_settable_concat(a: Seq<FlagView>, b: Seq<FlagView>)
    requires
        settable(a),
        settable(b),
    ensures
        settable(a + b),
{
    assert forall|i: int| 0 <= i < (a + b).len() implies key_list().contains((#[trigger] (a + b)[i]).key) by {
        if i < a.len() {
            assert((a + b)[i] == a[i]);
        } else {
            assert((a + b)[i] == b[i - a.len()]);
        }
    }
}

proof fn lemma_key(i: int)
    requires
        0 <= i < KEY_COUNT,
    ensures
        key_list().contains(KEYS@[i]@),
{
    assert(key_list()[i] == KEYS@[i]@);
}

proof fn lemma_pack_args(a: PackArgs)
    ensures
        settable(a.flags()),
{
    lemma_key(0);
}

proof fn lemma_runtime_args(a: RuntimeArgs)
    ensures
        settable(a.flags()),
{
    lemma_key(1);
    lemma_key(2);
    lemma_key(3);
    lemma_key(4);
    lemma_key(5);
    lemma_key(6);
}

proof fn lemma_overlay_args(a: OverlayArgs)
    ensures
        settable(a.flags()),
{
    lemma_key(7);
    lemma_key(8);
    lemma_key(9);
}

proof fn lemma_moe_flags(a: MoeFlags)
    ensures
        settable(a.flags()),
{
    lemma_key(10);
    lemma_key(11);
    lemma_key(12);
    lemma_key(13);
    lemma_key(14);
}

proof fn lemma_sample_args(a: SampleArgs)
    ensures
        settable(a.flags()),
{
    lemma_key(15);
    lemma_key(16);
    lemma_key(17);
}

proof fn lemma_think_args(a: ThinkArgs)
    ensures
        settable(a.flags()),
{
    lemma_key(19);
    lemma_key(21);
    lemma_key(20);
}

proof fn lemma_image_args(a: ImageArgs)
    ensures
        settable(a.flags()),
{
    lemma_key(22);
    lemma_key(23);
}

proof fn lemma_store_args(a: StoreArgs)
    ensures
        settable(a.flags()),
{
    lemma_key(35);
    lemma_key(36);
    lemma_key(37);
    lemma_key(38);
    lemma_key(39);
    lemma_key(40);
    lemma_key(41);
}

proof fn lemma_embed_args(a: EmbedArgs)
    ensures
        settable(a.flags()),
{
    lemma_key(78);
    lemma_key(79);
    lemma_key(80);
}

proof fn lemma_smoke_args(a: SmokeArgs)
    ensures
        settable(a.flags()),
{
    lemma_key(81);
}

proof fn lemma_load_args(a: LoadArgs)
    ensures
        settable(a.flags()),
{
    lemma_key(82);
    lemma_key(83);
    lemma_key(84);
}

proof fn lemma_generate_args(a: GenerateArgs)
    ensures
        settable(a.flags()),
{
    lemma_key(62);
    lemma_key(63);
    lemma_key(64);
    lemma_key(18);
    lemma_key(67);
    lemma_key(65);
    lemma_key(66);
}

proof fn lemma_bench_args(a: BenchArgs)
    ensures
        settable(a.flags()),
{
    lemma_key(69);
    lemma_key(70);
    lemma_key(71);
    lemma_key(72);
}

proof fn lemma_serve_args(a: ServeArgs)
    ensures
        settable(a.flags()),
{
    lemma_key(24);
    lemma_key(25);
    lemma_key(26);
    lemma_key(27);
    lemma_key(28);
    lemma_key(29);
    lemma_key(30);
    lemma_key(31);
    lemma_key(32);
    lemma_key(33);
    lemma_key(34);
}

proof fn lemma_probe_args(a: ProbeArgs)
    ensures
        settable(a.flags()),
{
    lemma_key(73);
    lemma_key(74);
    lemma_key(75);
}

proof fn lemma_tokenize_args(a: TokenizeArgs)
    ensures
        settable(a.flags()),
{
    lemma_key(76);
    lemma_key(77);
}

proof fn lemma_barrier_args(a: BarrierArgs)
    ensures
        settable(a.flags()),
{
    lemma_key(85);
    lemma_key(4);
}

proof fn lemma_role_key(r: Role, k: Seq<char>)
    requires
        is_setting(k),
    ensures
        key_list().contains(role_key(r.text(), k)),
{
    reveal_strlit("cache.roles.");
    reveal_strlit(".");
    reveal_strlit("persist");
    reveal_strlit("priority");
    reveal_strlit("ttl");
    reveal_strlit("snapshot");
    match r {
        Role::System => {
            reveal_strlit("system");
            if k == "persist"@ {
                reveal_strlit("cache.roles.system.persist");
                assert(role_key(r.text(), k) =~= "cache.roles.system.persist"@);
                lemma_key(42);
            }
            if k == "priority"@ {
                reveal_strlit("cache.roles.system.priority");
                assert(role_key(r.text(), k) =~= "cache.roles.system.priority"@);
                lemma_key(43);
            }
            if k == "ttl"@ {
                reveal_strlit("cache.roles.system.ttl");
                assert(role_key(r.text(), k) =~= "cache.roles.system.ttl"@);
                lemma_key(44);
            }
            if k == "snapshot"@ {
                reveal_strlit("cache.roles.system.snapshot");
                assert(role_key(r.text(), k) =~= "cache.roles.system.snapshot"@);
                lemma_key(45);
            }
        },
        Role::User => {
            reveal_strlit("user");
            if k == "persist"@ {
                reveal_strlit("cache.roles.user.persist");
                assert(role_key(r.text(), k) =~= "cache.roles.user.persist"@);
                lemma_key(46);
            }
            if k == "priority"@ {
                reveal_strlit("cache.roles.user.priority");
                assert(role_key(r.text(), k) =~= "cache.roles.user.priority"@);
                lemma_key(47);
            }
            if k == "ttl"@ {
                reveal_strlit("cache.roles.user.ttl");
                assert(role_key(r.text(), k) =~= "cache.roles.user.ttl"@);
                lemma_key(48);
            }
            if k == "snapshot"@ {
                reveal_strlit("cache.roles.user.snapshot");
                assert(role_key(r.text(), k) =~= "cache.roles.user.snapshot"@);
                lemma_key(49);
            }
        },
        Role::Reasoning => {
            reveal_strlit("reasoning");
            if k == "persist"@ {
                reveal_strlit("cache.roles.reasoning.persist");
                assert(role_key(r.text(), k) =~= "cache.roles.reasoning.persist"@);
                lemma_key(50);
            }
            if k == "priority"@ {
                reveal_strlit("cache.roles.reasoning.priority");
                assert(role_key(r.text(), k) =~= "cache.roles.reasoning.priority"@);
                lemma_key(51);
            }
            if k == "ttl"@ {
                reveal_strlit("cache.roles.reasoning.ttl");
                assert(role_key(r.text(), k) =~= "cache.roles.reasoning.ttl"@);
                lemma_key(52);
            }
            if k == "snapshot"@ {
                reveal_strlit("cache.roles.reasoning.snapshot");
                assert(role_key(r.text(), k) =~= "cache.roles.reasoning.snapshot"@);
                lemma_key(53);
            }
        },
        Role::Tool => {
            reveal_strlit("tool");
            if k == "persist"@ {
                reveal_strlit("cache.roles.tool.persist");
                assert(role_key(r.text(), k) =~= "cache.roles.tool.persist"@);
                lemma_key(54);
            }
            if k == "priority"@ {
                reveal_strlit("cache.roles.tool.priority");
                assert(role_key(r.text(), k) =~= "cache.roles.tool.priority"@);
                lemma_key(55);
            }
            if k == "ttl"@ {
                reveal_strlit("cache.roles.tool.ttl");
                assert(role_key(r.text(), k) =~= "cache.roles.tool.ttl"@);
                lemma_key(56);
            }
            if k == "snapshot"@ {
                reveal_strlit("cache.roles.tool.snapshot");
                assert(role_key(r.text(), k) =~= "cache.roles.tool.snapshot"@);
                lemma_key(57);
            }
        },
        Role::Assistant => {
            reveal_strlit("assistant");
            if k == "persist"@ {
                reveal_strlit("cache.roles.assistant.persist");
                assert(role_key(r.text(), k) =~= "cache.roles.assistant.persist"@);
                lemma_key(58);
            }
            if k == "priority"@ {
                reveal_strlit("cache.roles.assistant.priority");
                assert(role_key(r.text(), k) =~= "cache.roles.assistant.priority"@);
                lemma_key(59);
            }
            if k == "ttl"@ {
                reveal_strlit("cache.roles.assistant.ttl");
                assert(role_key(r.text(), k) =~= "cache.roles.assistant.ttl"@);
                lemma_key(60);
            }
            if k == "snapshot"@ {
                reveal_strlit("cache.roles.assistant.snapshot");
                assert(role_key(r.text(), k) =~= "cache.roles.assistant.snapshot"@);
                lemma_key(61);
            }
        },
    }
}

/// Whether the settings of roles are ones that a `--cache-role` value can hold.
pub open spec fn roles_ok(r: Seq<CacheRoleArg>) -> bool {
    forall|i: int|
        0 <= i < r.len() ==> (exists|x: Role| (#[trigger] r[i])@.role == #[trigger] x.text()) && forall|j: int|
            0 <= j < r[i]@.pairs.len() ==> is_setting((#[trigger] r[i]@.pairs[j]).key)
}

proof fn lemma_role_flags(r: Seq<CacheRoleArg>, n: int)
    requires
        roles_ok(r),
        0 <= n <= r.len(),
    ensures
        settable(role_flags(r, n)),
    decreases n,
{
    if n > 0 {
        lemma_role_flags(r, n - 1);
        let a = r[n - 1]@;
        let x = choose|x: Role| a.role == #[trigger] x.text();
        let f = pair_flags(a, a.pairs.len() as int);
        assert forall|i: int| 0 <= i < f.len() implies key_list().contains((#[trigger] f[i]).key) by {
            assert(is_setting(a.pairs[i].key));
            lemma_role_key(x, a.pairs[i].key);
        }
        lemma_settable_concat(role_flags(r, n - 1), f);
    }
}

proof fn lemma_cache_args(a: CacheArgs)
    requires
        roles_ok(a.roles@),
    ensures
        settable(a.flags()),
{
    lemma_role_flags(a.roles@, a.roles@.len() as int);
    lemma_store_args(a.store);
    lemma_settable_concat(role_flags(a.roles@, a.roles@.len() as int), a.store.flags());
}

impl Cmd {
    /// Whether the cache roles of the command, where it takes any, are ones that can be given.
    pub open spec fn roles_given(self) -> bool {
        match self {
            Cmd::Cache { cache } => roles_ok(cache.roles@),
            Cmd::Serve { cache, .. } => roles_ok(cache.roles@),
            _ => true,
        }
    }
}

/// Every flag sets a key of the schema, so no flag is refused as an unknown key.
pub proof fn law_flags_are_settable(c: Cmd)
    requires
        c.roles_given(),
    ensures
        settable(c.flags()),
{
    match c {
        Cmd::Cache { cache } => {
            lemma_cache_args(cache);
        },
        Cmd::Config => {},
        Cmd::Topology => {},
        Cmd::VisionEmbed { pack, runtime, overlays, images, embed } => {
            lemma_pack_args(pack);
            lemma_runtime_args(runtime);
            lemma_settable_concat(pack.flags(), runtime.flags());
            lemma_overlay_args(overlays);
            lemma_settable_concat(pack.flags() + runtime.flags(), overlays.flags());
            lemma_image_args(images);
            lemma_settable_concat(pack.flags() + runtime.flags() + overlays.flags(), images.flags());
            lemma_embed_args(embed);
            lemma_settable_concat(pack.flags() + runtime.flags() + overlays.flags() + images.flags(), embed.flags());
        },
        Cmd::NumaSmoke { smoke } => {
            lemma_smoke_args(smoke);
        },
        Cmd::LoadBench { load } => {
            lemma_load_args(load);
        },
        Cmd::Generate { pack, runtime, overlays, sampling, moe, images, generate, image } => {
            lemma_pack_args(pack);
            lemma_runtime_args(runtime);
            lemma_settable_concat(pack.flags(), runtime.flags());
            lemma_overlay_args(overlays);
            lemma_settable_concat(pack.flags() + runtime.flags(), overlays.flags());
            lemma_sample_args(sampling);
            lemma_settable_concat(pack.flags() + runtime.flags() + overlays.flags(), sampling.flags());
            lemma_moe_flags(moe);
            lemma_settable_concat(pack.flags() + runtime.flags() + overlays.flags() + sampling.flags(), moe.flags());
            lemma_image_args(images);
            lemma_settable_concat(pack.flags() + runtime.flags() + overlays.flags() + sampling.flags() + moe.flags(), images.flags());
            lemma_generate_args(generate);
            lemma_settable_concat(pack.flags() + runtime.flags() + overlays.flags() + sampling.flags() + moe.flags() + images.flags(), generate.flags());
            lemma_key(68);
            lemma_settable_concat(pack.flags() + runtime.flags() + overlays.flags() + sampling.flags() + moe.flags() + images.flags() + generate.flags(), seq![list_flag("generate.images"@, image@)]);
        },
        Cmd::Bench { pack, runtime, overlays, moe, bench } => {
            lemma_pack_args(pack);
            lemma_runtime_args(runtime);
            lemma_settable_concat(pack.flags(), runtime.flags());
            lemma_overlay_args(overlays);
            lemma_settable_concat(pack.flags() + runtime.flags(), overlays.flags());
            lemma_moe_flags(moe);
            lemma_settable_concat(pack.flags() + runtime.flags() + overlays.flags(), moe.flags());
            lemma_bench_args(bench);
            lemma_settable_concat(pack.flags() + runtime.flags() + overlays.flags() + moe.flags(), bench.flags());
        },
        Cmd::Serve { pack, runtime, overlays, sampling, think, moe, images, cache, serve } => {
            lemma_pack_args(pack);
            lemma_runtime_args(runtime);
            lemma_settable_concat(pack.flags(), runtime.flags());
            lemma_overlay_args(overlays);
            lemma_settable_concat(pack.flags() + runtime.flags(), overlays.flags());
            lemma_sample_args(sampling);
            lemma_settable_concat(pack.flags() + runtime.flags() + overlays.flags(), sampling.flags());
            lemma_think_args(think);
            lemma_settable_concat(pack.flags() + runtime.flags() + overlays.flags() + sampling.flags(), think.flags());
            lemma_moe_flags(moe);
            lemma_settable_concat(pack.flags() + runtime.flags() + overlays.flags() + sampling.flags() + think.flags(), moe.flags());
            lemma_image_args(images);
            lemma_settable_concat(pack.flags() + runtime.flags() + overlays.flags() + sampling.flags() + think.flags() + moe.flags(), images.flags());
            lemma_cache_args(cache);
            lemma_settable_concat(pack.flags() + runtime.flags() + overlays.flags() + sampling.flags() + think.flags() + moe.flags() + images.flags(), cache.flags());
            lemma_serve_args(serve);
            lemma_settable_concat(pack.flags() + runtime.flags() + overlays.flags() + sampling.flags() + think.flags() + moe.flags() + images.flags() + cache.flags(), serve.flags());
        },
        Cmd::SpecProbe { pack, runtime, overlays, probe } => {
            lemma_pack_args(pack);
            lemma_runtime_args(runtime);
            lemma_settable_concat(pack.flags(), runtime.flags());
            lemma_overlay_args(overlays);
            lemma_settable_concat(pack.flags() + runtime.flags(), overlays.flags());
            lemma_probe_args(probe);
            lemma_settable_concat(pack.flags() + runtime.flags() + overlays.flags(), probe.flags());
        },
        Cmd::Tokenize { pack, tokenize } => {
            lemma_pack_args(pack);
            lemma_tokenize_args(tokenize);
            lemma_settable_concat(pack.flags(), tokenize.flags());
        },
        Cmd::BarrierBench { barrier } => {
            lemma_barrier_args(barrier);
        },
    }
}

} // verus!
