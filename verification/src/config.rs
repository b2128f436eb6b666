//! Layered configuration.
//!
//! Every setting can be given in four places; later ones win: built-in defaults, YAML files,
//! environment variables, command-line flags. [`AppConfig`] is the merged *request* tree: every
//! leaf is an option, so "not set anywhere" stays distinguishable from "set to the default value".
//! Commands turn it into the concrete `*Cfg` structs, which is where the defaults are applied; a
//! few of them differ per command, so a single `runtime.ctx` in the file still means "for whatever
//! I run".
//!
//! `F` is the type of temperatures, probabilities and masses, `D` the type of sizes in GiB.
use crate::chat::opt_text;
use crate::defaults;
use crate::policy::{Policies, RolePolicy, PRIORITY_MAX};
use crate::policy::default_policy;
use crate::role::Role;
use crate::router::{MassBasis, MoeArgs};
use crate::text::{concat, decimal, join, joined, owned, push_decimal, push_text, str_eq, texts};
use vstd::prelude::*;

verus! {

pub const ENV_PREFIX: &'static str = "TR";

pub const ENV_SEPARATOR: &'static str = "__";

/// Everything that shapes a model load and is shared by every command that loads one.
#[derive(Debug, Clone, Default, PartialEq)]
pub struct Runtime {
    /// Context window (prompt + completion) in tokens.
    pub ctx: Option<usize>,
    /// Prompt batch size (tokens per batched step); 1 disables the batch path.
    pub batch: Option<usize>,
    /// K/V cache element type: `f16`, `bf16` or `f32`.
    pub kv: Option<String>,
    /// Cores used per NUMA tile (unset = all physical cores of the tile).
    pub cores_per_node: Option<usize>,
    /// Keep the PLE n-gram table file-backed instead of resident in HBM.
    pub ple_mmap: Option<bool>,
    /// Heap policy, letters `t` (no trim) and `m` (no mmap); `0` disables.
    pub pin_heap: Option<String>,
}

/// Optional overlay packs loaded into the same tile arenas as the base pack.
#[derive(Debug, Clone, Default, PartialEq)]
pub struct Overlays {
    /// MTP draft head: enables speculative decoding.
    pub mtp: Option<String>,
    /// Vision encoder: enables image input.
    pub vision: Option<String>,
}

/// Speculative decoding.
#[derive(Debug, Clone, Default, PartialEq)]
pub struct Spec {
    /// Draft tokens per round (1..7).
    pub k: Option<usize>,
}

/// Cumulative-mass expert routing (`mass` unset = the model's fixed top-k).
#[derive(Debug, Clone, Default, PartialEq)]
pub struct Moe<F> {
    /// Take experts in router order until their softmax mass reaches this target.
    pub mass: Option<F>,
    /// Fewest experts per token.
    pub min: Option<usize>,
    /// Most experts per token (limit 32).
    pub max: Option<usize>,
    /// What the mass is measured against: `top` or `all`.
    pub basis: Option<String>,
    /// Report the mean cumulative router mass of the best k experts.
    pub profile: Option<bool>,
}

/// Sampling defaults. `think_*` apply inside the `<think>` block (server only).
#[derive(Debug, Clone, Default, PartialEq)]
pub struct Sampling<F> {
    pub temp: Option<F>,
    pub top_k: Option<usize>,
    pub top_p: Option<F>,
    pub seed: Option<u64>,
    pub think_temp: Option<F>,
    pub think_top_k: Option<usize>,
    pub think_top_p: Option<F>,
}

/// Image input limits, in merged tokens of 32x32 pixels.
#[derive(Debug, Clone, Default, PartialEq)]
pub struct Image {
    pub min_tokens: Option<usize>,
    pub max_tokens: Option<usize>,
}

/// The server.
#[derive(Debug, Clone, Default, PartialEq)]
pub struct Server {
    /// Opt in to text-only continuous batching.
    pub continuous: Option<bool>,
    /// Maximum simultaneously resident generation choices.
    pub max_sequences: Option<usize>,
    /// Shared KV pool budget in MiB per NUMA tile (required in continuous mode).
    pub kv_cache_mib: Option<usize>,
    /// Prompt rows per iteration while generation is active.
    pub prefill_chunk: Option<usize>,
    /// Maximum waiting requests.
    pub max_queue: Option<usize>,
    pub host: Option<String>,
    pub port: Option<u16>,
    /// Bearer token clients must send.
    pub api_key: Option<String>,
    /// Serve without an API key (only sensible on a private interface).
    pub no_auth: Option<bool>,
    /// Model id reported by `/v1/models` (unset = the pack directory name).
    pub model_name: Option<String>,
    /// Default reasoning effort: `xhigh`, `medium`, `low` or `none`.
    pub reasoning: Option<String>,
}

/// What the prefix cache does with chunks of one role.
#[derive(Debug, Clone, Default, PartialEq)]
pub struct CacheRole {
    /// Store chunks of this role at all. Nothing after an unstored chunk is restorable.
    pub persist: Option<bool>,
    /// Eviction order 0..=9: lower priorities are evicted first (LRU within a priority).
    pub priority: Option<u8>,
    /// Idle expiry in seconds: dropped when unused for longer, budget or not.
    pub ttl: Option<u64>,
    /// Take a snapshot where a prompt span of this role ends.
    pub snapshot: Option<bool>,
}

/// The per-role policies of the prefix cache, one table per role.
#[derive(Debug, Clone, Default, PartialEq)]
pub struct CacheRoles {
    pub system: CacheRole,
    pub user: CacheRole,
    pub reasoning: CacheRole,
    pub tool: CacheRole,
    pub assistant: CacheRole,
}

impl CacheRoles {
    pub open spec fn of(self, role: Role) -> CacheRole {
        match role {
            Role::System => self.system,
            Role::User => self.user,
            Role::Reasoning => self.reasoning,
            Role::Tool => self.tool,
            Role::Assistant => self.assistant,
        }
    }

    pub fn get(&self, role: Role) -> (c: &CacheRole)
        ensures
            *c == self.of(role),
    {
        match role {
            Role::System => &self.system,
            Role::User => &self.user,
            Role::Reasoning => &self.reasoning,
            Role::Tool => &self.tool,
            Role::Assistant => &self.assistant,
        }
    }
}

/// Persistent prefix cache of the server (off unless `dir` is set).
#[derive(Debug, Clone, Default, PartialEq)]
pub struct Cache<D> {
    /// Store directory (on a real disk, never tmpfs). Unset = no cache.
    pub dir: Option<String>,
    /// Backend name; only `fs` exists.
    pub backend: Option<String>,
    /// Longest rows chunk in tokens (chunks also end at every role boundary).
    pub chunk_len: Option<usize>,
    /// LRU byte budget of the store, in GiB.
    pub max_gib: Option<D>,
    /// Where snapshots are taken: `message` or `request`.
    pub snapshots: Option<String>,
    /// With `snapshots: message`, only spans of at least this many tokens end in a snapshot.
    pub snapshot_min_tokens: Option<usize>,
    /// Host memory for objects waiting to be written, in MiB.
    pub staging_mib: Option<usize>,
    /// Per-role policies.
    pub roles: CacheRoles,
}

/// One-shot generation.
#[derive(Debug, Clone, Default, PartialEq)]
pub struct Generate {
    pub prompt: Option<String>,
    /// Read the prompt from a file instead of `prompt`.
    pub prompt_file: Option<String>,
    pub n_predict: Option<usize>,
    /// Wrap the prompt in the model's ChatML template.
    pub chat: Option<bool>,
    /// With `chat`: disable thinking (emits an empty `<think>` block).
    pub no_think: Option<bool>,
    /// Print per-layer activation statistics for the prompt tokens.
    pub dump: Option<bool>,
    /// Image files placed before the prompt text in the user turn.
    pub images: Option<Vec<String>>,
}

/// The benchmark.
#[derive(Debug, Clone, Default, PartialEq)]
pub struct Bench {
    pub pp: Option<usize>,
    pub tg: Option<usize>,
    pub reps: Option<usize>,
    /// Decode M identical rows per step through the batched path.
    pub tg_batch: Option<usize>,
}

/// The probe of the draft head.
#[derive(Debug, Clone, Default, PartialEq)]
pub struct SpecProbe {
    pub prompt: Option<String>,
    pub chat: Option<bool>,
    pub n_predict: Option<usize>,
}

/// The tokenizer's command.
#[derive(Debug, Clone, Default, PartialEq)]
pub struct Tokenize {
    pub prompt: Option<String>,
    pub prompt_file: Option<String>,
}

/// The vision encoder's command.
#[derive(Debug, Clone, Default, PartialEq)]
pub struct VisionEmbed {
    pub image: Option<String>,
    pub out: Option<String>,
    pub reps: Option<usize>,
}

#[derive(Debug, Clone, Default, PartialEq)]
pub struct NumaSmoke {
    pub mib: Option<usize>,
}

#[derive(Debug, Clone, Default, PartialEq)]
pub struct LoadBench<D> {
    pub dir: Option<String>,
    pub gib_per_node: Option<D>,
    /// Skip writing if the files already exist with the right size.
    pub keep: Option<bool>,
}

#[derive(Debug, Clone, Default, PartialEq)]
pub struct BarrierBench {
    pub rounds: Option<usize>,
}

/// The merged configuration request. Every leaf is optional.
#[derive(Debug, Clone, Default, PartialEq)]
pub struct AppConfig<F, D> {
    /// Pack directory, required by every command that loads a model.
    pub pack: Option<String>,
    pub runtime: Runtime,
    pub overlays: Overlays,
    pub spec: Spec,
    pub moe: Moe<F>,
    pub sampling: Sampling<F>,
    pub image: Image,
    pub server: Server,
    pub cache: Cache<D>,
    pub generate: Generate,
    pub bench: Bench,
    pub spec_probe: SpecProbe,
    pub tokenize: Tokenize,
    pub vision_embed: VisionEmbed,
    pub numa_smoke: NumaSmoke,
    pub load_bench: LoadBench<D>,
    pub barrier_bench: BarrierBench,
}

// ---- settings with the defaults applied -----------------------------------------------------

/// What is set, or what holds otherwise.
pub open spec fn set_or<T>(v: Option<T>, d: T) -> T {
    match v {
        Some(x) => x,
        None => d,
    }
}

/// A text that is set, or the one that holds otherwise.
pub open spec fn text_or(v: Option<String>, d: Seq<char>) -> Seq<char> {
    match v {
        Some(s) => s@,
        None => d,
    }
}

/// A text that is set and not empty.
pub open spec fn non_empty(v: Option<String>) -> Option<Seq<char>> {
    match v {
        Some(s) => if s@.len() > 0 { Some(s@) } else { None },
        None => None,
    }
}

fn pick<T: Copy>(v: Option<T>, d: T) -> (r: T)
    ensures
        r == set_or(v, d),
{
    match v {
        Some(x) => x,
        None => d,
    }
}

fn pick_text(v: &Option<String>, d: &str) -> (r: String)
    ensures
        r@ == text_or(*v, d@),
{
    match v {
        Some(s) => owned(s.as_str()),
        None => owned(d),
    }
}

fn copy_text(v: &Option<String>) -> (r: Option<String>)
    ensures
        opt_text(r) == opt_text(*v),
{
    match v {
        Some(s) => Some(owned(s.as_str())),
        None => None,
    }
}

fn copy_non_empty(v: &Option<String>) -> (r: Option<String>)
    ensures
        opt_text(r) == non_empty(*v),
{
    match v {
        Some(s) => if s.as_str().is_empty() { None } else { Some(owned(s.as_str())) },
        None => None,
    }
}

fn copy_texts(v: &Vec<String>) -> (r: Vec<String>)
    ensures
        texts(r@) == texts(v@),
{
    let mut r: Vec<String> = Vec::new();
    let n: usize = v.len();
    let mut i: usize = 0;
    while i < n
        invariant
            i <= n,
            n == v@.len(),
            r@.len() == i,
            forall|j: int| 0 <= j < i ==> (#[trigger] r@[j])@ == v@[j]@,
        decreases n - i,
    {
        r.push(owned(v[i].as_str()));
        i = i + 1;
    }
    assert(texts(r@) =~= texts(v@));
    r
}

/// Everything a model load needs.
#[derive(Debug, Clone)]
pub struct RuntimeCfg {
    pub pack: Option<String>,
    pub ctx: usize,
    pub batch: usize,
    pub kv: String,
    pub cores_per_node: Option<usize>,
    pub ple_mmap: bool,
    pub mtp: Option<String>,
    pub vision: Option<String>,
    pub spec_k: usize,
    pub image_min_tokens: usize,
    pub image_max_tokens: usize,
}

pub const NO_PACK: &'static str = "no pack: pass --pack DIR, set `pack:` in a config file, or export TR_PACK";

/// The element type of the K/V cache.
#[derive(Clone, Copy, Debug, PartialEq, Eq, Structural)]
pub enum KvType {
    F32,
    F16,
    Bf16,
}

impl KvType {
    pub open spec fn text(self) -> Seq<char> {
        match self {
            KvType::F32 => "f32"@,
            KvType::F16 => "f16"@,
            KvType::Bf16 => "bf16"@,
        }
    }
}

impl RuntimeCfg {
    /// The pack directory, or an error naming every way it can be set.
    pub fn pack(&self) -> (r: Result<&str, String>)
        ensures
            match opt_text(self.pack) {
                Some(p) => r matches Ok(s) && s@ == p,
                None => r matches Err(e) && e@ == NO_PACK@,
            },
    {
        match &self.pack {
            Some(p) => Ok(p.as_str()),
            None => Err(owned(NO_PACK)),
        }
    }

    /// The element type of the K/V cache.
    pub fn kv(&self) -> (r: Result<KvType, String>)
        ensures
            match r {
                Ok(k) => self.kv@ == k.text(),
                Err(e) => (forall|k: KvType| self.kv@ != #[trigger] k.text()) && e@
                    == "kv must be f32, f16 or bf16 (got "@ + self.kv@ + ")"@,
            },
    {
        let s: &str = self.kv.as_str();
        if str_eq(s, "f32") {
            Ok(KvType::F32)
        } else if str_eq(s, "f16") {
            Ok(KvType::F16)
        } else if str_eq(s, "bf16") {
            Ok(KvType::Bf16)
        } else {
            let mut e: String = owned("kv must be f32, f16 or bf16 (got ");
            push_text(&mut e, s);
            push_text(&mut e, ")");
            Err(e)
        }
    }
}

/// Sampling with the defaults applied.
#[derive(Debug, Clone, Copy)]
pub struct SamplingCfg<F> {
    pub temp: F,
    pub top_k: usize,
    pub top_p: F,
    pub seed: u64,
    pub think_temp: Option<F>,
    pub think_top_k: Option<usize>,
    pub think_top_p: Option<F>,
}

#[derive(Debug, Clone)]
pub struct MoeCfg<F> {
    pub mass: Option<F>,
    pub min: Option<usize>,
    pub max: Option<usize>,
    pub basis: String,
    pub profile: bool,
}

impl<F: Copy> MoeCfg<F> {
    /// The settings in the kernel's terms.
    pub fn kernel(&self) -> (r: Result<MoeArgs<F>, String>)
        ensures
            match r {
                Ok(a) => self.basis@ == a.basis.text() && a.mass == self.mass && a.min == self.min && a.max
                    == self.max,
                Err(e) => (forall|b: MassBasis| self.basis@ != #[trigger] b.text()) && e@
                    == "moe basis must be top or all, not "@ + self.basis@,
            },
    {
        let basis: MassBasis = if str_eq(self.basis.as_str(), "top") {
            MassBasis::Top
        } else if str_eq(self.basis.as_str(), "all") {
            MassBasis::All
        } else {
            return Err(concat("moe basis must be top or all, not ", self.basis.as_str()));
        };
        Ok(MoeArgs { mass: self.mass, min: self.min, max: self.max, basis })
    }
}

#[derive(Debug, Clone)]
pub struct ServerCfg {
    pub continuous: bool,
    pub max_sequences: usize,
    pub kv_cache_mib: Option<usize>,
    pub prefill_chunk: usize,
    pub max_queue: usize,
    pub host: String,
    pub port: u16,
    pub api_key: Option<String>,
    pub no_auth: bool,
    pub model_name: Option<String>,
    pub reasoning: String,
}

/// The prefix cache with defaults applied; `dir` unset means no cache.
#[derive(Debug, Clone)]
pub struct CacheCfg<D> {
    pub dir: Option<String>,
    pub backend: String,
    pub chunk_len: usize,
    pub max_gib: D,
    pub snapshots: String,
    pub snapshot_min_tokens: usize,
    pub staging_mib: usize,
    pub roles: Policies,
}

/// The first of the roles from entry `i` of the list on whose priority is out of range.
pub open spec fn bad_priority(p: Policies, i: int) -> Option<Role>
    decreases 5 - i,
{
    let order = crate::policy::role_order();
    if i < 0 || i >= 5 {
        None
    } else if p.policy(order[i]).priority > PRIORITY_MAX {
        Some(order[i])
    } else {
        bad_priority(p, i + 1)
    }
}

/// What is wrong with the first priority that is out of range.
pub open spec fn priority_flaw(p: Policies) -> Option<Seq<char>> {
    match bad_priority(p, 0) {
        None => None,
        Some(role) => Some(
            "cache.roles."@ + role.text() + ".priority must be 0..="@ + decimal(PRIORITY_MAX as nat)
                + " (got "@ + decimal(p.policy(role).priority as nat) + ")"@,
        ),
    }
}

impl<D> CacheCfg<D> {
    /// Validate the per-role policies (priority range); the rest is checked where it is used.
    pub fn validate(&self) -> (r: Result<(), String>)
        ensures
            match priority_flaw(self.roles) {
                None => r is Ok,
                Some(m) => r matches Err(e) && e@ == m,
            },
    {
        let all: [Role; 5] = [Role::System, Role::User, Role::Reasoning, Role::Tool, Role::Assistant];
        let mut i: usize = 0;
        while i < 5
            invariant
                i <= 5,
                all@ == crate::policy::role_order(),
                bad_priority(self.roles, i as int) == bad_priority(self.roles, 0),
            decreases 5 - i,
        {
            let r: Role = all[i];
            let p: u8 = self.roles.get(r).priority;
            if p > PRIORITY_MAX {
                let mut e: String = owned("cache.roles.");
                push_text(&mut e, r.name());
                push_text(&mut e, ".priority must be 0..=");
                push_decimal(&mut e, PRIORITY_MAX as u64);
                push_text(&mut e, " (got ");
                push_decimal(&mut e, p as u64);
                push_text(&mut e, ")");
                return Err(e);
            }
            i = i + 1;
        }
        Ok(())
    }
}

/// Where the settings pass their check, every priority is within its range.
pub proof fn law_valid_priorities(p: Policies, role: Role)
    requires
        bad_priority(p, 0) is None,
    ensures
        p.policy(role).priority <= PRIORITY_MAX,
{
    reveal_with_fuel(bad_priority, 6);
    let order = crate::policy::role_order();
    assert(order[0] == Role::System && order[1] == Role::User && order[2] == Role::Reasoning && order[3]
        == Role::Tool && order[4] == Role::Assistant);
}

#[derive(Debug, Clone)]
pub struct GenerateCfg {
    pub prompt: String,
    pub prompt_file: Option<String>,
    pub n_predict: usize,
    pub chat: bool,
    pub no_think: bool,
    pub dump: bool,
    pub images: Vec<String>,
}

#[derive(Debug, Clone, Copy, PartialEq, Eq, Structural)]
pub struct BenchCfg {
    pub pp: usize,
    pub tg: usize,
    pub reps: usize,
    pub tg_batch: Option<usize>,
}

/// The policy of a role with what is set of it; an expiry of 0 means none.
pub open spec fn resolved(c: CacheRole) -> RolePolicy {
    let d = default_policy();
    RolePolicy {
        persist: set_or(c.persist, d.persist),
        priority: set_or(c.priority, d.priority),
        ttl: match c.ttl {
            Some(t) => if t > 0 { Some(t) } else { None },
            None => None,
        },
        snapshot: set_or(c.snapshot, d.snapshot),
    }
}

fn resolve(c: &CacheRole) -> (p: RolePolicy)
    ensures
        p == resolved(*c),
{
    let d: RolePolicy = RolePolicy::default();
    RolePolicy {
        persist: pick(c.persist, d.persist),
        priority: pick(c.priority, d.priority),
        ttl: match c.ttl {
            Some(t) => if t > 0 { Some(t) } else { None },
            None => None,
        },
        snapshot: pick(c.snapshot, d.snapshot),
    }
}

impl<F: Copy, D: Copy> AppConfig<F, D> {
    /// What a model load needs; the context window differs per command where it is not set.
    pub fn runtime(&self, ctx_default: usize) -> (r: RuntimeCfg)
        ensures
            opt_text(r.pack) == opt_text(self.pack),
            r.ctx == set_or(self.runtime.ctx, ctx_default),
            r.batch == set_or(self.runtime.batch, defaults::BATCH),
            r.kv@ == text_or(self.runtime.kv, defaults::KV@),
            r.cores_per_node == self.runtime.cores_per_node,
            r.ple_mmap == set_or(self.runtime.ple_mmap, false),
            opt_text(r.mtp) == opt_text(self.overlays.mtp),
            opt_text(r.vision) == opt_text(self.overlays.vision),
            r.spec_k == set_or(self.spec.k, defaults::SPEC_K),
            r.image_min_tokens == set_or(self.image.min_tokens, defaults::IMAGE_MIN_TOKENS),
            r.image_max_tokens == set_or(self.image.max_tokens, defaults::IMAGE_MAX_TOKENS),
    {
        RuntimeCfg {
            pack: copy_text(&self.pack),
            ctx: pick(self.runtime.ctx, ctx_default),
            batch: pick(self.runtime.batch, defaults::BATCH),
            kv: pick_text(&self.runtime.kv, defaults::KV),
            cores_per_node: self.runtime.cores_per_node,
            ple_mmap: pick(self.runtime.ple_mmap, false),
            mtp: copy_text(&self.overlays.mtp),
            vision: copy_text(&self.overlays.vision),
            spec_k: pick(self.spec.k, defaults::SPEC_K),
            image_min_tokens: pick(self.image.min_tokens, defaults::IMAGE_MIN_TOKENS),
            image_max_tokens: pick(self.image.max_tokens, defaults::IMAGE_MAX_TOKENS),
        }
    }

    /// The sampling; temperature and `top_p` differ per command where they are not set.
    pub fn sampling(&self, temp_default: F, top_p_default: F) -> (r: SamplingCfg<F>)
        ensures
            r == (SamplingCfg {
                temp: set_or(self.sampling.temp, temp_default),
                top_k: set_or(self.sampling.top_k, defaults::TOP_K),
                top_p: set_or(self.sampling.top_p, top_p_default),
                seed: set_or(self.sampling.seed, defaults::SEED),
                think_temp: self.sampling.think_temp,
                think_top_k: self.sampling.think_top_k,
                think_top_p: self.sampling.think_top_p,
            }),
    {
        SamplingCfg {
            temp: pick(self.sampling.temp, temp_default),
            top_k: pick(self.sampling.top_k, defaults::TOP_K),
            top_p: pick(self.sampling.top_p, top_p_default),
            seed: pick(self.sampling.seed, defaults::SEED),
            think_temp: self.sampling.think_temp,
            think_top_k: self.sampling.think_top_k,
            think_top_p: self.sampling.think_top_p,
        }
    }

    pub fn moe(&self) -> (r: MoeCfg<F>)
        ensures
            r.mass == self.moe.mass,
            r.min == self.moe.min,
            r.max == self.moe.max,
            r.basis@ == text_or(self.moe.basis, defaults::MOE_BASIS@),
            r.profile == set_or(self.moe.profile, false),
    {
        MoeCfg {
            mass: self.moe.mass,
            min: self.moe.min,
            max: self.moe.max,
            basis: pick_text(&self.moe.basis, defaults::MOE_BASIS),
            profile: pick(self.moe.profile, false),
        }
    }

    /// The server's settings; an empty key or model name counts as not set.
    pub fn server(&self) -> (r: ServerCfg)
        ensures
            r.continuous == set_or(self.server.continuous, false),
            r.max_sequences == set_or(self.server.max_sequences, defaults::MAX_SEQUENCES),
            r.kv_cache_mib == self.server.kv_cache_mib,
            r.prefill_chunk == set_or(self.server.prefill_chunk, defaults::PREFILL_CHUNK),
            r.max_queue == set_or(self.server.max_queue, defaults::MAX_QUEUE),
            r.host@ == text_or(self.server.host, defaults::HOST@),
            r.port == set_or(self.server.port, defaults::PORT),
            opt_text(r.api_key) == non_empty(self.server.api_key),
            r.no_auth == set_or(self.server.no_auth, false),
            opt_text(r.model_name) == non_empty(self.server.model_name),
            r.reasoning@ == text_or(self.server.reasoning, defaults::REASONING@),
    {
        ServerCfg {
            continuous: pick(self.server.continuous, false),
            max_sequences: pick(self.server.max_sequences, defaults::MAX_SEQUENCES),
            kv_cache_mib: self.server.kv_cache_mib,
            prefill_chunk: pick(self.server.prefill_chunk, defaults::PREFILL_CHUNK),
            max_queue: pick(self.server.max_queue, defaults::MAX_QUEUE),
            host: pick_text(&self.server.host, defaults::HOST),
            port: pick(self.server.port, defaults::PORT),
            api_key: copy_non_empty(&self.server.api_key),
            no_auth: pick(self.server.no_auth, false),
            model_name: copy_non_empty(&self.server.model_name),
            reasoning: pick_text(&self.server.reasoning, defaults::REASONING),
        }
    }

    /// The prefix cache's settings; an empty directory counts as not set.
    pub fn cache(&self, max_gib_default: D) -> (r: CacheCfg<D>)
        ensures
            opt_text(r.dir) == non_empty(self.cache.dir),
            r.backend@ == text_or(self.cache.backend, defaults::CACHE_BACKEND@),
            r.chunk_len == set_or(self.cache.chunk_len, defaults::CACHE_CHUNK_LEN),
            r.max_gib == set_or(self.cache.max_gib, max_gib_default),
            r.snapshots@ == text_or(self.cache.snapshots, defaults::CACHE_SNAPSHOTS@),
            r.snapshot_min_tokens == set_or(
                self.cache.snapshot_min_tokens,
                defaults::CACHE_SNAPSHOT_MIN_TOKENS,
            ),
            r.staging_mib == set_or(self.cache.staging_mib, defaults::CACHE_STAGING_MIB),
            forall|role: Role| #[trigger] r.roles.policy(role) == resolved(self.cache.roles.of(role)),
    {
        CacheCfg {
            dir: copy_non_empty(&self.cache.dir),
            backend: pick_text(&self.cache.backend, defaults::CACHE_BACKEND),
            chunk_len: pick(self.cache.chunk_len, defaults::CACHE_CHUNK_LEN),
            max_gib: pick(self.cache.max_gib, max_gib_default),
            snapshots: pick_text(&self.cache.snapshots, defaults::CACHE_SNAPSHOTS),
            snapshot_min_tokens: pick(
                self.cache.snapshot_min_tokens,
                defaults::CACHE_SNAPSHOT_MIN_TOKENS,
            ),
            staging_mib: pick(self.cache.staging_mib, defaults::CACHE_STAGING_MIB),
            roles: Policies {
                system: resolve(&self.cache.roles.system),
                user: resolve(&self.cache.roles.user),
                reasoning: resolve(&self.cache.roles.reasoning),
                tool: resolve(&self.cache.roles.tool),
                assistant: resolve(&self.cache.roles.assistant),
            },
        }
    }

    pub fn generate(&self) -> (r: GenerateCfg)
        ensures
            r.prompt@ == text_or(self.generate.prompt, defaults::PROMPT@),
            opt_text(r.prompt_file) == opt_text(self.generate.prompt_file),
            r.n_predict == set_or(self.generate.n_predict, defaults::N_PREDICT),
            r.chat == set_or(self.generate.chat, false),
            r.no_think == set_or(self.generate.no_think, false),
            r.dump == set_or(self.generate.dump, false),
            texts(r.images@) == match self.generate.images {
                Some(v) => texts(v@),
                None => Seq::empty(),
            },
    {
        let images: Vec<String> = match &self.generate.images {
            Some(v) => copy_texts(v),
            None => Vec::new(),
        };
        assert(self.generate.images is None ==> texts(images@) =~= Seq::<Seq<char>>::empty());
        GenerateCfg {
            prompt: pick_text(&self.generate.prompt, defaults::PROMPT),
            prompt_file: copy_text(&self.generate.prompt_file),
            n_predict: pick(self.generate.n_predict, defaults::N_PREDICT),
            chat: pick(self.generate.chat, false),
            no_think: pick(self.generate.no_think, false),
            dump: pick(self.generate.dump, false),
            images,
        }
    }

    pub fn bench(&self) -> (r: BenchCfg)
        ensures
            r == (BenchCfg {
                pp: set_or(self.bench.pp, defaults::BENCH_PP),
                tg: set_or(self.bench.tg, defaults::BENCH_TG),
                reps: set_or(self.bench.reps, defaults::BENCH_REPS),
                tg_batch: self.bench.tg_batch,
            }),
    {
        BenchCfg {
            pp: pick(self.bench.pp, defaults::BENCH_PP),
            tg: pick(self.bench.tg, defaults::BENCH_TG),
            reps: pick(self.bench.reps, defaults::BENCH_REPS),
            tg_batch: self.bench.tg_batch,
        }
    }

    /// The heap policy.
    pub fn pin_heap(&self) -> (s: String)
        ensures
            s@ == text_or(self.runtime.pin_heap, defaults::PIN_HEAP@),
    {
        pick_text(&self.runtime.pin_heap, defaults::PIN_HEAP)
    }
}

// ---- where it comes from --------------------------------------------------------------------

/// Where the merged configuration came from.
#[derive(Debug, Clone)]
pub struct Provenance {
    pub files: Vec<String>,
    pub env: bool,
}

impl Provenance {
    pub fn summary(&self) -> (s: String)
        ensures
            s@ == "config files: "@ + (if self.files@.len() == 0 {
                "(none)"@
            } else {
                joined(texts(self.files@), ", "@)
            }) + "; "@ + (if self.env { ""@ } else { "no "@ }) + "TR_* environment"@,
    {
        let mut s: String = owned("config files: ");
        if self.files.len() == 0 {
            push_text(&mut s, "(none)");
        } else {
            push_text(&mut s, join(&self.files, ", ").as_str());
        }
        push_text(&mut s, "; ");
        push_text(&mut s, if self.env { "" } else { "no " });
        push_text(&mut s, "TR_* environment");
        s
    }
}

/// A path below a directory; below no directory at all, the path itself.
pub open spec fn below(dir: Seq<char>, path: Seq<char>) -> Seq<char> {
    if dir.len() == 0 || dir.last() == '/' {
        dir + path
    } else {
        dir + "/"@ + path
    }
}

fn path_below(dir: &str, path: &str) -> (s: String)
    ensures
        s@ == below(dir@, path@),
{
    let mut s: String = owned(dir);
    let c: Vec<char> = crate::text::to_chars(dir);
    if c.len() > 0 && c[c.len() - 1] != '/' {
        push_text(&mut s, "/");
    }
    push_text(&mut s, path);
    s
}

/// Configuration files to read when none were named, lowest priority first: the machine's, the
/// user's (below the directory for configuration, or that of the user's home) and the one in the
/// working directory.
pub fn search_path(config_home: &Option<String>, home: &Option<String>) -> (v: Vec<String>)
    ensures
        ({
            let dir = match config_home {
                Some(d) => Some(d@),
                None => match home {
                    Some(h) => Some(below(h@, ".config"@)),
                    None => None,
                },
            };
            texts(v@) == match dir {
                Some(d) => seq![
                    "/etc/tr-infer/config.yaml"@,
                    below(d, "tr-infer/config.yaml"@),
                    "tr-infer.yaml"@,
                ],
                None => seq!["/etc/tr-infer/config.yaml"@, "tr-infer.yaml"@],
            }
        }),
{
    let mut v: Vec<String> = Vec::new();
    v.push(owned("/etc/tr-infer/config.yaml"));
    match config_home {
        Some(d) => v.push(path_below(d.as_str(), "tr-infer/config.yaml")),
        None => if let Some(h) = home {
            let d: String = path_below(h.as_str(), ".config");
            v.push(path_below(d.as_str(), "tr-infer/config.yaml"));
        },
    }
    v.push(owned("tr-infer.yaml"));
    proof {
        assert(texts(v@).len() == v@.len());
    }
    v
}

/// Which configuration files are read, lowest priority first, and whether each has to be there.
pub struct Sources {
    pub files: Vec<String>,
    pub required: bool,
}

/// The parts of a text between colons.
pub open spec fn colon_parts(s: Seq<char>) -> Seq<Seq<char>>
    decreases s.len(),
{
    match crate::http::after_char(s, ':') {
        None => seq![s],
        Some(rest) => seq![crate::http::before_char(s, ':')] + if rest.len() < s.len() {
            colon_parts(rest)
        } else {
            Seq::empty()
        },
    }
}

fn split_colons(s: &str) -> (v: Vec<String>)
    ensures
        texts(v@) == colon_parts(s@),
{
    let mut v: Vec<String> = Vec::new();
    let mut rest: Vec<char> = crate::text::to_chars(s);
    assert(texts(v@) + colon_parts(rest@) =~= colon_parts(s@));
    loop
        invariant
            texts(v@) + colon_parts(rest@) == colon_parts(s@),
        decreases rest@.len(),
    {
        let (head, tail) = crate::http::split_char(rest.as_slice(), ':');
        proof {
            crate::http::lemma_place_of(rest@, ':', 0);
        }
        let ghost before = v@;
        v.push(crate::text::from_chars(head.as_slice()));
        assert(texts(v@) =~= texts(before).push(head@));
        match tail {
            None => {
                assert(head@ =~= rest@);
                assert(texts(v@) =~= colon_parts(s@));
                return v;
            },
            Some(t) => {
                assert(t@.len() < rest@.len());
                assert(texts(v@) + colon_parts(t@) =~= texts(before) + (seq![head@] + colon_parts(t@)));
                rest = t;
            },
        }
    }
}

/// The files that are read: those named on the command line, else those of the environment
/// variable (between colons), else the ones that are searched for; none at all where files are
/// ruled out. Files that were named have to exist.
pub fn select_files(
    named: &Vec<String>,
    variable: &Option<String>,
    searched: &Vec<String>,
    no_config: bool,
) -> (r: Sources)
    ensures
        ({
            let explicit = if named@.len() > 0 {
                texts(named@)
            } else {
                match non_empty(*variable) {
                    Some(p) => colon_parts(p),
                    None => Seq::empty(),
                }
            };
            &&& r.required == (explicit.len() > 0)
            &&& texts(r.files@) == if no_config {
                Seq::empty()
            } else if explicit.len() > 0 {
                explicit
            } else {
                texts(searched@)
            }
        }),
{
    let explicit: Vec<String> = if named.len() > 0 {
        copy_texts(named)
    } else {
        match copy_non_empty(variable) {
            Some(p) => split_colons(p.as_str()),
            None => Vec::new(),
        }
    };
    assert(texts(explicit@).len() == explicit@.len());
    assert(explicit@.len() == 0 ==> texts(explicit@) =~= Seq::<Seq<char>>::empty());
    let required: bool = explicit.len() > 0;
    let files: Vec<String> = if no_config {
        Vec::new()
    } else if required {
        explicit
    } else {
        copy_texts(searched)
    };
    assert(no_config ==> texts(files@) =~= Seq::<Seq<char>>::empty());
    Sources { files, required }
}

/// What is set holds, and the default stands in only where nothing is.
pub proof fn law_set_values_hold<T>(v: Option<T>, d: T, s: Option<String>, e: Seq<char>)
    ensures
        v matches Some(x) ==> set_or(v, d) == x,
        v is None ==> set_or(v, d) == d,
        s matches Some(x) ==> text_or(s, e) == x@,
        s is None ==> text_or(s, e) == e,
        s matches Some(x) ==> (x@.len() > 0 ==> non_empty(s) == Some(x@)),
        s matches Some(x) ==> (x@.len() == 0 ==> non_empty(s) is None),
        s is None ==> non_empty(s) is None,
{
}

/// The policy of a role is what was set of it, field by field; a time to live of zero means none.
pub proof fn law_policy_of_a_setting(c: CacheRole)
    ensures
        ({
            let p = resolved(c);
            &&& c.persist matches Some(b) ==> p.persist == b
            &&& c.persist is None ==> p.persist
            &&& c.priority matches Some(n) ==> p.priority == n
            &&& c.priority is None ==> p.priority == 5
            &&& c.snapshot matches Some(b) ==> p.snapshot == b
            &&& c.snapshot is None ==> p.snapshot
            &&& c.ttl matches Some(t) ==> (t > 0 ==> p.ttl == Some(t))
            &&& c.ttl == Some(0u64) || c.ttl is None ==> p.ttl is None
        }),
{
}

/// Priorities are accepted exactly where that of every role is nine at most.
pub proof fn law_accepted_priorities(p: Policies)
    ensures
        priority_flaw(p) is None <==> p.system.priority <= 9 && p.user.priority <= 9 && p.reasoning.priority
            <= 9 && p.tool.priority <= 9 && p.assistant.priority <= 9,
{
    reveal_with_fuel(bad_priority, 6);
}

/// The settings of a role are found under it, and the names of the cache types are those of the
/// numbers.
pub proof fn law_settings_of_a_role(r: CacheRoles)
    ensures
        r.of(Role::System) == r.system && r.of(Role::User) == r.user && r.of(Role::Reasoning) == r.reasoning
            && r.of(Role::Tool) == r.tool && r.of(Role::Assistant) == r.assistant,
        KvType::F32.text() == "f32"@ && KvType::F16.text() == "f16"@ && KvType::Bf16.text() == "bf16"@,
{
}

/// A list of files is split at its colons, each part a file in its place.
pub proof fn law_files_between_colons(a: Seq<char>, b: Seq<char>)
    requires
        forall|i: int| 0 <= i < a.len() ==> a[i] != ':',
    ensures
        colon_parts(a) == seq![a],
        colon_parts(a + seq![':'] + b) == seq![a] + colon_parts(b),
{
    crate::http::law_split_at_the_first(a, ':', b);
}

/// A path below a directory has one slash between them.
pub proof fn law_path_below_a_directory(dir: Seq<char>, path: Seq<char>)
    requires
        dir.len() > 0,
        dir.last() != '/',
    ensures
        below(dir, path) == dir + seq!['/'] + path,
        below(dir.push('/'), path) == dir + seq!['/'] + path,
{
    reveal_strlit("/");
    assert("/"@ =~= seq!['/']);
    assert(below(dir.push('/'), path) =~= dir + seq!['/'] + path);
}

} // verus!
