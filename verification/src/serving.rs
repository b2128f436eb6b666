//! What a server is started with: which settings go together, and what follows from them.
use crate::config::{priority_flaw, CacheCfg, ServerCfg};
use crate::policy::Policies;
use crate::prefix::SnapshotPolicy;
use crate::text::{concat, owned, push_text};
use vstd::prelude::*;

verus! {

/// The settings of a server that are checked before a model is loaded.
#[derive(Clone, Copy, Debug, PartialEq, Eq)]
pub struct ServeOpts {
    pub continuous: bool,
    pub max_sequences: usize,
    pub kv_cache_mib: Option<usize>,
    pub prefill_chunk: usize,
    pub max_queue: usize,
    pub batch: usize,
    /// Whether there is an overlay for speculative decoding.
    pub mtp: bool,
    pub spec_k: usize,
    /// Whether there is an overlay for image input.
    pub vision: bool,
}

impl ServeOpts {
    /// Why the settings are refused.
    pub open spec fn refusal(self) -> Option<Seq<char>> {
        if self.max_queue == 0 {
            Some("max queue must be positive"@)
        } else if self.continuous && (self.mtp || self.vision) {
            Some("continuous batching requires text-only execution without MTP or vision"@)
        } else if self.continuous && !(0 < self.max_sequences < self.batch) {
            Some("max sequences must be positive and smaller than batch size"@)
        } else if self.continuous && self.prefill_chunk == 0 {
            Some("prefill chunk must be positive"@)
        } else if self.continuous && !(self.kv_cache_mib matches Some(n) && n > 0) {
            Some("--continuous requires a positive --kv-cache-mib budget per tile"@)
        } else if self.mtp && !(1 <= self.spec_k <= 7) {
            Some("--spec-k must be 1..7 with --mtp"@)
        } else {
            None
        }
    }

    /// How many tokens are drafted per round.
    pub open spec fn drafts(self) -> usize {
        if self.mtp { self.spec_k } else { 0 }
    }

    pub fn check(&self) -> (r: Result<(), String>)
        ensures
            match self.refusal() {
                None => r is Ok,
                Some(m) => r matches Err(e) && e@ == m,
            },
    {
        if self.max_queue == 0 {
            return Err(owned("max queue must be positive"));
        }
        if self.continuous {
            if self.mtp || self.vision {
                return Err(owned("continuous batching requires text-only execution without MTP or vision"));
            }
            if self.max_sequences == 0 || self.max_sequences >= self.batch {
                return Err(owned("max sequences must be positive and smaller than batch size"));
            }
            if self.prefill_chunk == 0 {
                return Err(owned("prefill chunk must be positive"));
            }
            let positive: bool = match self.kv_cache_mib {
                Some(n) => n > 0,
                None => false,
            };
            if !positive {
                return Err(owned("--continuous requires a positive --kv-cache-mib budget per tile"));
            }
        }
        if self.mtp && !(1 <= self.spec_k && self.spec_k <= 7) {
            return Err(owned("--spec-k must be 1..7 with --mtp"));
        }
        Ok(())
    }

    pub fn draft_tokens(&self) -> (k: usize)
        ensures
            k == self.drafts(),
    {
        if self.mtp { self.spec_k } else { 0 }
    }

    /// How many rows the model is made for at most.
    pub fn batch_max(&self) -> (n: usize)
        requires
            self.refusal() is None,
        ensures
            n == if self.batch > self.drafts() { self.batch as int } else { self.drafts() + 1 },
    {
        widest(self.batch, self.draft_tokens())
    }

    /// How many outputs a request may ask for.
    pub fn max_choices(&self) -> (n: usize)
        ensures
            n == if self.continuous { self.max_sequences } else { 1 },
    {
        if self.continuous { self.max_sequences } else { 1 }
    }
}

/// A batch holds at least the rows of a round: the token and its drafts.
pub fn widest(batch: usize, drafts: usize) -> (n: usize)
    requires
        drafts < usize::MAX,
    ensures
        n == if batch > drafts { batch as int } else { drafts + 1 },
{
    if batch > drafts { batch } else { drafts + 1 }
}

/// Settings that pass the check leave room for prompt rows beside a decode row of every sequence,
/// and a request can always ask for one output.
pub proof fn law_checked_server_makes_progress(o: ServeOpts)
    requires
        o.refusal() is None,
    ensures
        o.continuous ==> o.batch - o.max_sequences >= 1 && o.max_sequences >= 1,
        o.drafts() <= 7,
        o.mtp ==> !o.continuous && o.drafts() >= 1,
{
}

/// The id under which the model is listed: the configured one, else the name of the pack's directory.
pub fn model_id(name: &Option<String>, dir: &Option<String>) -> (s: String)
    ensures
        s@ == match (name, dir) {
            (Some(n), _) => n@,
            (None, Some(d)) => d@,
            (None, None) => "tr-infer"@,
        },
{
    match (name, dir) {
        (Some(n), _) => owned(n.as_str()),
        (None, Some(d)) => owned(d.as_str()),
        (None, None) => owned("tr-infer"),
    }
}

/// A server needs a key, or to be told to do without one.
pub fn check_access(s: &ServerCfg) -> (r: Result<(), String>)
    ensures
        if s.api_key is Some || s.no_auth {
            r is Ok
        } else {
            r matches Err(e) && e@
                == "set --api-key (or TR_API_KEY, or server.api_key), or pass --no-auth"@
        },
{
    if s.api_key.is_some() || s.no_auth {
        Ok(())
    } else {
        Err(owned("set --api-key (or TR_API_KEY, or server.api_key), or pass --no-auth"))
    }
}

/// The prefix cache as it is opened.
#[derive(Debug)]
pub struct CacheOpts {
    pub dir: String,
    pub backend: String,
    pub chunk_len: usize,
    pub max_bytes: u64,
    pub snapshots: SnapshotPolicy,
    pub snapshot_min_tokens: usize,
    /// The memory for objects that wait to be written.
    pub staging_bytes: u64,
    pub roles: Policies,
}

/// What a prefix cache is opened with, or why its settings are refused.
pub open spec fn cache_refusal<D>(c: CacheCfg<D>, budget: Option<u64>) -> Option<Seq<char>> {
    if forall|p: SnapshotPolicy| c.snapshots@ != #[trigger] p.text() {
        Some("cache.snapshots must be message or request (got "@ + c.snapshots@ + ")"@)
    } else if budget is None {
        Some("cache.max_gib must be positive"@)
    } else if c.chunk_len == 0 {
        Some("cache.chunk_len must be positive"@)
    } else {
        None
    }
}

/// The prefix cache settings; none where no directory is configured. `budget` is the byte budget,
/// where it is positive.
pub fn cache_opts<D>(c: &CacheCfg<D>, budget: Option<u64>) -> (r: Result<Option<CacheOpts>, String>)
    ensures
        priority_flaw(c.roles) matches Some(m) ==> (r matches Err(e) && e@ == m),
        priority_flaw(c.roles) is None && c.dir is None ==> r matches Ok(None),
        priority_flaw(c.roles) is None && c.dir is Some ==> match cache_refusal(*c, budget) {
            Some(m) => r matches Err(e) && e@ == m,
            None => r matches Ok(Some(o)) && o.dir@ == c.dir->0@ && o.backend@ == c.backend@
                && o.chunk_len == c.chunk_len && Some(o.max_bytes) == budget && o.snapshots.text()
                == c.snapshots@ && o.snapshot_min_tokens == c.snapshot_min_tokens && o.staging_bytes
                == (c.staging_mib * 0x10_0000) % 0x1_0000_0000_0000_0000 && o.roles == c.roles,
        },
{
    match c.validate() {
        Err(e) => {
            return Err(e);
        },
        Ok(_) => {},
    }
    let dir: &String = match &c.dir {
        None => {
            return Ok(None);
        },
        Some(d) => d,
    };
    let snapshots: SnapshotPolicy = match SnapshotPolicy::parse(c.snapshots.as_str()) {
        None => {
            let mut e: String = concat("cache.snapshots must be message or request (got ", c.snapshots.as_str());
            push_text(&mut e, ")");
            return Err(e);
        },
        Some(p) => {
            assert(c.snapshots@ == p.text());
            p
        },
    };
    let max_bytes: u64 = match budget {
        None => {
            return Err(owned("cache.max_gib must be positive"));
        },
        Some(b) => b,
    };
    if c.chunk_len == 0 {
        return Err(owned("cache.chunk_len must be positive"));
    }
    Ok(
        Some(
            CacheOpts {
                dir: owned(dir.as_str()),
                backend: owned(c.backend.as_str()),
                chunk_len: c.chunk_len,
                max_bytes,
                snapshots,
                snapshot_min_tokens: c.snapshot_min_tokens,
                staging_bytes: mebibytes(c.staging_mib as u64),
                roles: c.roles,
            },
        ),
    )
}

/// A number of MiB in bytes; what does not fit into 64 bits is cut off.
fn mebibytes(n: u64) -> (b: u64)
    ensures
        b == (n * 0x10_0000) % 0x1_0000_0000_0000_0000,
{
    n.wrapping_mul(0x10_0000)
}

/// Settings are accepted exactly where requests can wait, drafts are between one and seven, and
/// continuous batching has room for prompts beside its sequences, a budget, and only text to do.
pub proof fn law_accepted_settings(o: ServeOpts)
    ensures
        o.refusal() is None <==> {
            &&& o.max_queue > 0
            &&& o.mtp ==> 1 <= o.spec_k <= 7
            &&& o.continuous ==> {
                &&& !o.mtp && !o.vision
                &&& 0 < o.max_sequences < o.batch
                &&& o.prefill_chunk > 0
                &&& o.kv_cache_mib matches Some(n) && n > 0
            }
        },
        o.mtp ==> o.drafts() == o.spec_k,
        !o.mtp ==> o.drafts() == 0,
{
}

/// The settings of a prefix cache are accepted exactly where the snapshots are taken per message or
/// per request, and the budget and the chunks are not empty.
pub proof fn law_accepted_cache_settings<D>(c: CacheCfg<D>, budget: Option<u64>)
    ensures
        cache_refusal(c, budget) is None <==> (c.snapshots@ == "message"@ || c.snapshots@ == "request"@)
            && budget is Some && c.chunk_len > 0,
{
    assert(SnapshotPolicy::Message.text() == "message"@);
    assert(SnapshotPolicy::Request.text() == "request"@);
}

} // verus!
