//! What is told of a store and of the settings.
use crate::backend::{deletion_fails, index_fails, listing_fails, lists, metas, Backend, Blob};
use crate::cache::removed;
use crate::json::{lemma_object_view, members_view, object, Json, JsonView, MemberView};
use crate::object::{Kind, MetaView, ObjectMeta};
use crate::policy::{default_policy, Policies, RolePolicy};
use crate::role::Role;
use crate::text::{before, concat, decimal, hex_text, is_before, law_before_total, law_before_transitive};
use crate::text::{owned, push_decimal, push_text, str_eq, texts, to_chars, to_decimal};
use vstd::prelude::*;
use vstd::utf8::encode_utf8;

verus! {

/// What is shown in place of the API key: printed settings end up in logs.
pub const REDACTED: &'static str = "<set, redacted>";

/// The members of the server's settings without the key, where one is set.
pub open spec fn without_key(m: Seq<MemberView>) -> Seq<MemberView> {
    Seq::new(
        m.len(),
        |i: int|
            if m[i].key == "api_key"@ && !(m[i].value is Null) {
                MemberView { key: m[i].key, value: JsonView::Text(REDACTED@) }
            } else {
                m[i]
            },
    )
}

/// Settings without the API key.
pub open spec fn redacted(v: JsonView) -> JsonView {
    match v {
        JsonView::Object(m) => JsonView::Object(
            Seq::new(
                m.len(),
                |i: int|
                    match m[i].value {
                        JsonView::Object(s) => if m[i].key == "server"@ {
                            MemberView { key: m[i].key, value: JsonView::Object(without_key(s)) }
                        } else {
                            m[i]
                        },
                        _ => m[i],
                    },
            ),
        ),
        _ => v,
    }
}

fn hide_key(m: &mut Vec<(String, Json)>)
    ensures
        members_view(final(m)@) == without_key(members_view(old(m)@)),
{
    let n: usize = m.len();
    let mut i: usize = 0;
    let ghost first = members_view(m@);
    while i < n
        invariant
            i <= n,
            n == m@.len(),
            first.len() == n,
            first == members_view(old(m)@),
            forall|j: int| 0 <= j < i ==> #[trigger] members_view(m@)[j] == without_key(first)[j],
            forall|j: int| i <= j < n ==> #[trigger] members_view(m@)[j] == first[j],
        decreases n - i,
    {
        let ghost before = members_view(m@);
        assert(before[i as int] == first[i as int]);
        let null: bool = match m[i].1 {
            Json::Null => true,
            _ => false,
        };
        if str_eq(m[i].0.as_str(), "api_key") && !null {
            m[i].1 = Json::Text(owned(REDACTED));
            assert(members_view(m@) =~= before.update(i as int, without_key(first)[i as int]));
        }
        i = i + 1;
    }
    assert(members_view(m@) =~= without_key(first));
}

/// Replace the API key with a placeholder.
pub fn redact(v: Json) -> (r: Json)
    ensures
        r@ == redacted(v@),
{
    match v {
        Json::Object(members) => {
            proof {
                lemma_object_view(members);
            }
            let ghost first = members_view(members@);
            let ghost want = redacted(JsonView::Object(first))->Object_0;
            let mut m: Vec<(String, Json)> = members;
            let n: usize = m.len();
            let mut i: usize = 0;
            while i < n
                invariant
                    i <= n,
                    n == m@.len(),
                    first.len() == n,
                    want == redacted(JsonView::Object(first))->Object_0,
                    forall|j: int| 0 <= j < i ==> #[trigger] members_view(m@)[j] == want[j],
                    forall|j: int| i <= j < n ==> #[trigger] members_view(m@)[j] == first[j],
                decreases n - i,
            {
                let ghost before = members_view(m@);
                assert(before[i as int] == first[i as int]);
                if str_eq(m[i].0.as_str(), "server") {
                    let mut value: Json = Json::Null;
                    std::mem::swap(&mut m[i].1, &mut value);
                    let hidden: Json = match value {
                        Json::Object(s) => {
                            proof {
                                lemma_object_view(s);
                            }
                            let mut t: Vec<(String, Json)> = s;
                            hide_key(&mut t);
                            object(t)
                        },
                        other => other,
                    };
                    m[i].1 = hidden;
                    assert(members_view(m@) =~= before.update(i as int, want[i as int]));
                }
                i = i + 1;
            }
            assert(members_view(m@) =~= want);
            object(m)
        },
        other => other,
    }
}

/// No key is left in redacted settings.
pub proof fn law_redacted_settings_hold_no_key(m: Seq<MemberView>, i: int, j: int)
    requires
        0 <= i < m.len(),
        m[i].key == "server"@,
        redacted(JsonView::Object(m))->Object_0[i].value matches JsonView::Object(s) && 0 <= j < s.len()
            && s[j].key == "api_key"@,
    ensures
        redacted(JsonView::Object(m))->Object_0[i].value matches JsonView::Object(s) && (s[j].value is Null
            || s[j].value == JsonView::Text(REDACTED@)),
{
}

/// A command that has settings.
#[derive(Clone, Copy, Debug, PartialEq, Eq, Structural)]
pub enum Settled {
    Generate,
    Bench,
    Serve,
    Cache,
    SpecProbe,
    VisionEmbed,
    Tokenize,
}

/// The command of a name, which may be written with a hyphen or an underscore.
pub open spec fn settled(name: Seq<char>) -> Option<Settled> {
    if name == "generate"@ {
        Some(Settled::Generate)
    } else if name == "bench"@ {
        Some(Settled::Bench)
    } else if name == "serve"@ {
        Some(Settled::Serve)
    } else if name == "cache"@ {
        Some(Settled::Cache)
    } else if name == "spec-probe"@ || name == "spec_probe"@ {
        Some(Settled::SpecProbe)
    } else if name == "vision-embed"@ || name == "vision_embed"@ {
        Some(Settled::VisionEmbed)
    } else if name == "tokenize"@ {
        Some(Settled::Tokenize)
    } else {
        None
    }
}

impl Settled {
    pub fn parse(name: &str) -> (r: Result<Settled, String>)
        ensures
            match settled(name@) {
                Some(c) => r == Ok::<Settled, String>(c),
                None => r matches Err(e) && e@
                    == "--for must name a command that has settings: generate, bench, serve, cache, spec-probe, vision-embed, tokenize (got "@
                    + name@ + ")"@,
            },
    {
        if str_eq(name, "generate") {
            Ok(Settled::Generate)
        } else if str_eq(name, "bench") {
            Ok(Settled::Bench)
        } else if str_eq(name, "serve") {
            Ok(Settled::Serve)
        } else if str_eq(name, "cache") {
            Ok(Settled::Cache)
        } else if str_eq(name, "spec-probe") || str_eq(name, "spec_probe") {
            Ok(Settled::SpecProbe)
        } else if str_eq(name, "vision-embed") || str_eq(name, "vision_embed") {
            Ok(Settled::VisionEmbed)
        } else if str_eq(name, "tokenize") {
            Ok(Settled::Tokenize)
        } else {
            let mut e: String = concat(
                "--for must name a command that has settings: generate, bench, serve, cache, spec-probe, vision-embed, tokenize (got ",
                name,
            );
            push_text(&mut e, ")");
            Err(e)
        }
    }
}

/// Texts in their order, each once.
pub open spec fn ascending(v: Seq<Seq<char>>) -> bool {
    forall|i: int, j: int| 0 <= i < j < v.len() ==> before(#[trigger] v[i], #[trigger] v[j])
}

/// Put a text into its place, where it is not there yet.
fn put_label(v: &mut Vec<String>, label: String)
    requires
        ascending(texts(old(v)@)),
    ensures
        ascending(texts(final(v)@)),
        forall|t: Seq<char>| #[trigger]
            texts(final(v)@).contains(t) <==> (texts(old(v)@).contains(t) || t == label@),
{
    let ghost first = texts(v@);
    let c: Vec<char> = to_chars(label.as_str());
    let n: usize = v.len();
    let mut i: usize = 0;
    while i < n && is_before(to_chars(v[i].as_str()).as_slice(), c.as_slice())
        invariant
            *v == *old(v),
            n == v@.len(),
            i <= n,
            c@ == label@,
            first == texts(v@),
            forall|j: int| 0 <= j < i ==> before(#[trigger] first[j], label@),
        decreases n - i,
    {
        i = i + 1;
    }
    if i < n && str_eq(v[i].as_str(), label.as_str()) {
        assert(first[i as int] == label@);
        return;
    }
    let ghost t = label@;
    v.insert(i, label);
    proof {
        let all = texts(v@);
        assert(all =~= first.insert(i as int, t));
        assert forall|a: int, b: int| 0 <= a < b < all.len() implies before(#[trigger] all[a], #[trigger] all[b]) by {
            if i < n {
                law_before_total(first[i as int], t);
                if b == i {
                    assert(all[a] == first[a]);
                } else if a == i {
                    assert(all[b] == first[b - 1]);
                    if b - 1 > i {
                        assert(before(first[i as int], first[b - 1]));
                        law_before_transitive(t, first[i as int], first[b - 1]);
                    }
                } else {
                    let x = if a < i { a } else { a - 1 };
                    let y = if b < i { b } else { b - 1 };
                    assert(all[a] == first[x] && all[b] == first[y]);
                }
            } else if b < i {
                assert(all[a] == first[a] && all[b] == first[b]);
            }
        }
        assert forall|x: Seq<char>| #[trigger] all.contains(x) <==> (first.contains(x) || x == t) by {
            if all.contains(x) {
                let k = choose|k: int| 0 <= k < all.len() && all[k] == x;
                if k < i {
                    assert(first[k] == x);
                } else if k > i {
                    assert(first[k - 1] == x);
                }
            }
            if first.contains(x) {
                let k = choose|k: int| 0 <= k < first.len() && first[k] == x;
                if k < i {
                    assert(all[k] == x);
                } else {
                    assert(all[k + 1] == x);
                }
            }
            assert(all[i as int] == t);
        }
    }
}

/// The role of an object as it is listed.
pub open spec fn role_label(role: Option<Role>) -> Seq<char> {
    match role {
        Some(r) => r.text(),
        None => "(no role)"@,
    }
}

/// The roots of the objects, each once, in order.
pub fn roots(v: &Vec<ObjectMeta>) -> (r: Vec<String>)
    ensures
        ascending(texts(r@)),
        forall|t: Seq<char>| #[trigger]
            texts(r@).contains(t) <==> exists|i: int| 0 <= i < v@.len() && t == hex_text((#[trigger] v@[i]).root@),
{
    let n: usize = v.len();
    let mut r: Vec<String> = Vec::new();
    let mut i: usize = 0;
    while i < n
        invariant
            n == v@.len(),
            i <= n,
            ascending(texts(r@)),
            forall|t: Seq<char>| #[trigger]
                texts(r@).contains(t) <==> exists|k: int| 0 <= k < i && t == hex_text((#[trigger] v@[k]).root@),
        decreases n - i,
    {
        let ghost before = texts(r@);
        put_label(&mut r, v[i].root.hex());
        assert forall|t: Seq<char>| #[trigger] texts(r@).contains(t) <==> exists|k: int|
            0 <= k < i + 1 && t == hex_text((#[trigger] v@[k]).root@) by {
            assert(before.contains(t) <==> exists|k: int| 0 <= k < i && t == hex_text((#[trigger] v@[k]).root@));
            if t == hex_text(v@[i as int].root@) {
                assert(v@[i as int].root@ == v@[i as int].root@);
            }
        }
        i = i + 1;
    }
    r
}

/// The roles of the objects as they are listed, each once, in order.
pub fn role_labels(v: &Vec<ObjectMeta>) -> (r: Vec<String>)
    ensures
        ascending(texts(r@)),
        forall|t: Seq<char>| #[trigger]
            texts(r@).contains(t) <==> exists|i: int| 0 <= i < v@.len() && t == role_label((#[trigger] v@[i]).role),
{
    let n: usize = v.len();
    let mut r: Vec<String> = Vec::new();
    let mut i: usize = 0;
    while i < n
        invariant
            n == v@.len(),
            i <= n,
            ascending(texts(r@)),
            forall|t: Seq<char>| #[trigger]
                texts(r@).contains(t) <==> exists|k: int| 0 <= k < i && t == role_label((#[trigger] v@[k]).role),
        decreases n - i,
    {
        let ghost before = texts(r@);
        put_label(&mut r, label_of(v[i].role));
        assert forall|t: Seq<char>| #[trigger] texts(r@).contains(t) <==> exists|k: int|
            0 <= k < i + 1 && t == role_label((#[trigger] v@[k]).role) by {
            assert(before.contains(t) <==> exists|k: int| 0 <= k < i && t == role_label((#[trigger] v@[k]).role));
            if t == role_label(v@[i as int].role) {
                assert(v@[i as int].role == v@[i as int].role);
            }
        }
        i = i + 1;
    }
    r
}

fn label_of(role: Option<Role>) -> (s: String)
    ensures
        s@ == role_label(role),
{
    match role {
        Some(r) => owned(r.name()),
        None => owned("(no role)"),
    }
}

/// How many objects a list may hold for their sizes to be summed.
pub const MAX_LISTED: usize = 0xffff_ffff;

/// What the objects of one root come to.
#[derive(Clone, Copy, Debug, PartialEq, Eq, Structural)]
pub struct RootStats {
    pub rows: usize,
    pub snapshots: usize,
    pub bytes: u128,
    /// When the object that was used longest ago was used.
    pub oldest: u64,
    pub newest: u64,
}

/// The object added to what came before it.
pub open spec fn root_added(s: RootStats, m: MetaView) -> RootStats {
    RootStats {
        rows: if m.kind == Kind::Rows { (s.rows + 1) as usize } else { s.rows },
        snapshots: if m.kind == Kind::Snapshot { (s.snapshots + 1) as usize } else { s.snapshots },
        bytes: (s.bytes + m.footprint()) as u128,
        oldest: if m.last_used < s.oldest { m.last_used } else { s.oldest },
        newest: if m.last_used > s.newest { m.last_used } else { s.newest },
    }
}

/// What the first `n` objects of a root come to.
pub open spec fn root_total(m: Seq<MetaView>, root: Seq<char>, n: int) -> RootStats
    decreases n,
{
    if n <= 0 {
        RootStats { rows: 0, snapshots: 0, bytes: 0, oldest: u64::MAX, newest: 0 }
    } else {
        let before = root_total(m, root, n - 1);
        if hex_text(m[n - 1].root) == root { root_added(before, m[n - 1]) } else { before }
    }
}

/// What the objects of a root come to.
pub fn root_stats(v: &Vec<ObjectMeta>, root: &str) -> (s: RootStats)
    requires
        v@.len() <= MAX_LISTED,
    ensures
        s == root_total(metas(v@), root@, v@.len() as int),
{
    let n: usize = v.len();
    let mut s: RootStats = RootStats { rows: 0, snapshots: 0, bytes: 0, oldest: u64::MAX, newest: 0 };
    let mut i: usize = 0;
    while i < n
        invariant
            n == v@.len(),
            i <= n,
            s == root_total(metas(v@), root@, i as int),
            s.rows <= i,
            s.snapshots <= i,
            n <= MAX_LISTED,
            s.bytes <= i * 0x20_0000_0000_0000_0000,
        decreases n - i,
    {
        let m: &ObjectMeta = &v[i];
        assert(metas(v@)[i as int] == m@);
        if str_eq(m.root.hex().as_str(), root) {
            let size: u128 = m.footprint_wide();
            match m.kind {
                Kind::Rows => {
                    s.rows = s.rows + 1;
                },
                Kind::Snapshot => {
                    s.snapshots = s.snapshots + 1;
                },
            }
            s.bytes = s.bytes + size;
            if m.last_used < s.oldest {
                s.oldest = m.last_used;
            }
            if m.last_used > s.newest {
                s.newest = m.last_used;
            }
        }
        i = i + 1;
    }
    s
}

/// The size of the first `n` objects.
pub open spec fn size_of_all(m: Seq<MetaView>, n: int) -> int
    decreases n,
{
    if n <= 0 { 0 } else { size_of_all(m, n - 1) + m[n - 1].footprint() }
}

/// The size of all objects.
pub fn total_bytes(v: &Vec<ObjectMeta>) -> (b: u128)
    requires
        v@.len() <= MAX_LISTED,
    ensures
        b == size_of_all(metas(v@), v@.len() as int),
{
    let n: usize = v.len();
    let mut b: u128 = 0;
    let mut i: usize = 0;
    while i < n
        invariant
            n == v@.len(),
            i <= n,
            b == size_of_all(metas(v@), i as int),
            n <= MAX_LISTED,
            b <= i * 0x20_0000_0000_0000_0000,
        decreases n - i,
    {
        assert(metas(v@)[i as int] == v@[i as int]@);
        b = b + v[i].footprint_wide();
        i = i + 1;
    }
    b
}

/// What the objects of one role come to.
#[derive(Clone, Copy, Debug, PartialEq, Eq, Structural)]
pub struct RoleStats {
    pub chunks: usize,
    pub tokens: u128,
    pub snapshots: usize,
}

/// The object added to what came before it.
pub open spec fn role_added(s: RoleStats, m: MetaView) -> RoleStats {
    match m.kind {
        Kind::Rows => RoleStats {
            chunks: (s.chunks + 1) as usize,
            tokens: (s.tokens + (m.end - m.start)) as u128,
            snapshots: s.snapshots,
        },
        Kind::Snapshot => RoleStats { snapshots: (s.snapshots + 1) as usize, ..s },
    }
}

/// What the first `n` objects of a role come to.
pub open spec fn role_total(m: Seq<MetaView>, label: Seq<char>, n: int) -> RoleStats
    decreases n,
{
    if n <= 0 {
        RoleStats { chunks: 0, tokens: 0, snapshots: 0 }
    } else {
        let before = role_total(m, label, n - 1);
        if role_label(m[n - 1].role) == label { role_added(before, m[n - 1]) } else { before }
    }
}

/// What the objects of a role come to.
pub fn role_stats(v: &Vec<ObjectMeta>, label: &str) -> (s: RoleStats)
    requires
        forall|i: int| 0 <= i < v@.len() ==> (#[trigger] v@[i]).start <= v@[i].end,
    ensures
        s == role_total(metas(v@), label@, v@.len() as int),
{
    let n: usize = v.len();
    let mut s: RoleStats = RoleStats { chunks: 0, tokens: 0, snapshots: 0 };
    let mut i: usize = 0;
    while i < n
        invariant
            n == v@.len(),
            i <= n,
            forall|k: int| 0 <= k < v@.len() ==> (#[trigger] v@[k]).start <= v@[k].end,
            s == role_total(metas(v@), label@, i as int),
            s.chunks <= i,
            s.snapshots <= i,
            s.tokens <= i * 0xffff_ffff_ffff_ffff,
        decreases n - i,
    {
        let m: &ObjectMeta = &v[i];
        assert(metas(v@)[i as int] == m@);
        if str_eq(label_of(m.role).as_str(), label) {
            match m.kind {
                Kind::Rows => {
                    s.chunks = s.chunks + 1;
                    s.tokens = s.tokens + (m.end - m.start) as u128;
                },
                Kind::Snapshot => {
                    s.snapshots = s.snapshots + 1;
                },
            }
        }
        i = i + 1;
    }
    s
}

/// How long ago something was: in minutes, in hours from the first one on, in days from the first.
pub open spec fn age_text(now: u64, t: u64) -> Seq<char> {
    let d = if now > t { now - t } else { 0 };
    if d < 3600 {
        decimal((d / 60) as nat) + "m"@
    } else if d < 86400 {
        decimal((d / 3600) as nat) + "h"@
    } else {
        decimal((d / 86400) as nat) + "d"@
    }
}

pub fn age(now: u64, t: u64) -> (s: String)
    ensures
        s@ == age_text(now, t),
{
    let d: u64 = if now > t { now - t } else { 0 };
    if d < 3600 {
        let s: String = to_decimal(d / 60);
        concat(s.as_str(), "m")
    } else if d < 86400 {
        let s: String = to_decimal(d / 3600);
        concat(s.as_str(), "h")
    } else {
        let s: String = to_decimal(d / 86400);
        concat(s.as_str(), "d")
    }
}

/// The line of a root; its size in GiB is given as text.
pub fn root_line(root: &str, s: &RootStats, gib: &str, now: u64) -> (line: String)
    ensures
        line@ == "  root "@ + root@ + ": "@ + decimal(s.rows as nat) + " rows chunks, "@ + decimal(
            s.snapshots as nat,
        ) + " snapshots, "@ + gib@ + " GiB, last used "@ + age_text(now, s.newest) + " .. "@ + age_text(
            now,
            s.oldest,
        ) + " ago"@,
{
    let mut l: String = concat("  root ", root);
    push_text(&mut l, ": ");
    push_decimal(&mut l, s.rows as u64);
    push_text(&mut l, " rows chunks, ");
    push_decimal(&mut l, s.snapshots as u64);
    push_text(&mut l, " snapshots, ");
    push_text(&mut l, gib);
    push_text(&mut l, " GiB, last used ");
    push_text(&mut l, age(now, s.newest).as_str());
    push_text(&mut l, " .. ");
    push_text(&mut l, age(now, s.oldest).as_str());
    push_text(&mut l, " ago");
    l
}

pub open spec fn bool_text(b: bool) -> Seq<char> {
    if b { "true"@ } else { "false"@ }
}

fn bool_name(b: bool) -> (s: &'static str)
    ensures
        s@ == bool_text(b),
{
    if b { "true" } else { "false" }
}

/// A policy, where it is not the default.
pub open spec fn policy_note(p: RolePolicy) -> Seq<char> {
    if p == default_policy() {
        Seq::empty()
    } else {
        "  [persist "@ + bool_text(p.persist) + ", priority "@ + decimal(p.priority as nat) + ", ttl "@ + (
        match p.ttl {
            Some(t) => decimal(t as nat),
            None => "none"@,
        }) + ", snapshots "@ + bool_text(p.snapshot) + "]"@
    }
}

/// The line of a role, with its policy where that is not the default.
pub fn role_line(role: Option<Role>, s: &RoleStats, tokens: &str, policies: &Policies) -> (line: String)
    ensures
        line@ == "  "@ + role_label(role) + ": "@ + decimal(s.chunks as nat) + " chunks, "@ + tokens@
            + " tokens, "@ + decimal(s.snapshots as nat) + " snapshots"@ + policy_note(
            policies.applied(role),
        ),
{
    let mut l: String = concat("  ", label_of(role).as_str());
    push_text(&mut l, ": ");
    push_decimal(&mut l, s.chunks as u64);
    push_text(&mut l, " chunks, ");
    push_text(&mut l, tokens);
    push_text(&mut l, " tokens, ");
    push_decimal(&mut l, s.snapshots as u64);
    push_text(&mut l, " snapshots");
    let p: RolePolicy = policies.of(role);
    let plain: bool = p.persist && p.priority == 5 && p.ttl.is_none() && p.snapshot;
    if !plain {
        push_text(&mut l, "  [persist ");
        push_text(&mut l, bool_name(p.persist));
        push_text(&mut l, ", priority ");
        push_decimal(&mut l, p.priority as u64);
        push_text(&mut l, ", ttl ");
        match p.ttl {
            Some(t) => {
                push_decimal(&mut l, t);
            },
            None => {
                push_text(&mut l, "none");
            },
        }
        push_text(&mut l, ", snapshots ");
        push_text(&mut l, bool_name(p.snapshot));
        push_text(&mut l, "]");
    }
    assert(plain == (p == default_policy()));
    assert(line_is(l@, role, *s, tokens@, p));
    l
}

spec fn line_is(l: Seq<char>, role: Option<Role>, s: RoleStats, tokens: Seq<char>, p: RolePolicy) -> bool {
    l =~= "  "@ + role_label(role) + ": "@ + decimal(s.chunks as nat) + " chunks, "@ + tokens
        + " tokens, "@ + decimal(s.snapshots as nat) + " snapshots"@ + policy_note(p)
}

/// The names of the first `n` objects.
pub open spec fn names_of(m: Seq<MetaView>, n: int) -> Seq<Seq<char>> {
    Seq::new(n as nat, |i: int| m[i].name())
}

proof fn lemma_all_removed(o: Map<Seq<char>, Blob>, m: Seq<MetaView>, n: int)
    requires
        0 <= n <= m.len(),
    ensures
        forall|x: Seq<char>| #[trigger]
            removed(o, names_of(m, n)).dom().contains(x) ==> o.dom().contains(x) && forall|i: int|
                0 <= i < n ==> (#[trigger] m[i]).name() != x,
    decreases n,
{
    if n > 0 {
        lemma_all_removed(o, m, n - 1);
        assert(names_of(m, n).drop_last() =~= names_of(m, n - 1));
        let front = removed(o, names_of(m, n - 1));
        assert(removed(o, names_of(m, n)) == front.remove(m[n - 1].name()));
        assert forall|x: Seq<char>| #[trigger]
            removed(o, names_of(m, n)).dom().contains(x) implies o.dom().contains(x) && forall|i: int|
            0 <= i < n ==> (#[trigger] m[i]).name() != x by {
            assert(front.dom().contains(x));
        }
    }
}

/// Whether a store is left with those objects where it could not be emptied, with the backend's
/// error `e`: it did not list them; or it did not delete the next one, those before it being gone;
/// or it did not take the empty index, all being gone.
pub open spec fn left_with<B: Backend>(store: B, objects: Map<Seq<char>, Blob>, e: String) -> bool {
    ||| objects == store.objects() && listing_fails(store, e)
    ||| exists|m: Seq<MetaView>, k: int, at: B|
        #![trigger lists(m, store.objects()), deletion_fails(at, m[k].name(), e)]
        lists(m, store.objects()) && 0 <= k < m.len() && objects == removed(
            store.objects(),
            names_of(m, k),
        ) && at.objects() == objects && deletion_fails(at, m[k].name(), e)
    ||| exists|m: Seq<MetaView>, at: B|
        #![trigger lists(m, store.objects()), index_fails(at, encode_utf8("{}"@), e)]
        lists(m, store.objects()) && objects == removed(store.objects(), names_of(m, m.len() as int))
            && at.objects() == objects && index_fails(at, encode_utf8("{}"@), e)
}

/// Empty a store: every object that it lists is deleted, then its index. How many there were. It
/// fails where the backend does, with the backend's error.
pub fn clear<B: Backend>(store: &mut B) -> (r: Result<usize, String>)
    requires
        old(store).sound(),
    ensures
        final(store).sound(),
        final(store).place() == old(store).place(),
        match r {
            Ok(n) => final(store).objects().dom() =~= Set::<Seq<char>>::empty() && final(store).stored_index()
                == Some(encode_utf8("{}"@)) && exists|m: Seq<MetaView>| #[trigger]
                lists(m, old(store).objects()) && n == m.len(),
            Err(e) => left_with(*old(store), final(store).objects(), e) && final(store).stored_index() == old(store).stored_index() && forall|x: Seq<char>| #[trigger]
                final(store).objects().dom().contains(x) ==> old(store).objects().dom().contains(x)
                    && final(store).objects()[x] == old(store).objects()[x],
        },
{
    let ghost o = store.objects();
    let list: Vec<ObjectMeta> = match store.list() {
        Ok(l) => l,
        Err(e) => {
            assert(listing_fails(*old(store), e));
            return Err(e);
        },
    };
    let ghost m = metas(list@);
    let n: usize = list.len();
    let mut i: usize = 0;
    assert(names_of(m, 0) =~= Seq::<Seq<char>>::empty());
    while i < n
        invariant
            n == list@.len(),
            i <= n,
            m == metas(list@),
            lists(m, o),
            o == old(store).objects(),
            store.sound(),
            store.place() == old(store).place(),
            store.stored_index() == old(store).stored_index(),
            store.objects() == removed(o, names_of(m, i as int)),
        decreases n - i,
    {
        proof {
            lemma_removed_keeps(o, names_of(m, i as int));
            assert(names_of(m, i + 1).drop_last() =~= names_of(m, i as int));
            assert(names_of(m, i + 1).last() == list@[i as int]@.name());
        }
        let ghost at = *store;
        if let Err(e) = store.delete(list[i].name().as_str()) {
            assert(deletion_fails(at, m[i as int].name(), e));
            return Err(e);
        }
        i = i + 1;
    }
    proof {
        lemma_all_removed(o, m, n as int);
        lemma_removed_keeps(o, names_of(m, n as int));
        assert forall|x: Seq<char>| !#[trigger] store.objects().dom().contains(x) by {
            if o.dom().contains(x) {
                let k = choose|k: int| 0 <= k < m.len() && (#[trigger] m[k]).name() == x;
                assert(m[k].name() == x);
            }
        }
        assert(lists(m, o));
    }
    let empty: &str = "{}";
    let ghost at = *store;
    match store.put_index(empty.as_bytes()) {
        Ok(_) => Ok(n),
        Err(e) => {
            assert(index_fails(at, encode_utf8("{}"@), e));
            Err(e)
        },
    }
}

proof fn lemma_removed_keeps(o: Map<Seq<char>, Blob>, names: Seq<Seq<char>>)
    ensures
        forall|x: Seq<char>| #[trigger]
            removed(o, names).dom().contains(x) ==> o.dom().contains(x) && removed(o, names)[x] == o[x],
    decreases names.len(),
{
    if names.len() > 0 {
        lemma_removed_keeps(o, names.drop_last());
        let front = removed(o, names.drop_last());
        assert(removed(o, names) == front.remove(names.last()));
        assert forall|x: Seq<char>| #[trigger]
            removed(o, names).dom().contains(x) implies o.dom().contains(x) && removed(o, names)[x] == o[x] by {
            assert(front.dom().contains(x));
        }
    }
}

/// The objects of a root are counted one by one: by their kind, their size, and their oldest and
/// newest use; those of other roots do not count.
pub proof fn law_objects_of_a_root(m: Seq<MetaView>, root: Seq<char>, n: int)
    requires
        0 <= n < m.len(),
        root_total(m, root, n).rows < usize::MAX,
        root_total(m, root, n).snapshots < usize::MAX,
        root_total(m, root, n).bytes + m[n].footprint() <= u128::MAX,
    ensures
        ({
            let a = root_total(m, root, n);
            let b = root_total(m, root, n + 1);
            &&& hex_text(m[n].root) != root ==> b == a
            &&& hex_text(m[n].root) == root ==> {
                &&& b.rows == a.rows + if m[n].kind == Kind::Rows { 1int } else { 0int }
                &&& b.snapshots == a.snapshots + if m[n].kind == Kind::Snapshot { 1int } else { 0int }
                &&& b.bytes == a.bytes + m[n].footprint()
                &&& b.oldest <= m[n].last_used <= b.newest
                &&& b.oldest <= a.oldest && (b.oldest == a.oldest || b.oldest == m[n].last_used)
                &&& b.newest >= a.newest && (b.newest == a.newest || b.newest == m[n].last_used)
            }
        }),
        size_of_all(m, n + 1) == size_of_all(m, n) + m[n].footprint(),
        size_of_all(m, 0) == 0,
{
}

/// The objects of a role are counted one by one: rows as chunks with their tokens, and snapshots.
pub proof fn law_objects_of_a_role(m: Seq<MetaView>, label: Seq<char>, n: int)
    requires
        0 <= n < m.len(),
        m[n].start <= m[n].end,
        role_total(m, label, n).chunks < usize::MAX,
        role_total(m, label, n).snapshots < usize::MAX,
        role_total(m, label, n).tokens + usize::MAX <= u128::MAX,
    ensures
        ({
            let a = role_total(m, label, n);
            let b = role_total(m, label, n + 1);
            &&& role_label(m[n].role) != label ==> b == a
            &&& role_label(m[n].role) == label && m[n].kind == Kind::Rows ==> b.chunks == a.chunks + 1 && b.tokens
                == a.tokens + m[n].end - m[n].start && b.snapshots == a.snapshots
            &&& role_label(m[n].role) == label && m[n].kind == Kind::Snapshot ==> b.snapshots == a.snapshots + 1
                && b.chunks == a.chunks && b.tokens == a.tokens
        }),
        role_label(None) == "(no role)"@,
        role_label(Some(Role::Tool)) == "tool"@,
{
}

/// An age is told in whole minutes below an hour, in whole hours below a day, and in whole days.
pub proof fn law_age_is_told(now: u64, t: u64)
    requires
        t <= now,
    ensures
        now - t < 3600 ==> age_text(now, t) == decimal(((now - t) / 60) as nat) + "m"@,
        3600 <= now - t < 86400 ==> age_text(now, t) == decimal(((now - t) / 3600) as nat) + "h"@,
        86400 <= now - t ==> age_text(now, t) == decimal(((now - t) / 86400) as nat) + "d"@,
        age_text(t, now) == decimal(0) + "m"@,
{
}

/// The commands whose settings are told, under the names they are called by.
pub proof fn law_commands_with_settings(name: Seq<char>)
    ensures
        settled("generate"@) == Some(Settled::Generate),
        settled("bench"@) == Some(Settled::Bench),
        settled("serve"@) == Some(Settled::Serve),
        settled("cache"@) == Some(Settled::Cache),
        settled("tokenize"@) == Some(Settled::Tokenize),
        settled("spec-probe"@) == Some(Settled::SpecProbe) && settled("spec_probe"@) == Some(Settled::SpecProbe),
        settled("vision-embed"@) == Some(Settled::VisionEmbed) && settled("vision_embed"@) == Some(
            Settled::VisionEmbed,
        ),
        settled(name) is Some ==> name == "generate"@ || name == "bench"@ || name == "serve"@ || name
            == "cache"@ || name == "tokenize"@ || name == "spec-probe"@ || name == "spec_probe"@ || name
            == "vision-embed"@ || name == "vision_embed"@,
{
    reveal_strlit("generate");
    reveal_strlit("bench");
    reveal_strlit("serve");
    reveal_strlit("cache");
    reveal_strlit("tokenize");
    reveal_strlit("spec-probe");
    reveal_strlit("spec_probe");
    reveal_strlit("vision-embed");
    reveal_strlit("vision_embed");
    assert("generate"@[0] == 'g' && "bench"@[0] == 'b' && "serve"@[0] == 's' && "serve"@[1] == 'e' && "cache"@[0]
        == 'c' && "tokenize"@[0] == 't' && "spec-probe"@[0] == 's' && "spec-probe"@[1] == 'p'
        && "spec_probe"@[0] == 's' && "spec_probe"@[1] == 'p' && "vision-embed"@[0] == 'v' && "vision_embed"@[0]
        == 'v');
}

/// Only the API key is hidden, where one is set; all other settings are told as they are.
pub proof fn law_only_the_key_is_hidden(m: Seq<MemberView>, i: int)
    requires
        0 <= i < m.len(),
    ensures
        redacted(JsonView::Object(m)) matches JsonView::Object(r) && r.len() == m.len() && r[i].key == m[i].key
            && {
            &&& m[i].key != "server"@ ==> r[i] == m[i]
            &&& m[i].value !is Object ==> r[i] == m[i]
            &&& m[i].key == "server"@ ==> (m[i].value matches JsonView::Object(s) ==> r[i].value
                == JsonView::Object(without_key(s)))
        },
{
}

/// In the settings of the server, all but the key stay.
pub proof fn law_server_settings_but_the_key(s: Seq<MemberView>, i: int)
    requires
        0 <= i < s.len(),
    ensures
        without_key(s).len() == s.len(),
        s[i].key != "api_key"@ || s[i].value is Null ==> without_key(s)[i] == s[i],
        s[i].key == "api_key"@ && s[i].value !is Null ==> without_key(s)[i] == (MemberView {
            key: s[i].key,
            value: JsonView::Text("<set, redacted>"@),
        }),
{
}

} // verus!
