//! The keys that a configuration file may hold, and what is said about others.
use crate::json::{Json, JsonView, MemberView};
use crate::text::{owned, push_text, str_eq, texts};
use vstd::prelude::*;
use vstd::utf8::encode_utf8;

verus! {

/// How many keys can be set.
pub const KEY_COUNT: usize = 86;

/// Every settable key path, in the order of the sections.
pub const KEYS: [&'static str; 86] = [
    "pack",
    "runtime.ctx",
    "runtime.batch",
    "runtime.kv",
    "runtime.cores_per_node",
    "runtime.ple_mmap",
    "runtime.pin_heap",
    "overlays.mtp",
    "overlays.vision",
    "spec.k",
    "moe.mass",
    "moe.min",
    "moe.max",
    "moe.basis",
    "moe.profile",
    "sampling.temp",
    "sampling.top_k",
    "sampling.top_p",
    "sampling.seed",
    "sampling.think_temp",
    "sampling.think_top_k",
    "sampling.think_top_p",
    "image.min_tokens",
    "image.max_tokens",
    "server.continuous",
    "server.max_sequences",
    "server.kv_cache_mib",
    "server.prefill_chunk",
    "server.max_queue",
    "server.host",
    "server.port",
    "server.api_key",
    "server.no_auth",
    "server.model_name",
    "server.reasoning",
    "cache.dir",
    "cache.backend",
    "cache.chunk_len",
    "cache.max_gib",
    "cache.snapshots",
    "cache.snapshot_min_tokens",
    "cache.staging_mib",
    "cache.roles.system.persist",
    "cache.roles.system.priority",
    "cache.roles.system.ttl",
    "cache.roles.system.snapshot",
    "cache.roles.user.persist",
    "cache.roles.user.priority",
    "cache.roles.user.ttl",
    "cache.roles.user.snapshot",
    "cache.roles.reasoning.persist",
    "cache.roles.reasoning.priority",
    "cache.roles.reasoning.ttl",
    "cache.roles.reasoning.snapshot",
    "cache.roles.tool.persist",
    "cache.roles.tool.priority",
    "cache.roles.tool.ttl",
    "cache.roles.tool.snapshot",
    "cache.roles.assistant.persist",
    "cache.roles.assistant.priority",
    "cache.roles.assistant.ttl",
    "cache.roles.assistant.snapshot",
    "generate.prompt",
    "generate.prompt_file",
    "generate.n_predict",
    "generate.chat",
    "generate.no_think",
    "generate.dump",
    "generate.images",
    "bench.pp",
    "bench.tg",
    "bench.reps",
    "bench.tg_batch",
    "spec_probe.prompt",
    "spec_probe.chat",
    "spec_probe.n_predict",
    "tokenize.prompt",
    "tokenize.prompt_file",
    "vision_embed.image",
    "vision_embed.out",
    "vision_embed.reps",
    "numa_smoke.mib",
    "load_bench.dir",
    "load_bench.gib_per_node",
    "load_bench.keep",
    "barrier_bench.rounds",
];

/// The keys as texts.
pub open spec fn key_list() -> Seq<Seq<char>> {
    Seq::new(KEY_COUNT as nat, |i: int| KEYS@[i]@)
}

/// Every settable key path.
pub fn known_keys() -> (v: Vec<String>)
    ensures
        texts(v@) == key_list(),
{
    let keys: [&'static str; KEY_COUNT] = KEYS;
    let mut v: Vec<String> = Vec::new();
    let mut i: usize = 0;
    while i < KEY_COUNT
        invariant
            i <= KEY_COUNT,
            keys@ == KEYS@,
            keys@.len() == KEY_COUNT,
            v@.len() == i,
            forall|j: int| 0 <= j < i ==> (#[trigger] v@[j])@ == KEYS@[j]@,
        decreases KEY_COUNT - i,
    {
        v.push(owned(keys[i]));
        i = i + 1;
    }
    assert(texts(v@) =~= key_list());
    v
}

// ---- edit distance --------------------------------------------------------------------------

pub open spec fn least(a: int, b: int) -> int {
    if b < a { b } else { a }
}

/// How many bytes have to be added, dropped or replaced to get from the first `i` bytes of `a` to
/// the first `j` of `b`.
pub open spec fn distance(a: Seq<u8>, b: Seq<u8>, i: int, j: int) -> int
    decreases i + j,
{
    if i <= 0 {
        if j <= 0 { 0 } else { j }
    } else if j <= 0 {
        i
    } else {
        least(
            least(distance(a, b, i - 1, j) + 1, distance(a, b, i, j - 1) + 1),
            distance(a, b, i - 1, j - 1) + if a[i - 1] != b[j - 1] { 1int } else { 0int },
        )
    }
}

pub proof fn lemma_distance_bound(a: Seq<u8>, b: Seq<u8>, i: int, j: int)
    requires
        0 <= i,
        0 <= j,
    ensures
        0 <= distance(a, b, i, j) <= if i < j { j } else { i },
        i - j <= distance(a, b, i, j),
        j - i <= distance(a, b, i, j),
    decreases i + j,
{
    if i > 0 && j > 0 {
        lemma_distance_bound(a, b, i - 1, j);
        lemma_distance_bound(a, b, i, j - 1);
        lemma_distance_bound(a, b, i - 1, j - 1);
    }
}

/// The distance is the same both ways.
pub proof fn law_distance_is_symmetric(a: Seq<u8>, b: Seq<u8>, i: int, j: int)
    requires
        0 <= i,
        0 <= j,
    ensures
        distance(a, b, i, j) == distance(b, a, j, i),
    decreases i + j,
{
    if i > 0 && j > 0 {
        law_distance_is_symmetric(a, b, i - 1, j);
        law_distance_is_symmetric(a, b, i, j - 1);
        law_distance_is_symmetric(a, b, i - 1, j - 1);
    }
}

/// Only equal texts have no distance.
pub proof fn law_distance_tells_texts_apart(a: Seq<u8>, b: Seq<u8>, i: int, j: int)
    requires
        0 <= i <= a.len(),
        0 <= j <= b.len(),
    ensures
        distance(a, b, i, j) == 0 <==> a.take(i) == b.take(j),
    decreases i + j,
{
    lemma_distance_bound(a, b, i, j);
    if i > 0 && j > 0 {
        lemma_distance_bound(a, b, i - 1, j);
        lemma_distance_bound(a, b, i, j - 1);
        lemma_distance_bound(a, b, i - 1, j - 1);
        law_distance_tells_texts_apart(a, b, i - 1, j - 1);
        assert(a.take(i) =~= a.take(i - 1).push(a[i - 1]));
        assert(b.take(j) =~= b.take(j - 1).push(b[j - 1]));
        if a.take(i) == b.take(j) {
            assert(a.take(i)[i - 1] == b.take(j)[j - 1]);
            assert(a.take(i - 1) =~= a.take(i).take(i - 1));
            assert(b.take(j - 1) =~= b.take(j).take(j - 1));
        }
    } else if i == 0 && j == 0 {
        assert(a.take(0) =~= b.take(0));
    } else {
        assert(a.take(i).len() != b.take(j).len());
    }
}

fn distance_of(a: &[u8], b: &[u8]) -> (d: usize)
    ensures
        d == distance(a@, b@, a@.len() as int, b@.len() as int),
{
    let m: usize = a.len();
    let n: usize = b.len();
    let mut prev: Vec<u128> = Vec::new();
    let mut j: usize = 0;
    while j < n
        invariant
            j <= n,
            n == b@.len(),
            prev@.len() == j,
            forall|k: int| 0 <= k < j ==> #[trigger] prev@[k] == distance(a@, b@, 0, k),
        decreases n - j,
    {
        prev.push(j as u128);
        j = j + 1;
    }
    prev.push(n as u128);
    let mut i: usize = 0;
    while i < m
        invariant
            i <= m,
            m == a@.len(),
            n == b@.len(),
            prev@.len() == n + 1,
            forall|k: int| 0 <= k <= n ==> #[trigger] prev@[k] == distance(a@, b@, i as int, k),
        decreases m - i,
    {
        let mut cur: Vec<u128> = Vec::new();
        cur.push(i as u128 + 1);
        let mut k: usize = 0;
        while k < n
            invariant
                k <= n,
                i < m,
                m == a@.len(),
                n == b@.len(),
                prev@.len() == n + 1,
                forall|q: int| 0 <= q <= n ==> #[trigger] prev@[q] == distance(a@, b@, i as int, q),
                cur@.len() == k + 1,
                forall|q: int| 0 <= q <= k ==> #[trigger] cur@[q] == distance(a@, b@, i + 1, q),
            decreases n - k,
        {
            proof {
                lemma_distance_bound(a@, b@, i as int, k + 1);
                lemma_distance_bound(a@, b@, i + 1, k as int);
                lemma_distance_bound(a@, b@, i as int, k as int);
                assert(prev@[k + 1] == distance(a@, b@, i as int, k + 1));
                assert(cur@[k as int] == distance(a@, b@, i + 1, k as int));
            }
            let up: u128 = prev[k + 1] + 1;
            let left: u128 = cur[k] + 1;
            let across: u128 = prev[k] + if a[i] != b[k] { 1 } else { 0 };
            let mut best: u128 = if left < up { left } else { up };
            if across < best {
                best = across;
            }
            cur.push(best);
            k = k + 1;
        }
        prev = cur;
        i = i + 1;
    }
    proof {
        lemma_distance_bound(a@, b@, m as int, n as int);
    }
    prev[n] as usize
}

/// The edit distance of two texts, in bytes.
pub fn edit_distance(a: &str, b: &str) -> (d: usize)
    ensures
        d == text_distance(a@, b@),
{
    distance_of(a.as_bytes(), b.as_bytes())
}

pub open spec fn text_distance(a: Seq<char>, b: Seq<char>) -> int {
    let x = encode_utf8(a);
    let y = encode_utf8(b);
    distance(x, y, x.len() as int, y.len() as int)
}

// ---- unknown keys ---------------------------------------------------------------------------

/// The path of a key under a prefix.
pub open spec fn path_of(prefix: Seq<char>, key: Seq<char>) -> Seq<char> {
    if prefix.len() == 0 { key } else { prefix + "."@ + key }
}

/// The paths of the values that are set under a path: a table by its members, nothing for one that
/// is empty or missing.
pub open spec fn value_paths(v: JsonView, path: Seq<char>) -> Seq<Seq<char>>
    decreases v, 0nat,
{
    match v {
        JsonView::Object(m) => member_paths(m, path, m.len()),
        JsonView::Null => Seq::empty(),
        _ => seq![path],
    }
}

/// The paths of the values that the first `n` members set.
pub open spec fn member_paths(m: Seq<MemberView>, prefix: Seq<char>, n: nat) -> Seq<Seq<char>>
    decreases m, n,
{
    if n == 0 || n > m.len() {
        Seq::empty()
    } else {
        member_paths(m, prefix, (n - 1) as nat) + value_paths(
            m[n - 1].value,
            path_of(prefix, m[n - 1].key),
        )
    }
}

fn push_member_paths(e: &(String, Json), prefix: &str, out: &mut Vec<String>)
    ensures
        texts(final(out)@) == texts(old(out)@) + value_paths(e.1@, path_of(prefix@, e.0@)),
    decreases e,
{
    let path: String = if prefix.is_empty() {
        owned(e.0.as_str())
    } else {
        let mut p: String = owned(prefix);
        push_text(&mut p, ".");
        push_text(&mut p, e.0.as_str());
        p
    };
    assert(path@ == path_of(prefix@, e.0@));
    push_paths(&e.1, path.as_str(), out);
}

/// Append the paths of the values that a tree sets below a path.
pub fn push_paths(v: &Json, path: &str, out: &mut Vec<String>)
    ensures
        texts(final(out)@) == texts(old(out)@) + value_paths(v@, path@),
    decreases v,
{
    match v {
        Json::Object(m) => {
            let ghost start = texts(out@);
            let ghost view = v@->Object_0;
            assert(v@ is Object);
            let n: usize = m.len();
            let mut i: usize = 0;
            assert(texts(out@) =~= start + member_paths(view, path@, 0));
            while i < n
                invariant
                    i <= n,
                    n == m@.len(),
                    v == Json::Object(*m),
                    view.len() == n,
                    forall|j: int|
                        0 <= j < n ==> view[j] == (MemberView { key: m@[j].0@, value: m@[j].1@ }),
                    texts(out@) == start + member_paths(view, path@, i as nat),
                decreases n - i,
            {
                assert(decreases_to!(v => v->Object_0));
                assert(decreases_to!(v->Object_0 => v->Object_0@));
                assert(decreases_to!(v->Object_0@ => v->Object_0@[i as int]));
                push_member_paths(&m[i], path, out);
                assert(texts(out@) =~= start + member_paths(view, path@, (i + 1) as nat));
                i = i + 1;
            }
        },
        Json::Null => {
            assert(texts(out@) =~= texts(old(out)@) + value_paths(v@, path@));
        },
        _ => {
            out.push(owned(path));
            assert(texts(out@) =~= texts(old(out)@) + value_paths(v@, path@));
        },
    }
}

/// Of the first `n` paths, those that are no settable key.
pub open spec fn unknown(paths: Seq<Seq<char>>, n: int) -> Seq<Seq<char>>
    decreases n,
{
    if n <= 0 {
        Seq::empty()
    } else if key_list().contains(paths[n - 1]) {
        unknown(paths, n - 1)
    } else {
        unknown(paths, n - 1).push(paths[n - 1])
    }
}

/// The nearest of the first `n` keys, the first of them among equals.
pub open spec fn nearest(k: Seq<char>, n: int) -> int
    decreases n,
{
    if n <= 1 {
        0
    } else {
        let b = nearest(k, n - 1);
        if text_distance(key_list()[n - 1], k) < text_distance(key_list()[b], k) { n - 1 } else { b }
    }
}

/// A hint for an unknown key: the nearest one, where it is near enough.
pub open spec fn hint(k: Seq<char>) -> Option<Seq<char>> {
    let n = key_list()[nearest(k, KEY_COUNT as int)];
    if text_distance(n, k) <= 3 + encode_utf8(k).len() as int / 4 { Some(n) } else { None }
}

/// What is said about the first `n` unknown keys.
pub open spec fn complaints(bad: Seq<Seq<char>>, n: int) -> Seq<char>
    decreases n,
{
    if n <= 0 {
        Seq::empty()
    } else {
        let k = bad[n - 1];
        complaints(bad, n - 1) + "\n  "@ + k + match hint(k) {
            Some(h) => "  (did you mean "@ + h + "?)"@,
            None => Seq::empty(),
        }
    }
}

fn is_known(known: &Vec<String>, k: &str) -> (r: bool)
    requires
        texts(known@) == key_list(),
    ensures
        r == key_list().contains(k@),
{
    let n: usize = known.len();
    let mut i: usize = 0;
    while i < n
        invariant
            i <= n,
            n == known@.len(),
            texts(known@) == key_list(),
            forall|j: int| 0 <= j < i ==> key_list()[j] != k@,
        decreases n - i,
    {
        assert(key_list()[i as int] == known@[i as int]@);
        if str_eq(known[i].as_str(), k) {
            assert(key_list()[i as int] == k@);
            return true;
        }
        i = i + 1;
    }
    false
}

/// The hint for an unknown key.
pub fn hint_for(k: &str) -> (r: Option<String>)
    ensures
        match hint(k@) {
            Some(h) => r matches Some(s) && s@ == h,
            None => r is None,
        },
{
    let keys: [&'static str; KEY_COUNT] = KEYS;
    let mut best: usize = 0;
    let mut near: usize = edit_distance(keys[0], k);
    assert(key_list()[0] == keys@[0]@);
    let mut i: usize = 1;
    while i < KEY_COUNT
        invariant
            1 <= i <= KEY_COUNT,
            keys@ == KEYS@,
            keys@.len() == KEY_COUNT,
            best < i,
            best == nearest(k@, i as int),
            near == text_distance(key_list()[best as int], k@),
        decreases KEY_COUNT - i,
    {
        let d: usize = edit_distance(keys[i], k);
        assert(key_list()[i as int] == keys@[i as int]@);
        if d < near {
            near = d;
            best = i;
        }
        i = i + 1;
    }
    let size: usize = k.as_bytes().len();
    assert(key_list()[best as int] == keys@[best as int]@);
    if near as u128 <= 3 + (size / 4) as u128 { Some(owned(keys[best])) } else { None }
}

/// Reject the keys that a file's tree sets and the schema does not have, each with the nearest
/// known key as a hint.
pub fn check_keys(name: &str, tree: &Json) -> (r: Result<(), String>)
    ensures
        ({
            let paths = value_paths(tree@, ""@);
            let bad = unknown(paths, paths.len() as int);
            if bad.len() == 0 {
                r is Ok
            } else {
                r matches Err(e) && e@ == name@ + ": unknown configuration key(s)"@ + complaints(
                    bad,
                    bad.len() as int,
                )
            }
        }),
{
    let mut got: Vec<String> = Vec::new();
    let ghost paths = value_paths(tree@, ""@);
    push_paths(tree, "", &mut got);
    assert(texts(got@) =~= paths);
    let known: Vec<String> = known_keys();
    let mut bad: Vec<String> = Vec::new();
    let n: usize = got.len();
    let mut i: usize = 0;
    assert(texts(bad@) =~= Seq::<Seq<char>>::empty());
    while i < n
        invariant
            i <= n,
            n == got@.len(),
            texts(got@) == paths,
            texts(known@) == key_list(),
            texts(bad@) == unknown(paths, i as int),
        decreases n - i,
    {
        assert(paths[i as int] == got@[i as int]@);
        if !is_known(&known, got[i].as_str()) {
            let ghost before = bad@;
            bad.push(owned(got[i].as_str()));
            assert(texts(bad@) =~= texts(before).push(got@[i as int]@));
        }
        i = i + 1;
    }
    assert(paths.len() == n);
    let m: usize = bad.len();
    assert(texts(bad@).len() == m);
    if m == 0 {
        return Ok(());
    }
    let ghost b = texts(bad@);
    let mut msg: String = owned(name);
    push_text(&mut msg, ": unknown configuration key(s)");
    let ghost head = msg@;
    let mut j: usize = 0;
    assert(msg@ =~= head + complaints(b, 0));
    while j < m
        invariant
            j <= m,
            m == bad@.len(),
            b == texts(bad@),
            msg@ == head + complaints(b, j as int),
        decreases m - j,
    {
        assert(b[j as int] == bad@[j as int]@);
        push_text(&mut msg, "\n  ");
        push_text(&mut msg, bad[j].as_str());
        match hint_for(bad[j].as_str()) {
            Some(h) => {
                push_text(&mut msg, "  (did you mean ");
                push_text(&mut msg, h.as_str());
                push_text(&mut msg, "?)");
            },
            None => {},
        }
        assert(msg@ =~= head + complaints(b, j + 1));
        j = j + 1;
    }
    Err(msg)
}

/// No settable key is nearer to an unknown one than the hint.
pub proof fn law_hint_is_nearest(k: Seq<char>, i: int, n: int)
    requires
        0 <= i < n <= KEY_COUNT,
    ensures
        0 <= nearest(k, n) < n,
        text_distance(key_list()[nearest(k, n)], k) <= text_distance(key_list()[i], k),
    decreases n,
{
    if n > 1 {
        if i < n - 1 {
            law_hint_is_nearest(k, i, n - 1);
        } else {
            law_hint_is_nearest(k, 0, n - 1);
        }
    }
}

/// The keys of a file are the paths of its values: a table's are those of its members under its own
/// name, in order, and an empty value has none.
pub proof fn law_keys_of_a_file(m: Seq<MemberView>, x: MemberView, path: Seq<char>, t: Seq<char>)
    ensures
        value_paths(JsonView::Object(m.push(x)), path) == value_paths(JsonView::Object(m), path) + value_paths(
            x.value,
            if path.len() == 0 {
                x.key
            } else {
                path + "."@ + x.key
            },
        ),
        value_paths(JsonView::Object(Seq::empty()), path) == Seq::<Seq<char>>::empty(),
        value_paths(JsonView::Null, path) == Seq::<Seq<char>>::empty(),
        value_paths(JsonView::Text(t), path) == seq![path],
        value_paths(JsonView::Number(t), path) == seq![path],
{
    lemma_paths_of_more(m, x, path, m.len());
    let more = m.push(x);
    assert(more[m.len() as int] == x);
    assert(member_paths(more, path, more.len()) == member_paths(more, path, m.len()) + value_paths(
        more[m.len() as int].value,
        path_of(path, more[m.len() as int].key),
    ));
}

proof fn lemma_paths_of_more(m: Seq<MemberView>, x: MemberView, path: Seq<char>, n: nat)
    requires
        n <= m.len(),
    ensures
        member_paths(m.push(x), path, n) == member_paths(m, path, n),
    decreases n,
{
    if n > 0 {
        lemma_paths_of_more(m, x, path, (n - 1) as nat);
        assert(m.push(x)[n - 1] == m[n - 1]);
    }
}

/// The keys that are refused are those not in the schema, all of them and in order; each is told with
/// its hint.
pub proof fn law_refused_keys(paths: Seq<Seq<char>>, n: int)
    requires
        0 <= n < paths.len(),
    ensures
        key_list().contains(paths[n]) ==> unknown(paths, n + 1) == unknown(paths, n),
        !key_list().contains(paths[n]) ==> unknown(paths, n + 1) == unknown(paths, n).push(paths[n]),
        unknown(paths, 0) == Seq::<Seq<char>>::empty(),
        complaints(paths, n + 1) == complaints(paths, n) + "\n  "@ + paths[n] + (match hint(paths[n]) {
            Some(h) => "  (did you mean "@ + h + "?)"@,
            None => Seq::empty(),
        }),
{
}

/// A hint is given exactly where some key of the schema is near enough: three edits and a quarter of
/// the length of what was written.
pub proof fn law_hint_is_near(k: Seq<char>, i: int)
    requires
        0 <= i < KEY_COUNT,
    ensures
        hint(k) matches Some(h) ==> text_distance(h, k) <= 3 + encode_utf8(k).len() as int / 4 && key_list().contains(
            h,
        ),
        hint(k) is None ==> text_distance(key_list()[i], k) > 3 + encode_utf8(k).len() as int / 4,
{
    lemma_nearest_of_all(k, KEY_COUNT as int, i);
    assert(key_list()[nearest(k, KEY_COUNT as int)] == key_list()[nearest(k, KEY_COUNT as int)]);
}

proof fn lemma_nearest_of_all(k: Seq<char>, n: int, i: int)
    requires
        1 <= n <= KEY_COUNT,
    ensures
        0 <= nearest(k, n) < n,
        0 <= i < n ==> text_distance(key_list()[nearest(k, n)], k) <= text_distance(key_list()[i], k),
    decreases n,
{
    if n > 1 {
        lemma_nearest_of_all(k, n - 1, i);
    }
}

} // verus!
