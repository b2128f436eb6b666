//! The `--cache-role` flag: `ROLE=KEY:VALUE[,KEY:VALUE]`.
use crate::chat::{debug_quoted, debug_text};
use crate::http::{after_char, before_char, law_split_at_the_first, lemma_place_of, split_char};
use crate::http::{strip_plus, without_plus};
use crate::json::{entry, number, number_view, Json, JsonView, MemberView};
use crate::policy::PRIORITY_MAX;
use crate::role::Role;
use crate::text::{chars_eq, concat, decimal, from_chars, owned, parse_u64, push_decimal, push_text};
use crate::text::{law_trim_takes_white_space_off_the_ends, read_u64, to_chars, trim, trimmed};
use vstd::prelude::*;

verus! {

/// The value of one setting of a role.
#[derive(Clone, Copy, Debug, PartialEq, Eq, Structural)]
pub enum Setting {
    Switch(bool),
    Count(u64),
}

impl Setting {
    pub open spec fn value(self) -> JsonView {
        match self {
            Setting::Switch(b) => JsonView::Bool(b),
            Setting::Count(n) => number_view(n as nat),
        }
    }

    pub fn to_json(self) -> (j: Json)
        ensures
            j@ == self.value(),
    {
        match self {
            Setting::Switch(b) => Json::Bool(b),
            Setting::Count(n) => number(n),
        }
    }
}

/// One `--cache-role` value, parsed and typed.
#[derive(Debug)]
pub struct CacheRoleArg {
    pub role: String,
    pub pairs: Vec<(String, Setting)>,
}

/// The settings as members.
pub open spec fn pairs_view(p: Seq<(String, Setting)>) -> Seq<MemberView> {
    Seq::new(p.len(), |i: int| entry(p[i].0@, p[i].1.value()))
}

/// The role and the settings of one `--cache-role` value.
#[verifier::ext_equal]
pub struct RoleArgView {
    pub role: Seq<char>,
    pub pairs: Seq<MemberView>,
}

impl View for CacheRoleArg {
    type V = RoleArgView;

    open spec fn view(&self) -> RoleArgView {
        RoleArgView { role: self.role@, pairs: pairs_view(self.pairs@) }
    }
}

/// The value of a setting, typed by its key, or why it is refused.
pub open spec fn setting(k: Seq<char>, v: Seq<char>) -> Result<JsonView, Seq<char>> {
    if k == "persist"@ || k == "snapshot"@ {
        if v == "true"@ {
            Ok(JsonView::Bool(true))
        } else if v == "false"@ {
            Ok(JsonView::Bool(false))
        } else {
            Err(k + " must be true or false"@)
        }
    } else if k == "priority"@ {
        match parse_u64(without_plus(v)) {
            Some(n) => if n <= PRIORITY_MAX {
                Ok(number_view(n as nat))
            } else {
                Err("priority must be 0..="@ + decimal(PRIORITY_MAX as nat))
            },
            None => Err("priority must be 0..="@ + decimal(PRIORITY_MAX as nat)),
        }
    } else if k == "ttl"@ {
        match parse_u64(without_plus(v)) {
            Some(n) => Ok(number_view(n as nat)),
            None => Err("ttl must be a number of seconds"@),
        }
    } else {
        Err("unknown key "@ + debug_quoted(k) + ": persist, priority, ttl or snapshot"@)
    }
}

/// The settings of a list between commas, behind those that were read before; empty parts are
/// passed over.
pub open spec fn settings(s: Seq<char>, before: Seq<MemberView>) -> Result<Seq<MemberView>, Seq<char>>
    decreases s.len(),
{
    let part = before_char(s, ',');
    let here = if trim(part).len() == 0 {
        Ok(before)
    } else {
        match after_char(part, ':') {
            None => Err(debug_quoted(part) + ": expected KEY:VALUE"@),
            Some(v) => match setting(trim(before_char(part, ':')), trim(v)) {
                Ok(x) => Ok(before.push(entry(trim(before_char(part, ':')), x))),
                Err(e) => Err(e),
            },
        }
    };
    match here {
        Err(e) => Err(e),
        Ok(m) => match after_char(s, ',') {
            None => Ok(m),
            Some(rest) => if rest.len() < s.len() { settings(rest, m) } else { Ok(m) },
        },
    }
}

/// What a `--cache-role` value says, or why it is refused.
pub open spec fn role_arg(s: Seq<char>) -> Result<RoleArgView, Seq<char>> {
    match after_char(s, '=') {
        None => Err("expected ROLE=KEY:VALUE[,KEY:VALUE]"@),
        Some(rest) => {
            let role = trim(before_char(s, '='));
            if forall|r: Role| role != #[trigger] r.text() {
                Err("unknown role "@ + debug_quoted(role) + ": system, user, reasoning, tool or assistant"@)
            } else {
                match settings(rest, Seq::empty()) {
                    Err(e) => Err(e),
                    Ok(m) => if m.len() == 0 {
                        Err("no KEY:VALUE given"@)
                    } else {
                        Ok(RoleArgView { role, pairs: m })
                    },
                }
            }
        },
    }
}

fn is(s: &[char], t: &str) -> (r: bool)
    ensures
        r == (s@ == t@),
{
    chars_eq(s, to_chars(t).as_slice())
}

fn read_setting(k: &[char], v: &[char]) -> (r: Result<Setting, String>)
    ensures
        match setting(k@, v@) {
            Ok(j) => r matches Ok(x) && x.value() == j,
            Err(e) => r matches Err(x) && x@ == e,
        },
{
    if is(k, "persist") || is(k, "snapshot") {
        if is(v, "true") {
            Ok(Setting::Switch(true))
        } else if is(v, "false") {
            Ok(Setting::Switch(false))
        } else {
            Err(concat(from_chars(k).as_str(), " must be true or false"))
        }
    } else if is(k, "priority") {
        let n: Option<u64> = read_u64(strip_plus(v).as_slice());
        match n {
            Some(n) if n <= PRIORITY_MAX as u64 => Ok(Setting::Count(n)),
            _ => {
                let mut e: String = owned("priority must be 0..=");
                push_decimal(&mut e, PRIORITY_MAX as u64);
                Err(e)
            },
        }
    } else if is(k, "ttl") {
        match read_u64(strip_plus(v).as_slice()) {
            Some(n) => Ok(Setting::Count(n)),
            None => Err(owned("ttl must be a number of seconds")),
        }
    } else {
        let mut e: String = owned("unknown key ");
        push_text(&mut e, debug_text(from_chars(k).as_str()).as_str());
        push_text(&mut e, ": persist, priority, ttl or snapshot");
        Err(e)
    }
}

/// Parse one `--cache-role` value.
pub fn parse_cache_role(s: &str) -> (r: Result<CacheRoleArg, String>)
    ensures
        match role_arg(s@) {
            Ok(a) => r matches Ok(x) && x@ == a,
            Err(e) => r matches Err(x) && x@ == e,
        },
{
    let c: Vec<char> = to_chars(s);
    let (head, tail) = split_char(c.as_slice(), '=');
    let mut rest: Vec<char> = match tail {
        None => {
            return Err(owned("expected ROLE=KEY:VALUE[,KEY:VALUE]"));
        },
        Some(t) => t,
    };
    let role: String = from_chars(trimmed(head.as_slice()).as_slice());
    match Role::parse(role.as_str()) {
        None => {
            let mut e: String = owned("unknown role ");
            push_text(&mut e, debug_text(role.as_str()).as_str());
            push_text(&mut e, ": system, user, reasoning, tool or assistant");
            return Err(e);
        },
        Some(r) => {
            assert(role@ == r.text());
        },
    }
    let ghost whole = settings(rest@, Seq::empty());
    let mut pairs: Vec<(String, Setting)> = Vec::new();
    assert(pairs_view(pairs@) =~= Seq::<MemberView>::empty());
    loop
        invariant
            whole == settings(rest@, pairs_view(pairs@)),
            exists|r: Role| role@ == #[trigger] r.text(),
            role@ == trim(before_char(s@, '=')),
            after_char(s@, '=') matches Some(t) && whole == settings(t, Seq::empty()),
        decreases rest@.len(),
    {
        proof {
            lemma_place_of(rest@, ',', 0);
        }
        let (part, more) = split_char(rest.as_slice(), ',');
        if trimmed(part.as_slice()).len() > 0 {
            let (k, v) = split_char(part.as_slice(), ':');
            match v {
                None => {
                    let mut e: String = debug_text(from_chars(part.as_slice()).as_str());
                    push_text(&mut e, ": expected KEY:VALUE");
                    return Err(e);
                },
                Some(v) => {
                    let k: Vec<char> = trimmed(k.as_slice());
                    match read_setting(k.as_slice(), trimmed(v.as_slice()).as_slice()) {
                        Ok(x) => {
                            let ghost before = pairs_view(pairs@);
                            pairs.push((from_chars(k.as_slice()), x));
                            assert(pairs_view(pairs@) =~= before.push(entry(k@, x.value())));
                        },
                        Err(e) => {
                            return Err(e);
                        },
                    }
                },
            }
        }
        match more {
            None => {
                assert(pairs_view(pairs@).len() == pairs@.len());
                if pairs.len() == 0 {
                    return Err(owned("no KEY:VALUE given"));
                }
                return Ok(CacheRoleArg { role, pairs });
            },
            Some(m) => {
                rest = m;
            },
        }
    }
}

/// Whether a text names a setting of a role.
pub open spec fn is_setting(k: Seq<char>) -> bool {
    k == "persist"@ || k == "priority"@ || k == "ttl"@ || k == "snapshot"@
}

proof fn lemma_settings(s: Seq<char>, before: Seq<MemberView>)
    requires
        forall|i: int| 0 <= i < before.len() ==> is_setting((#[trigger] before[i]).key),
    ensures
        settings(s, before) matches Ok(m) ==> forall|i: int|
            0 <= i < m.len() ==> is_setting((#[trigger] m[i]).key),
    decreases s.len(),
{
    let part = before_char(s, ',');
    let here = if trim(part).len() == 0 {
        Some(before)
    } else {
        match after_char(part, ':') {
            None => None,
            Some(v) => match setting(trim(before_char(part, ':')), trim(v)) {
                Ok(x) => Some(before.push(entry(trim(before_char(part, ':')), x))),
                Err(_) => None,
            },
        }
    };
    match (here, after_char(s, ',')) {
        (Some(m), Some(rest)) => {
            if rest.len() < s.len() {
                lemma_settings(rest, m);
            }
        },
        _ => {},
    }
}

/// What a `--cache-role` value is accepted for is a role and at least one setting of it.
pub proof fn law_role_arg_names_settings(s: Seq<char>)
    ensures
        role_arg(s) matches Ok(a) ==> a.pairs.len() > 0 && (exists|r: Role| a.role == #[trigger] r.text())
            && forall|i: int| 0 <= i < a.pairs.len() ==> is_setting((#[trigger] a.pairs[i]).key),
{
    if let Some(rest) = after_char(s, '=') {
        lemma_settings(rest, Seq::empty());
    }
}

/// A setting has the kind of value that its key takes: a switch, a priority up to nine, or a number of
/// seconds.
pub proof fn law_values_of_settings(v: Seq<char>)
    ensures
        setting("persist"@, "true"@) == Ok::<JsonView, Seq<char>>(JsonView::Bool(true)),
        setting("persist"@, "false"@) == Ok::<JsonView, Seq<char>>(JsonView::Bool(false)),
        setting("snapshot"@, "true"@) == Ok::<JsonView, Seq<char>>(JsonView::Bool(true)),
        setting("snapshot"@, "false"@) == Ok::<JsonView, Seq<char>>(JsonView::Bool(false)),
        v != "true"@ && v != "false"@ ==> setting("persist"@, v) is Err && setting("snapshot"@, v) is Err,
        parse_u64(without_plus(v)) matches Some(n) ==> {
            &&& n <= 9 ==> setting("priority"@, v) == Ok::<JsonView, Seq<char>>(number_view(n as nat))
            &&& n > 9 ==> setting("priority"@, v) is Err
            &&& setting("ttl"@, v) == Ok::<JsonView, Seq<char>>(number_view(n as nat))
        },
        parse_u64(without_plus(v)) is None ==> setting("priority"@, v) is Err && setting("ttl"@, v) is Err,
{
    lemma_setting_keys();
}

proof fn lemma_setting_keys()
    ensures
        "persist"@[0] == 'p' && "persist"@[1] == 'e' && "snapshot"@[0] == 's' && "priority"@[0] == 'p'
            && "priority"@[1] == 'r' && "ttl"@[0] == 't' && "true"@[0] == 't' && "false"@[0] == 'f',
        "persist"@.len() == 7 && "snapshot"@.len() == 8 && "priority"@.len() == 8 && "ttl"@.len() == 3,
{
    reveal_strlit("persist");
    reveal_strlit("snapshot");
    reveal_strlit("priority");
    reveal_strlit("ttl");
    reveal_strlit("true");
    reveal_strlit("false");
}

/// Settings are read in order, those before a comma first, each a key and a value with a colon between
/// them, white space around either aside.
pub proof fn law_settings_are_read_in_order(
    k: Seq<char>,
    v: Seq<char>,
    rest: Seq<char>,
    before: Seq<MemberView>,
    x: JsonView,
)
    requires
        forall|i: int| 0 <= i < k.len() ==> k[i] != ':' && k[i] != ',',
        forall|i: int| 0 <= i < v.len() ==> v[i] != ',',
        setting(trim(k), trim(v)) == Ok::<JsonView, Seq<char>>(x),
        trim(k + seq![':'] + v).len() > 0,
    ensures
        settings(k + seq![':'] + v, before) == Ok::<Seq<MemberView>, Seq<char>>(
            before.push(entry(trim(k), x)),
        ),
        settings(k + seq![':'] + v + seq![','] + rest, before) == settings(rest, before.push(entry(trim(k), x))),
{
    let part = k + seq![':'] + v;
    assert forall|i: int| 0 <= i < part.len() implies part[i] != ',' by {
        if i > k.len() {
            assert(part[i] == v[i - k.len() - 1]);
        }
    }
    law_split_at_the_first(part, ',', rest);
    law_split_at_the_first(k, ':', v);
}

/// An argument names a role and its settings, with an equals sign between them.
pub proof fn law_role_argument_is_read(role: Role, rest: Seq<char>, m: Seq<MemberView>)
    requires
        settings(rest, Seq::empty()) == Ok::<Seq<MemberView>, Seq<char>>(m),
    ensures
        m.len() > 0 ==> role_arg(role.text() + seq!['='] + rest) == Ok::<RoleArgView, Seq<char>>(
            RoleArgView { role: role.text(), pairs: m },
        ),
        m.len() == 0 ==> role_arg(role.text() + seq!['='] + rest) is Err,
{
    reveal_strlit("system");
    reveal_strlit("user");
    reveal_strlit("reasoning");
    reveal_strlit("tool");
    reveal_strlit("assistant");
    let t = role.text();
    assert(forall|i: int| 0 <= i < t.len() ==> t[i] != '=' && 97 <= #[trigger] t[i] as int <= 122);
    law_split_at_the_first(t, '=', rest);
    let e = law_trim_takes_white_space_off_the_ends(t);
    assert(e.0 == 0 && e.1 == t.len()) by {
        assert(!crate::text::white(t[0]));
        assert(!crate::text::white(t[t.len() - 1]));
    }
    assert(t.subrange(0, t.len() as int) =~= t);
}

} // verus!
