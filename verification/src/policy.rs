//! Per-role policies: what happens to chunks (and the snapshots at their ends) of each role.
use crate::role::Role;
use crate::text::{decimal, join, joined, owned, push_decimal, push_text, texts};
use vstd::prelude::*;

verus! {

/// The policy for one role. Defaults: persisted, priority 5, no expiry, snapshots taken.
#[derive(Clone, Copy, Debug, PartialEq, Eq, Structural)]
pub struct RolePolicy {
    /// Store chunks of this role at all. A chunk that is not stored breaks the chain, so nothing
    /// *after* it is restorable either; `persist: false` on `reasoning` means prefixes are
    /// resumable up to the first think block only.
    pub persist: bool,
    /// Eviction order, 0..=9: everything of a lower priority is evicted (least recently used
    /// first) before anything of a higher one.
    pub priority: u8,
    /// Idle expiry in seconds: an object unused for longer is dropped regardless of the budget.
    pub ttl: Option<u64>,
    /// Take a snapshot where a prompt span of this role ends (with the `message` policy).
    pub snapshot: bool,
}

pub const PRIORITY_MAX: u8 = 9;

/// The policy of a role that nothing was said about.
pub open spec fn default_policy() -> RolePolicy {
    RolePolicy { persist: true, priority: 5, ttl: None, snapshot: true }
}

impl Default for RolePolicy {
    fn default() -> (p: RolePolicy)
        ensures
            p == default_policy(),
    {
        RolePolicy { persist: true, priority: 5, ttl: None, snapshot: true }
    }
}

/// Policies for the five roles.
#[derive(Clone, Copy, Debug, PartialEq, Eq, Structural)]
pub struct Policies {
    pub system: RolePolicy,
    pub user: RolePolicy,
    pub reasoning: RolePolicy,
    pub tool: RolePolicy,
    pub assistant: RolePolicy,
}

impl Default for Policies {
    fn default() -> (p: Policies)
        ensures
            forall|r: Role| #[trigger] p.policy(r) == default_policy(),
    {
        Policies {
            system: RolePolicy::default(),
            user: RolePolicy::default(),
            reasoning: RolePolicy::default(),
            tool: RolePolicy::default(),
            assistant: RolePolicy::default(),
        }
    }
}

/// The roles in the order in which policies are listed.
pub open spec fn role_order() -> Seq<Role> {
    seq![Role::System, Role::User, Role::Reasoning, Role::Tool, Role::Assistant]
}

/// What sets a policy apart from the default, item by item.
pub open spec fn differences(p: RolePolicy) -> Seq<Seq<char>> {
    let a = if !p.persist { seq!["not persisted"@] } else { Seq::empty() };
    let b = if p.priority != 5 { seq!["priority "@ + decimal(p.priority as nat)] } else { Seq::empty() };
    let c = match p.ttl {
        Some(t) => seq!["ttl "@ + decimal(t as nat) + " s"@],
        None => Seq::empty(),
    };
    let d = if !p.snapshot { seq!["no snapshots"@] } else { Seq::empty() };
    a + b + c + d
}

impl Policies {
    /// The policy of a role.
    pub open spec fn policy(self, role: Role) -> RolePolicy {
        match role {
            Role::System => self.system,
            Role::User => self.user,
            Role::Reasoning => self.reasoning,
            Role::Tool => self.tool,
            Role::Assistant => self.assistant,
        }
    }

    /// The policy of an object: its role's, or the default for objects without one.
    pub open spec fn applied(self, role: Option<Role>) -> RolePolicy {
        match role {
            Some(r) => self.policy(r),
            None => default_policy(),
        }
    }

    /// One text per role, among the first `n`, whose policy is not the default.
    pub open spec fn descriptions(self, n: int) -> Seq<Seq<char>>
        decreases n,
    {
        if n <= 0 {
            Seq::empty()
        } else {
            let r = role_order()[n - 1];
            let rest = self.descriptions(n - 1);
            if self.policy(r) == default_policy() {
                rest
            } else {
                rest.push(r.text() + ": "@ + joined(differences(self.policy(r)), ", "@))
            }
        }
    }

    /// What sets the policies apart from the default.
    pub open spec fn description(self) -> Seq<char> {
        if self.descriptions(5).len() == 0 {
            "default for every role"@
        } else {
            joined(self.descriptions(5), "; "@)
        }
    }

    pub fn get(&self, role: Role) -> (p: &RolePolicy)
        ensures
            *p == self.policy(role),
    {
        match role {
            Role::System => &self.system,
            Role::User => &self.user,
            Role::Reasoning => &self.reasoning,
            Role::Tool => &self.tool,
            Role::Assistant => &self.assistant,
        }
    }

    pub fn get_mut(&mut self, role: Role) -> (p: &mut RolePolicy)
        ensures
            *p == old(self).policy(role),
            final(self).policy(role) == *final(p),
            forall|r: Role| r != role ==> #[trigger] final(self).policy(r) == old(self).policy(r),
    {
        match role {
            Role::System => &mut self.system,
            Role::User => &mut self.user,
            Role::Reasoning => &mut self.reasoning,
            Role::Tool => &mut self.tool,
            Role::Assistant => &mut self.assistant,
        }
    }

    /// The policy of an object: its role's, or the default for objects without one.
    pub fn of(&self, role: Option<Role>) -> (p: RolePolicy)
        ensures
            p == self.applied(role),
    {
        match role {
            Some(r) => *self.get(r),
            None => RolePolicy::default(),
        }
    }

    /// Whether objects of some role expire.
    pub fn any_ttl(&self) -> (r: bool)
        ensures
            r == exists|role: Role| (#[trigger] self.policy(role)).ttl is Some,
    {
        let r: bool = self.system.ttl.is_some() || self.user.ttl.is_some()
            || self.reasoning.ttl.is_some() || self.tool.ttl.is_some()
            || self.assistant.ttl.is_some();
        proof {
            assert(self.policy(Role::System) == self.system);
            assert(self.policy(Role::User) == self.user);
            assert(self.policy(Role::Reasoning) == self.reasoning);
            assert(self.policy(Role::Tool) == self.tool);
            assert(self.policy(Role::Assistant) == self.assistant);
        }
        r
    }

    /// The roles whose policy differs from the default, for log lines.
    pub fn describe(&self) -> (s: String)
        ensures
            s@ == self.description(),
    {
        let roles = Role::ALL;
        let mut parts: Vec<String> = Vec::new();
        let mut i: usize = 0;
        while i < 5
            invariant
                i <= 5,
                roles@ == role_order(),
                texts(parts@) == self.descriptions(i as int),
            decreases 5 - i,
        {
            let r = roles[i];
            let p = *self.get(r);
            if p != RolePolicy::default() {
                let f = describe_policy(&p);
                let mut line = owned(r.name());
                push_text(&mut line, ": ");
                let body = join(&f, ", ");
                push_text(&mut line, body.as_str());
                parts.push(line);
            }
            assert(texts(parts@) =~= self.descriptions(i + 1));
            i = i + 1;
        }
        assert(texts(parts@).len() == parts@.len());
        if parts.len() == 0 {
            owned("default for every role")
        } else {
            join(&parts, "; ")
        }
    }
}

/// What sets a policy apart from the default, item by item.
fn describe_policy(p: &RolePolicy) -> (f: Vec<String>)
    ensures
        texts(f@) == differences(*p),
{
    let mut f: Vec<String> = Vec::new();
    if !p.persist {
        f.push(owned("not persisted"));
    }
    if p.priority != 5 {
        let mut s = owned("priority ");
        push_decimal(&mut s, p.priority as u64);
        f.push(s);
    }
    if let Some(t) = p.ttl {
        let mut s = owned("ttl ");
        push_decimal(&mut s, t);
        push_text(&mut s, " s");
        f.push(s);
    }
    if !p.snapshot {
        f.push(owned("no snapshots"));
    }
    assert(texts(f@) =~= differences(*p));
    f
}

/// Unless it is set otherwise an object is kept, in the middle of the priorities, without a time to
/// live, and snapshots are taken.
pub proof fn law_default_policy()
    ensures
        default_policy().persist && default_policy().priority == 5 && default_policy().ttl is None
            && default_policy().snapshot,
{
}

/// Every role has its own policy, and objects without a role have the default.
pub proof fn law_policy_of_a_role(p: Policies)
    ensures
        p.applied(Some(Role::System)) == p.system,
        p.applied(Some(Role::User)) == p.user,
        p.applied(Some(Role::Reasoning)) == p.reasoning,
        p.applied(Some(Role::Tool)) == p.tool,
        p.applied(Some(Role::Assistant)) == p.assistant,
        p.applied(None) == default_policy(),
{
}

/// A policy is described by what sets it apart from the default, and by nothing else.
pub proof fn law_described_differences(p: RolePolicy)
    ensures
        p == default_policy() ==> differences(p).len() == 0,
        differences(p).contains("not persisted"@) <==> !p.persist,
        differences(p).contains("no snapshots"@) <==> !p.snapshot,
        p.priority != 5 ==> differences(p).contains("priority "@ + decimal(p.priority as nat)),
        p.ttl matches Some(t) ==> differences(p).contains("ttl "@ + decimal(t as nat) + " s"@),
        differences(p).len() == (if p.persist { 0int } else { 1 }) + (if p.priority == 5 { 0int } else { 1 }) + (
        if p.ttl is None { 0int } else { 1 }) + (if p.snapshot { 0int } else { 1 }),
{
    reveal_strlit("not persisted");
    reveal_strlit("no snapshots");
    reveal_strlit("priority ");
    reveal_strlit("ttl ");
    let a = if !p.persist { seq!["not persisted"@] } else { Seq::empty() };
    let b = if p.priority != 5 { seq!["priority "@ + decimal(p.priority as nat)] } else { Seq::empty() };
    let c = match p.ttl {
        Some(t) => seq!["ttl "@ + decimal(t as nat) + " s"@],
        None => Seq::empty(),
    };
    let d = if !p.snapshot { seq!["no snapshots"@] } else { Seq::empty() };
    let all = differences(p);
    assert(all =~= a + b + c + d);
    let x = "priority "@ + decimal(p.priority as nat);
    assert(x[0] == 'p' && "not persisted"@[0] == 'n' && "no snapshots"@[0] == 'n');
    assert("not persisted"@.len() == 13 && "no snapshots"@.len() == 12);
    if let Some(t) = p.ttl {
        let y = "ttl "@ + decimal(t as nat) + " s"@;
        assert(y[0] == 't');
        assert(all[a.len() as int + b.len()] == y);
    }
    if !p.persist {
        assert(all[0] == "not persisted"@);
    }
    if !p.snapshot {
        assert(all[all.len() - 1] == "no snapshots"@);
    }
    if p.priority != 5 {
        assert(all[a.len() as int] == x);
    }
}

} // verus!
