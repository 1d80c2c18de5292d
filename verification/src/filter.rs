//! The capability interface shared by the two rule domains, its two
//! implementations, and the policy combination built on it.
//!
//! `FilterIp` answers containment of a textual candidate address in a
//! compiled IPv4 rule set; `FilterUser` answers membership of a login name
//! in a validated identity rule set. Callers depend only on the `Filter`
//! interface.

use crate::addr::{is_digit_char, parse_ipv4, spec_parse_ipv4};
use crate::bitmap::{bitmap_contains, bitmap_is_empty};
use crate::error::{RuleError, SpecRuleError};
use crate::network::{create_list_ipv4, model_contains, model_is_empty, views_of, Ipv4List};
use crate::network::{spec_build, Ipv4Model};
use vstd::prelude::*;

verus! {

/// The capability interface: a containment query and an emptiness query,
/// implemented independently by unrelated rule domains.
pub trait Filter {
    type Value;

    /// What the containment query answers.
    spec fn spec_contains(&self, value: Self::Value) -> bool;

    /// What the emptiness query answers.
    spec fn spec_is_empty(&self) -> bool;

    fn contains(&self, value: &Self::Value) -> (r: bool)
        ensures
            r == self.spec_contains(*value),
    ;

    fn is_empty(&self) -> (r: bool)
        ensures
            r == self.spec_is_empty(),
    ;
}

/// The address rule domain: a compiled IPv4 rule set.
#[derive(Debug)]
pub struct FilterIp {
    pub list_ipv4: Ipv4List,
}

/// The identity rule domain: validated login names, deduplicated.
#[derive(Debug, Default)]
pub struct FilterUser {
    pub users: Vec<String>,
}

/// Placeholder for a host-name rule domain; no rules are defined for it.
#[derive(Debug, Default)]
pub struct FilterHost {}

impl Filter for FilterIp {
    type Value = String;

    /// A candidate that is not a strict dotted-quad matches nothing;
    /// otherwise its 32-bit value is looked up in the compiled model.
    open spec fn spec_contains(&self, value: String) -> bool {
        match spec_parse_ipv4(value@) {
            Some(x) => model_contains(self.list_ipv4.model(), x),
            None => false,
        }
    }

    open spec fn spec_is_empty(&self) -> bool {
        model_is_empty(self.list_ipv4.model())
    }

    fn contains(&self, rhost: &String) -> (r: bool) {
        let ip = match parse_ipv4(rhost.as_str()) {
            Some(x) => x,
            None => {
                return false;
            },
        };
        if bitmap_contains(&self.list_ipv4.ips, ip) {
            return true;
        }
        let ghost m = self.list_ipv4.model();
        let ns = self.list_ipv4.subnets.len();
        for i in 0..ns
            invariant
                ns == self.list_ipv4.subnets.len(),
                m == self.list_ipv4.model(),
                spec_parse_ipv4(rhost@) == Some(ip),
                !m.ips.contains(ip),
                forall|j: int|
                    0 <= j < i ==> !crate::network::subnet_matches(#[trigger] m.subnets[j], ip),
        {
            if self.list_ipv4.subnets[i].matches(ip) {
                assert(crate::network::subnet_matches(m.subnets[i as int], ip));
                assert(model_contains(m, ip));
                return true;
            }
        }
        let nr = self.list_ipv4.ranges.len();
        for i in 0..nr
            invariant
                nr == self.list_ipv4.ranges.len(),
                m == self.list_ipv4.model(),
                spec_parse_ipv4(rhost@) == Some(ip),
                !m.ips.contains(ip),
                forall|j: int|
                    0 <= j < i ==> !((#[trigger] m.ranges[j]).0 <= ip && ip <= m.ranges[j].1),
                forall|j: int|
                    0 <= j < m.subnets.len() ==> !crate::network::subnet_matches(
                        #[trigger] m.subnets[j],
                        ip,
                    ),
        {
            let (lower, upper) = self.list_ipv4.ranges[i];
            if lower <= ip && ip <= upper {
                assert(m.ranges[i as int].0 <= ip && ip <= m.ranges[i as int].1);
                assert(model_contains(m, ip));
                return true;
            }
        }
        false
    }

    fn is_empty(&self) -> (r: bool) {
        bitmap_is_empty(&self.list_ipv4.ips) && self.list_ipv4.subnets.len() == 0
            && self.list_ipv4.ranges.len() == 0
    }
}

impl FilterUser {
    /// The set of login names the filter holds.
    pub open spec fn uset(&self) -> Set<Seq<char>> {
        views_of(self.users@).to_set()
    }

    /// The stored names are distinct.
    pub open spec fn no_duplicates(&self) -> bool {
        forall|i: int, j: int|
            0 <= i < j < self.users@.len() ==> (#[trigger] self.users@[i])@ != (
            #[trigger] self.users@[j])@
    }
}

impl Filter for FilterUser {
    type Value = String;

    open spec fn spec_contains(&self, value: String) -> bool {
        self.uset().contains(value@)
    }

    open spec fn spec_is_empty(&self) -> bool {
        self.uset() == Set::<Seq<char>>::empty()
    }

    fn contains(&self, user: &String) -> (r: bool) {
        let ghost mapped = views_of(self.users@);
        let n = self.users.len();
        for i in 0..n
            invariant
                n == self.users@.len(),
                mapped == views_of(self.users@),
                forall|j: int| 0 <= j < i ==> (#[trigger] self.users@[j])@ != user@,
        {
            if self.users[i].eq(user) {
                assert(mapped[i as int] == user@);
                assert(self.uset().contains(user@));
                return true;
            }
        }
        proof {
            if self.uset().contains(user@) {
                let k = choose|k: int| 0 <= k < mapped.len() && mapped[k] == user@;
                assert((self.users@[k])@ == user@);
            }
        }
        false
    }

    fn is_empty(&self) -> (r: bool) {
        let r = self.users.len() == 0;
        proof {
            let mapped = views_of(self.users@);
            if r {
                assert(self.uset() =~= Set::<Seq<char>>::empty());
            } else {
                assert(self.uset().contains(mapped[0]));
            }
        }
        r
    }
}

/// Start of a login name: a lowercase letter or an underscore.
pub open spec fn is_identity_start(c: char) -> bool {
    (97 <= c as u32 <= 122) || c as u32 == 95
}

/// Later characters of a login name: lowercase letters, digits,
/// underscore, or hyphen.
pub open spec fn is_identity_inner(c: char) -> bool {
    is_identity_start(c) || is_digit_char(c) || c as u32 == 45
}

/// The login-name grammar: one to 32 characters, starting with a
/// lowercase letter or underscore, continuing with lowercase letters,
/// digits, underscore or hyphen; the final character may instead be a
/// dollar sign, which takes up one of the 32 slots.
pub open spec fn is_identity(s: Seq<char>) -> bool {
    1 <= s.len() <= 32 && is_identity_start(s[0]) && ((forall|i: int|
        1 <= i < s.len() ==> is_identity_inner(#[trigger] s[i])) || (s.last() == '$' && forall|
        i: int,
    |
        1 <= i < s.len() - 1 ==> is_identity_inner(#[trigger] s[i])))
}

/// Checks the login-name grammar.
pub fn check_identity(s: &str) -> (b: bool)
    ensures
        b == is_identity(s@),
{
    let n = s.unicode_len();
    if n < 1 || n > 32 {
        return false;
    }
    let c0 = s.get_char(0) as u32;
    if !((97 <= c0 && c0 <= 122) || c0 == 95) {
        return false;
    }
    for i in 1..n
        invariant
            n == s@.len(),
            1 <= n <= 32,
            is_identity_start(s@[0]),
            forall|j: int| 1 <= j < i ==> is_identity_inner(#[trigger] s@[j]),
    {
        let cv = s.get_char(i) as u32;
        let inner = (97 <= cv && cv <= 122) || (48 <= cv && cv <= 57) || cv == 95 || cv == 45;
        if !inner {
            if i == n - 1 && cv == 36 {
                assert(s@.last() == '$') by {
                    assert(s@[i as int] as u32 == 36);
                    assert('$' as u32 == 36);
                }
                return true;
            }
            assert(!is_identity_inner(s@[i as int]));
            assert(s@[i as int] != '$' ==> !is_identity(s@));
            assert(s@[i as int] == '$' && i < n - 1 ==> !is_identity(s@));
            assert(s@[i as int] == '$' && i == n - 1 ==> cv == 36);
            return false;
        }
    }
    true
}

/// Validates an ordered list of login names against the login-name
/// grammar, deduplicating valid ones, and stopping at the first invalid
/// one with a syntax error naming it.
pub open spec fn spec_build_users(users: Seq<Seq<char>>) -> Result<Set<Seq<char>>, SpecRuleError>
    decreases users.len(),
{
    if users.len() == 0 {
        Ok(Set::empty())
    } else {
        match spec_build_users(users.drop_last()) {
            Ok(st) => {
                if is_identity(users.last()) {
                    Ok(st.insert(users.last()))
                } else {
                    Err(SpecRuleError::Syntax(users.last()))
                }
            },
            Err(e) => Err(e),
        }
    }
}

/// Once identity validation has failed on a prefix, the remaining names do
/// not change the outcome.
proof fn lemma_build_users_err_stable(users: Seq<Seq<char>>, i: int)
    requires
        0 <= i <= users.len(),
        spec_build_users(users.take(i)) is Err,
    ensures
        spec_build_users(users) == spec_build_users(users.take(i)),
    decreases users.len() - i,
{
    if i < users.len() {
        assert(users.take(i + 1).drop_last() =~= users.take(i));
        lemma_build_users_err_stable(users, i + 1);
    } else {
        assert(users.take(i) =~= users);
    }
}

/// Compiles an address rule list into the address filter capability.
pub fn filter_from_ips(ips: Vec<String>) -> (r: Result<FilterIp, RuleError>)
    ensures
        match r {
            Ok(f) => f.list_ipv4.wf() && spec_build(views_of(ips@)) == Ok::<
                Ipv4Model,
                SpecRuleError,
            >(f.list_ipv4.model()),
            Err(e) => spec_build(views_of(ips@)) == Err::<Ipv4Model, SpecRuleError>(e@),
        },
{
    let list_ipv4 = create_list_ipv4(ips)?;
    Ok(FilterIp { list_ipv4 })
}

/// Validates an identity rule list into the identity filter capability.
pub fn filter_from_users(users: Vec<String>) -> (r: Result<FilterUser, RuleError>)
    ensures
        match r {
            Ok(f) => f.no_duplicates() && spec_build_users(views_of(users@)) == Ok::<
                Set<Seq<char>>,
                SpecRuleError,
            >(f.uset()),
            Err(e) => spec_build_users(views_of(users@)) == Err::<Set<Seq<char>>, SpecRuleError>(
                e@,
            ),
        },
{
    let ghost all = views_of(users@);
    let mut filter = FilterUser { users: Vec::new() };
    proof {
        assert(all.take(0) =~= Seq::<Seq<char>>::empty());
        assert(filter.uset() =~= Set::<Seq<char>>::empty());
    }
    let n = users.len();
    for idx in 0..n
        invariant
            n == users.len(),
            all == views_of(users@),
            filter.no_duplicates(),
            spec_build_users(all.take(idx as int)) == Ok::<Set<Seq<char>>, SpecRuleError>(
                filter.uset(),
            ),
    {
        let user = &users[idx];
        let ghost pre = filter.uset();
        proof {
            assert(all.take(idx + 1).drop_last() =~= all.take(idx as int));
            assert(all.take(idx + 1).last() == user@);
        }
        if check_identity(user.as_str()) {
            if !filter.contains(user) {
                let ghost old_users = filter.users@;
                proof {
                    assert forall|j: int| 0 <= j < old_users.len() implies (
                    #[trigger] old_users[j])@ != user@ by {
                        if old_users[j]@ == user@ {
                            assert(views_of(old_users)[j] == user@);
                            assert(views_of(old_users).contains(user@));
                            assert(pre.contains(user@));
                        }
                    }
                }
                filter.users.push(user.clone());
                proof {
                    let nv = views_of(filter.users@);
                    assert(nv =~= views_of(old_users) + seq![user@]);
                    Seq::lemma_to_set_insert_commutes(views_of(old_users), user@);
                    assert(filter.uset() =~= pre.insert(user@));
                }
            } else {
                proof {
                    assert(filter.uset() =~= pre.insert(user@));
                }
            }
        } else {
            proof {
                lemma_build_users_err_stable(all, idx + 1);
            }
            return Err(RuleError::SyntaxError(user.clone()));
        }
    }
    proof {
        assert(all.take(n as int) =~= all);
    }
    Ok(filter)
}

/// Emptiness law at the capability level: an address filter compiled from
/// a rule list reports empty exactly when that list held no rules.
pub proof fn lemma_filter_emptiness(rules: Seq<Seq<char>>, f: FilterIp)
    requires
        spec_build(rules) == Ok::<Ipv4Model, SpecRuleError>(f.list_ipv4.model()),
    ensures
        f.spec_is_empty() <==> rules.len() == 0,
{
    crate::network::lemma_emptiness(rules);
}

/// One capability check as the authentication flow applies it: an empty
/// filter is "no restriction configured" and passes every candidate;
/// otherwise the candidate must be contained.
pub fn check_allowed<F: Filter>(f: &F, value: &F::Value) -> (r: bool)
    ensures
        r == (f.spec_is_empty() || f.spec_contains(*value)),
{
    f.is_empty() || f.contains(value)
}

/// The combined policy decision: the deny set is evaluated first and a
/// match there rejects unconditionally; otherwise a non-empty allow set
/// must contain the candidate, while an empty allow set is skipped.
pub fn policy_allows<D: Filter, A: Filter<Value = D::Value>>(
    deny: &D,
    allow: &A,
    value: &D::Value,
) -> (r: bool)
    ensures
        r == (!deny.spec_contains(*value) && (allow.spec_is_empty() || allow.spec_contains(
            *value,
        ))),
{
    if deny.contains(value) {
        return false;
    }
    check_allowed(allow, value)
}

} // verus!
