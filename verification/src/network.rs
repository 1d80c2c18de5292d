//! Rule classification and compilation of IPv4 rule lists.
//!
//! A rule is one of three textual forms, classified with a fixed
//! precedence: a range `address-address`, then a subnet `address/prefix`,
//! then a bare address. The compiled form keeps exact addresses in a
//! compressed bitmap, and subnets and ranges in lists, in input order.

use crate::addr::{
    check_addr_pattern, check_range_pattern, check_subnet_pattern, is_addr_pattern,
    is_digit_char, is_range_pattern, is_subnet_pattern, parse_ipv4, parse_range, parse_subnet,
    range_bounds, spec_parse_ipv4, subnet_parts,
};
use crate::bitmap::{bitmap_insert, bitmap_new, bitmap_view};
use crate::error::{RuleError, SpecRuleError};
use vstd::prelude::*;

verus! {

/// The three rule grammars.
#[derive(Debug, PartialEq, Eq, Structural, Clone, Copy)]
pub enum Pattern {
    Ipv4Addr,
    Ipv4Net,
    Ipv4Range,
}

/// Classification with the mandatory precedence: range before subnet
/// before bare address.
pub open spec fn spec_classify(s: Seq<char>) -> Option<Pattern> {
    if is_range_pattern(s) {
        Some(Pattern::Ipv4Range)
    } else if is_subnet_pattern(s) {
        Some(Pattern::Ipv4Net)
    } else if is_addr_pattern(s) {
        Some(Pattern::Ipv4Addr)
    } else {
        None
    }
}

/// Classifies one rule string, or rejects it as a syntax error.
pub fn find_ip_match(ip: &str) -> (r: Result<Pattern, RuleError>)
    ensures
        match r {
            Ok(p) => spec_classify(ip@) == Some(p),
            Err(e) => spec_classify(ip@) == None::<Pattern> && e@ == SpecRuleError::Syntax(ip@),
        },
{
    if check_range_pattern(ip) {
        Ok(Pattern::Ipv4Range)
    } else if check_subnet_pattern(ip) {
        Ok(Pattern::Ipv4Net)
    } else if check_addr_pattern(ip) {
        Ok(Pattern::Ipv4Addr)
    } else {
        Err(RuleError::SyntaxError(ip.to_owned()))
    }
}

/// A subnet rule: a network address and the number of leading bits that
/// must match.
#[derive(Debug, PartialEq, Eq, Structural, Clone, Copy)]
pub struct Ipv4Subnet {
    pub addr: u32,
    pub prefix: u8,
}

/// The mask selecting the top `p` bits of a 32-bit address. Prefixes
/// beyond 32 cannot arise from the grammar and mask everything.
pub open spec fn prefix_mask(p: u8) -> u32 {
    if p >= 32 {
        0xFFFF_FFFFu32
    } else if p == 0 {
        0u32
    } else {
        0xFFFF_FFFFu32 << ((32 - p) as u32)
    }
}

/// True iff `x` lies in the subnet: `x` and the network address agree on
/// the masked top bits.
pub open spec fn subnet_matches(sn: Ipv4Subnet, x: u32) -> bool {
    x & prefix_mask(sn.prefix) == sn.addr & prefix_mask(sn.prefix)
}

impl Ipv4Subnet {
    /// Does `x` lie in this subnet?
    pub fn matches(&self, x: u32) -> (r: bool)
        ensures
            r == subnet_matches(*self, x),
    {
        let m: u32 = if self.prefix >= 32 {
            0xFFFF_FFFFu32
        } else if self.prefix == 0 {
            0u32
        } else {
            0xFFFF_FFFFu32 << ((32 - self.prefix) as u32)
        };
        x & m == self.addr & m
    }
}

/// The compiled rule set: exact addresses as a compressed bitmap, subnets
/// and ranges as lists in input order.
#[derive(Debug)]
pub struct Ipv4List {
    pub ips: roaring::RoaringBitmap,
    pub subnets: Vec<Ipv4Subnet>,
    pub ranges: Vec<(u32, u32)>,
}

/// The list kinds the engine can compile; only IPv4 exists.
#[derive(Debug)]
pub enum IpList {
    V4(Ipv4List),
}

/// The mathematical content of an `Ipv4List`.
#[verifier::ext_equal]
pub struct Ipv4Model {
    pub ips: Set<u32>,
    pub subnets: Seq<Ipv4Subnet>,
    pub ranges: Seq<(u32, u32)>,
}

impl Ipv4List {
    /// The exact set, subnet list and range list, as mathematical values.
    pub open spec fn model(&self) -> Ipv4Model {
        Ipv4Model { ips: bitmap_view(self.ips), subnets: self.subnets@, ranges: self.ranges@ }
    }

    /// Structural invariant: prefixes are at most 32 and every range is
    /// strictly ordered.
    pub open spec fn wf(&self) -> bool {
        model_wf(self.model())
    }
}

/// Structural invariant of a compiled model.
pub open spec fn model_wf(m: Ipv4Model) -> bool {
    (forall|i: int| 0 <= i < m.subnets.len() ==> (#[trigger] m.subnets[i]).prefix <= 32)
        && (forall|i: int| 0 <= i < m.ranges.len() ==> (#[trigger] m.ranges[i]).0
        < m.ranges[i].1)
}

/// Membership of an address value in a compiled model: an exact hit, a
/// subnet hit, or a range hit.
pub open spec fn model_contains(m: Ipv4Model, x: u32) -> bool {
    m.ips.contains(x) || (exists|i: int|
        0 <= i < m.subnets.len() && subnet_matches(#[trigger] m.subnets[i], x)) || (exists|i: int|
        0 <= i < m.ranges.len() && (#[trigger] m.ranges[i]).0 <= x <= m.ranges[i].1)
}

/// A model with no rules of any kind.
pub open spec fn model_is_empty(m: Ipv4Model) -> bool {
    m.ips == Set::<u32>::empty() && m.subnets.len() == 0 && m.ranges.len() == 0
}

/// The model holding no rules.
pub open spec fn empty_model() -> Ipv4Model {
    Ipv4Model { ips: Set::empty(), subnets: Seq::empty(), ranges: Seq::empty() }
}

/// Validates one classified rule and adds it to the model, or rejects it:
/// a rule that no grammar matches is a syntax error; an octet beyond 255
/// is a parse error; a range whose lower bound is not strictly below its
/// upper bound is a range-order error.
pub open spec fn spec_insert_rule(m: Ipv4Model, rule: Seq<char>) -> Result<
    Ipv4Model,
    SpecRuleError,
> {
    if is_range_pattern(rule) {
        match range_bounds(rule) {
            (Some(lo), Some(hi)) => {
                if lo >= hi {
                    Err(SpecRuleError::RangeOrder(rule))
                } else {
                    Ok(Ipv4Model { ranges: m.ranges.push((lo, hi)), ..m })
                }
            },
            _ => Err(SpecRuleError::Parse(rule)),
        }
    } else if is_subnet_pattern(rule) {
        match subnet_parts(rule) {
            (Some(a), p) => Ok(
                Ipv4Model { subnets: m.subnets.push(Ipv4Subnet { addr: a, prefix: p as u8 }), ..m },
            ),
            _ => Err(SpecRuleError::Parse(rule)),
        }
    } else if is_addr_pattern(rule) {
        match spec_parse_ipv4(rule) {
            Some(v) => Ok(Ipv4Model { ips: m.ips.insert(v), ..m }),
            None => Err(SpecRuleError::Parse(rule)),
        }
    } else {
        Err(SpecRuleError::Syntax(rule))
    }
}

/// Compiles a rule list in input order, stopping at the first rejected
/// rule.
pub open spec fn spec_build(rules: Seq<Seq<char>>) -> Result<Ipv4Model, SpecRuleError>
    decreases rules.len(),
{
    if rules.len() == 0 {
        Ok(empty_model())
    } else {
        match spec_build(rules.drop_last()) {
            Ok(m) => spec_insert_rule(m, rules.last()),
            Err(e) => Err(e),
        }
    }
}

/// The views of a list of rule strings.
pub open spec fn views_of(rules: Seq<String>) -> Seq<Seq<char>> {
    rules.map_values(|s: String| s@)
}

/// Once compilation has failed on a prefix, the remaining rules do not
/// change the outcome.
proof fn lemma_build_err_stable(rules: Seq<Seq<char>>, i: int)
    requires
        0 <= i <= rules.len(),
        spec_build(rules.take(i)) is Err,
    ensures
        spec_build(rules) == spec_build(rules.take(i)),
    decreases rules.len() - i,
{
    if i < rules.len() {
        assert(rules.take(i + 1).drop_last() =~= rules.take(i));
        lemma_build_err_stable(rules, i + 1);
    } else {
        assert(rules.take(i) =~= rules);
    }
}

/// Compiles an ordered list of rule strings into an `Ipv4List`, or fails
/// on the first invalid rule with its structured error.
pub fn create_list_ipv4(ip_list: Vec<String>) -> (r: Result<Ipv4List, RuleError>)
    ensures
        match r {
            Ok(list) => list.wf() && spec_build(views_of(ip_list@)) == Ok::<
                Ipv4Model,
                SpecRuleError,
            >(list.model()),
            Err(e) => spec_build(views_of(ip_list@)) == Err::<Ipv4Model, SpecRuleError>(e@),
        },
{
    let ghost all = views_of(ip_list@);
    let mut list = Ipv4List { ips: bitmap_new(), subnets: Vec::new(), ranges: Vec::new() };
    proof {
        assert(all.take(0) =~= Seq::<Seq<char>>::empty());
        assert(spec_build(all.take(0)) == Ok::<Ipv4Model, SpecRuleError>(empty_model()));
        assert(list.model() =~= empty_model());
    }
    let n = ip_list.len();
    for idx in 0..n
        invariant
            n == ip_list.len(),
            all == views_of(ip_list@),
            list.wf(),
            spec_build(all.take(idx as int)) == Ok::<Ipv4Model, SpecRuleError>(list.model()),
    {
        let rule = &ip_list[idx];
        let ghost pre = list.model();
        proof {
            assert(all.take(idx + 1).drop_last() =~= all.take(idx as int));
            assert(all.take(idx + 1).last() == rule@);
        }
        let pat = match find_ip_match(rule.as_str()) {
            Ok(p) => p,
            Err(e) => {
                proof {
                    lemma_build_err_stable(all, idx + 1);
                }
                return Err(e);
            },
        };
        match pat {
            Pattern::Ipv4Range => {
                let (lo, hi) = parse_range(rule.as_str());
                match (lo, hi) {
                    (Some(l), Some(h)) => {
                        if l >= h {
                            proof {
                                lemma_build_err_stable(all, idx + 1);
                            }
                            return Err(RuleError::RangeOrderError(rule.clone()));
                        }
                        list.ranges.push((l, h));
                    },
                    _ => {
                        proof {
                            lemma_build_err_stable(all, idx + 1);
                        }
                        return Err(RuleError::ParseError(rule.clone()));
                    },
                }
            },
            Pattern::Ipv4Net => {
                let (a, p) = parse_subnet(rule.as_str());
                match a {
                    Some(v) => {
                        list.subnets.push(Ipv4Subnet { addr: v, prefix: p });
                    },
                    None => {
                        proof {
                            lemma_build_err_stable(all, idx + 1);
                        }
                        return Err(RuleError::ParseError(rule.clone()));
                    },
                }
            },
            Pattern::Ipv4Addr => {
                match parse_ipv4(rule.as_str()) {
                    Some(v) => {
                        bitmap_insert(&mut list.ips, v);
                    },
                    None => {
                        proof {
                            lemma_build_err_stable(all, idx + 1);
                        }
                        return Err(RuleError::ParseError(rule.clone()));
                    },
                }
            },
        }
        proof {
            assert(spec_insert_rule(pre, rule@) == Ok::<Ipv4Model, SpecRuleError>(list.model()))
                by {
                assert(spec_insert_rule(pre, rule@) is Ok);
                assert(spec_insert_rule(pre, rule@)->Ok_0 =~= list.model());
            }
        }
    }
    proof {
        assert(all.take(n as int) =~= all);
    }
    Ok(list)
}

/// True iff `x` and `n` have the same top `p` bits.
pub open spec fn agrees_on_top_bits(n: u32, x: u32, p: u8) -> bool {
    p == 0 || (x >> ((32 - p) as u32)) == (n >> ((32 - p) as u32))
}

/// A subnet match is exactly agreement on the top `prefix` bits.
pub proof fn lemma_subnet_matches_top_bits(sn: Ipv4Subnet, x: u32)
    requires
        sn.prefix <= 32,
    ensures
        subnet_matches(sn, x) == agrees_on_top_bits(sn.addr, x, sn.prefix),
{
    let n = sn.addr;
    let p = sn.prefix;
    if p == 0 {
        assert(x & 0u32 == n & 0u32) by (bit_vector);
    } else if p == 32 {
        assert((x & 0xFFFF_FFFFu32 == n & 0xFFFF_FFFFu32) == (x >> 0u32 == n >> 0u32))
            by (bit_vector);
    } else {
        let sh = (32 - p) as u32;
        assert((x & (0xFFFF_FFFFu32 << sh) == n & (0xFFFF_FFFFu32 << sh)) == (x >> sh == n >> sh))
            by (bit_vector)
            requires
                0 < sh < 32,
        ;
    }
}

/// Range law: a rule built from two parsed addresses `a-b` with `a < b`
/// compiles to the single range `(a, b)`, and an address lies in the
/// compiled set exactly when it lies between the bounds, inclusive.
pub proof fn lemma_range_rule_law(a: Seq<char>, b: Seq<char>, x: u32)
    requires
        spec_parse_ipv4(a) is Some,
        spec_parse_ipv4(b) is Some,
        spec_parse_ipv4(a)->Some_0 < spec_parse_ipv4(b)->Some_0,
    ensures
        ({
            let rule = a + seq!['-'] + b;
            let va = spec_parse_ipv4(a)->Some_0;
            let vb = spec_parse_ipv4(b)->Some_0;
            &&& spec_build(seq![rule]) is Ok
            &&& spec_build(seq![rule])->Ok_0.ranges == seq![(va, vb)]
            &&& model_contains(spec_build(seq![rule])->Ok_0, x) <==> (va <= x <= vb)
        }),
{
    reveal_with_fuel(spec_build, 3);
    let rule = a + seq!['-'] + b;
    let va = spec_parse_ipv4(a)->Some_0;
    let vb = spec_parse_ipv4(b)->Some_0;
    crate::addr::lemma_addr_pattern_chars(a);
    crate::addr::lemma_addr_pattern_chars(b);
    assert(forall|i: int| 0 <= i < a.len() ==> #[trigger] a[i] != '-');
    assert(forall|i: int| 0 <= i < b.len() ==> #[trigger] b[i] != '-');
    crate::addr::lemma_join_single_sep(a, '-', b);
    assert(is_range_pattern(rule));
    assert(range_bounds(rule) == (Some(va), Some(vb)));
    assert(seq![rule].drop_last() =~= Seq::<Seq<char>>::empty());
    assert(seq![rule].last() == rule);
    let m = spec_build(seq![rule])->Ok_0;
    assert(m.ranges =~= seq![(va, vb)]);
    assert(!m.ips.contains(x));
    assert(m.subnets.len() == 0);
    if va <= x <= vb {
        assert(m.ranges[0].0 <= x <= m.ranges[0].1);
    }
}

/// Subnet law: a rule built from a parsed address and a grammar-valid
/// prefix `n/p` compiles to that single subnet, and an address lies in the
/// compiled set exactly when it agrees with `n` on the top `p` bits.
pub proof fn lemma_subnet_rule_law(n: Seq<char>, p: Seq<char>, x: u32)
    requires
        spec_parse_ipv4(n) is Some,
        crate::addr::is_prefix_pattern(p),
    ensures
        ({
            let rule = n + seq!['/'] + p;
            let vn = spec_parse_ipv4(n)->Some_0;
            let vp = crate::addr::octet_val(p) as u8;
            &&& spec_build(seq![rule]) is Ok
            &&& spec_build(seq![rule])->Ok_0.subnets == seq![Ipv4Subnet { addr: vn, prefix: vp }]
            &&& model_contains(spec_build(seq![rule])->Ok_0, x) <==> agrees_on_top_bits(vn, x, vp)
        }),
{
    reveal_with_fuel(spec_build, 3);
    let rule = n + seq!['/'] + p;
    let vn = spec_parse_ipv4(n)->Some_0;
    let vpi = crate::addr::octet_val(p);
    let vp = vpi as u8;
    crate::addr::lemma_addr_pattern_chars(n);
    assert(forall|i: int| 0 <= i < n.len() ==> #[trigger] n[i] != '/');
    assert(forall|i: int| 0 <= i < p.len() ==> is_digit_char(#[trigger] p[i]) && p[i] != '/') by {
        crate::addr::lemma_octet_val_small(p);
    }
    crate::addr::lemma_join_single_sep(n, '/', p);
    assert(is_subnet_pattern(rule));
    assert(!is_range_pattern(rule)) by {
        if is_range_pattern(rule) {
            let h = crate::addr::char_positions(rule, '-');
            crate::addr::lemma_char_positions_props(rule, '-');
            let hp = h[0];
            assert(rule[hp] == '-');
            crate::addr::lemma_char_positions_props(rule, '/');
            if hp < n.len() {
                assert(rule[hp] == n[hp]);
            } else if hp > n.len() {
                assert(rule[hp] == p[hp - n.len() - 1]);
            }
        }
    }
    assert(0 <= vpi <= 32) by {
        crate::addr::lemma_octet_val_small(p);
    }
    assert(subnet_parts(rule) == (Some(vn), vpi));
    assert(seq![rule].drop_last() =~= Seq::<Seq<char>>::empty());
    assert(seq![rule].last() == rule);
    let m = spec_build(seq![rule])->Ok_0;
    assert(m.subnets =~= seq![Ipv4Subnet { addr: vn, prefix: vp }]);
    assert(!m.ips.contains(x));
    assert(m.ranges.len() == 0);
    lemma_subnet_matches_top_bits(Ipv4Subnet { addr: vn, prefix: vp }, x);
    if agrees_on_top_bits(vn, x, vp) {
        assert(subnet_matches(m.subnets[0], x));
    }
}

/// Emptiness law: a successfully compiled rule set is empty exactly when
/// the rule list was empty.
pub proof fn lemma_emptiness(rules: Seq<Seq<char>>)
    requires
        spec_build(rules) is Ok,
    ensures
        model_is_empty(spec_build(rules)->Ok_0) <==> rules.len() == 0,
    decreases rules.len(),
{
    reveal_with_fuel(spec_build, 3);
    if rules.len() == 0 {
        assert(model_is_empty(empty_model()));
    } else {
        let pre = spec_build(rules.drop_last());
        let m = pre->Ok_0;
        let m2 = spec_insert_rule(m, rules.last())->Ok_0;
        if is_range_pattern(rules.last()) {
            assert(m2.ranges.len() > 0);
        } else if is_subnet_pattern(rules.last()) {
            assert(m2.subnets.len() > 0);
        } else {
            let v = spec_parse_ipv4(rules.last())->Some_0;
            assert(m2.ips.contains(v));
            assert(!Set::<u32>::empty().contains(v));
        }
    }
}

/// Deduplication law, exact addresses: inserting the same exact-address
/// rule twice yields an exact set of size one.
pub proof fn lemma_exact_dedup(rule: Seq<char>)
    requires
        spec_classify(rule) == Some(Pattern::Ipv4Addr),
        spec_parse_ipv4(rule) is Some,
    ensures
        ({
            let r = spec_build(seq![rule, rule]);
            let v = spec_parse_ipv4(rule)->Some_0;
            &&& r is Ok
            &&& r->Ok_0.ips == set![v]
            &&& r->Ok_0.ips.len() == 1
        }),
{
    reveal_with_fuel(spec_build, 3);
    let v = spec_parse_ipv4(rule)->Some_0;
    let rules = seq![rule, rule];
    assert(rules.drop_last() =~= seq![rule]);
    assert(seq![rule].drop_last() =~= Seq::<Seq<char>>::empty());
    let m1 = spec_build(seq![rule])->Ok_0;
    assert(m1.ips == Set::<u32>::empty().insert(v));
    let m2 = spec_build(rules)->Ok_0;
    assert(m2.ips =~= set![v]);
    assert(set![v] =~= Set::<u32>::empty().insert(v));
    assert(m2.ips.len() == 1);
}

/// Deduplication law, subnets: inserting the same subnet rule twice yields
/// two identical list entries; subnet lists are not deduplicated.
pub proof fn lemma_subnet_no_dedup(rule: Seq<char>)
    requires
        spec_classify(rule) == Some(Pattern::Ipv4Net),
        subnet_parts(rule).0 is Some,
    ensures
        ({
            let r = spec_build(seq![rule, rule]);
            &&& r is Ok
            &&& r->Ok_0.subnets.len() == 2
            &&& r->Ok_0.subnets[0] == r->Ok_0.subnets[1]
        }),
{
    reveal_with_fuel(spec_build, 3);
    let rules = seq![rule, rule];
    assert(rules.drop_last() =~= seq![rule]);
    assert(seq![rule].drop_last() =~= Seq::<Seq<char>>::empty());
}

/// Deduplication law, ranges: inserting the same range rule twice yields
/// two identical list entries; range lists are not deduplicated.
pub proof fn lemma_range_no_dedup(rule: Seq<char>)
    requires
        spec_classify(rule) == Some(Pattern::Ipv4Range),
        range_bounds(rule).0 is Some,
        range_bounds(rule).1 is Some,
        range_bounds(rule).0->Some_0 < range_bounds(rule).1->Some_0,
    ensures
        ({
            let r = spec_build(seq![rule, rule]);
            &&& r is Ok
            &&& r->Ok_0.ranges.len() == 2
            &&& r->Ok_0.ranges[0] == r->Ok_0.ranges[1]
        }),
{
    reveal_with_fuel(spec_build, 3);
    let rules = seq![rule, rule];
    assert(rules.drop_last() =~= seq![rule]);
    assert(seq![rule].drop_last() =~= Seq::<Seq<char>>::empty());
}

} // verus!
