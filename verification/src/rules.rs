//! The server's table of rules from endpoints to targets.
//!
//! A CONNECT-UDP request is matched on its `:authority` and `:path` (path
//! component only: the query string is ignored, so generic MASQUE clients that
//! carry a target in the query still match). The first rule whose endpoint
//! authority and path match wins, and its target is the pinned forwarding
//! destination; clients never choose a target.

use vstd::prelude::*;

use crate::addr::SocketAddr;
use crate::authority::host_of;
use crate::authority::spec_host_of;
use crate::endpoint::lemma_match_ignores_queries;
use crate::endpoint::lemma_match_is_equality;
use crate::endpoint::lemma_parse_roundtrip;
use crate::endpoint::paths_match;
use crate::endpoint::spec_parse;
use crate::endpoint::Endpoint;
use crate::endpoint::EndpointError;
use crate::endpoint::spec_path_only;
use crate::quic::is_allowed;
use crate::text::chars_of;
use crate::text::equal_ignoring_ascii_case;
use crate::text::same_chars;
use crate::text::texts;

verus! {

/// The idle timeout of a rule that sets none, in seconds.
pub const DEFAULT_IDLE_TIMEOUT_SECS: u64 = 35;

pub const NANOS_PER_SEC: u128 = 1_000_000_000;

/// A rule as it is written.
#[derive(Debug)]
pub struct RuleSpec {
    pub endpoint: String,
    /// The address of the target, if it could be resolved.
    pub target: Option<SocketAddr>,
    /// Forward with the client's external source address preserved.
    pub transparent: bool,
    /// Mark to set on the target socket.
    pub fwmark: Option<u32>,
    /// Idle timeout of a flow in seconds; zero disables it.
    pub idle_timeout: Option<u64>,
}

/// The forwarding decision for a matched request.
#[derive(Clone, Copy, Debug, PartialEq, Eq, Structural)]
pub struct RuleMatch {
    pub target: SocketAddr,
    /// When set, forward to the target with the client's external source IP
    /// preserved.
    pub transparent: bool,
    /// Mark to set on the target socket.
    pub fwmark: Option<u32>,
    /// Idle timeout of the flow in nanoseconds; `None` disables it.
    pub idle_timeout: Option<u128>,
}

/// A validated rule.
#[derive(Debug)]
pub struct Rule {
    pub endpoint: Endpoint,
    pub decision: RuleMatch,
}

/// What a written rule says.
pub struct RuleSpecView {
    pub endpoint: Seq<char>,
    pub target: Option<SocketAddr>,
    pub transparent: bool,
    pub fwmark: Option<u32>,
    pub idle_timeout: Option<u64>,
}

/// Where a rule applies, and what it decides.
pub struct RuleView {
    pub authority: Seq<char>,
    pub path: Seq<char>,
    pub decision: RuleMatch,
}

impl View for RuleSpec {
    type V = RuleSpecView;

    open spec fn view(&self) -> RuleSpecView {
        RuleSpecView {
            endpoint: self.endpoint@,
            target: self.target,
            transparent: self.transparent,
            fwmark: self.fwmark,
            idle_timeout: self.idle_timeout,
        }
    }
}

impl View for Rule {
    type V = RuleView;

    open spec fn view(&self) -> RuleView {
        RuleView {
            authority: self.endpoint.authority@,
            path: self.endpoint.path@,
            decision: self.decision,
        }
    }
}

/// Why a list of rules is no table. Where a rule is wrong, `index` is its place.
#[derive(Clone, Copy, Debug, PartialEq, Eq, Structural)]
pub enum RulesError {
    /// There is no rule.
    Empty,
    /// The endpoint does not parse.
    Endpoint { index: usize, error: EndpointError },
    /// The target could not be resolved.
    Target { index: usize },
}

/// The idle timeout that a rule asks for, in nanoseconds.
pub open spec fn idle_nanos(secs: Option<u64>) -> Option<u128> {
    let s = match secs {
        Some(n) => n,
        None => DEFAULT_IDLE_TIMEOUT_SECS,
    };
    if s == 0 {
        None
    } else {
        Some((s * NANOS_PER_SEC) as u128)
    }
}

/// The rule that a written rule stands for. The endpoint is judged before the
/// target.
pub open spec fn rule_of(spec: RuleSpecView, index: usize) -> Result<RuleView, RulesError> {
    match spec_parse(spec.endpoint) {
        Err(error) => Err(RulesError::Endpoint { index, error }),
        Ok((authority, path)) => match spec.target {
            None => Err(RulesError::Target { index }),
            Some(target) => Ok(
                RuleView {
                    authority,
                    path,
                    decision: RuleMatch {
                        target,
                        transparent: spec.transparent,
                        fwmark: spec.fwmark,
                        idle_timeout: idle_nanos(spec.idle_timeout),
                    },
                },
            ),
        },
    }
}

/// The rules that written rules stand for, or the error of the first wrong one.
pub open spec fn rules_of(specs: Seq<RuleSpecView>) -> Result<Seq<RuleView>, RulesError>
    decreases specs.len(),
{
    if specs.len() == 0 {
        Ok(Seq::empty())
    } else {
        match rules_of(specs.drop_last()) {
            Err(e) => Err(e),
            Ok(rules) => match rule_of(specs.last(), (specs.len() - 1) as usize) {
                Err(e) => Err(e),
                Ok(rule) => Ok(rules.push(rule)),
            },
        }
    }
}

/// The table that written rules stand for.
pub open spec fn table_of(specs: Seq<RuleSpecView>) -> Result<Seq<RuleView>, RulesError> {
    if specs.len() == 0 {
        Err(RulesError::Empty)
    } else {
        rules_of(specs)
    }
}

/// Whether a rule applies to a request.
pub open spec fn applies(rule: RuleView, authority: Seq<char>, path: Seq<char>) -> bool {
    rule.authority == authority && paths_match(rule.path, path)
}

/// The decision of the first rule that applies to a request.
pub open spec fn spec_match_target(
    rules: Seq<RuleView>,
    authority: Seq<char>,
    path: Seq<char>,
) -> Option<RuleMatch>
    decreases rules.len(),
{
    if rules.len() == 0 {
        None
    } else if applies(rules[0], authority, path) {
        Some(rules[0].decision)
    } else {
        spec_match_target(rules.skip(1), authority, path)
    }
}

/// How many rules ask for transparent forwarding.
pub open spec fn spec_transparent_count(rules: Seq<RuleView>) -> nat {
    rules.filter(|r: RuleView| r.decision.transparent).len()
}

/// The rules of a list, as what they say.
pub open spec fn rule_views(s: Seq<Rule>) -> Seq<RuleView> {
    s.map_values(|r: Rule| r@)
}

/// The written rules of a list, as what they say.
pub open spec fn spec_views(s: Seq<RuleSpec>) -> Seq<RuleSpecView> {
    s.map_values(|r: RuleSpec| r@)
}

/// The hosts of the endpoints, in order.
pub open spec fn hosts_of(rules: Seq<RuleView>) -> Seq<Seq<char>> {
    rules.map_values(|r: RuleView| spec_host_of(r.authority))
}

fn idle_timeout_of(secs: Option<u64>) -> (r: Option<u128>)
    ensures
        r == idle_nanos(secs),
{
    let s: u64 = match secs {
        Some(n) => n,
        None => DEFAULT_IDLE_TIMEOUT_SECS,
    };
    if s == 0 {
        None
    } else {
        Some(s as u128 * NANOS_PER_SEC)
    }
}

fn load_rule(spec: &RuleSpec, index: usize) -> (r: Result<Rule, RulesError>)
    ensures
        match r {
            Ok(rule) => rule_of(spec@, index) == Ok::<_, RulesError>(rule@),
            Err(e) => rule_of(spec@, index) == Err::<RuleView, _>(e),
        },
{
    let endpoint = match Endpoint::parse(&spec.endpoint) {
        Ok(e) => e,
        Err(error) => return Err(RulesError::Endpoint { index, error }),
    };
    let target = match spec.target {
        Some(t) => t,
        None => return Err(RulesError::Target { index }),
    };
    Ok(
        Rule {
            endpoint,
            decision: RuleMatch {
                target,
                transparent: spec.transparent,
                fwmark: spec.fwmark,
                idle_timeout: idle_timeout_of(spec.idle_timeout),
            },
        },
    )
}

/// A loaded, validated rule table.
#[derive(Debug)]
pub struct RuleTable {
    pub rules: Vec<Rule>,
}

impl View for RuleTable {
    type V = Seq<RuleView>;

    open spec fn view(&self) -> Seq<RuleView> {
        rule_views(self.rules@)
    }
}

impl RuleTable {
    /// Validate written rules.
    pub fn load(specs: &[RuleSpec]) -> (r: Result<Self, RulesError>)
        ensures
            match r {
                Ok(t) => table_of(spec_views(specs@)) == Ok::<_, RulesError>(t@),
                Err(e) => table_of(spec_views(specs@)) == Err::<Seq<RuleView>, _>(e),
            },
    {
        if specs.len() == 0 {
            return Err(RulesError::Empty);
        }
        let ghost all = spec_views(specs@);
        let mut rules: Vec<Rule> = Vec::new();
        let mut i: usize = 0;
        assert(all.take(0) =~= Seq::empty());
        assert(rule_views(rules@) =~= Seq::empty());
        while i < specs.len()
            invariant
                i <= specs@.len(),
                all == spec_views(specs@),
                rules_of(all.take(i as int)) == Ok::<_, RulesError>(rule_views(rules@)),
            decreases specs@.len() - i,
        {
            proof {
                assert(all.take(i + 1).drop_last() =~= all.take(i as int));
                assert(all.take(i + 1).last() == specs@[i as int]@);
            }
            match load_rule(&specs[i], i) {
                Ok(rule) => {
                    let ghost before = rule_views(rules@);
                    let ghost one = rule@;
                    rules.push(rule);
                    assert(rule_views(rules@) =~= before.push(one));
                },
                Err(e) => {
                    proof {
                        lemma_error_stays(all, i + 1);
                    }
                    return Err(e);
                },
            }
            i = i + 1;
        }
        assert(all.take(i as int) =~= all);
        Ok(RuleTable { rules })
    }

    /// The forwarding decision for a request `:authority` and `:path`, or `None`
    /// if no rule matches.
    pub fn match_target(&self, authority: &str, path: &str) -> (r: Option<RuleMatch>)
        ensures
            r == spec_match_target(self@, authority@, path@),
    {
        let wanted = chars_of(authority);
        let ghost all = self@;
        let mut i: usize = 0;
        assert(all.skip(0) =~= all);
        while i < self.rules.len()
            invariant
                i <= self.rules@.len(),
                all == self@,
                wanted@ == authority@,
                spec_match_target(all.skip(i as int), authority@, path@) == spec_match_target(
                    all,
                    authority@,
                    path@,
                ),
            decreases self.rules@.len() - i,
        {
            let rule = &self.rules[i];
            assert(all.skip(i as int)[0] == rule@);
            assert(all.skip(i as int).skip(1) =~= all.skip(i + 1));
            let own = chars_of(&rule.endpoint.authority);
            if same_chars(&own, &wanted) && rule.endpoint.matches(path) {
                return Some(rule.decision);
            }
            i = i + 1;
        }
        None
    }

    /// Number of rules.
    pub fn len(&self) -> (r: usize)
        ensures
            r == self@.len(),
    {
        self.rules.len()
    }

    /// Number of rules requesting transparent forwarding.
    pub fn transparent_count(&self) -> (r: usize)
        ensures
            r == spec_transparent_count(self@),
    {
        let ghost all = self@;
        let ghost p = |r: RuleView| r.decision.transparent;
        let mut n: usize = 0;
        let mut i: usize = 0;
        assert(all.take(0) =~= Seq::empty());
        proof {
            reveal(Seq::filter);
        }
        while i < self.rules.len()
            invariant
                i <= self.rules@.len(),
                n <= i,
                all == self@,
                p == (|r: RuleView| r.decision.transparent),
                n == all.take(i as int).filter(p).len(),
            decreases self.rules@.len() - i,
        {
            proof {
                reveal(Seq::filter);
                assert(all.take(i + 1).drop_last() =~= all.take(i as int));
                assert(all.take(i + 1).last() == self.rules@[i as int]@);
            }
            if self.rules[i].decision.transparent {
                n = n + 1;
            }
            i = i + 1;
        }
        assert(all.take(i as int) =~= all);
        n
    }

    /// The hosts of the endpoints: the server names that the proxy answers to.
    pub fn endpoint_hosts(&self) -> (r: Vec<String>)
        ensures
            texts(r@) == hosts_of(self@),
    {
        let mut r: Vec<String> = Vec::new();
        let mut i: usize = 0;
        while i < self.rules.len()
            invariant
                i <= self.rules@.len(),
                r@.len() == i,
                forall|k: int|
                    0 <= k < i ==> (#[trigger] r@[k])@ == spec_host_of(self@[k].authority),
            decreases self.rules@.len() - i,
        {
            r.push(host_of(&self.rules[i].endpoint.authority));
            i = i + 1;
        }
        assert(texts(r@) =~= hosts_of(self@));
        r
    }
}

proof fn lemma_error_stays(specs: Seq<RuleSpecView>, k: int)
    requires
        0 <= k <= specs.len(),
        rules_of(specs.take(k)) is Err,
    ensures
        rules_of(specs) == rules_of(specs.take(k)),
    decreases specs.len(),
{
    if k == specs.len() {
        assert(specs.take(k) =~= specs);
    } else {
        assert(specs.drop_last().take(k) =~= specs.take(k));
        lemma_error_stays(specs.drop_last(), k);
    }
}

/// A loaded table holds one rule for each written rule, in the same order, and
/// each of them pins the target that was written.
pub proof fn lemma_table_pins_targets(specs: Seq<RuleSpecView>)
    ensures
        table_of(specs) matches Ok(rules) ==> {
            &&& rules.len() > 0
            &&& rules.len() == specs.len()
            &&& forall|i: int|
                0 <= i < rules.len() ==> specs[i].target == Some(
                    (#[trigger] rules[i]).decision.target,
                )
        },
{
    if specs.len() > 0 {
        lemma_rules_pin_targets(specs);
    }
}

proof fn lemma_rules_pin_targets(specs: Seq<RuleSpecView>)
    ensures
        rules_of(specs) matches Ok(rules) ==> {
            &&& rules.len() == specs.len()
            &&& forall|i: int|
                0 <= i < rules.len() ==> specs[i].target == Some(
                    (#[trigger] rules[i]).decision.target,
                )
        },
    decreases specs.len(),
{
    if specs.len() > 0 {
        lemma_rules_pin_targets(specs.drop_last());
        if let Ok(rules) = rules_of(specs) {
            let before = rules_of(specs.drop_last())->Ok_0;
            assert(rules.drop_last() =~= before);
            assert forall|i: int| 0 <= i < rules.len() implies specs[i].target == Some(
                (#[trigger] rules[i]).decision.target,
            ) by {
                if i < before.len() {
                    assert(rules[i] == before[i]);
                    assert(specs.drop_last()[i] == specs[i]);
                }
            }
        }
    }
}

/// The first rule that applies decides: a decision comes from a rule that applies
/// while none before it does, and there is none exactly where no rule applies.
pub proof fn lemma_first_rule_wins(rules: Seq<RuleView>, authority: Seq<char>, path: Seq<char>)
    ensures
        match spec_match_target(rules, authority, path) {
            Some(m) => exists|i: int|
                {
                    &&& 0 <= i < rules.len()
                    &&& #[trigger] applies(rules[i], authority, path)
                    &&& rules[i].decision == m
                    &&& forall|j: int| 0 <= j < i ==> !#[trigger] applies(rules[j], authority, path)
                },
            None => forall|i: int|
                0 <= i < rules.len() ==> !#[trigger] applies(rules[i], authority, path),
        },
    decreases rules.len(),
{
    if rules.len() > 0 {
        let rest = rules.skip(1);
        if applies(rules[0], authority, path) {
        } else {
            lemma_first_rule_wins(rest, authority, path);
            match spec_match_target(rest, authority, path) {
                Some(m) => {
                    let i = choose|i: int|
                        {
                            &&& 0 <= i < rest.len()
                            &&& #[trigger] applies(rest[i], authority, path)
                            &&& rest[i].decision == m
                            &&& forall|j: int|
                                0 <= j < i ==> !#[trigger] applies(rest[j], authority, path)
                        };
                    assert(rules[i + 1] == rest[i]);
                    assert forall|j: int| 0 <= j < i + 1 implies !#[trigger] applies(
                        rules[j],
                        authority,
                        path,
                    ) by {
                        if j > 0 {
                            assert(rest[j - 1] == rules[j]);
                            assert(!applies(rest[j - 1], authority, path));
                        }
                    }
                    assert(applies(rules[i + 1], authority, path));
                },
                None => {
                    assert forall|i: int| 0 <= i < rules.len() implies !#[trigger] applies(
                        rules[i],
                        authority,
                        path,
                    ) by {
                        if i > 0 {
                            assert(rest[i - 1] == rules[i]);
                            assert(!applies(rest[i - 1], authority, path));
                        }
                    }
                },
            }
        }
    }
}

/// The query of a request does not change the decision.
pub proof fn lemma_match_ignores_query(
    rules: Seq<RuleView>,
    authority: Seq<char>,
    path: Seq<char>,
    query: Seq<char>,
)
    ensures
        spec_match_target(rules, authority, path + seq!['?'] + query) == spec_match_target(
            rules,
            authority,
            path,
        ),
    decreases rules.len(),
{
    if rules.len() > 0 {
        lemma_match_ignores_queries(rules[0].path, Seq::empty(), path, query);
        lemma_match_ignores_query(rules.skip(1), authority, path, query);
    }
}

/// A client of a configured endpoint passes the check of the server name: the host
/// of each endpoint is allowed, in any case of its ASCII letters.
pub proof fn lemma_endpoint_host_allowed(rules: Seq<RuleView>, i: int, name: Seq<char>)
    requires
        0 <= i < rules.len(),
        equal_ignoring_ascii_case(spec_host_of(rules[i].authority), name),
    ensures
        is_allowed(hosts_of(rules), name),
{
    assert(equal_ignoring_ascii_case(hosts_of(rules)[i], name));
}

/// The first rule with the authority and the path of a request decides it; the texts are
/// compared as they are.
pub proof fn lemma_first_exact_rule(
    rules: Seq<RuleView>,
    authority: Seq<char>,
    path: Seq<char>,
    i: int,
)
    requires
        !path.contains('?'),
        forall|j: int| 0 <= j < rules.len() ==> !(#[trigger] rules[j]).path.contains('?'),
        0 <= i <= rules.len(),
        forall|j: int|
            0 <= j < i ==> (#[trigger] rules[j]).authority != authority || rules[j].path != path,
        i < rules.len() ==> rules[i].authority == authority && rules[i].path == path,
    ensures
        spec_match_target(rules, authority, path) == if i < rules.len() {
            Some(rules[i].decision)
        } else {
            None
        },
    decreases rules.len(),
{
    if rules.len() > 0 {
        let none = Seq::<char>::empty();
        lemma_match_is_equality(rules[0].path, path, none, none);
        if i > 0 {
            let rest = rules.skip(1);
            assert forall|j: int| 0 <= j < rest.len() implies !(#[trigger] rest[j]).path.contains(
                '?',
            ) by {
                assert(rest[j] == rules[j + 1]);
            }
            assert forall|j: int| 0 <= j < i - 1 implies (#[trigger] rest[j]).authority != authority
                || rest[j].path != path by {
                assert(rest[j] == rules[j + 1]);
            }
            lemma_first_exact_rule(rest, authority, path, i - 1);
        }
    }
}

/// A loaded rule says what was written: the authority and the path of its endpoint, the
/// target, the marks, and the idle timeout in nanoseconds, which is 35 seconds where none
/// was written and none where zero was. It is refused for its endpoint first, then for its
/// target.
pub proof fn lemma_rule_says_what_was_written(spec: RuleSpecView, index: usize)
    ensures
        match rule_of(spec, index) {
            Ok(rule) => {
                &&& spec_parse(spec.endpoint) == Ok::<_, EndpointError>((rule.authority, rule.path))
                &&& spec.target == Some(rule.decision.target)
                &&& rule.decision.transparent == spec.transparent
                &&& rule.decision.fwmark == spec.fwmark
                &&& match spec.idle_timeout {
                    None => rule.decision.idle_timeout == Some(35_000_000_000u128),
                    Some(n) => if n == 0 {
                        rule.decision.idle_timeout is None
                    } else {
                        rule.decision.idle_timeout matches Some(d) && d == n * 1_000_000_000
                    },
                }
            },
            Err(RulesError::Endpoint { index: i, error }) => i == index && spec_parse(spec.endpoint)
                == Err::<(Seq<char>, Seq<char>), _>(error),
            Err(RulesError::Target { index: i }) => i == index && spec.target is None && spec_parse(
                spec.endpoint,
            ) is Ok,
            Err(RulesError::Empty) => false,
        },
{
}

/// A rule for `https://` with an authority and a path applies to requests for these.
pub proof fn lemma_written_rule_applies(
    spec: RuleSpecView,
    index: usize,
    authority: Seq<char>,
    path: Seq<char>,
)
    requires
        spec.endpoint == seq!['h', 't', 't', 'p', 's', ':', '/', '/'] + authority + path,
        spec.target is Some,
        authority.len() > 0,
        !authority.contains('/'),
        path.len() > 0,
        path[0] == '/',
    ensures
        rule_of(spec, index) matches Ok(rule) && {
            &&& applies(rule, authority, path)
            &&& Some(rule.decision.target) == spec.target
        },
{
    lemma_parse_roundtrip(authority, path);
}

/// The first rule with the authority of a request and with the same path up to queries
/// decides it.
pub proof fn lemma_first_rule_by_path(
    rules: Seq<RuleView>,
    authority: Seq<char>,
    path: Seq<char>,
    i: int,
)
    requires
        0 <= i <= rules.len(),
        forall|j: int|
            0 <= j < i ==> (#[trigger] rules[j]).authority != authority || spec_path_only(
                rules[j].path,
            ) != spec_path_only(path),
        i < rules.len() ==> rules[i].authority == authority && spec_path_only(rules[i].path)
            == spec_path_only(path),
    ensures
        spec_match_target(rules, authority, path) == if i < rules.len() {
            Some(rules[i].decision)
        } else {
            None
        },
    decreases rules.len(),
{
    if rules.len() > 0 && i > 0 {
        let rest = rules.skip(1);
        assert(rules[0].authority != authority || spec_path_only(rules[0].path) != spec_path_only(
            path,
        ));
        assert forall|j: int| 0 <= j < i - 1 implies (#[trigger] rest[j]).authority != authority
            || spec_path_only(rest[j].path) != spec_path_only(path) by {
            assert(rest[j] == rules[j + 1]);
        }
        lemma_first_rule_by_path(rest, authority, path, i - 1);
    }
}

/// A table is loaded exactly if there are rules and each of them can be: then it holds
/// them in their order. Otherwise the error is that of the first that cannot.
pub proof fn lemma_table_of_rules(specs: Seq<RuleSpecView>, k: int)
    requires
        0 <= k <= specs.len(),
        specs.len() <= usize::MAX,
        forall|j: int| 0 <= j < k ==> rule_of(#[trigger] specs[j], j as usize) is Ok,
        k < specs.len() ==> rule_of(specs[k], k as usize) is Err,
    ensures
        specs.len() == 0 ==> table_of(specs) == Err::<Seq<RuleView>, _>(RulesError::Empty),
        0 < specs.len() && k < specs.len() ==> table_of(specs) == Err::<Seq<RuleView>, _>(
            rule_of(specs[k], k as usize)->Err_0,
        ),
        0 < specs.len() && k == specs.len() ==> (table_of(specs) matches Ok(rules) && {
            &&& rules.len() == specs.len()
            &&& forall|j: int|
                0 <= j < specs.len() ==> rule_of(specs[j], j as usize) == Ok::<_, RulesError>(
                    #[trigger] rules[j],
                )
        }),
    decreases specs.len(),
{
    if specs.len() > 0 {
        let before = specs.drop_last();
        let m = if k < specs.len() - 1 {
            k
        } else {
            specs.len() - 1
        };
        assert forall|j: int| 0 <= j < m implies rule_of(
            #[trigger] before[j],
            j as usize,
        ) is Ok by {
            assert(before[j] == specs[j]);
        }
        if m < before.len() {
            assert(before[m] == specs[m]);
        }
        lemma_table_of_rules(before, m);
        if k == specs.len() {
            let last = specs.len() - 1;
            assert(rule_of(specs[last], last as usize) is Ok);
            let had = rules_of(before)->Ok_0;
            let rules = rules_of(specs)->Ok_0;
            assert(rules =~= had.push(rules.last()));
            assert forall|j: int| 0 <= j < specs.len() implies rule_of(specs[j], j as usize)
                == Ok::<_, RulesError>(#[trigger] rules[j]) by {
                if j < last {
                    assert(before[j] == specs[j]);
                    assert(rules[j] == had[j]);
                }
            }
        }
    }
}

/// One more rule is one more transparent rule exactly if it asks for that.
pub proof fn lemma_transparent_counted(rules: Seq<RuleView>, rule: RuleView)
    ensures
        spec_transparent_count(Seq::empty()) == 0,
        spec_transparent_count(rules.push(rule)) == spec_transparent_count(rules) + if
            rule.decision.transparent {
            1nat
        } else {
            0nat
        },
{
    reveal(Seq::filter);
    assert(rules.push(rule).drop_last() =~= rules);
}

/// Written and loaded rules are taken one by one, in their order, with all that they say.
pub proof fn lemma_rules_taken(specs: Seq<RuleSpec>, rules: Seq<Rule>, i: int)
    ensures
        spec_views(specs).len() == specs.len(),
        0 <= i < specs.len() ==> {
            let v = spec_views(specs)[i];
            &&& v.endpoint == specs[i].endpoint@
            &&& v.target == specs[i].target
            &&& v.transparent == specs[i].transparent
            &&& v.fwmark == specs[i].fwmark
            &&& v.idle_timeout == specs[i].idle_timeout
        },
        rule_views(rules).len() == rules.len(),
        0 <= i < rules.len() ==> {
            let v = rule_views(rules)[i];
            &&& v.authority == rules[i].endpoint.authority@
            &&& v.path == rules[i].endpoint.path@
            &&& v.decision == rules[i].decision
        },
{
}

/// The allowed server names are the hosts of the endpoints and no others, in any case of
/// their ASCII letters.
pub proof fn lemma_only_endpoint_hosts(rules: Seq<RuleView>, name: Seq<char>)
    ensures
        hosts_of(rules).len() == rules.len(),
        forall|i: int|
            0 <= i < rules.len() ==> #[trigger] hosts_of(rules)[i] == spec_host_of(
                rules[i].authority,
            ),
        is_allowed(hosts_of(rules), name) ==> exists|i: int|
            0 <= i < rules.len() && #[trigger] equal_ignoring_ascii_case(
                spec_host_of(rules[i].authority),
                name,
            ),
{
    if is_allowed(hosts_of(rules), name) {
        let i = choose|i: int|
            0 <= i < hosts_of(rules).len() && #[trigger] equal_ignoring_ascii_case(
                hosts_of(rules)[i],
                name,
            );
        assert(equal_ignoring_ascii_case(spec_host_of(rules[i].authority), name));
    }
}

} // verus!
