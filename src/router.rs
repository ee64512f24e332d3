//! The router: checks that rules and upstreams agree, and decides for each
//! query where it goes, or answers it at once.
use vstd::prelude::*;

use trust_dns_client::op::{Message, Query};

use crate::dns::{
    add_additional, error_message, id_of, message_id, message_op_code, message_queries,
    name_from_text, name_text_of, op_of, parsed_name_of, queries_of, query_name, query_name_of,
    query_name_text, query_type_code, rcode_of, record_from_rdata, record_of, soa_data_of,
    soa_rdata, type_code_of, with_additional,
};
use crate::error::ConfigError;
use crate::filter::{dsts, route, rules_wf, Filter, Rule};
use crate::upstream::{first_bad_hybrid, has_tag, hybrids_ok, is_last, path_ok, refs_of, Upstream, Upstreams};

verus! {

/// The record type code of IPv6 addresses.
pub const AAAA_TYPE: u16 = 28;

/// The time to live of a synthesized record: one day, in seconds.
pub const MAX_TTL: u32 = 86400;

/// The response code of a server failure.
pub const SERVFAIL: u16 = 2;

/// The payload of the start-of-authority record that answers a suppressed
/// IPv6 query, as widely deployed DNS proxies forge it for negative caching.
pub const SOA_MNAME: &'static str = "a.gtld-servers.net";

pub const SOA_RNAME: &'static str = "nstld.verisign-grs.com";

pub const SOA_SERIAL: u32 = 1800;

pub const SOA_REFRESH: i32 = 1800;

pub const SOA_RETRY: i32 = 900;

pub const SOA_EXPIRE: i32 = 604800;

pub const SOA_MINIMUM: u32 = 86400;

/// What becomes of a query.
#[derive(Debug, Clone)]
pub enum Route {
    /// Answered at once with the forged start-of-authority record.
    Ipv6Blocked,
    /// Forwarded to the upstream of this tag.
    Forward(String),
}

/// Every tag that the rules or the default name is an upstream's, and every
/// hybrid upstream is sound.
pub open spec fn config_ok(rules: Seq<Rule>, default: Seq<char>, ups: Seq<Upstream>) -> bool {
    &&& hybrids_ok(ups)
    &&& forall|t: Seq<char>| #[trigger] dsts(rules).contains(t) ==> has_tag(ups, t)
    &&& has_tag(ups, default)
}

/// The tag named when the configuration lacks one: that of the first rule,
/// in rule order, that no upstream has, or else the default tag.
pub open spec fn first_missing(rules: Seq<Rule>, default: Seq<char>, ups: Seq<Upstream>) -> Seq<
    char,
>
    decreases rules.len(),
{
    if rules.len() == 0 {
        default
    } else if !has_tag(ups, rules[0].dst@) {
        rules[0].dst@
    } else {
        first_missing(rules.drop_first(), default, ups)
    }
}

/// The tag that `first_missing` names is the default tag where every rule's
/// tag is an upstream's; otherwise it is the tag of the first rule, in rule
/// order, whose tag is no upstream's.
pub proof fn lemma_first_missing(rules: Seq<Rule>, default: Seq<char>, ups: Seq<Upstream>)
    ensures
        (forall|j: int| 0 <= j < rules.len() ==> has_tag(ups, (#[trigger] rules[j]).dst@))
            ==> first_missing(rules, default, ups) == default,
        !(forall|j: int| 0 <= j < rules.len() ==> has_tag(ups, (#[trigger] rules[j]).dst@))
            ==> exists|i: int|
            0 <= i < rules.len() && !has_tag(ups, (#[trigger] rules[i]).dst@) && first_missing(
                rules,
                default,
                ups,
            ) == rules[i].dst@ && forall|j: int|
                0 <= j < i ==> has_tag(ups, (#[trigger] rules[j]).dst@),
    decreases rules.len(),
{
    if rules.len() > 0 {
        let rest = rules.drop_first();
        lemma_first_missing(rest, default, ups);
        if has_tag(ups, rules[0].dst@) {
            if !(forall|j: int| 0 <= j < rules.len() ==> has_tag(ups, (#[trigger] rules[j]).dst@)) {
                let j0 = choose|j: int| 0 <= j < rules.len() && !has_tag(ups, (#[trigger] rules[j]).dst@);
                assert(!has_tag(ups, rest[j0 - 1].dst@));
                let i = choose|i: int|
                    0 <= i < rest.len() && !has_tag(ups, (#[trigger] rest[i]).dst@)
                        && first_missing(rest, default, ups) == rest[i].dst@ && forall|j: int|
                        0 <= j < i ==> has_tag(ups, (#[trigger] rest[j]).dst@);
                assert(rules[i + 1] == rest[i]);
                assert forall|j: int| 0 <= j < i + 1 implies has_tag(ups, (#[trigger] rules[j]).dst@) by {
                    if j > 0 {
                        assert(rules[j] == rest[j - 1]);
                    }
                }
            } else {
                assert forall|j: int| 0 <= j < rest.len() implies has_tag(ups, (#[trigger] rest[j]).dst@) by {
                    assert(rest[j] == rules[j + 1]);
                }
            }
        }
    }
}

/// Where a message with these queries (type code and name each) goes: `None`
/// where it is answered at once, else the tag of its upstream. Only a message
/// with exactly one query is routed by name.
pub open spec fn decision(
    rules: Seq<Rule>,
    default: Seq<char>,
    disable_ipv6: bool,
    queries: Seq<(u16, Seq<char>)>,
) -> Option<Seq<char>> {
    if queries.len() == 1 {
        if queries[0].0 == AAAA_TYPE && disable_ipv6 {
            None
        } else {
            Some(route(rules, default, queries[0].1))
        }
    } else {
        Some(default)
    }
}

/// The record type code and name text of each query.
pub open spec fn query_keys(qs: Seq<Query>) -> Seq<(u16, Seq<char>)> {
    qs.map_values(|q: Query| (type_code_of(q), name_text_of(q)))
}

/// `r` is a server failure that keeps the id and op code of `request`.
pub open spec fn is_failure_for(r: Message, request: Message) -> bool {
    id_of(r) == id_of(request) && op_of(r) == op_of(request) && rcode_of(r) == SERVFAIL
}

/// The answer to a suppressed IPv6 query for `msg`: `msg` with one more
/// additional record, for the name of its first query, with a time to live of
/// one day and the fixed start-of-authority data; `None` where `msg` has no
/// query or a fixed name does not parse.
pub open spec fn blocked_answer(msg: Message) -> Option<Message> {
    let qs = queries_of(msg);
    let m = parsed_name_of(SOA_MNAME@);
    let n = parsed_name_of(SOA_RNAME@);
    if qs.len() > 0 && m is Some && n is Some {
        Some(
            with_additional(
                msg,
                record_of(
                    query_name_of(qs[0]),
                    MAX_TTL,
                    soa_data_of(
                        m->Some_0,
                        n->Some_0,
                        SOA_SERIAL,
                        SOA_REFRESH,
                        SOA_RETRY,
                        SOA_EXPIRE,
                        SOA_MINIMUM,
                    ),
                ),
            ),
        )
    } else {
        None
    }
}

/// The route `r` is the decision `d`.
pub open spec fn is_decision(r: Route, d: Option<Seq<char>>) -> bool {
    match r {
        Route::Ipv6Blocked => d is None,
        Route::Forward(t) => d == Some(t@),
    }
}

/// Rules, upstreams and the IPv6 switch, checked to agree.
pub struct Router {
    filter: Filter,
    disable_ipv6: bool,
    upstreams: Upstreams,
}

impl Router {
    pub closed spec fn rules(&self) -> Seq<Rule> {
        self.filter.rules()
    }

    pub closed spec fn default(&self) -> Seq<char> {
        self.filter.spec_default_tag()@
    }

    pub closed spec fn ups(&self) -> Seq<Upstream> {
        self.upstreams.entries()
    }

    pub closed spec fn spec_disable_ipv6(&self) -> bool {
        self.disable_ipv6
    }

    pub closed spec fn spec_cache_size(&self) -> usize {
        self.upstreams.spec_cache_size()
    }

    /// The matchers of the rules are well formed.
    pub closed spec fn wf(&self) -> bool {
        rules_wf(self.rules())
    }

    /// A router over these upstreams and rules, which fails where `check` does.
    pub fn new(
        upstreams: Vec<Upstream>,
        disable_ipv6: bool,
        cache_size: usize,
        default_tag: String,
        rules: Vec<Rule>,
    ) -> (r: Result<Router, ConfigError>)
        requires
            rules_wf(rules@),
        ensures
            r is Ok <==> config_ok(rules@, default_tag@, upstreams@),
            r matches Ok(router) ==> {
                &&& router.wf()
                &&& router.rules() == rules@
                &&& router.default() == default_tag@
                &&& router.ups() == upstreams@
                &&& router.spec_disable_ipv6() == disable_ipv6
                &&& router.spec_cache_size() == cache_size
            },
            r matches Err(e) ==> (e is BadHybrid <==> !hybrids_ok(upstreams@)),
            r matches Err(ConfigError::BadHybrid(h)) ==> first_bad_hybrid(upstreams@, h@),
            r matches Err(ConfigError::MissingTag(t)) ==> hybrids_ok(upstreams@) && t@
                == first_missing(rules@, default_tag@, upstreams@),
    {
        let filter = Filter::new(default_tag, rules);
        let router = Router {
            disable_ipv6,
            upstreams: Upstreams::new(upstreams, cache_size),
            filter,
        };
        match router.check() {
            Ok(_) => Ok(router),
            Err(e) => Err(e),
        }
    }

    /// Succeeds with `true` when the configuration agrees; otherwise fails
    /// naming the first bad hybrid, else the first rule's tag that no upstream
    /// has, else the default tag.
    pub fn check(&self) -> (r: Result<bool, ConfigError>)
        ensures
            r is Ok <==> config_ok(self.rules(), self.default(), self.ups()),
            r matches Ok(b) ==> b,
            r matches Err(e) ==> (e is BadHybrid <==> !hybrids_ok(self.ups())),
            r matches Err(ConfigError::BadHybrid(h)) ==> first_bad_hybrid(self.ups(), h@),
            r matches Err(ConfigError::MissingTag(t)) ==> hybrids_ok(self.ups()) && t@
                == first_missing(self.rules(), self.default(), self.ups()),
    {
        match self.upstreams.hybrid_check() {
            Ok(_) => {},
            Err(e) => {
                return Err(e);
            },
        }
        let rules = self.filter.rule_list();
        let ghost rs = rules@;
        let ghost d = self.default();
        let ghost ups = self.ups();
        let mut i: usize = 0;
        assert(rs.subrange(0, rs.len() as int) =~= rs);
        while i < rules.len()
            invariant
                rs == rules@,
                rs == self.rules(),
                d == self.default(),
                ups == self.ups(),
                hybrids_ok(ups),
                i <= rs.len(),
                forall|j: int| 0 <= j < i ==> has_tag(ups, (#[trigger] rs[j]).dst@),
                first_missing(rs, d, ups) == first_missing(rs.subrange(i as int, rs.len() as int), d, ups),
            decreases rs.len() - i,
        {
            assert(rs.subrange(i as int, rs.len() as int)[0] == rs[i as int]);
            match self.upstreams.require_tag(&rules[i].dst) {
                Ok(_) => {},
                Err(e) => {
                    assert(dsts(rs).contains(rs[i as int].dst@));
                    return Err(e);
                },
            }
            assert(rs.subrange(i as int, rs.len() as int).drop_first() =~= rs.subrange(
                i + 1,
                rs.len() as int,
            ));
            i = i + 1;
        }
        assert forall|t: Seq<char>| #[trigger] dsts(rs).contains(t) implies has_tag(ups, t) by {
            let j = choose|j: int| 0 <= j < rs.len() && (#[trigger] rs[j]).dst@ == t;
        }
        assert(rs.subrange(rs.len() as int, rs.len() as int) =~= Seq::<Rule>::empty());
        match self.upstreams.require_tag(self.filter.default_tag()) {
            Ok(_) => Ok(true),
            Err(e) => Err(e),
        }
    }

    /// Where a message with these queries (type code and name each) goes.
    pub fn route_queries(&self, queries: &Vec<(u16, String)>) -> (r: Route)
        requires
            self.wf(),
        ensures
            is_decision(
                r,
                decision(
                    self.rules(),
                    self.default(),
                    self.spec_disable_ipv6(),
                    queries@.map_values(|q: (u16, String)| (q.0, q.1@)),
                ),
            ),
    {
        if queries.len() == 1 {
            let q = &queries[0];
            if q.0 == AAAA_TYPE && self.disable_ipv6 {
                Route::Ipv6Blocked
            } else {
                Route::Forward(self.filter.get_upstream(q.1.as_str()).clone())
            }
        } else {
            Route::Forward(self.filter.default_tag().clone())
        }
    }

    /// Where `msg` goes: the decision for the type code and name text of
    /// each query it carries.
    pub fn route(&self, msg: &Message) -> (r: Route)
        requires
            self.wf(),
        ensures
            is_decision(
                r,
                decision(
                    self.rules(),
                    self.default(),
                    self.spec_disable_ipv6(),
                    query_keys(queries_of(*msg)),
                ),
            ),
    {
        let qs = message_queries(msg);
        let mut v: Vec<(u16, String)> = Vec::new();
        let mut i: usize = 0;
        while i < qs.len()
            invariant
                i <= qs@.len(),
                qs@ == queries_of(*msg),
                v@.map_values(|q: (u16, String)| (q.0, q.1@)) == query_keys(
                    qs@.subrange(0, i as int),
                ),
            decreases qs@.len() - i,
        {
            let ghost before = v@.map_values(|q: (u16, String)| (q.0, q.1@));
            v.push((query_type_code(&qs[i]), query_name_text(&qs[i])));
            assert(v@.map_values(|q: (u16, String)| (q.0, q.1@)) =~= before.push(
                (type_code_of(qs@[i as int]), name_text_of(qs@[i as int])),
            ));
            assert(qs@.subrange(0, i + 1) =~= qs@.subrange(0, i as int).push(qs@[i as int]));
            assert(query_keys(qs@.subrange(0, i + 1)) =~= query_keys(
                qs@.subrange(0, i as int),
            ).push((type_code_of(qs@[i as int]), name_text_of(qs@[i as int]))));
            i = i + 1;
        }
        assert(qs@.subrange(0, qs@.len() as int) =~= qs@);
        self.route_queries(&v)
    }

    /// Whether IPv6 queries are answered at once instead of forwarded.
    pub fn disable_ipv6(&self) -> (r: bool)
        ensures
            r == self.spec_disable_ipv6(),
    {
        self.disable_ipv6
    }

    /// The rules and the default tag.
    pub fn filter(&self) -> (r: &Filter)
        ensures
            self.wf() ==> rules_wf(r.rules()),
            r.rules() == self.rules(),
            r.spec_default_tag()@ == self.default(),
    {
        &self.filter
    }

    /// The upstreams.
    pub fn upstreams(&self) -> (r: &Upstreams)
        ensures
            r.entries() == self.ups(),
            r.spec_cache_size() == self.spec_cache_size(),
    {
        &self.upstreams
    }
}

/// A routed name goes to the default tag or to the tag of some rule.
pub proof fn lemma_route_target(rules: Seq<Rule>, default: Seq<char>, name: Seq<char>)
    ensures
        route(rules, default, name) == default || dsts(rules).contains(route(rules, default, name)),
    decreases rules.len(),
{
    if rules.len() > 0 && !crate::matcher::matched_by(rules[0].matcher@, name) {
        lemma_route_target(rules.drop_first(), default, name);
        let t = route(rules, default, name);
        if t != default {
            let j = choose|j: int|
                0 <= j < rules.drop_first().len() && (#[trigger] rules.drop_first()[j]).dst@ == t;
            assert(rules[j + 1].dst@ == t);
        }
    } else if rules.len() > 0 {
        assert(rules[0].dst@ == route(rules, default, name));
    }
}

/// A configuration is refused when a rule's tag or the default tag is no
/// upstream's. Where no upstream is a hybrid, it is accepted exactly when all
/// of those tags are upstreams'.
pub proof fn lemma_tags_decide(rules: Seq<Rule>, default: Seq<char>, ups: Seq<Upstream>)
    ensures
        !has_tag(ups, default) ==> !config_ok(rules, default, ups),
        forall|t: Seq<char>|
            #[trigger] dsts(rules).contains(t) && !has_tag(ups, t) ==> !config_ok(
                rules,
                default,
                ups,
            ),
        (forall|i: int| 0 <= i < ups.len() ==> refs_of(#[trigger] ups[i]).len() == 0) ==> (
        config_ok(rules, default, ups) <==> (has_tag(ups, default) && forall|t: Seq<char>|
            #[trigger] dsts(rules).contains(t) ==> has_tag(ups, t))),
{
    if forall|i: int| 0 <= i < ups.len() ==> refs_of(#[trigger] ups[i]).len() == 0 {
        assert forall|i: int|
            0 <= i < ups.len() && #[trigger] is_last(ups, ups[i].tag@, i) implies path_ok(
            ups,
            seq![i as usize],
        ) by {
            let p = seq![i as usize];
            assert(p.last() == i as usize);
            assert(refs_of(ups[p.last() as int]).len() == 0);
        }
    }
}

/// With IPv6 disabled, a message whose one query asks for IPv6 addresses is
/// answered at once and goes to no upstream.
pub proof fn lemma_ipv6_blocked(rules: Seq<Rule>, default: Seq<char>, queries: Seq<(u16, Seq<char>)>)
    requires
        queries.len() == 1,
        queries[0].0 == AAAA_TYPE,
    ensures
        decision(rules, default, true, queries) is None,
{
}

/// A message with no query, or with more than one, goes to the default tag,
/// whatever the rules and the IPv6 switch.
pub proof fn lemma_multi_query_default(
    rules: Seq<Rule>,
    default: Seq<char>,
    disable_ipv6: bool,
    queries: Seq<(u16, Seq<char>)>,
)
    requires
        queries.len() != 1,
    ensures
        decision(rules, default, disable_ipv6, queries) == Some(default),
{
}

/// The answer to a suppressed IPv6 query: `msg` with a start-of-authority
/// record for the queried name, with a time to live of one day, in its
/// additional section. A message without a query gets a server failure.
pub fn ipv6_reply(msg: Message) -> (r: Message)
    ensures
        match blocked_answer(msg) {
            Some(m) => r == m,
            None => is_failure_for(r, msg),
        },
{
    let mut msg = msg;
    let qs = message_queries(&msg);
    if qs.len() == 0 {
        return failure_reply(&msg);
    }
    let name = query_name(&qs[0]);
    match (name_from_text(SOA_MNAME), name_from_text(SOA_RNAME)) {
        (Some(mname), Some(rname)) => {
            let data = soa_rdata(
                mname,
                rname,
                SOA_SERIAL,
                SOA_REFRESH,
                SOA_RETRY,
                SOA_EXPIRE,
                SOA_MINIMUM,
            );
            add_additional(&mut msg, record_from_rdata(name, MAX_TTL, data));
            msg
        },
        _ => failure_reply(&msg),
    }
}

/// A server failure that carries the id and op code of `msg`.
pub fn failure_reply(msg: &Message) -> (r: Message)
    ensures
        is_failure_for(r, *msg),
{
    error_message(message_id(msg), message_op_code(msg), SERVFAIL)
}

/// The reply to `request` once its upstream has answered: the answer itself,
/// or a server failure where the upstream failed.
pub fn settle<E>(request: &Message, outcome: Result<Message, E>) -> (r: Message)
    ensures
        outcome matches Ok(m) ==> r == m,
        outcome is Err ==> is_failure_for(r, *request),
{
    match outcome {
        Ok(m) => m,
        Err(_) => failure_reply(request),
    }
}

} // verus!
