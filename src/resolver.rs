//! The resolution pipeline. Each request goes through the blocklist, the cache,
//! the upstream servers and, failing those, an NXDOMAIN reply; the first stage
//! that commits to an outcome ends it. The pipeline decides; the caller performs
//! each `Action` and hands back what came of it.
use vstd::prelude::*;
use crate::cache::{
    cache_wf, expiry, key_of, lemma_put_then_query, lower_labels, lower_name, put_post, query_post,
    Cache, CacheKey, CacheV, KeyV,
};
use crate::dns::{
    answer_min_ttl, labels_view, message_opt_view, min_ttl, reply_view, relayed, Message,
    MessageV, RCode,
};
use crate::settings::ResolverSettings;
use crate::upstreams::{first_step, next_step, StepV, UpstreamStep, Upstreams};

verus! {

/// Whether name `n` ends with the labels `d`: the same name, or a subdomain of it.
pub open spec fn ends_with(n: Seq<Seq<u8>>, d: Seq<Seq<u8>>) -> bool {
    d.len() <= n.len() && n.subrange(n.len() - d.len(), n.len() as int) == d
}

/// Whether a lower-case name is blocked by the list `bl` of lower-case domains.
pub open spec fn blocked(bl: Seq<Seq<Seq<u8>>>, n: Seq<Seq<u8>>) -> bool {
    exists|i: int| 0 <= i < bl.len() && ends_with(n, #[trigger] bl[i])
}

/// A set of blocked domains. A domain blocks itself and every name under it;
/// letters match whatever their case.
#[derive(Debug)]
pub struct Blocklist {
    domains: Vec<Vec<Vec<u8>>>,
}

impl View for Blocklist {
    type V = Seq<Seq<Seq<u8>>>;

    closed spec fn view(&self) -> Seq<Seq<Seq<u8>>> {
        Seq::new(self.domains@.len(), |i: int| labels_view(self.domains@[i]@))
    }
}

/// Whether two labels hold the same octets.
fn bytes_equal(a: &Vec<u8>, b: &Vec<u8>) -> (r: bool)
    ensures
        r == (a@ == b@),
{
    if a.len() != b.len() {
        return false;
    }
    let mut k: usize = 0;
    while k < a.len()
        invariant
            k <= a@.len(),
            a@.len() == b@.len(),
            forall|j: int| 0 <= j < k ==> a@[j] == b@[j],
        decreases a@.len() - k,
    {
        if a[k] != b[k] {
            return false;
        }
        k = k + 1;
    }
    assert(a@ =~= b@);
    true
}

/// Whether name `n` ends with the labels `d`.
fn name_ends_with(n: &Vec<Vec<u8>>, d: &Vec<Vec<u8>>) -> (r: bool)
    ensures
        r == ends_with(labels_view(n@), labels_view(d@)),
{
    let ghost nv = labels_view(n@);
    let ghost dv = labels_view(d@);
    if d.len() > n.len() {
        return false;
    }
    let nl = n.len();
    let off = nl - d.len();
    let mut i: usize = 0;
    while i < d.len()
        invariant
            i <= d@.len(),
            nl == n@.len(),
            off + d@.len() == n@.len(),
            nv == labels_view(n@),
            dv == labels_view(d@),
            forall|j: int| 0 <= j < i ==> nv[off + j] == dv[j],
        decreases d@.len() - i,
    {
        if !bytes_equal(&n[off + i], &d[i]) {
            assert(nv.subrange(off as int, n@.len() as int)[i as int] != dv[i as int]);
            return false;
        }
        i = i + 1;
    }
    assert(nv.subrange(off as int, n@.len() as int) =~= dv);
    true
}

impl Blocklist {
    /// An empty blocklist.
    pub fn new() -> (r: Blocklist)
        ensures
            r@ == Seq::<Seq<Seq<u8>>>::empty(),
    {
        let r = Blocklist { domains: Vec::new() };
        assert(r@ =~= Seq::<Seq<Seq<u8>>>::empty());
        r
    }

    /// Blocks the domain `name` and every name under it.
    pub fn insert(&mut self, name: &Vec<Vec<u8>>)
        ensures
            final(self)@ == old(self)@.push(lower_name(labels_view(name@))),
    {
        let l = lower_labels(name);
        self.domains.push(l);
        assert(self@ =~= old(self)@.push(lower_name(labels_view(name@))));
    }

    /// Whether the name `name` is blocked: it equals a blocked domain, or lies
    /// under one, in any letter case.
    pub fn contains(&self, name: &Vec<Vec<u8>>) -> (r: bool)
        ensures
            r == blocked(self@, lower_name(labels_view(name@))),
    {
        let l = lower_labels(name);
        self.contains_lower(&l)
    }

    /// Whether the lower-case name `name` is blocked.
    fn contains_lower(&self, name: &Vec<Vec<u8>>) -> (r: bool)
        ensures
            r == blocked(self@, labels_view(name@)),
    {
        let mut i: usize = 0;
        while i < self.domains.len()
            invariant
                i <= self.domains@.len(),
                forall|j: int| 0 <= j < i ==> !ends_with(labels_view(name@), #[trigger] self@[j]),
            decreases self.domains@.len() - i,
        {
            if name_ends_with(name, &self.domains[i]) {
                assert(ends_with(labels_view(name@), self@[i as int]));
                return true;
            }
            i = i + 1;
        }
        false
    }
}


/// What the pipeline does with a query for a blocked domain; one configured
/// behaviour for every such query.
#[derive(Debug, Clone, Copy, PartialEq, Eq, Structural)]
pub enum BlockPolicy {
    /// Send nothing back.
    Drop,
    /// Reply NXDOMAIN.
    NxDomain,
    /// Reply REFUSED.
    Refused,
}

/// The policy with a configured name, if the name is one of `drop`, `nxdomain`, `refused`.
pub open spec fn policy_named(name: Seq<char>) -> Option<BlockPolicy> {
    if name == "drop"@ {
        Some(BlockPolicy::Drop)
    } else if name == "nxdomain"@ {
        Some(BlockPolicy::NxDomain)
    } else if name == "refused"@ {
        Some(BlockPolicy::Refused)
    } else {
        None
    }
}

impl BlockPolicy {
    /// The policy with the configured name `name`, or `None` for an unknown name.
    pub fn from_name(name: &String) -> (r: Option<BlockPolicy>)
        ensures
            r == policy_named(name@),
    {
        let drop = "drop".to_owned();
        let nxdomain = "nxdomain".to_owned();
        let refused = "refused".to_owned();
        if *name == drop {
            Some(BlockPolicy::Drop)
        } else if *name == nxdomain {
            Some(BlockPolicy::NxDomain)
        } else if *name == refused {
            Some(BlockPolicy::Refused)
        } else {
            None
        }
    }
}

/// What the caller is to do next for a request.
#[derive(Debug)]
pub enum Action {
    /// Send nothing; the request is done.
    Drop,
    /// Send this reply; the request is done.
    Respond(Message),
    /// Send the query to the upstream server at this position, and hand back what
    /// came of it through `on_upstream_reply`.
    Forward(usize),
}

/// The value of an action.
pub enum ActionV {
    Drop,
    Respond(MessageV),
    Forward(nat),
}

/// The value of an action.
pub open spec fn action_view(a: Action) -> ActionV {
    match a {
        Action::Drop => ActionV::Drop,
        Action::Respond(m) => ActionV::Respond(m@),
        Action::Forward(i) => ActionV::Forward(i as nat),
    }
}

/// The resolution pipeline's own state: the blocklist, the cache, the upstream servers.
pub struct Resolver {
    blocklist: Blocklist,
    cache: Cache,
    upstreams: Upstreams,
    policy: BlockPolicy,
}

/// The value of the pipeline's state.
pub struct ResolverV {
    pub blocklist: Seq<Seq<Seq<u8>>>,
    pub cache: CacheV,
    /// The health flag of each upstream server, in order.
    pub health: Seq<bool>,
    pub policy: BlockPolicy,
}

impl View for Resolver {
    type V = ResolverV;

    closed spec fn view(&self) -> ResolverV {
        ResolverV {
            blocklist: self.blocklist@,
            cache: self.cache@,
            health: self.upstreams.health(),
            policy: self.policy,
        }
    }
}

/// The action for a query that the blocklist stops.
pub open spec fn blocked_action(p: BlockPolicy, req: MessageV) -> ActionV {
    match p {
        BlockPolicy::Drop => ActionV::Drop,
        BlockPolicy::NxDomain => ActionV::Respond(reply_view(req, RCode::NXDOMAIN)),
        BlockPolicy::Refused => ActionV::Respond(reply_view(req, RCode::REFUSED)),
    }
}

/// The action that a failover step calls for.
pub open spec fn step_action(st: StepV, req: MessageV) -> ActionV {
    match st {
        StepV::Send(i) => ActionV::Forward(i),
        StepV::Answered(m) => ActionV::Respond(relayed(m, req.header.id)),
        StepV::Failed => ActionV::Respond(reply_view(req, RCode::NXDOMAIN)),
    }
}

/// The cache key of a request's first question.
pub open spec fn request_key(req: MessageV) -> KeyV {
    key_of(req.question[0])
}

/// What starting request `req` at `now` does: state `s0` becomes `s1`, and `a` is to be done.
/// A request without a question gets NXDOMAIN. A blocked name ends the request by
/// the policy and touches neither cache nor upstreams. A live cache entry is the
/// reply, with the request's id and AA cleared. Otherwise the first upstream server is asked, or,
/// with none configured, NXDOMAIN is the reply.
pub open spec fn begin_post(s0: ResolverV, req: MessageV, now: u64, s1: ResolverV, a: ActionV) -> bool {
    &&& s1.blocklist == s0.blocklist
    &&& s1.health == s0.health
    &&& s1.policy == s0.policy
    &&& if req.question.len() == 0 {
        s1 == s0 && a == ActionV::Respond(reply_view(req, RCode::NXDOMAIN))
    } else if blocked(s0.blocklist, request_key(req).qname) {
        s1 == s0 && a == blocked_action(s0.policy, req)
    } else {
        exists|r: Option<MessageV>|
            {
                &&& query_post(s0.cache, request_key(req), now, s1.cache, r)
                &&& a == match r {
                    Some(m) => ActionV::Respond(relayed(m, req.header.id)),
                    None => step_action(first_step(s0.health.len()), req),
                }
            }
    }
}

/// What the outcome `reply` of the attempt on upstream `attempt` for request `req`
/// does at `now`: an answer is the reply, with the request's id and AA cleared, and is kept in the
/// cache for the smallest TTL of its answer records (an answer without records is
/// not kept); a failure moves to the next server or, with none left, to NXDOMAIN.
pub open spec fn reply_post(
    s0: ResolverV,
    req: MessageV,
    attempt: nat,
    reply: Option<MessageV>,
    now: u64,
    s1: ResolverV,
    a: ActionV,
) -> bool {
    &&& s1.blocklist == s0.blocklist
    &&& s1.health == s0.health.update(attempt as int, reply is Some)
    &&& s1.policy == s0.policy
    &&& a == step_action(next_step(s0.health.len(), attempt, reply), req)
    &&& match reply {
        Some(m) => if m.answer.len() > 0 {
            put_post(s0.cache, request_key(req), m, min_ttl(m.answer), now, s1.cache)
        } else {
            s1.cache == s0.cache
        },
        None => s1.cache == s0.cache,
    }
}

/// The pipeline's state is consistent.
pub open spec fn resolver_wf(s: ResolverV) -> bool {
    cache_wf(s.cache)
}

impl Resolver {
    /// A pipeline with the configured cache and upstream servers, the given
    /// blocklist and the given behaviour for blocked names.
    pub fn new(resolver_settings: &ResolverSettings, blocklist: Blocklist, policy: BlockPolicy) -> (r: Resolver)
        ensures
            resolver_wf(r@),
            r@.blocklist == blocklist@,
            r@.policy == policy,
            r@.health.len() == resolver_settings.upstreams@.len(),
            forall|i: int| 0 <= i < r@.health.len() ==> #[trigger] r@.health[i],
            r@.cache.enabled == resolver_settings.cache.enabled,
            r@.cache.size == resolver_settings.cache.size,
            r@.cache.entries.len() == 0,
    {
        Resolver {
            blocklist,
            cache: Cache::new(&resolver_settings.cache),
            upstreams: Upstreams::new(resolver_settings.upstreams.as_slice()),
            policy,
        }
    }

    /// The upstream servers.
    pub fn upstreams(&self) -> (r: &Upstreams)
        ensures
            r.health() == self@.health,
    {
        &self.upstreams
    }

    /// Starts request `req` at time `now` (seconds).
    pub fn begin(&mut self, req: &Message, now: u64) -> (a: Action)
        requires
            resolver_wf(old(self)@),
        ensures
            resolver_wf(final(self)@),
            begin_post(old(self)@, req@, now, final(self)@, action_view(a)),
    {
        if req.question.len() == 0 {
            return Action::Respond(Message::new_not_found_response(req));
        }
        let key = CacheKey::of(&req.question[0]);
        assert(req@.question[0] == req.question@[0]@);
        assert(key@ == request_key(req@));
        if self.blocklist.contains(&req.question[0].qname) {
            return match self.policy {
                BlockPolicy::Drop => Action::Drop,
                BlockPolicy::NxDomain => Action::Respond(Message::new_not_found_response(req)),
                BlockPolicy::Refused => Action::Respond(Message::new_refused_response(req)),
            };
        }
        let ghost s0 = self@;
        let hit = self.cache.query(&key, now);
        let ghost r = message_opt_view(hit);
        let a = match hit {
            Some(mut m) => {
                m.header.id = req.header.id;
                m.header.aa = 0;
                assert(m@ =~= relayed(r.unwrap(), req@.header.id));
                Action::Respond(m)
            },
            None => match self.upstreams.start() {
                UpstreamStep::Send(i) => Action::Forward(i),
                UpstreamStep::Answered(m) => Action::Respond(m),
                UpstreamStep::Failed => Action::Respond(Message::new_not_found_response(req)),
            },
        };
        assert(query_post(s0.cache, request_key(req@), now, self@.cache, r));
        assert(action_view(a) == match r {
            Some(m) => ActionV::Respond(relayed(m, req@.header.id)),
            None => step_action(first_step(s0.health.len()), req@),
        });
        a
    }

    /// Takes the outcome of the attempt on upstream `attempt` for request `req`:
    /// `Some` answer, or `None` after a timeout or transport error.
    pub fn on_upstream_reply(&mut self, req: &Message, attempt: usize, reply: Option<Message>, now: u64) -> (a: Action)
        requires
            resolver_wf(old(self)@),
            req@.question.len() > 0,
            attempt < old(self)@.health.len(),
        ensures
            resolver_wf(final(self)@),
            reply_post(old(self)@, req@, attempt as nat, message_opt_view(reply), now, final(self)@, action_view(a)),
    {
        let ghost rv = message_opt_view(reply);
        let ghost h0 = self@.health;
        let step = self.upstreams.query(attempt, reply);
        assert(self@.health =~= h0.update(attempt as int, rv is Some));
        match step {
            UpstreamStep::Answered(m) => {
                match answer_min_ttl(&m) {
                    Some(ttl) => {
                        let key = CacheKey::of(&req.question[0]);
                        self.cache.put(key, m.copy(), ttl, now);
                    },
                    None => {},
                }
                let mut out = m;
                out.header.id = req.header.id;
                out.header.aa = 0;
                Action::Respond(out)
            },
            UpstreamStep::Send(i) => Action::Forward(i),
            UpstreamStep::Failed => Action::Respond(Message::new_not_found_response(req)),
        }
    }
}

/// A query for a blocked name is answered by the blocking policy alone: the
/// cache is left untouched and no upstream server is asked.
pub proof fn lemma_blocked_short_circuit(s0: ResolverV, req: MessageV, now: u64, s1: ResolverV, a: ActionV)
    requires
        req.question.len() > 0,
        blocked(s0.blocklist, request_key(req).qname),
        begin_post(s0, req, now, s1, a),
    ensures
        s1.cache == s0.cache,
        !(a is Forward),
{
}

/// Once an upstream answer with records for a name is kept, a second request for
/// that name before the answer expires is answered from the cache, with its own
/// id and AA cleared, and asks no upstream server.
pub proof fn lemma_cached_answer_reused(
    s0: ResolverV,
    req: MessageV,
    attempt: nat,
    answer: MessageV,
    now: u64,
    s1: ResolverV,
    a1: ActionV,
    req2: MessageV,
    later: u64,
    s2: ResolverV,
    a2: ActionV,
)
    requires
        resolver_wf(s0),
        s0.cache.enabled,
        s0.cache.size > 0,
        req.question.len() > 0,
        answer.answer.len() > 0,
        reply_post(s0, req, attempt, Some(answer), now, s1, a1),
        req2.question.len() > 0,
        request_key(req2) == request_key(req),
        !blocked(s1.blocklist, request_key(req2).qname),
        later < expiry(now, min_ttl(answer.answer)),
        begin_post(s1, req2, later, s2, a2),
    ensures
        a2 == ActionV::Respond(relayed(answer, req2.header.id)),
{
    let r = choose|r: Option<MessageV>|
        {
            &&& query_post(s1.cache, request_key(req2), later, s2.cache, r)
            &&& a2 == match r {
                Some(m) => ActionV::Respond(relayed(m, req2.header.id)),
                None => step_action(first_step(s1.health.len()), req2),
            }
        };
    lemma_put_then_query(
        s0.cache,
        request_key(req),
        answer,
        min_ttl(answer.answer),
        now,
        s1.cache,
        later,
        s2.cache,
        r,
    );
}

} // verus!
