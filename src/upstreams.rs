//! The upstream servers and the failover policy across them: servers are tried
//! in their configured order, each once per request, and the first answer wins.
use vstd::prelude::*;
use crate::dns::{Message, MessageV};
use crate::settings::UpstreamSettings;

verus! {

/// How a query reaches an upstream server.
#[derive(Debug, Clone, Copy, PartialEq, Eq, Structural)]
pub enum Transport {
    Udp,
    Tcp,
}

/// One upstream server and its observed health.
#[derive(Debug)]
pub struct Upstream {
    pub address: String,
    pub port: u16,
    pub protocol: Transport,
    /// Cleared when an attempt on this server times out or fails, set again when it answers.
    pub healthy: bool,
}

/// The configured upstream servers, in order.
#[derive(Debug)]
pub struct Upstreams {
    upstreams: Vec<Upstream>,
}

/// The next thing the failover does for a request.
#[derive(Debug)]
pub enum UpstreamStep {
    /// Send the query to the server at this position.
    Send(usize),
    /// A server answered with this message.
    Answered(Message),
    /// Every server was tried and none answered.
    Failed,
}

/// The value of a failover step.
pub enum StepV {
    Send(nat),
    Answered(MessageV),
    Failed,
}

/// The value of a failover step.
pub open spec fn step_view(s: UpstreamStep) -> StepV {
    match s {
        UpstreamStep::Send(i) => StepV::Send(i as nat),
        UpstreamStep::Answered(m) => StepV::Answered(m@),
        UpstreamStep::Failed => StepV::Failed,
    }
}

/// The first step for a request with `n` servers configured.
pub open spec fn first_step(n: nat) -> StepV {
    if n > 0 {
        StepV::Send(0)
    } else {
        StepV::Failed
    }
}

/// The step after the attempt on server `attempt` gave `reply` (`None`: a timeout
/// or a transport error), with `n` servers configured.
pub open spec fn next_step(n: nat, attempt: nat, reply: Option<MessageV>) -> StepV {
    match reply {
        Some(m) => StepV::Answered(m),
        None => if attempt + 1 < n {
            StepV::Send(attempt + 1)
        } else {
            StepV::Failed
        },
    }
}

/// The transport named by a configured protocol: `tcp`, or else UDP.
pub open spec fn transport_of(p: Seq<char>) -> Transport {
    if p == "tcp"@ {
        Transport::Tcp
    } else {
        Transport::Udp
    }
}

impl Upstreams {
    /// The servers of the settings, in order, all healthy.
    pub fn new(upstream_settings: &[UpstreamSettings]) -> (r: Upstreams)
        ensures
            r.len() == upstream_settings@.len(),
            forall|i: int|
                0 <= i < upstream_settings@.len() ==> {
                    &&& (#[trigger] r.servers()[i]).address@ == upstream_settings@[i].address@
                    &&& r.servers()[i].port == upstream_settings@[i].port
                    &&& r.servers()[i].protocol == transport_of(upstream_settings@[i].protocol@)
                    &&& r.servers()[i].healthy
                },
    {
        let mut upstreams: Vec<Upstream> = Vec::new();
        let tcp = "tcp".to_owned();
        let mut i: usize = 0;
        while i < upstream_settings.len()
            invariant
                i <= upstream_settings@.len(),
                upstreams@.len() == i,
                tcp@ == "tcp"@,
                forall|j: int|
                    0 <= j < i ==> {
                        &&& (#[trigger] upstreams@[j]).address@ == upstream_settings@[j].address@
                        &&& upstreams@[j].port == upstream_settings@[j].port
                        &&& upstreams@[j].protocol == transport_of(upstream_settings@[j].protocol@)
                        &&& upstreams@[j].healthy
                    },
            decreases upstream_settings@.len() - i,
        {
            let us = &upstream_settings[i];
            let protocol = if us.protocol == tcp {
                Transport::Tcp
            } else {
                Transport::Udp
            };
            upstreams.push(
                Upstream { address: us.address.clone(), port: us.port, protocol, healthy: true },
            );
            i = i + 1;
        }
        Upstreams { upstreams }
    }

    /// The servers, in order.
    pub closed spec fn servers(&self) -> Seq<Upstream> {
        self.upstreams@
    }

    /// The number of servers.
    pub open spec fn len(&self) -> nat {
        self.servers().len()
    }

    /// The health flag of each server, in order.
    pub open spec fn health(&self) -> Seq<bool> {
        Seq::new(self.len(), |i: int| self.servers()[i].healthy)
    }

    /// The number of servers.
    pub fn count(&self) -> (r: usize)
        ensures
            r == self.len(),
    {
        self.upstreams.len()
    }

    /// The server at position `i`.
    pub fn server(&self, i: usize) -> (r: &Upstream)
        requires
            i < self.len(),
        ensures
            *r == self.servers()[i as int],
    {
        &self.upstreams[i]
    }

    /// The first step of a request: the first server, if there is one.
    pub fn start(&self) -> (r: UpstreamStep)
        ensures
            step_view(r) == first_step(self.len()),
    {
        if self.upstreams.len() > 0 {
            UpstreamStep::Send(0)
        } else {
            UpstreamStep::Failed
        }
    }

    /// Takes the outcome of the attempt on server `attempt`: an answer is returned
    /// at once; a timeout or transport error (`None`) marks the server unhealthy
    /// and moves on to the next server, or fails once none is left.
    pub fn query(&mut self, attempt: usize, reply: Option<Message>) -> (r: UpstreamStep)
        requires
            attempt < old(self).len(),
        ensures
            step_view(r) == next_step(old(self).len(), attempt as nat, crate::dns::message_opt_view(reply)),
            final(self).len() == old(self).len(),
            forall|i: int|
                0 <= i < old(self).len() && i != attempt ==> #[trigger] final(self).servers()[i]
                    == old(self).servers()[i],
            final(self).servers()[attempt as int].healthy == (reply is Some),
            final(self).servers()[attempt as int].address == old(self).servers()[attempt as int].address,
            final(self).servers()[attempt as int].port == old(self).servers()[attempt as int].port,
            final(self).servers()[attempt as int].protocol == old(self).servers()[attempt as int].protocol,
    {
        let mut u = self.upstreams.remove(attempt);
        u.healthy = reply.is_some();
        self.upstreams.insert(attempt, u);
        match reply {
            Some(m) => UpstreamStep::Answered(m),
            None => {
                if attempt < self.upstreams.len() - 1 {
                    UpstreamStep::Send(attempt + 1)
                } else {
                    UpstreamStep::Failed
                }
            },
        }
    }
}

/// Failover: a timeout on a server moves strictly forward to the next one, so no
/// server is retried within a request; once the next server answers, its answer
/// is the result.
pub proof fn lemma_failover(n: nat, first: nat, answer: MessageV)
    requires
        first + 1 < n,
    ensures
        next_step(n, first, None) == StepV::Send(first + 1),
        next_step(n, first + 1, Some(answer)) == StepV::Answered(answer),
        forall|a: nat, j: nat| next_step(n, a, None) == StepV::Send(j) ==> a < j < n,
{
}

} // verus!
