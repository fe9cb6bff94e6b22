//! Load-balancing strategies: round robin, clock-seeded random, and
//! weighted round robin, behind one trait, with the selection rules that
//! pick a strategy and its weights from the listener configuration.

use vstd::prelude::*;

use crate::config::ServerConfig;
use crate::text::{clone_bytes, str_eq};

verus! {

/// What a strategy picks from: the number of upstreams and their weights.
#[derive(Debug)]
pub struct Context {
    pub size: usize,
    pub weights: Vec<u8>,
}

pub trait Strategy {
    /// Whether the strategy may pick from `ctx`.
    spec fn ready(&self, ctx: &Context) -> bool;

    /// Picks the upstream index for the next request.
    fn get_next_server(&mut self, ctx: &Context) -> (next: usize)
        requires
            old(self).ready(ctx),
        ensures
            next < ctx.size,
            final(self).ready(ctx),
    ;
}

/// Cycles through the upstreams in order.
#[derive(Debug)]
pub struct RoundRobin {
    pub current: usize,
}

/// Picks an upstream from the clock.
#[derive(Debug)]
pub struct Random {}

/// Repeats each upstream as often as its weight before moving on.
#[derive(Debug)]
pub struct WeightedRoundRobin {
    pub current: usize,
    pub current_count: u8,
}

impl Strategy for RoundRobin {
    open spec fn ready(&self, ctx: &Context) -> bool {
        ctx.size > 0 && self.current < usize::MAX
    }

    fn get_next_server(&mut self, ctx: &Context) -> (next: usize)
        ensures
            next == (old(self).current + 1) % (ctx.size as int),
            *final(self) == *old(self),
    {
        (self.current + 1) % ctx.size
    }
}

impl Strategy for Random {
    open spec fn ready(&self, ctx: &Context) -> bool {
        ctx.size > 0
    }

    fn get_next_server(&mut self, ctx: &Context) -> (next: usize) {
        crate::load_balancer::random::get_next_server(ctx.size, 0)
    }
}

impl Strategy for WeightedRoundRobin {
    open spec fn ready(&self, ctx: &Context) -> bool {
        ctx.size > 0 && self.current < ctx.size && ctx.weights@.len() == ctx.size
    }

    fn get_next_server(&mut self, ctx: &Context) -> (next: usize)
        ensures
            ctx.weights@[old(self).current as int] > old(self).current_count ==> {
                &&& final(self).current == old(self).current
                &&& final(self).current_count == old(self).current_count + 1
                &&& next == old(self).current
            },
            ctx.weights@[old(self).current as int] <= old(self).current_count ==> {
                &&& final(self).current == (old(self).current + 1) % (ctx.size as int)
                &&& final(self).current_count == 0
                &&& next == final(self).current
            },
    {
        if ctx.weights[self.current] > self.current_count {
            self.current_count = self.current_count + 1;
        } else {
            self.current_count = 0;
            self.current = (self.current + 1) % ctx.size;
        }
        self.current
    }
}

/// A strategy chosen at run time, dispatching to one of the three above.
#[derive(Debug)]
pub enum LoadBalancer {
    RoundRobin(RoundRobin),
    Random(Random),
    WeightedRoundRobin(WeightedRoundRobin),
}

impl Strategy for LoadBalancer {
    open spec fn ready(&self, ctx: &Context) -> bool {
        match self {
            LoadBalancer::RoundRobin(s) => s.ready(ctx),
            LoadBalancer::Random(s) => s.ready(ctx),
            LoadBalancer::WeightedRoundRobin(s) => s.ready(ctx),
        }
    }

    fn get_next_server(&mut self, ctx: &Context) -> (next: usize) {
        match self {
            LoadBalancer::RoundRobin(s) => s.get_next_server(ctx),
            LoadBalancer::Random(s) => s.get_next_server(ctx),
            LoadBalancer::WeightedRoundRobin(s) => s.get_next_server(ctx),
        }
    }
}

/// The strategy a listener's `strategy` setting names; anything unknown, or
/// nothing, falls back to the clock-seeded pick.
pub open spec fn spec_strategy_for(strategy: Option<String>) -> LoadBalancer {
    match strategy {
        Some(name) => if name@ == "round_robin"@ {
            LoadBalancer::RoundRobin(RoundRobin { current: 0 })
        } else if name@ == "weighted_round_robin"@ {
            LoadBalancer::WeightedRoundRobin(WeightedRoundRobin {
                current: 0,
                current_count: 0,
            })
        } else {
            LoadBalancer::Random(Random {})
        },
        None => LoadBalancer::Random(Random {}),
    }
}

/// Picks the strategy the configuration asks for.
pub fn get_load_balancer_strategy(config: &ServerConfig) -> (s: LoadBalancer)
    ensures
        s == spec_strategy_for(config.strategy),
{
    match &config.strategy {
        Some(name) => {
            if str_eq(name.as_str(), "round_robin") {
                LoadBalancer::RoundRobin(RoundRobin { current: 0 })
            } else if str_eq(name.as_str(), "weighted_round_robin") {
                LoadBalancer::WeightedRoundRobin(WeightedRoundRobin {
                    current: 0,
                    current_count: 0,
                })
            } else {
                LoadBalancer::Random(Random {})
            }
        },
        None => LoadBalancer::Random(Random {}),
    }
}

/// Weights for `proxy_size` upstreams: the configured list, padded with `1`s
/// or truncated to fit; all `1`s when none are configured.
#[verifier::loop_isolation(false)]
pub fn get_server_weights(config: &ServerConfig, proxy_size: usize) -> (w: Vec<u8>)
    ensures
        w@.len() == proxy_size,
        forall|i: int| 0 <= i < proxy_size ==> #[trigger] w@[i] == (match config.weights {
            Some(ws) => if i < ws@.len() {
                ws@[i]
            } else {
                1u8
            },
            None => 1u8,
        }),
{
    match &config.weights {
        Some(ws) => {
            let mut result = clone_bytes(ws);
            if result.len() > proxy_size {
                result.truncate(proxy_size);
            }
            while result.len() < proxy_size
                invariant
                    result@.len() <= proxy_size,
                    result@.len() < proxy_size ==> ws@.len() <= result@.len(),
                    result@.len() >= ws@.len() ==> result@.subrange(0, ws@.len() as int)
                        == ws@,
                    result@.len() < ws@.len() ==> result@ == ws@.subrange(
                        0,
                        result@.len() as int,
                    ),
                    forall|j: int| ws@.len() <= j < result@.len() ==> #[trigger] result@[j] == 1u8,
                decreases proxy_size - result@.len(),
            {
                result.push(1u8);
                proof {
                    if result@.len() > ws@.len() {
                        assert(result@.subrange(0, ws@.len() as int) =~= ws@);
                    }
                }
            }
            result
        },
        None => {
            let result = vec![1u8; proxy_size];
            proof {
                assert forall|i: int| 0 <= i < proxy_size implies result@[i] == 1u8 by {
                    assert(cloned::<u8>(1u8, result@[i]));
                }
            }
            result
        },
    }
}

/// One scan for a healthy upstream: draws indices from the strategy until a
/// healthy one comes up, giving up after more than `ctx.size` draws.  The
/// surrounding application pauses and retries a failed scan, and shuts the
/// connection after repeated failures.
pub fn get_healthy_server<S: Strategy>(
    strategy: &mut S,
    ctx: &Context,
    health: &Vec<bool>,
) -> (r: Option<usize>)
    requires
        old(strategy).ready(ctx),
        health@.len() == ctx.size,
    ensures
        final(strategy).ready(ctx),
        (r matches Some(i) ==> i < ctx.size && health@[i as int]),
{
    let mut iter_count: usize = 0;
    while iter_count <= ctx.size
        invariant
            strategy.ready(ctx),
            health@.len() == ctx.size,
        decreases ctx.size + 1 - iter_count,
    {
        let current = strategy.get_next_server(ctx);
        if health[current] {
            return Some(current);
        }
        if iter_count == ctx.size {
            return None;
        }
        iter_count = iter_count + 1;
    }
    None
}

} // verus!
