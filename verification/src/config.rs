//! Static configuration data: the Lightning node endpoint and the protected
//! backends. The file/environment loading shell lives outside the library;
//! here are the plain records and the pricing rules.
use vstd::prelude::*;

use crate::lsat::MiliSats;

verus! {

/// Connection settings for the Lightning node.
#[derive(Debug)]
pub struct Lnd {
    pub host: String,
    pub tls_path: String,
    pub mac_path: String,
}

/// One protected backend: where to forward, what to charge, and how to shape
/// the upstream request and response.
#[derive(Debug)]
pub struct Backend {
    pub name: String,
    pub path: String,
    pub upstream: String,
    pub headers: Vec<String>,
    pub body: String,
    pub pass_fields: Vec<(String, String)>,
    pub capabilties: String,
    pub constraints: Vec<(String, String)>,
    pub price_msat: u32,
    pub budget_multiple: Option<u32>,
    pub price_passthrough: bool,
    pub response_fields: String,
}

impl Backend {
    /// The budget factor: the configured multiple, floored at one.
    pub open spec fn spec_multiple(&self) -> u32 {
        match self.budget_multiple {
            Some(m) => if m >= 1 {
                m
            } else {
                1
            },
            None => 1,
        }
    }

    /// The amount charged at mint time: price times budget multiple.
    pub fn amount_total(&self) -> (r: MiliSats)
        requires
            self.price_msat * self.spec_multiple() <= u32::MAX,
        ensures
            r.0 == self.price_msat * self.spec_multiple(),
    {
        let m: u32 = match self.budget_multiple {
            Some(m) => if m >= 1 {
                m
            } else {
                1
            },
            None => 1,
        };
        assert(m == self.spec_multiple());
        MiliSats(self.price_msat * m)
    }

    /// The amount charged per verified call.
    pub fn get_price(&self) -> (r: MiliSats)
        ensures
            r.0 == self.price_msat,
    {
        MiliSats(self.price_msat)
    }
}

} // verus!
