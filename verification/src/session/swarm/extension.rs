//! The optional modules of a swarm.

use crate::session::swarm::pex::PexExtension;
use crate::session::swarm::super_seed::SuperSeedExtension;
use crate::session::webseed::WebSeedConfig;
use crate::time::Nanos;
use vstd::prelude::*;

verus! {

/// The web seeds of a torrent.
pub struct WebSeedExtension {
    /// URLs of the web seeds.
    pub urls: Vec<String>,
    /// Configuration of each download.
    pub config: WebSeedConfig,
    /// Concurrent downloads.
    pub concurrency: usize,
}

/// An optional module that hooks into the swarm loop.
pub enum SwarmExtension {
    /// Peer exchange.
    Pex(PexExtension),
    /// Super seeding.
    SuperSeed(SuperSeedExtension),
    /// Web seeds.
    WebSeed(WebSeedExtension),
}

/// Builder for the optional modules of a swarm, in the order in which they are
/// called.
pub struct SwarmBuilder {
    extensions: Vec<SwarmExtension>,
}

impl View for SwarmBuilder {
    type V = Seq<SwarmExtension>;

    closed spec fn view(&self) -> Seq<SwarmExtension> {
        self.extensions@
    }
}

impl SwarmBuilder {
    /// Create a new builder with no extensions.
    pub fn new() -> (b: SwarmBuilder)
        ensures
            b@ == Seq::<SwarmExtension>::empty(),
    {
        SwarmBuilder { extensions: Vec::new() }
    }

    /// Register an extension behind those already registered.
    pub fn extension(self, ext: SwarmExtension) -> (b: SwarmBuilder)
        ensures
            b@ == self@.push(ext),
    {
        let mut extensions = self.extensions;
        extensions.push(ext);
        SwarmBuilder { extensions }
    }

    /// Add peer exchange, if enabled.
    pub fn maybe_pex(self, enabled: bool, interval: Nanos) -> (b: SwarmBuilder)
        ensures
            !enabled ==> b@ == self@,
            enabled ==> b@.len() == self@.len() + 1 && b@.drop_last() == self@ && (
            b@.last() matches SwarmExtension::Pex(x) && x.spec_interval() == interval
                && x.dropped().len() == 0),
    {
        if enabled {
            let b = self.extension(SwarmExtension::Pex(PexExtension::new(interval)));
            assert(b@.drop_last() =~= self@);
            b
        } else {
            self
        }
    }

    /// Add super seeding, if enabled.
    pub fn maybe_super_seed(self, enabled: bool) -> (b: SwarmBuilder)
        ensures
            !enabled ==> b@ == self@,
            enabled ==> b@.len() == self@.len() + 1 && b@.drop_last() == self@ && (
            b@.last() matches SwarmExtension::SuperSeed(x) && x.wf() && x@.dom().is_empty()),
    {
        if enabled {
            let b = self.extension(SwarmExtension::SuperSeed(SuperSeedExtension::new()));
            assert(b@.drop_last() =~= self@);
            b
        } else {
            self
        }
    }

    /// Add web seeds, if enabled and if there are any.
    pub fn maybe_webseed(
        self,
        enabled: bool,
        urls: Vec<String>,
        config: WebSeedConfig,
        concurrency: usize,
    ) -> (b: SwarmBuilder)
        ensures
            b@ == if enabled && urls@.len() > 0 {
                self@.push(
                    SwarmExtension::WebSeed(WebSeedExtension { urls, config, concurrency }),
                )
            } else {
                self@
            },
    {
        if enabled && urls.len() > 0 {
            self.extension(
                SwarmExtension::WebSeed(WebSeedExtension { urls, config, concurrency }),
            )
        } else {
            self
        }
    }

    /// Consume the builder and return the registered extensions.
    pub fn build(self) -> (r: Vec<SwarmExtension>)
        ensures
            r@ == self@,
    {
        self.extensions
    }
}

} // verus!
