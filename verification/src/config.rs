//! Per-listener configuration and its validation rules.
//!
//! Parsing the YAML file and spawning listeners involve file I/O and an
//! async runtime and live in the surrounding application; the types and the
//! validation logic are here.

use vstd::prelude::*;

verus! {

#[derive(Debug, PartialEq, Clone)]
pub struct StaticFileConfig {
    pub path: String,
    pub dir: Vec<String>,
}

/// Upstream address(es) of a proxying listener.
#[derive(Debug, PartialEq, Clone)]
pub enum ProxyType {
    Single(String),
    Multiple(Vec<String>),
}

#[derive(Debug, PartialEq, Clone)]
pub struct ServerConfig {
    pub listen: u16,
    pub cache: Option<usize>,
    pub root: Option<String>,
    pub proxy: Option<ProxyType>,
    pub proxy_health: Option<String>,
    pub strategy: Option<String>,
    pub weights: Option<Vec<u8>>,
}

#[derive(Debug)]
pub struct Config {
    pub http: Vec<ServerConfig>,
}

/// Why a configuration was rejected.
#[derive(Debug, PartialEq, Eq, Structural, Clone, Copy)]
pub enum ConfigError {
    /// `weights` given but its length differs from the number of proxy
    /// addresses.
    WeightsLengthMismatch,
    /// A weight of `0` was given.
    ZeroWeight,
    /// `weights` given for a single proxy address.
    WeightsOnSingleProxy,
}

/// The complaint `validate` raises about one listener, if any: weights must
/// accompany multiple proxy addresses, match their number, and be non-zero.
/// A length mismatch is reported before a zero weight.
pub open spec fn server_weight_issue(s: ServerConfig) -> Option<ConfigError> {
    match (s.weights, s.proxy) {
        (Some(w), Some(p)) => match p {
            ProxyType::Multiple(ps) => if w@.len() != ps@.len() {
                Some(ConfigError::WeightsLengthMismatch)
            } else if exists|i: int| 0 <= i < w@.len() && w@[i] == 0 {
                Some(ConfigError::ZeroWeight)
            } else {
                None
            },
            ProxyType::Single(_) => Some(ConfigError::WeightsOnSingleProxy),
        },
        _ => None,
    }
}

pub open spec fn valid_server(s: ServerConfig) -> bool {
    server_weight_issue(s) is None
}

pub open spec fn valid_config(c: Config) -> bool {
    forall|i: int| 0 <= i < c.http@.len() ==> valid_server(#[trigger] c.http@[i])
}

/// Checks every listener's weight settings; `Ok` exactly on valid
/// configurations, otherwise the first complaint in listener order.
#[verifier::loop_isolation(false)]
pub fn validate(config: &Config) -> (r: Result<(), ConfigError>)
    ensures
        r is Ok <==> valid_config(*config),
        (r matches Err(e) ==> exists|j: int|
            0 <= j < config.http@.len()
                && #[trigger] server_weight_issue(config.http@[j]) == Some(e)
                && forall|i: int| 0 <= i < j ==> valid_server(#[trigger] config.http@[i])),
{
    let mut si: usize = 0;
    while si < config.http.len()
        invariant
            si <= config.http@.len(),
            forall|i: int| 0 <= i < si ==> valid_server(#[trigger] config.http@[i]),
        decreases config.http@.len() - si,
    {
        let server = &config.http[si];
        match (&server.weights, &server.proxy) {
            (Some(w), Some(p)) => {
                match p {
                    ProxyType::Multiple(ps) => {
                        if w.len() != ps.len() {
                            proof {
                                assert(server_weight_issue(config.http@[si as int])
                                    == Some(ConfigError::WeightsLengthMismatch));
                            }
                            return Err(ConfigError::WeightsLengthMismatch);
                        }
                        let mut wi: usize = 0;
                        while wi < w.len()
                            invariant
                                wi <= w@.len(),
                                forall|k: int| 0 <= k < wi ==> #[trigger] w@[k] != 0,
                            decreases w@.len() - wi,
                        {
                            if w[wi] == 0 {
                                proof {
                                    assert(server_weight_issue(config.http@[si as int])
                                        == Some(ConfigError::ZeroWeight));
                                }
                                return Err(ConfigError::ZeroWeight);
                            }
                            wi = wi + 1;
                        }
                        proof {
                            assert(valid_server(config.http@[si as int]));
                        }
                    },
                    ProxyType::Single(_) => {
                        proof {
                            assert(server_weight_issue(config.http@[si as int])
                                == Some(ConfigError::WeightsOnSingleProxy));
                        }
                        return Err(ConfigError::WeightsOnSingleProxy);
                    },
                }
            },
            _ => {
                proof {
                    assert(valid_server(config.http@[si as int]));
                }
            },
        }
        si = si + 1;
    }
    Ok(())
}

} // verus!
