//! The sampler's configuration from its environment values and its
//! command-line arguments; an argument overrides the environment.

use vstd::prelude::*;
use crate::text::{parse_u64, parse_u64_spec, seq_starts_with, starts_with, to_chars, owned_range};

verus! {

/// Seconds between ticks when none is configured.
pub const DEFAULT_INTERVAL: u64 = 5;

/// The flag a node is shown with when none is configured.
pub const DEFAULT_FLAG: &'static str = "🖥️";

/// The sampler's configuration.
pub struct Config {
    pub token: String,
    pub endpoint: String,
    /// Seconds between ticks, at least 1.
    pub interval: u64,
    pub flag: String,
}

/// A required setting that was given neither in the environment nor as an
/// argument.
#[derive(Clone, Copy, Debug, PartialEq, Eq, Structural)]
pub enum ConfigError {
    MissingToken,
    MissingEndpoint,
}

impl ConfigError {
    /// The message the sampler exits with.
    pub fn message(&self) -> (r: &'static str)
        ensures
            r@ == match *self {
                ConfigError::MissingToken => "missing --token"@,
                ConfigError::MissingEndpoint => "missing --endpoint"@,
            },
    {
        match self {
            ConfigError::MissingToken => "missing --token",
            ConfigError::MissingEndpoint => "missing --endpoint",
        }
    }
}

/// Settings gathered so far; `interval` is `None` where the last value
/// given was not a number.
pub struct Gathered {
    pub token: Option<Seq<char>>,
    pub endpoint: Option<Seq<char>>,
    pub interval: Option<u64>,
    pub flag: Option<Seq<char>>,
}

/// The settings after reading `args[i..]`: `--key value` takes the next
/// argument (and does nothing when there is none), `--key=value` takes the
/// rest of the argument; anything else is ignored.
pub open spec fn gather(args: Seq<Seq<char>>, i: int, g: Gathered) -> Gathered
    decreases args.len() - i,
{
    if i < 0 || i >= args.len() {
        g
    } else {
        let a = args[i];
        let has_next = i + 1 < args.len();
        if a == "--token"@ || a == "--endpoint"@ || a == "--interval"@ || a == "--flag"@ {
            if has_next {
                let v = args[i + 1];
                let g2 = if a == "--token"@ {
                    Gathered { token: Some(v), ..g }
                } else if a == "--endpoint"@ {
                    Gathered { endpoint: Some(v), ..g }
                } else if a == "--interval"@ {
                    Gathered { interval: parse_u64_spec(v), ..g }
                } else {
                    Gathered { flag: Some(v), ..g }
                };
                gather(args, i + 2, g2)
            } else {
                g
            }
        } else {
            let g2 = if seq_starts_with(a, "--token="@) {
                Gathered { token: Some(a.subrange(8, a.len() as int)), ..g }
            } else if seq_starts_with(a, "--endpoint="@) {
                Gathered { endpoint: Some(a.subrange(11, a.len() as int)), ..g }
            } else if seq_starts_with(a, "--interval="@) {
                Gathered { interval: parse_u64_spec(a.subrange(11, a.len() as int)), ..g }
            } else if seq_starts_with(a, "--flag="@) {
                Gathered { flag: Some(a.subrange(7, a.len() as int)), ..g }
            } else {
                g
            };
            gather(args, i + 1, g2)
        }
    }
}

/// The view of an optional text.
pub open spec fn opt_view(o: Option<String>) -> Option<Seq<char>> {
    match o {
        Some(s) => Some(s@),
        None => None,
    }
}

/// The interval that gathered settings give: the value if it is at least
/// 1, 1 for 0, `DEFAULT_INTERVAL` without one.
pub open spec fn interval_of(g: Gathered) -> u64 {
    match g.interval {
        Some(v) => if v >= 1 {
            v
        } else {
            1
        },
        None => DEFAULT_INTERVAL,
    }
}

/// The configuration that gathered settings give: an error for a missing
/// token (checked first) or endpoint; defaults for the rest.
pub open spec fn config_outcome(
    r: Result<Config, ConfigError>,
    g: Gathered,
    default_flag: Seq<char>,
) -> bool {
    match r {
        Ok(c) => {
            &&& g.token == Some(c.token@)
            &&& g.endpoint == Some(c.endpoint@)
            &&& c.interval == interval_of(g)
            &&& c.flag@ == match g.flag {
                Some(f) => f,
                None => default_flag,
            }
        },
        Err(e) => if g.token is None {
            e == ConfigError::MissingToken
        } else {
            g.endpoint is None && e == ConfigError::MissingEndpoint
        },
    }
}

fn key_of(a: &Vec<char>, key: &Vec<char>) -> (r: bool)
    ensures
        r == (a@ == key@),
{
    if a.len() != key.len() {
        return false;
    }
    let r = starts_with(a, key);
    proof {
        if r {
            assert(a@.subrange(0, key@.len() as int) =~= a@);
        } else {
            assert(a@.subrange(0, key@.len() as int) =~= a@);
        }
    }
    r
}

/// Reads the configuration. `env_interval` is the environment's interval
/// already read as a number (`None` when absent or not a number); `args`
/// are the arguments after the program name. The token and the endpoint
/// are required; the interval defaults to `DEFAULT_INTERVAL` and is at
/// least 1; the flag defaults to `default_flag`.
pub fn load_config(
    env_token: Option<String>,
    env_endpoint: Option<String>,
    env_interval: Option<u64>,
    env_flag: Option<String>,
    args: &Vec<String>,
    default_flag: String,
) -> (r: Result<Config, ConfigError>)
    ensures
        config_outcome(
            r,
            gather(
                args@.map_values(|s: String| s@),
                0,
                Gathered {
                    token: opt_view(env_token),
                    endpoint: opt_view(env_endpoint),
                    interval: env_interval,
                    flag: opt_view(env_flag),
                },
            ),
            default_flag@,
        ),
{
    let ghost av = args@.map_values(|s: String| s@);
    let ghost g0 = Gathered {
        token: opt_view(env_token),
        endpoint: opt_view(env_endpoint),
        interval: env_interval,
        flag: opt_view(env_flag),
    };
    let k_token = to_chars("--token");
    let k_endpoint = to_chars("--endpoint");
    let k_interval = to_chars("--interval");
    let k_flag = to_chars("--flag");
    let p_token = to_chars("--token=");
    let p_endpoint = to_chars("--endpoint=");
    let p_interval = to_chars("--interval=");
    let p_flag = to_chars("--flag=");
    proof {
        reveal_strlit("--token=");
        reveal_strlit("--endpoint=");
        reveal_strlit("--interval=");
        reveal_strlit("--flag=");
    }
    let mut token = env_token;
    let mut endpoint = env_endpoint;
    let mut interval = env_interval;
    let mut flag = env_flag;
    let n = args.len();
    let mut i: usize = 0;
    while i < n
        invariant
            i <= n,
            n == args@.len(),
            av == args@.map_values(|s: String| s@),
            k_token@ == "--token"@,
            k_endpoint@ == "--endpoint"@,
            k_interval@ == "--interval"@,
            k_flag@ == "--flag"@,
            p_token@ == "--token="@,
            p_endpoint@ == "--endpoint="@,
            p_interval@ == "--interval="@,
            p_flag@ == "--flag="@,
            p_token@.len() == 8,
            p_endpoint@.len() == 11,
            p_interval@.len() == 11,
            p_flag@.len() == 7,
            gather(av, 0, g0) == gather(
                av,
                i as int,
                Gathered {
                    token: opt_view(token),
                    endpoint: opt_view(endpoint),
                    interval,
                    flag: opt_view(flag),
                },
            ),
        decreases n - i,
    {
        let a = to_chars(args[i].as_str());
        assert(av[i as int] == args@[i as int]@);
        let is_t = key_of(&a, &k_token);
        let is_e = key_of(&a, &k_endpoint);
        let is_i = key_of(&a, &k_interval);
        let is_f = key_of(&a, &k_flag);
        if is_t || is_e || is_i || is_f {
            if i + 1 < n {
                let v = args[i + 1].clone();
                assert(av[i + 1] == v@);
                if is_t {
                    token = Some(v);
                } else if is_e {
                    endpoint = Some(v);
                } else if is_i {
                    interval = parse_u64(v.as_str());
                } else {
                    flag = Some(v);
                }
                i = i + 2;
            } else {
                i = n;
            }
        } else {
            let s = args[i].as_str();
            if starts_with(&a, &p_token) {
                token = Some(owned_range(s, 8, a.len()));
            } else if starts_with(&a, &p_endpoint) {
                endpoint = Some(owned_range(s, 11, a.len()));
            } else if starts_with(&a, &p_interval) {
                let rest = owned_range(s, 11, a.len());
                interval = parse_u64(rest.as_str());
            } else if starts_with(&a, &p_flag) {
                flag = Some(owned_range(s, 7, a.len()));
            }
            i = i + 1;
        }
    }
    let token = match token {
        None => return Err(ConfigError::MissingToken),
        Some(t) => t,
    };
    let endpoint = match endpoint {
        None => return Err(ConfigError::MissingEndpoint),
        Some(e) => e,
    };
    let interval = match interval {
        Some(v) => if v >= 1 {
            v
        } else {
            1
        },
        None => DEFAULT_INTERVAL,
    };
    let flag = match flag {
        Some(f) => f,
        None => default_flag,
    };
    Ok(Config { token, endpoint, interval, flag })
}

} // verus!
