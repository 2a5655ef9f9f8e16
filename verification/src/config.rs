//! The configuration of a tenant and its backend.
use vstd::prelude::*;

use crate::foreign::{hex_encode, random_bytes};
use crate::text::{hex_text, join2, same_text};

verus! {

/// What a config directory holds: the tenant, its digest key in hexadecimal,
/// and its backend.
#[derive(Debug)]
pub struct Config {
    pub tenant: String,
    pub digest_key: String,
    pub backend: BackendConfig,
}

#[derive(Debug)]
pub enum BackendConfig {
    Local { root: String },
    S3 {
        bucket: String,
        region: String,
        profile: Option<String>,
        prefix: String,
        /// The URL of a compatible service; AWS when absent.
        endpoint: Option<String>,
    },
}

/// The prefix of the keys in a bucket where none is given.
pub fn default_prefix() -> (r: String)
    ensures
        r@ == "comb"@,
{
    "comb".to_owned()
}

/// The config directory: the one that is named, or `.comb`.
pub fn config_dir(explicit: Option<&str>) -> (r: String)
    ensures
        r@ == match explicit {
            Some(d) => d@,
            None => ".comb"@,
        },
{
    match explicit {
        Some(d) => d.to_owned(),
        None => ".comb".to_owned(),
    }
}

/// What is said where there is no config.
pub fn missing_config(path: &str) -> (r: String)
    ensures
        r@ == "no Comb config at "@ + path@ + " — run `combctl init` first"@,
{
    let mut s: String = join2("no Comb config at ", path);
    s.append(" — run `combctl init` first");
    s
}

/// What is said where there is a config already.
pub fn existing_config(path: &str) -> (r: String)
    ensures
        r@ == path@
            + " already exists — refusing to overwrite (it holds the tenant digest key)"@,
{
    join2(path, " already exists — refusing to overwrite (it holds the tenant digest key)")
}

/// The config of a new tenant, with a fresh digest key.
pub fn new_config(tenant: String, backend: BackendConfig) -> (r: Config)
    ensures
        r.tenant == tenant,
        r.backend == backend,
        exists|key: Seq<u8>| key.len() == 32 && r.digest_key@ == #[trigger] hex_text(key),
{
    let key: Vec<u8> = random_bytes(32);
    Config { tenant, digest_key: hex_encode(&key), backend }
}

/// The settings that a backend is chosen from.
#[derive(Debug)]
pub struct BackendChoice {
    pub root: Option<String>,
    pub bucket: Option<String>,
    pub region: Option<String>,
    pub profile: Option<String>,
    pub prefix: String,
    pub endpoint: Option<String>,
}

/// What is wrong with a choice of backend.
pub open spec fn choice_fault(kind: Seq<char>, c: BackendChoice) -> Option<Seq<char>> {
    if kind == "local"@ {
        if c.root is None {
            Some("--root is required for local backend"@)
        } else {
            None
        }
    } else if kind == "s3"@ {
        if c.bucket is None {
            Some("--bucket is required for s3 backend"@)
        } else if c.region is None {
            Some("--region is required for s3 backend"@)
        } else {
            None
        }
    } else {
        Some("unknown backend kind: "@ + kind)
    }
}

/// The backend of the given kind: `local` or `s3`.
pub fn choose_backend(kind: &str, choice: BackendChoice) -> (r: core::result::Result<
    BackendConfig,
    String,
>)
    ensures
        r is Ok <==> (kind@ == "local"@ && choice.root is Some) || (kind@ == "s3"@ && choice.bucket is Some
            && choice.region is Some),
        r is Ok ==> (r->Ok_0 is Local <==> kind@ == "local"@),
        match choice_fault(kind@, choice) {
            Some(m) => r matches Err(e) && e@ == m,
            None => r matches Ok(b) && b == if kind@ == "local"@ {
                BackendConfig::Local { root: choice.root->0 }
            } else {
                BackendConfig::S3 {
                    bucket: choice.bucket->0,
                    region: choice.region->0,
                    profile: choice.profile,
                    prefix: choice.prefix,
                    endpoint: choice.endpoint,
                }
            },
        },
{
    proof {
        reveal_strlit("local");
        reveal_strlit("s3");
        assert("local"@.len() != "s3"@.len());
    }
    if same_text(kind, "local") {
        match choice.root {
            Some(root) => Ok(BackendConfig::Local { root }),
            None => Err("--root is required for local backend".to_owned()),
        }
    } else if same_text(kind, "s3") {
        let bucket: String = match choice.bucket {
            Some(b) => b,
            None => {
                return Err("--bucket is required for s3 backend".to_owned());
            },
        };
        let region: String = match choice.region {
            Some(g) => g,
            None => {
                return Err("--region is required for s3 backend".to_owned());
            },
        };
        Ok(
            BackendConfig::S3 {
                bucket,
                region,
                profile: choice.profile,
                prefix: choice.prefix,
                endpoint: choice.endpoint,
            },
        )
    } else {
        Err(join2("unknown backend kind: ", kind))
    }
}

} // verus!
