//! Per-unit build configuration, read from the unit's manifest. The
//! recognized block is `package.metadata.zanbil` with two optional keys:
//! `cpp` selects the native language mode, `make_dependencies_public`
//! selects the export policy. A missing or malformed block degrades to
//! the defaults; a manifest that does not parse at all is an error.

use vstd::prelude::*;

verus! {

/// The two recognized configuration options of one build unit.
#[derive(Debug, Clone, Copy, PartialEq, Eq)]
pub struct ZanbilConf {
    /// Language mode: absent selects C, present selects C++ with the given
    /// standard year.
    pub cpp: Option<u8>,
    /// Whether the unit republishes everything it can see, or only its own
    /// header directory.
    pub make_dependencies_public: bool,
}

impl Default for ZanbilConf {
    /// C mode, nothing re-exported.
    fn default() -> (r: Self)
        ensures
            r.cpp is None,
            !r.make_dependencies_public,
    {
        ZanbilConf { cpp: None, make_dependencies_public: false }
    }
}

/// Why a configuration could not be loaded.
#[derive(Debug, Clone, Copy, PartialEq, Eq)]
pub enum ConfigError {
    /// The manifest text is not well-formed.
    Unparsable,
}

/// A recognized key of the configuration block, as found in the manifest:
/// the outer option is presence of the key, the inner one whether its value
/// has the expected type.
pub type RawKey<T> = Option<Option<T>>;

/// The configuration that a block with the given raw keys selects. A key
/// of the wrong type, or a language standard outside the encodable range,
/// makes the whole block malformed, which degrades to the defaults.
pub open spec fn conf_of_fields(cpp_key: RawKey<i64>, public_key: RawKey<bool>) -> ZanbilConf {
    match (cpp_key, public_key) {
        (Some(None), _) => ZanbilConf { cpp: None, make_dependencies_public: false },
        (_, Some(None)) => ZanbilConf { cpp: None, make_dependencies_public: false },
        (Some(Some(n)), pk) => if 0 <= n <= 255 {
            ZanbilConf { cpp: Some(n as u8), make_dependencies_public: pk == Some(Some(true)) }
        } else {
            ZanbilConf { cpp: None, make_dependencies_public: false }
        },
        (None, pk) => ZanbilConf { cpp: None, make_dependencies_public: pk == Some(Some(true)) },
    }
}

/// Decide the configuration from the raw recognized keys.
pub fn conf_from_fields(cpp_key: RawKey<i64>, public_key: RawKey<bool>) -> (r: ZanbilConf)
    ensures
        r == conf_of_fields(cpp_key, public_key),
{
    match (cpp_key, public_key) {
        (Some(None), _) => ZanbilConf { cpp: None, make_dependencies_public: false },
        (_, Some(None)) => ZanbilConf { cpp: None, make_dependencies_public: false },
        (Some(Some(n)), pk) => {
            if 0 <= n && n <= 255 {
                ZanbilConf {
                    cpp: Some(n as u8),
                    make_dependencies_public: matches!(pk, Some(Some(true))),
                }
            } else {
                ZanbilConf { cpp: None, make_dependencies_public: false }
            }
        },
        (None, pk) => ZanbilConf {
            cpp: None,
            make_dependencies_public: matches!(pk, Some(Some(true))),
        },
    }
}

/// Whether a manifest text is well-formed. Parsing is a pure function of
/// the text, so the outcome can be named.
pub uninterp spec fn manifest_parses(s: Seq<char>) -> bool;

/// The `cpp` key of the manifest's recognized block, as a raw key: `None`
/// when the block or the key is absent, `Some(None)` when the key is
/// present but not an integer. A pure function of the manifest text.
pub uninterp spec fn manifest_cpp_key(s: Seq<char>) -> Option<Option<i64>>;

/// The `make_dependencies_public` key of the manifest's recognized block,
/// as a raw key, in the same way.
pub uninterp spec fn manifest_public_key(s: Seq<char>) -> Option<Option<bool>>;

/// Relies on toml's `from_str::<Value>`, `Value::get`, `Value::as_integer`
/// and `Value::as_bool`: parse the manifest and read the two recognized
/// keys out of `package.metadata.zanbil`. Whether the text parses and what
/// the keys hold are functions of the text alone.
#[verifier::external_body]
fn manifest_raw_keys(manifest: &str) -> (r: Option<(RawKey<i64>, RawKey<bool>)>)
    ensures
        r is Some <==> manifest_parses(manifest@),
        r is Some ==> r.unwrap().0 == manifest_cpp_key(manifest@),
        r is Some ==> r.unwrap().1 == manifest_public_key(manifest@),
{
    let value: toml::Value = match toml::from_str(manifest) {
        Ok(v) => v,
        Err(_) => return None,
    };
    let block = value.get("package").and_then(|p| p.get("metadata")).and_then(|m| m.get("zanbil"));
    let cpp_key = block.and_then(|b| b.get("cpp")).map(|v| v.as_integer());
    let public_key = block.and_then(|b| b.get("make_dependencies_public")).map(|v| v.as_bool());
    Some((cpp_key, public_key))
}

/// Load the unit's configuration from its manifest text. Every field of an
/// absent or malformed `package.metadata.zanbil` block defaults; a manifest
/// that does not parse is the one fatal case.
pub fn load_unit_config(manifest: &str) -> (r: Result<ZanbilConf, ConfigError>)
    ensures
        r is Err <==> !manifest_parses(manifest@),
        r is Err ==> r == Err::<ZanbilConf, ConfigError>(ConfigError::Unparsable),
        r is Ok ==> r == Ok::<ZanbilConf, ConfigError>(
            conf_of_fields(manifest_cpp_key(manifest@), manifest_public_key(manifest@)),
        ),
{
    match manifest_raw_keys(manifest) {
        Some((cpp_key, public_key)) => Ok(conf_from_fields(cpp_key, public_key)),
        None => Err(ConfigError::Unparsable),
    }
}

} // verus!
