//! What a run is configured with: where the two stores lie, the health
//! metric and the tenant.

use vstd::prelude::*;
use vstd::string::{StrSliceExecFns, StringExecFns};
use crate::compaction::DEFAULT_HEALTH_MICRO;
use crate::decimal::{micro_of_text, parse_micro};

verus! {

#[verifier::external_type_specification]
#[verifier::external_body]
pub struct ExTomlError(toml::de::Error);

/// What a key of the top-level table of a TOML document holds: nothing where
/// the text is no TOML document, no entry where the table has no such key or
/// the key holds no text, and else the text.
pub uninterp spec fn toml_text_entry(document: Seq<char>, key: Seq<char>) -> Option<
    Option<Seq<char>>,
>;

/// The text of an optional text.
pub open spec fn entry_view(entry: Option<String>) -> Option<Seq<char>> {
    match entry {
        Some(s) => Some(s@),
        None => None,
    }
}

/// Parses `document` with `toml::from_str` as a `toml::Value` and reads `key`
/// from it with `toml::Value::get`.
///
/// Trusted: the result depends on the two texts alone; it is an error
/// exactly where the parser refuses the document, and else the text that the
/// key holds, where the document is a table with that key and the key holds a
/// text.
#[verifier::external_body]
fn read_text_entry(document: &str, key: &str) -> (r: Result<Option<String>, toml::de::Error>)
    ensures
        r is Ok <==> toml_text_entry(document@, key@) is Some,
        r is Ok ==> toml_text_entry(document@, key@) == Some(entry_view(r->Ok_0)),
{
    match toml::from_str::<toml::Value>(document) {
        Ok(value) => match value.get(key) {
            Some(toml::Value::String(s)) => Ok(Some(s.clone())),
            _ => Ok(None),
        },
        Err(e) => Err(e),
    }
}

/// Why the configuration of a store could not be used.
#[derive(Clone, Copy, Debug, PartialEq, Eq, Structural)]
pub enum ConfigError {
    /// The text is no TOML document.
    Unparseable,
    /// The document has no key `path` that holds a text.
    MissingPath,
}

/// Whether a path starts at the root of the file system.
pub open spec fn is_absolute(path: Seq<char>) -> bool {
    path.len() > 0 && path[0] == '/'
}

/// `path` as seen from the directory `root`: itself where it is absolute,
/// and else `root`, a separator where `root` does not end in one, and `path`.
pub open spec fn resolved(root: Seq<char>, path: Seq<char>) -> Seq<char> {
    if is_absolute(path) {
        path
    } else if root.len() == 0 || root.last() == '/' {
        root + path
    } else {
        root + seq!['/'] + path
    }
}

/// Where a store lies, from the entry `path` of its configuration.
pub open spec fn resolve_outcome(root: Seq<char>, entry: Option<Seq<char>>) -> Result<
    Seq<char>,
    ConfigError,
> {
    match entry {
        Some(path) => Ok(resolved(root, path)),
        None => Err(ConfigError::MissingPath),
    }
}

/// Where a store lies: the entry `path` of its configuration, taken from
/// `root` where it is relative. Fails where there is no entry.
pub fn resolve_path(root: &str, entry: Option<&str>) -> (r: Result<String, ConfigError>)
    ensures
        match r {
            Ok(path) => resolve_outcome(root@, crate::config::str_view(entry)) == Ok::<
                Seq<char>,
                ConfigError,
            >(path@),
            Err(e) => resolve_outcome(root@, crate::config::str_view(entry)) == Err::<
                Seq<char>,
                ConfigError,
            >(e),
        },
{
    let path = match entry {
        Some(p) => p,
        None => {
            return Err(ConfigError::MissingPath);
        },
    };
    proof {
        reveal_strlit("/");
    }
    let path_len = path.unicode_len();
    if path_len > 0 && path.get_char(0) == '/' {
        return Ok(String::from_str(path));
    }
    let root_len = root.unicode_len();
    let joined = if root_len == 0 || root.get_char(root_len - 1) == '/' {
        String::from_str(root).concat(path)
    } else {
        let with_separator = String::from_str(root).concat("/");
        assert(with_separator@ =~= root@ + seq!['/']);
        with_separator.concat(path)
    };
    Ok(joined)
}

/// The text of an optional text.
pub open spec fn str_view(entry: Option<&str>) -> Option<Seq<char>> {
    match entry {
        Some(s) => Some(s@),
        None => None,
    }
}

/// Where a store lies according to the TOML document that configures it.
pub open spec fn ledger_path_outcome(document: Seq<char>, root: Seq<char>) -> Result<
    Seq<char>,
    ConfigError,
> {
    match toml_text_entry(document, "path"@) {
        Some(entry) => resolve_outcome(root, entry),
        None => Err(ConfigError::Unparseable),
    }
}

/// Where a store lies according to the TOML document that configures it:
/// its key `path`, taken from `root` where it is relative. Fails where the
/// text is no TOML document and where it has no such key.
pub fn ledger_path(document: &str, root: &str) -> (r: Result<String, ConfigError>)
    ensures
        match r {
            Ok(path) => ledger_path_outcome(document@, root@) == Ok::<Seq<char>, ConfigError>(
                path@,
            ),
            Err(e) => ledger_path_outcome(document@, root@) == Err::<Seq<char>, ConfigError>(e),
        },
{
    match read_text_entry(document, "path") {
        Ok(entry) => match entry {
            Some(path) => resolve_path(root, Some(path.as_str())),
            None => resolve_path(root, None),
        },
        Err(_) => Err(ConfigError::Unparseable),
    }
}

/// Whether a text is a TOML document. Every key tells: the parser refuses
/// the text before any key is read.
pub open spec fn is_toml(document: Seq<char>) -> bool {
    toml_text_entry(document, ""@) is Some
}

/// Whether `document` is a TOML document.
pub fn is_toml_document(document: &str) -> (parses: bool)
    ensures
        parses == is_toml(document@),
{
    match read_text_entry(document, "") {
        Ok(_) => true,
        Err(_) => false,
    }
}

/// The tenant that a run is for when none is configured.
pub open spec fn default_tenant() -> Seq<char> {
    "xai-memphis-01"@
}

/// The tenant of a run: the one configured, or the default.
pub fn tenant_or_default(configured: Option<&str>) -> (tenant: String)
    ensures
        tenant@ == (match configured {
            Some(t) => t@,
            None => default_tenant(),
        }),
{
    match configured {
        Some(t) => String::from_str(t),
        None => String::from_str("xai-memphis-01"),
    }
}

/// The health metric of a run, in millionths: the number that the configured
/// text writes, and the default where none is configured or the text writes
/// no number.
pub open spec fn health_metric_of(configured: Option<Seq<char>>) -> int {
    match configured {
        Some(text) => match micro_of_text(text) {
            Some(value) => value,
            None => DEFAULT_HEALTH_MICRO as int,
        },
        None => DEFAULT_HEALTH_MICRO as int,
    }
}

/// The health metric of a run, in millionths.
pub fn health_metric_from(configured: Option<&str>) -> (metric: i64)
    ensures
        metric == health_metric_of(str_view(configured)),
{
    match configured {
        Some(text) => match parse_micro(text) {
            Some(value) => value,
            None => DEFAULT_HEALTH_MICRO,
        },
        None => DEFAULT_HEALTH_MICRO,
    }
}

} // verus!
