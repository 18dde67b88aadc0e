//! The plugin cache: stable cache keys, release URLs, and option
//! validation.
//!
//! A plugin reference resolves to a download URL and a cache file name
//! derived from the URL's digest, or to a local path.  Downloading and
//! loading happen outside the library; this module computes every name,
//! URL and verdict involved.

use vstd::prelude::*;
use vstd::string::StrSliceExecFns;
use vstd::string::StringExecFns;
use crate::configs::PluginConfig;
use crate::json::{obj_get, obj_get_spec, kind_name, JsonValue};
use crate::platform::PlatformInfo;
use crate::text::{
    joined, str_eq, str_has_prefix, str_has_suffix, str_rfind_char, string_push, substring, views,
};
use crate::types::{MartyError, MartyResult};

verus! {

/// The SHA-256 digest of a byte sequence.
pub uninterp spec fn sha256_of(data: Seq<u8>) -> Seq<u8>;

/// Relies on the sha2 crate's `Sha256::digest`: the SHA-256 digest of
/// the input, 32 bytes, a function of the input alone.
#[verifier::external_body]
fn sha256_bytes(data: &[u8]) -> (r: Vec<u8>)
    ensures
        r@ == sha256_of(data@),
        r@.len() == 32,
{
    <sha2::Sha256 as sha2::Digest>::digest(data).to_vec()
}

/// The lower-case hex digit for a value below sixteen.
pub open spec fn hex_digit(d: nat) -> char {
    if d == 0 {
        '0'
    } else if d == 1 {
        '1'
    } else if d == 2 {
        '2'
    } else if d == 3 {
        '3'
    } else if d == 4 {
        '4'
    } else if d == 5 {
        '5'
    } else if d == 6 {
        '6'
    } else if d == 7 {
        '7'
    } else if d == 8 {
        '8'
    } else if d == 9 {
        '9'
    } else if d == 10 {
        'a'
    } else if d == 11 {
        'b'
    } else if d == 12 {
        'c'
    } else if d == 13 {
        'd'
    } else if d == 14 {
        'e'
    } else {
        'f'
    }
}

/// The lower-case hex rendering of a byte sequence, two digits per byte.
pub open spec fn hex_of(data: Seq<u8>) -> Seq<char>
    decreases data.len(),
{
    if data.len() == 0 {
        Seq::empty()
    } else {
        hex_of(data.drop_last()) + seq![
            hex_digit((data.last() / 16) as nat),
            hex_digit((data.last() % 16) as nat),
        ]
    }
}

/// Hex strings are twice as long as their bytes.
pub proof fn lemma_hex_len(data: Seq<u8>)
    ensures
        hex_of(data).len() == 2 * data.len(),
    decreases data.len(),
{
    if data.len() > 0 {
        lemma_hex_len(data.drop_last());
    }
}

/// The hex digit character for a value below sixteen.
fn hex_digit_of(d: u8) -> (r: char)
    requires
        d < 16,
    ensures
        r == hex_digit(d as nat),
{
    if d == 0 {
        '0'
    } else if d == 1 {
        '1'
    } else if d == 2 {
        '2'
    } else if d == 3 {
        '3'
    } else if d == 4 {
        '4'
    } else if d == 5 {
        '5'
    } else if d == 6 {
        '6'
    } else if d == 7 {
        '7'
    } else if d == 8 {
        '8'
    } else if d == 9 {
        '9'
    } else if d == 10 {
        'a'
    } else if d == 11 {
        'b'
    } else if d == 12 {
        'c'
    } else if d == 13 {
        'd'
    } else if d == 14 {
        'e'
    } else {
        'f'
    }
}

/// Render bytes as lower-case hex.
fn to_hex(data: &Vec<u8>) -> (r: String)
    ensures
        r@ == hex_of(data@),
{
    let mut out = String::new();
    let mut i: usize = 0;
    while i < data.len()
        invariant
            i <= data@.len(),
            out@ == hex_of(data@.subrange(0, i as int)),
        decreases data@.len() - i,
    {
        let b = data[i];
        string_push(&mut out, hex_digit_of(b / 16));
        string_push(&mut out, hex_digit_of(b % 16));
        proof {
            let ext = data@.subrange(0, i + 1);
            assert(ext.drop_last() =~= data@.subrange(0, i as int));
            assert(ext.last() == data@[i as int]);
            assert(out@ =~= hex_of(ext));
        }
        i = i + 1;
    }
    proof {
        assert(data@.subrange(0, data@.len() as int) =~= data@);
    }
    out
}

/// The full hex digest of a URL's UTF-8 bytes.
pub open spec fn url_digest_hex(url: Seq<char>) -> Seq<char> {
    hex_of(sha256_of(vstd::utf8::encode_utf8(url)))
}

/// The cache file name for a plugin downloaded from a URL: the derived
/// name, the first eight hex digits of the URL's SHA-256, and the
/// platform's library extension.
pub open spec fn cache_filename_spec(name: Seq<char>, url: Seq<char>, ext: Seq<char>) -> Seq<
    char,
> {
    name + "_"@ + url_digest_hex(url).subrange(0, 8) + "."@ + ext
}

/// The segment of `s` after its last slash (all of `s` when it has none).
pub open spec fn last_segment(s: Seq<char>) -> Seq<char>
    decreases s.len(),
{
    if s.len() == 0 {
        s
    } else if s.last() == '/' {
        Seq::empty()
    } else {
        last_segment(s.drop_last()).push(s.last())
    }
}

/// Characterize `last_segment` by the position of the last slash.
proof fn lemma_last_segment_after(s: Seq<char>, i: int)
    requires
        0 <= i < s.len(),
        s[i] == '/',
        forall|j: int| i < j < s.len() ==> s[j] != '/',
    ensures
        last_segment(s) =~= s.subrange(i + 1, s.len() as int),
    decreases s.len(),
{
    if i == s.len() - 1 {
    } else {
        lemma_last_segment_after(s.drop_last(), i);
        assert(s.drop_last().subrange(i + 1, s.drop_last().len() as int) =~= s.subrange(
            i + 1,
            s.len() - 1,
        ));
        assert(last_segment(s) =~= last_segment(s.drop_last()).push(s.last()));
    }
}

/// `last_segment` of a slash-free string is the string itself.
proof fn lemma_last_segment_whole(s: Seq<char>)
    requires
        forall|j: int| 0 <= j < s.len() ==> s[j] != '/',
    ensures
        last_segment(s) =~= s,
    decreases s.len(),
{
    if s.len() > 0 {
        lemma_last_segment_whole(s.drop_last());
    }
}

/// Copy the segment of `s` after its last slash.
pub fn last_segment_of(s: &str) -> (r: String)
    ensures
        r@ == last_segment(s@),
{
    let n = s.unicode_len();
    match str_rfind_char(s, '/') {
        Some(i) => {
            proof {
                lemma_last_segment_after(s@, i as int);
            }
            substring(s, i + 1, n)
        },
        None => {
            proof {
                lemma_last_segment_whole(s@);
            }
            substring(s, 0, n)
        },
    }
}

/// The directory part of a path: everything before its last slash, or
/// nothing when it has none.
pub open spec fn parent_of(s: Seq<char>) -> Seq<char> {
    if last_segment(s).len() < s.len() {
        s.subrange(0, s.len() - last_segment(s).len() - 1)
    } else {
        Seq::empty()
    }
}

/// Copy the directory part of a path.
pub fn parent_dir_of(s: &str) -> (r: String)
    ensures
        r@ == parent_of(s@),
{
    let n = s.unicode_len();
    match str_rfind_char(s, '/') {
        Some(i) => {
            proof {
                lemma_last_segment_after(s@, i as int);
            }
            substring(s, 0, i)
        },
        None => {
            proof {
                lemma_last_segment_whole(s@);
            }
            String::new()
        },
    }
}

/// Remove every trailing repetition of `suffix`.
pub open spec fn strip_all_suffix(s: Seq<char>, suffix: Seq<char>) -> Seq<char>
    decreases s.len(),
{
    if suffix.len() > 0 && suffix.is_suffix_of(s) {
        strip_all_suffix(s.subrange(0, s.len() - suffix.len()), suffix)
    } else {
        s
    }
}

/// Remove every trailing repetition of `suffix` from a string.
fn strip_all_suffix_of(s: String, suffix: &str) -> (r: String)
    requires
        suffix@.len() > 0,
    ensures
        r@ == strip_all_suffix(s@, suffix@),
    decreases s@.len(),
{
    if str_has_suffix(s.as_str(), suffix) {
        let n = s.as_str().unicode_len();
        let m = suffix.unicode_len();
        let shorter = substring(s.as_str(), 0, n - m);
        strip_all_suffix_of(shorter, suffix)
    } else {
        s
    }
}

/// The name a URL derives: its last path segment with any dynamic-library
/// extension removed.
pub open spec fn derived_url_name(url: Seq<char>) -> Seq<char> {
    strip_all_suffix(
        strip_all_suffix(strip_all_suffix(last_segment(url), ".so"@), ".dylib"@),
        ".dll"@,
    )
}

/// Derive a plugin name from a download URL.
pub fn derived_name_from_url(url: &str) -> (r: String)
    ensures
        r@ == derived_url_name(url@),
{
    proof {
        reveal_strlit(".so");
        reveal_strlit(".dylib");
        reveal_strlit(".dll");
    }
    let seg = last_segment_of(url);
    let a = strip_all_suffix_of(seg, ".so");
    let b = strip_all_suffix_of(a, ".dylib");
    strip_all_suffix_of(b, ".dll")
}

/// Error text for a repository without the plugin prefix.
pub open spec fn msg_bad_repo_prefix(seg: Seq<char>) -> Seq<char> {
    "Repository name must start with 'marty-plugin-': '"@ + seg
        + "'. Example: 'owner/marty-plugin-cargo'"@
}

/// Error text for an empty plugin name.
pub open spec fn msg_empty_plugin_name() -> Seq<char> {
    "Plugin name cannot be empty. Repository format should be 'owner/marty-plugin-{name}'"@
}

/// The plugin cache: where plugin libraries live, and for which platform.
#[derive(Debug, Clone)]
pub struct PluginCache {
    pub cache_dir: String,
    pub platform: PlatformInfo,
}

impl PluginCache {
    /// A cache rooted under the workspace's cache directory.
    pub fn new(workspace_root: &str, platform: PlatformInfo) -> (r: PluginCache)
        ensures
            r.cache_dir@ == workspace_root@ + "/.marty/cache/plugins"@,
            r.platform == platform,
    {
        let mut dir = String::new();
        dir.append(workspace_root);
        dir.append("/.marty/cache/plugins");
        proof {
            assert(dir@ =~= workspace_root@ + "/.marty/cache/plugins"@);
        }
        PluginCache { cache_dir: dir, platform }
    }

    /// The plugin name inside a release repository reference: the part of
    /// the repository's own name after the required `marty-plugin-`
    /// prefix.
    pub fn extract_plugin_name_from_repo(&self, repository: &str) -> (r: MartyResult<String>)
        ensures
            match r {
                Ok(name) => "marty-plugin-"@.is_prefix_of(last_segment(repository@)) && name@
                    == last_segment(repository@).skip(13) && name@.len() > 0,
                Err(e) => {
                    ||| (!"marty-plugin-"@.is_prefix_of(last_segment(repository@))
                        && e.message_view() == msg_bad_repo_prefix(last_segment(repository@)))
                    ||| ("marty-plugin-"@.is_prefix_of(last_segment(repository@))
                        && last_segment(repository@).skip(13).len() == 0 && e.message_view()
                        == msg_empty_plugin_name())
                },
            },
    {
        let seg = last_segment_of(repository);
        if !str_has_prefix(seg.as_str(), "marty-plugin-") {
            let mut m = String::new();
            m.append("Repository name must start with 'marty-plugin-': '");
            m.append(seg.as_str());
            m.append("'. Example: 'owner/marty-plugin-cargo'");
            proof {
                assert(m@ =~= msg_bad_repo_prefix(last_segment(repository@)));
            }
            return Err(MartyError::Config(m));
        }
        proof {
            reveal_strlit("marty-plugin-");
        }
        let n = seg.as_str().unicode_len();
        let name = substring(seg.as_str(), 13, n);
        if name.as_str().unicode_len() == 0 {
            let m = "Plugin name cannot be empty. Repository format should be 'owner/marty-plugin-{name}'".to_owned();
            proof {
                assert(m@ == msg_empty_plugin_name());
            }
            return Err(MartyError::Config(m));
        }
        proof {
            assert(name@ =~= last_segment(repository@).skip(13));
        }
        Ok(name)
    }

    /// The release asset file name for a plugin version on this platform.
    pub open spec fn asset_filename(&self, name: Seq<char>, version: Seq<char>) -> Seq<char> {
        "marty-plugin-"@ + name + "-v"@ + version + "-"@ + self.platform.target@ + "."@
            + self.platform.extension@
    }

    /// The release download URL for a plugin in its own repository.
    pub open spec fn release_url(&self, repository: Seq<char>, version: Seq<char>) -> Seq<char> {
        "https://github.com/"@ + repository + "/releases/download/v"@ + version + "/"@
            + self.asset_filename(last_segment(repository).skip(13), version)
    }

    /// The download URL for a plugin released from its own repository.
    pub fn resolve_github_plugin_url(&self, repository: &str, version: &str) -> (r: MartyResult<
        String,
    >)
        ensures
            match r {
                Ok(url) => "marty-plugin-"@.is_prefix_of(last_segment(repository@)) && url@
                    == self.release_url(repository@, version@),
                Err(e) => !("marty-plugin-"@.is_prefix_of(last_segment(repository@))
                    && last_segment(repository@).skip(13).len() > 0),
            },
    {
        let name = match self.extract_plugin_name_from_repo(repository) {
            Ok(n) => n,
            Err(e) => {
                return Err(e);
            },
        };
        let mut url = String::new();
        url.append("https://github.com/");
        url.append(repository);
        url.append("/releases/download/v");
        url.append(version);
        url.append("/");
        url.append("marty-plugin-");
        url.append(name.as_str());
        url.append("-v");
        url.append(version);
        url.append("-");
        url.append(self.platform.target);
        url.append(".");
        url.append(self.platform.extension);
        proof {
            assert(url@ =~= self.release_url(repository@, version@));
        }
        Ok(url)
    }

    /// The release download URL for a plugin in a monorepo: the release
    /// tag carries the plugin name and version.
    pub open spec fn monorepo_url(
        &self,
        repository: Seq<char>,
        plugin: Seq<char>,
        version: Seq<char>,
    ) -> Seq<char> {
        "https://github.com/"@ + repository + "/releases/download/marty-plugin-"@ + plugin + "-v"@
            + version + "/"@ + self.asset_filename(plugin, version)
    }

    /// The download URL for a plugin released from a monorepo.
    pub fn resolve_github_plugin_url_monorepo(
        &self,
        repository: &str,
        plugin_name: &str,
        version: &str,
    ) -> (r: MartyResult<String>)
        ensures
            r matches Ok(url) && url@ == self.monorepo_url(repository@, plugin_name@, version@),
    {
        let mut url = String::new();
        url.append("https://github.com/");
        url.append(repository);
        url.append("/releases/download/marty-plugin-");
        url.append(plugin_name);
        url.append("-v");
        url.append(version);
        url.append("/");
        url.append("marty-plugin-");
        url.append(plugin_name);
        url.append("-v");
        url.append(version);
        url.append("-");
        url.append(self.platform.target);
        url.append(".");
        url.append(self.platform.extension);
        proof {
            assert(url@ =~= self.monorepo_url(repository@, plugin_name@, version@));
        }
        Ok(url)
    }

    /// The cache file name for a plugin downloaded from `url`.
    pub fn cache_filename(&self, name: &str, url: &str) -> (r: String)
        ensures
            r@ == cache_filename_spec(name@, url@, self.platform.extension@),
    {
        let digest = sha256_bytes(url.as_bytes());
        let hex = to_hex(&digest);
        proof {
            lemma_hex_len(digest@);
        }
        let short = substring(hex.as_str(), 0, 8);
        let mut out = String::new();
        out.append(name);
        out.append("_");
        out.append(short.as_str());
        out.append(".");
        out.append(self.platform.extension);
        proof {
            assert(out@ =~= cache_filename_spec(name@, url@, self.platform.extension@));
        }
        out
    }
}

/// The cache key is a function of the derived name, the URL and the
/// platform extension alone: equal inputs give the same file name, so a
/// second resolution of an unchanged URL lands on the already cached
/// file.
pub proof fn lemma_cache_key_deterministic(
    n1: Seq<char>,
    u1: Seq<char>,
    e1: Seq<char>,
    n2: Seq<char>,
    u2: Seq<char>,
    e2: Seq<char>,
)
    requires
        n1 == n2,
        u1 == u2,
        e1 == e2,
    ensures
        cache_filename_spec(n1, u1, e1) == cache_filename_spec(n2, u2, e2),
{
}


/// The keys of an object's fields, in order.
pub open spec fn field_keys(fields: Seq<(String, JsonValue)>) -> Seq<Seq<char>> {
    fields.map_values(|f: (String, JsonValue)| f.0@)
}

/// The first option key that the schema's properties do not declare.
pub open spec fn first_unknown_key(
    props: Seq<(String, JsonValue)>,
    opts: Seq<(String, JsonValue)>,
) -> Option<Seq<char>>
    decreases opts.len(),
{
    if opts.len() == 0 {
        None
    } else if obj_get_spec(props, opts[0].0@) is None {
        Some(opts[0].0@)
    } else {
        first_unknown_key(props, opts.drop_first())
    }
}

/// The first option whose declared scalar type disagrees with its value:
/// the key, the expected type name, and the actual type name.
pub open spec fn first_type_mismatch(
    props: Seq<(String, JsonValue)>,
    opts: Seq<(String, JsonValue)>,
) -> Option<(Seq<char>, Seq<char>, Seq<char>)>
    decreases opts.len(),
{
    if opts.len() == 0 {
        None
    } else {
        let head = opts[0];
        let rest = first_type_mismatch(props, opts.drop_first());
        match obj_get_spec(props, head.0@) {
            Some(JsonValue::Object(ps)) => match obj_get_spec(ps@, "type"@) {
                Some(JsonValue::Text(t)) => if t@ != kind_name(head.1) {
                    Some((head.0@, t@, kind_name(head.1)))
                } else {
                    rest
                },
                _ => rest,
            },
            _ => rest,
        }
    }
}

/// Whether the schema root forbids undeclared option keys.
pub open spec fn additional_props_false(schema_fields: Seq<(String, JsonValue)>) -> bool {
    obj_get_spec(schema_fields, "additionalProperties"@) == Some(JsonValue::Bool(false))
}

/// Error text for an undeclared option key.
pub open spec fn msg_unknown_option(
    plugin: Seq<char>,
    key: Seq<char>,
    valid: Seq<Seq<char>>,
) -> Seq<char> {
    "Plugin '"@ + plugin + "' does not support option '"@ + key + "'. Valid options are: "@
        + joined(valid, ", "@)
}

/// Error text for an option of the wrong type.
pub open spec fn msg_option_type(
    plugin: Seq<char>,
    key: Seq<char>,
    expected: Seq<char>,
    actual: Seq<char>,
) -> Seq<char> {
    "Plugin '"@ + plugin + "' option '"@ + key + "' expects type '"@ + expected + "', got '"@
        + actual + "'"@
}

/// Error text for options that are not an object.
pub open spec fn msg_options_not_object(plugin: Seq<char>) -> Seq<char> {
    "Plugin '"@ + plugin + "' options must be an object"@
}

/// The verdict of validating options against a schema: the error message,
/// or nothing when the options are accepted.
///
/// A schema without a `properties` object accepts everything.  With one,
/// the options must be an object; an undeclared key is rejected when the
/// schema sets `additionalProperties` to false, and a declared scalar
/// `type` must match the value's type.
pub open spec fn validate_spec(
    options: JsonValue,
    schema: JsonValue,
    plugin: Seq<char>,
) -> Option<Seq<char>> {
    match schema {
        JsonValue::Object(sf) => match obj_get_spec(sf@, "properties"@) {
            Some(JsonValue::Object(props)) => match options {
                JsonValue::Object(opts) => {
                    if additional_props_false(sf@) && first_unknown_key(props@, opts@) is Some {
                        Some(
                            msg_unknown_option(
                                plugin,
                                first_unknown_key(props@, opts@)->0,
                                field_keys(props@),
                            ),
                        )
                    } else {
                        match first_type_mismatch(props@, opts@) {
                            Some(miss) => Some(
                                msg_option_type(plugin, miss.0, miss.1, miss.2),
                            ),
                            None => None,
                        }
                    }
                },
                _ => Some(msg_options_not_object(plugin)),
            },
            _ => None,
        },
        _ => None,
    }
}

/// Validating a value is a pure function of the options, the schema and
/// the plugin name: two runs over the same data return the same verdict.
pub proof fn lemma_option_validation_idempotent(
    options: JsonValue,
    schema: JsonValue,
    plugin: Seq<char>,
    r1: Option<Seq<char>>,
    r2: Option<Seq<char>>,
)
    requires
        r1 == validate_spec(options, schema, plugin),
        r2 == validate_spec(options, schema, plugin),
    ensures
        r1 == r2,
{
}

impl PluginCache {
    /// Validate user options against a plugin's declared schema.
    pub fn validate_options_against_schema(
        &self,
        options: &JsonValue,
        schema: &JsonValue,
        plugin_name: &str,
    ) -> (r: MartyResult<()>)
        ensures
            match r {
                Ok(()) => validate_spec(*options, *schema, plugin_name@) is None,
                Err(e) => validate_spec(*options, *schema, plugin_name@) == Some(
                    e.message_view(),
                ),
            },
    {
        let sf = match schema {
            JsonValue::Object(sf) => sf,
            _ => {
                return Ok(());
            },
        };
        let props = match obj_get(sf, "properties") {
            Some(JsonValue::Object(props)) => props,
            Some(_) => {
                return Ok(());
            },
            None => {
                return Ok(());
            },
        };
        let opts = match options {
            JsonValue::Object(opts) => opts,
            _ => {
                let mut m = String::new();
                m.append("Plugin '");
                m.append(plugin_name);
                m.append("' options must be an object");
                proof {
                    assert(m@ =~= msg_options_not_object(plugin_name@));
                }
                return Err(MartyError::Config(m));
            },
        };
        let addl_false = match obj_get(sf, "additionalProperties") {
            Some(JsonValue::Bool(b)) => !*b,
            _ => false,
        };
        proof {
            assert(addl_false == additional_props_false(sf@));
        }
        if addl_false {
            let mut i: usize = 0;
            proof {
                assert(opts@.skip(0) =~= opts@);
            }
            while i < opts.len()
                invariant
                    (*schema) matches JsonValue::Object(x) && x@ == sf@,
                    obj_get_spec(sf@, "properties"@) == Some(JsonValue::Object(*props)),
                    (*options) matches JsonValue::Object(y) && y@ == opts@,
                    addl_false == additional_props_false(sf@),
                    addl_false,
                    i <= opts@.len(),
                    first_unknown_key(props@, opts@) == first_unknown_key(
                        props@,
                        opts@.skip(i as int),
                    ),
                decreases opts@.len() - i,
            {
                proof {
                    assert(opts@.skip(i as int)[0] == opts@[i as int]);
                    assert(opts@.skip(i as int).drop_first() =~= opts@.skip(i + 1));
                }
                if obj_get(props, opts[i].0.as_str()).is_none() {
                    // collect the declared keys for the message
                    let mut keys: Vec<String> = Vec::new();
                    let mut k: usize = 0;
                    while k < props.len()
                        invariant
                            k <= props@.len(),
                            keys@.len() == k,
                            forall|j: int| 0 <= j < k ==> (#[trigger] keys@[j]) == props@[j].0,
                        decreases props@.len() - k,
                    {
                        keys.push(props[k].0.clone());
                        k = k + 1;
                    }
                    let valid = crate::text::join_strings(&keys, ", ");
                    let mut m = String::new();
                    m.append("Plugin '");
                    m.append(plugin_name);
                    m.append("' does not support option '");
                    m.append(opts[i].0.as_str());
                    m.append("'. Valid options are: ");
                    m.append(valid.as_str());
                    proof {
                        assert(views(keys@) =~= field_keys(props@));
                        assert(m@ =~= msg_unknown_option(
                            plugin_name@,
                            opts@[i as int].0@,
                            field_keys(props@),
                        ));
                    }
                    return Err(MartyError::Config(m));
                }
                i = i + 1;
            }
            proof {
                assert(opts@.skip(opts@.len() as int).len() == 0);
            }
        }
        let mut i: usize = 0;
        proof {
            assert(opts@.skip(0) =~= opts@);
        }
        while i < opts.len()
            invariant
                (*schema) matches JsonValue::Object(x) && x@ == sf@,
                obj_get_spec(sf@, "properties"@) == Some(JsonValue::Object(*props)),
                (*options) matches JsonValue::Object(y) && y@ == opts@,
                addl_false == additional_props_false(sf@),
                addl_false ==> first_unknown_key(props@, opts@) is None,
                i <= opts@.len(),
                first_type_mismatch(props@, opts@) == first_type_mismatch(
                    props@,
                    opts@.skip(i as int),
                ),
            decreases opts@.len() - i,
        {
            proof {
                assert(opts@.skip(i as int)[0] == opts@[i as int]);
                assert(opts@.skip(i as int).drop_first() =~= opts@.skip(i + 1));
            }
            match obj_get(props, opts[i].0.as_str()) {
                Some(JsonValue::Object(ps)) => {
                    match obj_get(ps, "type") {
                        Some(JsonValue::Text(t)) => {
                            let actual = opts[i].1.kind_str();
                            if !str_eq(t.as_str(), actual) {
                                let mut m = String::new();
                                m.append("Plugin '");
                                m.append(plugin_name);
                                m.append("' option '");
                                m.append(opts[i].0.as_str());
                                m.append("' expects type '");
                                m.append(t.as_str());
                                m.append("', got '");
                                m.append(actual);
                                m.append("'");
                                proof {
                                    assert(m@ =~= msg_option_type(
                                        plugin_name@,
                                        opts@[i as int].0@,
                                        t@,
                                        kind_name(opts@[i as int].1),
                                    ));
                                }
                                return Err(MartyError::Config(m));
                            }
                        },
                        _ => {},
                    }
                },
                _ => {},
            }
            i = i + 1;
        }
        proof {
            assert(opts@.skip(opts@.len() as int).len() == 0);
        }
        Ok(())
    }
}



/// Where a plugin comes from, resolved to concrete names and locations.
#[derive(Debug)]
pub enum PluginSource {
    /// Download `url` and store it in the cache under `cache_file`.
    Download { name: String, url: String, cache_file: String },
    /// Load the library at a local path as it stands.
    Local { path: String },
    /// The conventional builtin location, with its fallback.
    Builtin { name: String, cache_candidate: String, fallback: String },
}

/// Error text for a plugin reference with no source at all.
pub open spec fn msg_no_plugin_source() -> Seq<char> {
    "Plugin configuration must specify either 'repository' + 'version', 'url', or 'path'"@
}

/// What resolving a plugin reference yields, by source priority:
/// a release repository (monorepo or not), a direct URL, or a local path
/// (with `builtin` resolved to its conventional locations).
pub open spec fn source_ok(cache: &PluginCache, cfg: &PluginConfig, src: PluginSource) -> bool {
    let ext = cache.platform.extension@;
    if cfg.repository is Some && cfg.version is Some {
        let repo = cfg.repository->0@;
        let ver = cfg.version->0@;
        match cfg.plugin {
            Some(p) => src matches PluginSource::Download { name, url, cache_file } && name@ == p@
                && url@ == cache.monorepo_url(repo, p@, ver) && cache_file@ == cache_filename_spec(
                p@,
                url@,
                ext,
            ),
            None => src matches PluginSource::Download { name, url, cache_file } && name@
                == last_segment(repo).skip(13) && url@ == cache.release_url(repo, ver)
                && cache_file@ == cache_filename_spec(name@, url@, ext),
        }
    } else if cfg.url is Some {
        let u = cfg.url->0@;
        src matches PluginSource::Download { name, url, cache_file } && name@ == derived_url_name(
            u,
        ) && url@ == u && cache_file@ == cache_filename_spec(name@, u, ext)
    } else if cfg.path is Some {
        let p = cfg.path->0@;
        if p == "builtin"@ {
            src matches PluginSource::Builtin { name, cache_candidate, fallback } && name@
                == "builtin"@ && cache_candidate@ == cache.cache_dir@ + "/marty-plugin-"@ + name@
                + "."@ + ext && fallback@ == cache.cache_dir@ + "/../plugins/"@ + name@ + "."@
                + ext
        } else {
            src matches PluginSource::Local { path } && path@ == p
        }
    } else {
        false
    }
}

/// Why resolving a plugin reference fails.
pub open spec fn source_failure(cache: &PluginCache, cfg: &PluginConfig, e: MartyError) -> bool {
    if cfg.repository is Some && cfg.version is Some && cfg.plugin is None {
        let seg = last_segment(cfg.repository->0@);
        ||| (!"marty-plugin-"@.is_prefix_of(seg) && e.message_view() == msg_bad_repo_prefix(seg))
        ||| ("marty-plugin-"@.is_prefix_of(seg) && seg.skip(13).len() == 0 && e.message_view()
            == msg_empty_plugin_name())
    } else {
        cfg.repository is None || cfg.version is None ==> cfg.url is None && cfg.path is None
            && e.message_view() == msg_no_plugin_source()
    }
}

impl PluginCache {
    /// Resolve a plugin reference to its source: what to download and
    /// where to cache it, or which local file to load.
    pub fn resolve_plugin_source(&self, config: &PluginConfig) -> (r: MartyResult<PluginSource>)
        ensures
            match r {
                Ok(src) => source_ok(self, config, src),
                Err(e) => source_failure(self, config, e),
            },
    {
        if config.repository.is_some() && config.version.is_some() {
            let repo = match &config.repository {
                Some(x) => x,
                None => vstd::pervasive::unreached(),
            };
            let ver = match &config.version {
                Some(x) => x,
                None => vstd::pervasive::unreached(),
            };
            match &config.plugin {
                Some(p) => {
                    let url = match self.resolve_github_plugin_url_monorepo(
                        repo.as_str(),
                        p.as_str(),
                        ver.as_str(),
                    ) {
                        Ok(u) => u,
                        Err(_) => vstd::pervasive::unreached(),
                    };
                    let cache_file = self.cache_filename(p.as_str(), url.as_str());
                    return Ok(
                        PluginSource::Download { name: p.clone(), url, cache_file },
                    );
                },
                None => {
                    let name = match self.extract_plugin_name_from_repo(repo.as_str()) {
                        Ok(n) => n,
                        Err(e) => {
                            return Err(e);
                        },
                    };
                    let url = match self.resolve_github_plugin_url(repo.as_str(), ver.as_str()) {
                        Ok(u) => u,
                        Err(e) => {
                            return Err(e);
                        },
                    };
                    let cache_file = self.cache_filename(name.as_str(), url.as_str());
                    return Ok(PluginSource::Download { name, url, cache_file });
                },
            }
        }
        if config.url.is_some() {
            let u = match &config.url {
                Some(x) => x,
                None => vstd::pervasive::unreached(),
            };
            let name = derived_name_from_url(u.as_str());
            let cache_file = self.cache_filename(name.as_str(), u.as_str());
            return Ok(PluginSource::Download { name, url: u.clone(), cache_file });
        }
        if config.path.is_some() {
            let p = match &config.path {
                Some(x) => x,
                None => vstd::pervasive::unreached(),
            };
            if str_eq(p.as_str(), "builtin") {
                let mut cand = String::new();
                cand.append(self.cache_dir.as_str());
                cand.append("/marty-plugin-");
                cand.append("builtin");
                cand.append(".");
                cand.append(self.platform.extension);
                let mut fb = String::new();
                fb.append(self.cache_dir.as_str());
                fb.append("/../plugins/");
                fb.append("builtin");
                fb.append(".");
                fb.append(self.platform.extension);
                let name = "builtin".to_owned();
                proof {
                    assert(cand@ =~= self.cache_dir@ + "/marty-plugin-"@ + name@ + "."@
                        + self.platform.extension@);
                    assert(fb@ =~= self.cache_dir@ + "/../plugins/"@ + name@ + "."@
                        + self.platform.extension@);
                }
                return Ok(
                    PluginSource::Builtin { name, cache_candidate: cand, fallback: fb },
                );
            }
            return Ok(PluginSource::Local { path: p.clone() });
        }
        let m =
            "Plugin configuration must specify either 'repository' + 'version', 'url', or 'path'".to_owned();
        Err(MartyError::Config(m))
    }
}


/// The glob option schema shared by the discovery plugins: optional
/// extra include and exclude globs, and no other keys.
pub fn glob_options_schema() -> (r: Option<JsonValue>)
    ensures
        r matches Some(v) && v matches JsonValue::Object(sf)
            && crate::json::obj_get_spec(sf@, "properties"@) matches Some(p)
            && p matches JsonValue::Object(props)
            && field_keys(props@) == seq!["includes"@, "excludes"@]
            && additional_props_false(sf@),
{
    let mut props: Vec<(String, JsonValue)> = Vec::new();
    let mut inc: Vec<(String, JsonValue)> = Vec::new();
    inc.push(("type".to_owned(), JsonValue::Text("array".to_owned())));
    inc.push(
        (
            "description".to_owned(),
            JsonValue::Text("Additional glob patterns to include in scanning".to_owned()),
        ),
    );
    props.push(("includes".to_owned(), JsonValue::Object(inc)));
    let mut exc: Vec<(String, JsonValue)> = Vec::new();
    exc.push(("type".to_owned(), JsonValue::Text("array".to_owned())));
    exc.push(
        (
            "description".to_owned(),
            JsonValue::Text("Additional glob patterns to exclude from scanning".to_owned()),
        ),
    );
    props.push(("excludes".to_owned(), JsonValue::Object(exc)));
    let mut sf: Vec<(String, JsonValue)> = Vec::new();
    sf.push(("type".to_owned(), JsonValue::Text("object".to_owned())));
    sf.push(("properties".to_owned(), JsonValue::Object(props)));
    sf.push(("additionalProperties".to_owned(), JsonValue::Bool(false)));
    proof {
        reveal_strlit("type");
        reveal_strlit("properties");
        reveal_strlit("additionalProperties");
        assert("type"@.len() == 4);
        assert("properties"@.len() == 10);
        assert("additionalProperties"@.len() == 20);
        reveal_with_fuel(crate::json::obj_get_spec, 4);
        assert(sf@.drop_first()[0] == sf@[1]);
        assert(sf@.drop_first().drop_first()[0] == sf@[2]);
        assert(crate::json::obj_get_spec(sf@, "properties"@) == Some(sf@[1].1));
        assert(crate::json::obj_get_spec(sf@, "additionalProperties"@) == Some(sf@[2].1));
        assert(field_keys(
            sf@[1].1->Object_0@,
        ) =~= seq!["includes"@, "excludes"@]);
    }
    Some(JsonValue::Object(sf))
}


/// Resolving a plugin reference is a pure function of the reference and
/// the platform: re-resolving an unchanged configuration plans the same
/// downloads into the same cache files.
pub proof fn lemma_plugin_source_deterministic(
    cache: &PluginCache,
    cfg: &PluginConfig,
    s1: PluginSource,
    s2: PluginSource,
)
    requires
        source_ok(cache, cfg, s1),
        source_ok(cache, cfg, s2),
    ensures
        match (s1, s2) {
            (
                PluginSource::Download { name: n1, url: u1, cache_file: c1 },
                PluginSource::Download { name: n2, url: u2, cache_file: c2 },
            ) => n1@ == n2@ && u1@ == u2@ && c1@ == c2@,
            (
                PluginSource::Local { path: p1 },
                PluginSource::Local { path: p2 },
            ) => p1@ == p2@,
            (
                PluginSource::Builtin { name: n1, cache_candidate: c1, fallback: f1 },
                PluginSource::Builtin { name: n2, cache_candidate: c2, fallback: f2 },
            ) => n1@ == n2@ && c1@ == c2@ && f1@ == f2@,
            _ => false,
        },
{
}

} // verus!
