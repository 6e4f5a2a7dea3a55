//! The reconciliation engine.
//!
//! Given one parsed config file and the state read from the remote store,
//! the engine decides which keys changed, which must be removed, and what
//! puts and deletes to issue; it never talks to the network itself. The
//! surrounding driver performs the listed mutations in order.

use base64::Engine;
use vstd::prelude::*;

use crate::config::Config;
use crate::error::Error;
use crate::kv::{
    has_key, missing_of, strs_view, pairs_view, unique_keys, KVConfig,
};
use crate::strutil::{
    find_char, lemma_find_char, str_eq, trim_char, trim_char_spec, find_char_in,
};
use crate::template::{template_ends_with_key, ServiceConfig};

verus! {

/// Per-file and per-run publishing counters.
#[derive(Clone, Copy, Debug)]
pub struct PublishStats {
    /// Number of effective local keys.
    pub count: usize,
    /// Number of keys that needed a put.
    pub changed: usize,
    /// Number of keys found remotely.
    pub existing: usize,
    /// Number of remote keys deleted.
    pub removed: usize,
}

impl Default for PublishStats {
    /// The zero-valued identity element of statistics addition.
    fn default() -> (r: PublishStats)
        ensures
            r.count == 0 && r.changed == 0 && r.existing == 0 && r.removed == 0,
    {
        PublishStats { count: 0, changed: 0, existing: 0, removed: 0 }
    }
}

impl PublishStats {
    /// Counter-wise sum of two statistics.
    pub fn add(&self, other: &PublishStats) -> (r: PublishStats)
        requires
            self.count + other.count <= usize::MAX,
            self.changed + other.changed <= usize::MAX,
            self.existing + other.existing <= usize::MAX,
            self.removed + other.removed <= usize::MAX,
        ensures
            r.count == self.count + other.count,
            r.changed == self.changed + other.changed,
            r.existing == self.existing + other.existing,
            r.removed == self.removed + other.removed,
    {
        PublishStats {
            count: self.count + other.count,
            changed: self.changed + other.changed,
            existing: self.existing + other.existing,
            removed: self.removed + other.removed,
        }
    }
}

/// The counter-wise totals of a sequence of statistics, as unbounded
/// integers: (count, changed, existing, removed).
pub open spec fn totals_of(s: Seq<PublishStats>) -> (int, int, int, int)
    decreases s.len(),
{
    if s.len() == 0 {
        (0, 0, 0, 0)
    } else {
        let t = totals_of(s.drop_last());
        (
            t.0 + s.last().count,
            t.1 + s.last().changed,
            t.2 + s.last().existing,
            t.3 + s.last().removed,
        )
    }
}

/// Statistics addition is associative and commutative in the aggregate:
/// totalling two runs separately and adding the results equals totalling
/// the concatenated run.
pub proof fn lemma_stats_additive(a: Seq<PublishStats>, b: Seq<PublishStats>)
    ensures
        totals_of(a + b).0 == totals_of(a).0 + totals_of(b).0,
        totals_of(a + b).1 == totals_of(a).1 + totals_of(b).1,
        totals_of(a + b).2 == totals_of(a).2 + totals_of(b).2,
        totals_of(a + b).3 == totals_of(a).3 + totals_of(b).3,
    decreases b.len(),
{
    if b.len() == 0 {
        assert(a + b =~= a);
    } else {
        lemma_stats_additive(a, b.drop_last());
        assert((a + b).drop_last() =~= a + b.drop_last());
        assert((a + b).last() == b.last());
    }
}

/// A prefix of a run never exceeds the whole run's totals.
proof fn lemma_totals_monotone(s: Seq<PublishStats>, k: int)
    requires
        0 <= k <= s.len(),
    ensures
        totals_of(s).0 >= totals_of(s.take(k)).0,
        totals_of(s).1 >= totals_of(s.take(k)).1,
        totals_of(s).2 >= totals_of(s.take(k)).2,
        totals_of(s).3 >= totals_of(s.take(k)).3,
    decreases s.len() - k,
{
    if k < s.len() {
        assert(s.take(k + 1).drop_last() =~= s.take(k));
        assert(s.take(k + 1).last() == s[k]);
        lemma_totals_monotone(s, k + 1);
    } else {
        assert(s.take(k) =~= s);
    }
}

/// Fold a vector of per-file statistics into run totals. Fails exactly
/// when some total does not fit a machine word.
pub fn total_stats(reports: &Vec<PublishStats>) -> (r: Result<PublishStats, Error>)
    ensures
        match r {
            Ok(t) => totals_of(reports@) == (
                t.count as int,
                t.changed as int,
                t.existing as int,
                t.removed as int,
            ),
            Err(e) => e is Generic && (totals_of(reports@).0 > usize::MAX || totals_of(reports@).1
                > usize::MAX || totals_of(reports@).2 > usize::MAX || totals_of(reports@).3
                > usize::MAX),
        },
{
    let mut acc = PublishStats::default();
    let mut i: usize = 0;
    while i < reports.len()
        invariant
            i <= reports.len(),
            totals_of(reports@.subrange(0, i as int)) == (
                acc.count as int,
                acc.changed as int,
                acc.existing as int,
                acc.removed as int,
            ),
        decreases reports.len() - i,
    {
        let item = &reports[i];
        if acc.count > usize::MAX - item.count || acc.changed > usize::MAX - item.changed
            || acc.existing > usize::MAX - item.existing
            || acc.removed > usize::MAX - item.removed {
            proof {
                let cur = reports@.subrange(0, i + 1);
                assert(cur.drop_last() =~= reports@.subrange(0, i as int));
                assert(cur.last() == reports@[i as int]);
                assert(reports@.take(i + 1) =~= cur);
                lemma_totals_monotone(reports@, i + 1);
            }
            return Err(Error::Generic);
        }
        acc = acc.add(item);
        proof {
            let cur = reports@.subrange(0, i + 1);
            assert(cur.drop_last() =~= reports@.subrange(0, i as int));
            assert(cur.last() == reports@[i as int]);
        }
        i = i + 1;
    }
    proof {
        assert(reports@.subrange(0, reports.len() as int) =~= reports@);
    }
    Ok(acc)
}

/// Characters allowed in a service or environment name: ASCII letters,
/// digits, underscore and dash.
pub open spec fn is_word_char(c: char) -> bool {
    (97 <= c as u32 && c as u32 <= 122)  // 'a'..'z'
    || (65 <= c as u32 && c as u32 <= 90)  // 'A'..'Z'
    || (48 <= c as u32 && c as u32 <= 57)  // '0'..'9'
    || c == '_' || c == '-'
}

/// A non-empty run of word characters.
pub open spec fn is_word(s: Seq<char>) -> bool {
    s.len() > 0 && forall|i: int| 0 <= i < s.len() ==> is_word_char(s[i])
}

/// The (service, env) pair a config filename denotes, or `None` if the
/// filename does not have the shape `<service>.<env>.conf`.
pub open spec fn filename_spec(f: Seq<char>) -> Option<(Seq<char>, Seq<char>)> {
    match find_char(f, '.') {
        None => None,
        Some(i) => {
            let service = f.subrange(0, i);
            let rest = f.subrange(i + 1, f.len() as int);
            match find_char(rest, '.') {
                None => None,
                Some(j) => {
                    let env = rest.subrange(0, j);
                    let ext = rest.subrange(j + 1, rest.len() as int);
                    if is_word(service) && is_word(env) && ext == "conf"@ {
                        Some((service, env))
                    } else {
                        None
                    }
                },
            }
        },
    }
}

/// Filename resolution is sound: when it succeeds, the filename really is
/// the returned service and env joined as `<service>.<env>.conf`.
pub proof fn lemma_filename_spec_sound(f: Seq<char>)
    requires
        filename_spec(f) is Some,
    ensures
        is_word(filename_spec(f)->Some_0.0),
        is_word(filename_spec(f)->Some_0.1),
        f == filename_spec(f)->Some_0.0 + "."@ + filename_spec(f)->Some_0.1 + ".conf"@,
{
    reveal_strlit(".");
    reveal_strlit(".conf");
    reveal_strlit("conf");
    lemma_find_char(f, '.');
    let i = find_char(f, '.')->Some_0;
    let service = f.subrange(0, i);
    let rest = f.subrange(i + 1, f.len() as int);
    lemma_find_char(rest, '.');
    let j = find_char(rest, '.')->Some_0;
    let env = rest.subrange(0, j);
    let ext = rest.subrange(j + 1, rest.len() as int);
    assert(ext == "conf"@);
    assert(ext.len() == 4);
    assert(f =~= service + "."@ + env + ".conf"@) by {
        assert(f.len() == i + 1 + rest.len());
        assert(rest.len() == j + 1 + 4);
        assert(forall|k: int| 0 <= k < rest.len() ==> rest[k] == f[i + 1 + k]);
        assert(forall|k: int| 0 <= k < 4 ==> ext[k] == rest[j + 1 + k]);
        assert(".conf"@[0] == '.' && ".conf"@[1] == 'c' && ".conf"@[2] == 'o' && ".conf"@[3]
            == 'n' && ".conf"@[4] == 'f');
        assert("conf"@[0] == 'c' && "conf"@[1] == 'o' && "conf"@[2] == 'n' && "conf"@[3] == 'f');
    }
}

/// Filename resolution is complete: every filename of the form
/// `<service>.<env>.conf` over word characters resolves to exactly that
/// service and env.
pub proof fn lemma_filename_spec_complete(s: Seq<char>, e: Seq<char>)
    requires
        is_word(s),
        is_word(e),
    ensures
        filename_spec(s + "."@ + e + ".conf"@) == Some((s, e)),
{
    reveal_strlit(".");
    reveal_strlit(".conf");
    reveal_strlit("conf");
    let f = s + "."@ + e + ".conf"@;
    assert(!is_word_char('.'));
    assert(f.len() == s.len() + 1 + e.len() + 5);
    assert(f[s.len() as int] == '.');
    assert(forall|k: int| 0 <= k < s.len() ==> f[k] == s[k]);
    lemma_find_char(f, '.');
    assert(find_char(f, '.') is Some);
    let i = find_char(f, '.')->Some_0;
    assert(i <= s.len());
    if i < s.len() {
        assert(is_word_char(f[i]));
        assert(false);
    }
    assert(i == s.len());
    let service = f.subrange(0, i);
    assert(service =~= s);
    let rest = f.subrange(i + 1, f.len() as int);
    assert(rest =~= e + ".conf"@) by {
        assert(".conf"@.len() == 5);
        assert(forall|k: int| 0 <= k < rest.len() ==> rest[k] == f[i + 1 + k]);
    }
    assert(rest[e.len() as int] == '.') by {
        assert(".conf"@[0] == '.');
    }
    assert(forall|k: int| 0 <= k < e.len() ==> rest[k] == e[k]);
    lemma_find_char(rest, '.');
    assert(find_char(rest, '.') is Some);
    let j = find_char(rest, '.')->Some_0;
    assert(j <= e.len());
    if j < e.len() {
        assert(is_word_char(rest[j]));
        assert(false);
    }
    assert(j == e.len());
    let env = rest.subrange(0, j);
    assert(env =~= e);
    let ext = rest.subrange(j + 1, rest.len() as int);
    assert(ext =~= "conf"@) by {
        assert(forall|k: int| 0 <= k < ext.len() ==> ext[k] == rest[j + 1 + k]);
        assert(forall|k: int| 0 <= k < 4 ==> ".conf"@[1 + k] == "conf"@[k]) by {
            assert(".conf"@[1] == 'c' && ".conf"@[2] == 'o' && ".conf"@[3] == 'n' && ".conf"@[4]
                == 'f');
            assert("conf"@[0] == 'c' && "conf"@[1] == 'o' && "conf"@[2] == 'n' && "conf"@[3]
                == 'f');
        }
    }
}

/// Is `s@` a non-empty run of word characters?
fn word_str(s: &str) -> (r: bool)
    ensures
        r == is_word(s@),
{
    let n = s.unicode_len();
    if n == 0 {
        return false;
    }
    let mut i: usize = 0;
    while i < n
        invariant
            i <= n,
            n == s@.len(),
            forall|j: int| 0 <= j < i ==> is_word_char(s@[j]),
        decreases n - i,
    {
        let c = s.get_char(i);
        let u = c as u32;
        let ok = (97 <= u && u <= 122) || (65 <= u && u <= 90) || (48 <= u && u <= 57)
            || c == '_' || c == '-';
        if !ok {
            return false;
        }
        i = i + 1;
    }
    true
}

/// Resolved run configuration plus the derived publisher state.
pub struct Publisher {
    config: Config,
}

impl Publisher {
    /// The configuration this publisher was built from.
    pub closed spec fn cfg(&self) -> Config {
        self.config
    }

    /// Read access to the configuration.
    pub fn config(&self) -> (r: &Config)
        ensures
            *r == self.cfg(),
    {
        &self.config
    }

    /// Creates a new publisher; rejects a key template that does not end
    /// with the literal segment `/{key}`.
    pub fn new(config: Config) -> (r: Result<Publisher, Error>)
        ensures
            match r {
                Ok(p) => template_ends_with_key(config.key_template@) && p.cfg() == config,
                Err(e) => !template_ends_with_key(config.key_template@) && e is Template,
            },
    {
        let publisher = Publisher { config };
        match publisher.validate() {
            Ok(()) => Ok(publisher),
            Err(e) => Err(e),
        }
    }

    /// Validate the configured key template's shape; the error names the
    /// offending template.
    fn validate(&self) -> (r: Result<(), Error>)
        ensures
            match r {
                Ok(()) => template_ends_with_key(self.cfg().key_template@),
                Err(e) => !template_ends_with_key(self.cfg().key_template@) && e is Template,
            },
    {
        let tpl = self.config.key_template.as_str();
        let n = tpl.unicode_len();
        let ok = if n < 6 {
            false
        } else {
            str_eq(tpl.substring_char(n - 6, n), "/{key}")
        };
        if ok {
            Ok(())
        } else {
            let mut msg = String::from_str("key must be at the end of template ");
            msg.append(tpl);
            Err(Error::Template(msg))
        }
    }

    /// The (service, env) pair to use for a file: the explicitly configured
    /// pair when both are given, else the pair the filename denotes.
    pub open spec fn resolved_service_env(cfg: Config, filename: Seq<char>) -> Option<
        (Seq<char>, Seq<char>),
    > {
        if cfg.service is Some && cfg.env is Some {
            Some((cfg.service->Some_0@, cfg.env->Some_0@))
        } else {
            filename_spec(filename)
        }
    }

    /// Determine service and env for one config file from its filename.
    pub fn parse_config_paths(&self, config_filename: &str) -> (r: Result<(String, String), Error>)
        ensures
            match r {
                Ok(p) => Self::resolved_service_env(self.cfg(), config_filename@) == Some(
                    (p.0@, p.1@),
                ),
                Err(e) => Self::resolved_service_env(self.cfg(), config_filename@) is None
                    && e is Template,
            },
    {
        match (&self.config.service, &self.config.env) {
            (Some(s), Some(e)) => Ok((s.clone(), e.clone())),
            _ => Self::deduce_service_env_from_filename(config_filename),
        }
    }

    /// Match a filename against the `<service>.<env>.conf` shape.
    fn match_filename(filename: &str) -> (r: Option<(String, String)>)
        ensures
            match r {
                Some(p) => filename_spec(filename@) == Some((p.0@, p.1@)),
                None => filename_spec(filename@) is None,
            },
    {
        let n = filename.unicode_len();
        match find_char_in(filename, '.') {
            None => None,
            Some(i) => {
                proof {
                    lemma_find_char(filename@, '.');
                }
                let service = filename.substring_char(0, i);
                let rest = filename.substring_char(i + 1, n);
                match find_char_in(rest, '.') {
                    None => None,
                    Some(j) => {
                        proof {
                            lemma_find_char(rest@, '.');
                        }
                        let rn = rest.unicode_len();
                        let env = rest.substring_char(0, j);
                        let ext = rest.substring_char(j + 1, rn);
                        if word_str(service) && word_str(env) && str_eq(ext, "conf") {
                            Some((String::from_str(service), String::from_str(env)))
                        } else {
                            None
                        }
                    },
                }
            },
        }
    }

    /// Deduce service and env from a config filename of the shape
    /// `<service>.<env>.conf`; the error names the offending filename.
    pub fn deduce_service_env_from_filename(filename: &str) -> (r: Result<
        (String, String),
        Error,
    >)
        ensures
            match r {
                Ok(p) => filename_spec(filename@) == Some((p.0@, p.1@)),
                Err(e) => filename_spec(filename@) is None && e is Template,
            },
    {
        match Self::match_filename(filename) {
            Some(p) => Ok(p),
            None => {
                let mut msg = String::from_str("cannot parse filename ");
                msg.append(filename);
                Err(Error::Template(msg))
            },
        }
    }

    /// Whether a file resolving to `env` passes the configured environment
    /// filter (no filter passes everything).
    pub open spec fn env_passes(cfg: Config, env: Seq<char>) -> bool {
        match cfg.filter_env {
            None => true,
            Some(f) => f@ == env,
        }
    }

    /// Executable check of the environment filter.
    pub fn env_matches_filter(&self, env: &str) -> (r: bool)
        ensures
            r == Self::env_passes(self.cfg(), env@),
    {
        match &self.config.filter_env {
            None => true,
            Some(f) => str_eq(f.as_str(), env),
        }
    }

    /// Normalize a value read from a config file or from Consul: strip
    /// surrounding spaces, then surrounding double quotes.
    pub fn postprocess_value(&self, value: &str) -> (r: String)
        ensures
            r@ == normalize_spec(value@),
    {
        let stripped = trim_char(trim_char(value, ' '), '"');
        String::from_str(stripped)
    }
}

/// The normal form under which local and remote values are compared:
/// surrounding spaces stripped, then surrounding double quotes stripped.
pub open spec fn normalize_spec(s: Seq<char>) -> Seq<char> {
    trim_char_spec(trim_char_spec(s, ' '), '"')
}

/// `p` is a prefix of `s`.
pub open spec fn starts_with(s: Seq<char>, p: Seq<char>) -> bool {
    s.len() >= p.len() && s.subrange(0, p.len() as int) == p
}

/// Executable prefix test.
pub fn str_starts_with(s: &str, p: &str) -> (r: bool)
    ensures
        r == starts_with(s@, p@),
{
    let n = s.unicode_len();
    let m = p.unicode_len();
    if n < m {
        return false;
    }
    let head = s.substring_char(0, m);
    str_eq(head, p)
}

/// Render the slash-terminated remote prefix under which all keys of one
/// (service, env) pair live: the rendering of the empty logical key.
pub fn consul_key_prefix(sc: &ServiceConfig) -> (r: Result<String, Error>)
    ensures
        match r {
            Ok(s) => sc.spec_key(Seq::empty()) == Some(s@) && s@.len() > 0 && s@.last() == '/',
            Err(e) => e is Template && match sc.spec_key(Seq::empty()) {
                None => true,
                Some(pre) => pre.len() == 0 || pre.last() != '/',
            },
        },
{
    proof {
        reveal_strlit("");
        assert(""@ =~= Seq::<char>::empty());
    }
    match sc.consul_key("") {
        Err(e) => Err(e),
        Ok(prefix) => {
            let n = prefix.as_str().unicode_len();
            if n == 0 {
                return Err(Error::Template(String::from_str("key prefix must end with /")));
            }
            let last = prefix.as_str().get_char(n - 1);
            if last != '/' {
                return Err(Error::Template(String::from_str("key prefix must end with /")));
            }
            Ok(prefix)
        },
    }
}

/// The listed full keys with `prefix` stripped, in listing order;
/// meaningful when every key starts with the prefix.
pub open spec fn strip_all(prefix: Seq<char>, listed: Seq<Seq<char>>) -> Seq<Seq<char>> {
    listed.map_values(|k: Seq<char>| k.subrange(prefix.len() as int, k.len() as int))
}

/// Every listed key starts with the prefix.
pub open spec fn all_have_prefix(prefix: Seq<char>, listed: Seq<Seq<char>>) -> bool {
    forall|i: int| 0 <= i < listed.len() ==> starts_with(#[trigger] listed[i], prefix)
}

/// Strip `prefix` from every listed remote key. A key that does not start
/// with the prefix signals a corrupted remote namespace and fails the run.
pub fn relative_keys(prefix: &str, listed: &Vec<String>) -> (r: Result<Vec<String>, Error>)
    ensures
        match r {
            Ok(ks) => all_have_prefix(prefix@, strs_view(listed@)) && strs_view(ks@) == strip_all(
                prefix@,
                strs_view(listed@),
            ),
            Err(e) => !all_have_prefix(prefix@, strs_view(listed@)) && e is Generic,
        },
{
    let m = prefix.unicode_len();
    let mut out: Vec<String> = Vec::new();
    let mut i: usize = 0;
    while i < listed.len()
        invariant
            i <= listed.len(),
            m == prefix@.len(),
            out@.len() == i,
            forall|j: int| 0 <= j < i ==> starts_with(#[trigger] strs_view(listed@)[j], prefix@),
            forall|j: int|
                0 <= j < i ==> out@[j]@ == strs_view(listed@)[j].subrange(
                    prefix@.len() as int,
                    strs_view(listed@)[j].len() as int,
                ),
        decreases listed.len() - i,
    {
        let k: &String = &listed[i];
        proof {
            assert(strs_view(listed@)[i as int] == k@);
        }
        if !str_starts_with(k.as_str(), prefix) {
            return Err(Error::Generic);
        }
        let n = k.as_str().unicode_len();
        let rel = k.as_str().substring_char(m, n);
        out.push(String::from_str(rel));
        i = i + 1;
    }
    proof {
        assert(strs_view(out@) =~= strip_all(prefix@, strs_view(listed@)));
    }
    Ok(out)
}

/// What base64 decoding yields on a given input: the decoded bytes, or
/// `None` when the input is not valid standard-alphabet base64. The result
/// depends on the input characters alone.
pub uninterp spec fn base64_decode_of(s: Seq<char>) -> Option<Seq<u8>>;

/// Relies on base64's `Engine::decode` with the standard alphabet: the
/// outcome is a pure function of the input string.
#[verifier::external_body]
fn b64_decode(s: &str) -> (r: Option<Vec<u8>>)
    ensures
        match r {
            Some(v) => base64_decode_of(s@) == Some(v@),
            None => base64_decode_of(s@) is None,
        },
{
    base64::engine::general_purpose::STANDARD.decode(s).ok()
}

/// Relies on `String::from_utf8`: it succeeds exactly on valid UTF-8 and
/// returns the string decoding those bytes.
#[verifier::external_body]
fn utf8_string(v: Vec<u8>) -> (r: Option<String>)
    ensures
        r is Some <==> vstd::utf8::valid_utf8(v@),
        r is Some ==> r->Some_0@ == vstd::utf8::decode_utf8(v@),
{
    String::from_utf8(v).ok()
}

/// A stored remote value decodes when it is valid base64 of valid UTF-8.
pub open spec fn remote_decodes(raw: Seq<char>) -> bool {
    match base64_decode_of(raw) {
        None => false,
        Some(bytes) => vstd::utf8::valid_utf8(bytes),
    }
}

/// The text a stored remote value decodes to (meaningful when
/// `remote_decodes` holds).
pub open spec fn remote_text(raw: Seq<char>) -> Seq<char> {
    vstd::utf8::decode_utf8(base64_decode_of(raw)->Some_0)
}

/// Whether a local key needs a put, given the remote store's answer for its
/// rendered path: `None` means the key is absent remotely (needs creation);
/// a present raw value is compared after normalization of both sides. The
/// outer `None` marks an undecodable remote value, which aborts the run.
pub open spec fn key_changed_spec(local: Seq<char>, remote: Option<Seq<char>>) -> Option<bool> {
    match remote {
        None => Some(true),
        Some(raw) => if remote_decodes(raw) {
            Some(normalize_spec(remote_text(raw)) != normalize_spec(local))
        } else {
            None
        },
    }
}

/// Decide whether one key changed from its remote get outcome.
pub fn key_changed(local: &str, remote: Option<&String>) -> (r: Result<bool, Error>)
    ensures
        match r {
            Ok(b) => key_changed_spec(
                local@,
                match remote {
                    None => None,
                    Some(s) => Some(s@),
                },
            ) == Some(b),
            Err(e) => key_changed_spec(
                local@,
                match remote {
                    None => None,
                    Some(s) => Some(s@),
                },
            ) is None && e is Generic,
        },
{
    match remote {
        None => Ok(true),
        Some(raw) => {
            let decoded = match b64_decode(raw.as_str()) {
                None => {
                    return Err(Error::Generic);
                },
                Some(bytes) => bytes,
            };
            let text = match utf8_string(decoded) {
                None => {
                    return Err(Error::Generic);
                },
                Some(t) => t,
            };
            let remote_norm = trim_char(trim_char(text.as_str(), ' '), '"');
            let local_norm = trim_char(trim_char(local, ' '), '"');
            Ok(!str_eq(remote_norm, local_norm))
        },
    }
}

/// The per-key remote get outcomes, viewed at the character level.
pub open spec fn remote_view(rs: Seq<Option<String>>) -> Seq<Option<Seq<char>>> {
    rs.map_values(
        |o: Option<String>|
            match o {
                None => None,
                Some(s) => Some(s@),
            },
    )
}

/// Every per-key decision is defined: no remote value failed to decode.
pub open spec fn all_decide(
    pairs: Seq<(Seq<char>, Seq<char>)>,
    responses: Seq<Option<Seq<char>>>,
) -> bool {
    forall|i: int|
        0 <= i < pairs.len() ==> key_changed_spec(#[trigger] pairs[i].1, responses[i]) is Some
}

/// The local keys marked changed, in file order, given the remote get
/// outcome for each local key (index-aligned with `pairs`).
pub open spec fn changed_of(
    pairs: Seq<(Seq<char>, Seq<char>)>,
    responses: Seq<Option<Seq<char>>>,
) -> Seq<Seq<char>>
    decreases pairs.len(),
{
    if pairs.len() == 0 {
        Seq::empty()
    } else {
        let i = pairs.len() - 1;
        let init = changed_of(pairs.drop_last(), responses);
        if key_changed_spec(pairs[i].1, responses[i]) == Some(true) {
            init.push(pairs[i].0)
        } else {
            init
        }
    }
}

/// Diff membership: a key is in the changed set exactly when its remote
/// counterpart is absent or differs after normalization; and every changed
/// key is a local key.
pub proof fn lemma_changed_of(
    pairs: Seq<(Seq<char>, Seq<char>)>,
    responses: Seq<Option<Seq<char>>>,
)
    requires
        unique_keys(pairs),
    ensures
        forall|k: Seq<char>| #[trigger] changed_of(pairs, responses).contains(k) ==> has_key(
            pairs,
            k,
        ),
        forall|i: int|
            0 <= i < pairs.len() ==> (changed_of(pairs, responses).contains(#[trigger] pairs[i].0)
                <==> key_changed_spec(pairs[i].1, responses[i]) == Some(true)),
    decreases pairs.len(),
{
    if pairs.len() > 0 {
        let n = pairs.len() - 1;
        let init = pairs.drop_last();
        assert(forall|i: int| 0 <= i < init.len() ==> init[i] == pairs[i]);
        assert(unique_keys(init));
        lemma_changed_of(init, responses);
        let c = changed_of(pairs, responses);
        let ci = changed_of(init, responses);
        assert forall|k: Seq<char>| #[trigger] has_key(init, k) implies has_key(pairs, k) by {
            let i = choose|i: int| 0 <= i < init.len() && init[i].0 == k;
            assert(pairs[i].0 == k);
        }
        if key_changed_spec(pairs[n].1, responses[n]) == Some(true) {
            assert(c == ci.push(pairs[n].0));
            assert(forall|i: int| 0 <= i < ci.len() ==> c[i] == ci[i]);
            assert(c[c.len() - 1] == pairs[n].0);
            assert forall|k: Seq<char>| #[trigger] c.contains(k) implies has_key(pairs, k) by {
                let i = choose|i: int| 0 <= i < c.len() && c[i] == k;
                if i < c.len() - 1 {
                    assert(ci[i] == k);
                    assert(ci.contains(k));
                } else {
                    assert(pairs[n].0 == k);
                }
            }
            assert forall|i: int| 0 <= i < pairs.len() implies (c.contains(pairs[i].0)
                <==> key_changed_spec(pairs[i].1, responses[i]) == Some(true)) by {
                if i < n {
                    assert(init[i] == pairs[i]);
                    if ci.contains(pairs[i].0) {
                        let w = choose|w: int| 0 <= w < ci.len() && ci[w] == pairs[i].0;
                        assert(c[w] == pairs[i].0);
                    }
                    if c.contains(pairs[i].0) {
                        let w = choose|w: int| 0 <= w < c.len() && c[w] == pairs[i].0;
                        if w < c.len() - 1 {
                            assert(ci[w] == pairs[i].0);
                            assert(ci.contains(pairs[i].0));
                        } else {
                            assert(pairs[i].0 == pairs[n].0);
                            assert(false);
                        }
                    }
                } else {
                    assert(c[c.len() - 1] == pairs[i].0);
                }
            }
        } else {
            assert(c == ci);
            assert forall|i: int| 0 <= i < pairs.len() implies (c.contains(pairs[i].0)
                <==> key_changed_spec(pairs[i].1, responses[i]) == Some(true)) by {
                if i < n {
                    assert(init[i] == pairs[i]);
                } else {
                    if c.contains(pairs[n].0) {
                        assert(has_key(init, pairs[n].0));
                        let w = choose|w: int| 0 <= w < init.len() && init[w].0 == pairs[n].0;
                        assert(pairs[w].0 == pairs[n].0);
                        assert(false);
                    }
                }
            }
        }
    }
}

/// The puts to issue for one file: for each local pair whose key is in the
/// changed set, in file order, the rendered remote path and the normalized
/// value. `None` when some changed key fails to render.
pub open spec fn puts_of(
    sc: ServiceConfig,
    pairs: Seq<(Seq<char>, Seq<char>)>,
    changed: Seq<Seq<char>>,
) -> Option<Seq<(Seq<char>, Seq<char>)>>
    decreases pairs.len(),
{
    if pairs.len() == 0 {
        Some(Seq::empty())
    } else {
        match puts_of(sc, pairs.drop_last(), changed) {
            None => None,
            Some(init) => {
                let p = pairs.last();
                if !changed.contains(p.0) {
                    Some(init)
                } else {
                    match sc.spec_key(trim_char_spec(p.0, ' ')) {
                        None => None,
                        Some(path) => Some(init.push((path, normalize_spec(p.1)))),
                    }
                }
            },
        }
    }
}

/// A failed prefix of the put plan fails the whole plan.
proof fn lemma_puts_of_none(
    sc: ServiceConfig,
    pairs: Seq<(Seq<char>, Seq<char>)>,
    changed: Seq<Seq<char>>,
    k: int,
)
    requires
        0 <= k <= pairs.len(),
        puts_of(sc, pairs.take(k), changed) is None,
    ensures
        puts_of(sc, pairs, changed) is None,
    decreases pairs.len() - k,
{
    if k < pairs.len() {
        assert(pairs.take(k + 1).drop_last() =~= pairs.take(k));
        assert(pairs.take(k + 1).last() == pairs[k]);
        lemma_puts_of_none(sc, pairs, changed, k + 1);
    } else {
        assert(pairs.take(k) =~= pairs);
    }
}

/// The deletes to issue for one file: the rendered remote path of each
/// removed key, in order. `None` when a key fails to render or renders to
/// an absolute path (one starting with `/`), which must never escape the
/// prefix.
pub open spec fn deletes_of(sc: ServiceConfig, removed: Seq<Seq<char>>) -> Option<Seq<Seq<char>>>
    decreases removed.len(),
{
    if removed.len() == 0 {
        Some(Seq::empty())
    } else {
        match deletes_of(sc, removed.drop_last()) {
            None => None,
            Some(init) => match sc.spec_key(trim_char_spec(removed.last(), ' ')) {
                None => None,
                Some(path) => if path.len() > 0 && path[0] == '/' {
                    None
                } else {
                    Some(init.push(path))
                },
            },
        }
    }
}

/// A failed prefix of the delete plan fails the whole plan.
proof fn lemma_deletes_of_none(sc: ServiceConfig, removed: Seq<Seq<char>>, k: int)
    requires
        0 <= k <= removed.len(),
        deletes_of(sc, removed.take(k)) is None,
    ensures
        deletes_of(sc, removed) is None,
    decreases removed.len() - k,
{
    if k < removed.len() {
        assert(removed.take(k + 1).drop_last() =~= removed.take(k));
        assert(removed.take(k + 1).last() == removed[k]);
        lemma_deletes_of_none(sc, removed, k + 1);
    } else {
        assert(removed.take(k) =~= removed);
    }
}

/// Does some element of `v` read as `s`?
pub fn contains_str(v: &Vec<String>, s: &str) -> (r: bool)
    ensures
        r == strs_view(v@).contains(s@),
{
    let mut i: usize = 0;
    while i < v.len()
        invariant
            i <= v.len(),
            forall|j: int| 0 <= j < i ==> strs_view(v@)[j] != s@,
        decreases v.len() - i,
    {
        proof {
            assert(strs_view(v@)[i as int] == v@[i as int]@);
        }
        if str_eq(v[i].as_str(), s) {
            assert(strs_view(v@)[i as int] == s@);
            return true;
        }
        i = i + 1;
    }
    proof {
        if strs_view(v@).contains(s@) {
            let w = choose|w: int| 0 <= w < strs_view(v@).len() && strs_view(v@)[w] == s@;
            assert(false);
        }
    }
    false
}

/// Everything the engine computed for one file: the statistics, and the
/// mutations the driver must issue, in order.
pub struct FileReport {
    /// Per-file counters.
    pub stats: PublishStats,
    /// (remote path, normalized value) pairs to put, in file order.
    pub puts: Vec<(String, String)>,
    /// Remote paths to delete, in listing order.
    pub deletes: Vec<String>,
}

impl Publisher {
    /// Decide which local keys changed, given the remote get outcome for
    /// each local key (index-aligned with the config's entries; `None`
    /// means the key was not found remotely).
    pub fn changed_keys(&self, kv: &KVConfig, responses: &Vec<Option<String>>) -> (r: Result<
        Vec<String>,
        Error,
    >)
        requires
            responses@.len() == kv.pairs().len(),
        ensures
            match r {
                Ok(ks) => all_decide(kv.pairs(), remote_view(responses@)) && strs_view(ks@)
                    == changed_of(kv.pairs(), remote_view(responses@)),
                Err(e) => !all_decide(kv.pairs(), remote_view(responses@)) && e is Generic,
            },
    {
        let ghost rv = remote_view(responses@);
        let mut out: Vec<String> = Vec::new();
        let n = kv.len();
        let mut i: usize = 0;
        while i < n
            invariant
                i <= n,
                n == kv.pairs().len(),
                responses@.len() == kv.pairs().len(),
                rv == remote_view(responses@),
                forall|j: int|
                    0 <= j < i ==> key_changed_spec(#[trigger] kv.pairs()[j].1, rv[j]) is Some,
                strs_view(out@) == changed_of(kv.pairs().take(i as int), rv),
            decreases n - i,
        {
            let value = kv.value_at(i);
            let resp: Option<&String> = match &responses[i] {
                None => None,
                Some(s) => Some(s),
            };
            proof {
                assert(rv[i as int] == match responses@[i as int] {
                    None => None::<Seq<char>>,
                    Some(s) => Some(s@),
                });
            }
            match key_changed(value.as_str(), resp) {
                Err(_) => {
                    proof {
                        assert(key_changed_spec(kv.pairs()[i as int].1, rv[i as int]) is None);
                    }
                    return Err(Error::Generic);
                },
                Ok(b) => {
                    if b {
                        let key = kv.key_at(i);
                        out.push(key.clone());
                    }
                },
            }
            proof {
                let cur = kv.pairs().take(i + 1);
                assert(cur.drop_last() =~= kv.pairs().take(i as int));
                assert(cur.last() == kv.pairs()[i as int]);
                assert(cur[cur.len() - 1] == kv.pairs()[i as int]);
                assert(strs_view(out@) =~= changed_of(cur, rv));
            }
            i = i + 1;
        }
        proof {
            assert(kv.pairs().take(n as int) =~= kv.pairs());
        }
        Ok(out)
    }

    /// Compute the puts for the changed keys of one file.
    pub fn put_plan(&self, sc: &ServiceConfig, kv: &KVConfig, changed: &Vec<String>) -> (r: Result<
        Vec<(String, String)>,
        Error,
    >)
        ensures
            match r {
                Ok(plan) => puts_of(*sc, kv.pairs(), strs_view(changed@)) == Some(
                    pairs_view(plan@),
                ),
                Err(e) => puts_of(*sc, kv.pairs(), strs_view(changed@)) is None && e is Template,
            },
    {
        let ghost cv = strs_view(changed@);
        let mut plan: Vec<(String, String)> = Vec::new();
        let n = kv.len();
        let mut i: usize = 0;
        while i < n
            invariant
                i <= n,
                n == kv.pairs().len(),
                cv == strs_view(changed@),
                puts_of(*sc, kv.pairs().take(i as int), cv) == Some(pairs_view(plan@)),
            decreases n - i,
        {
            let key = kv.key_at(i);
            let ghost cur = kv.pairs().take(i + 1);
            proof {
                assert(cur.drop_last() =~= kv.pairs().take(i as int));
                assert(cur.last() == kv.pairs()[i as int]);
            }
            if contains_str(changed, key.as_str()) {
                let trimmed = trim_char(key.as_str(), ' ');
                match sc.consul_key(trimmed) {
                    Err(e) => {
                        proof {
                            assert(puts_of(*sc, cur, cv) is None);
                            lemma_puts_of_none(*sc, kv.pairs(), cv, i + 1);
                        }
                        return Err(e);
                    },
                    Ok(path) => {
                        let value = kv.value_at(i);
                        let norm = self.postprocess_value(value.as_str());
                        plan.push((path, norm));
                        proof {
                            assert(pairs_view(plan@) =~= puts_of(*sc, cur, cv)->Some_0);
                        }
                    },
                }
            }
            i = i + 1;
        }
        proof {
            assert(kv.pairs().take(n as int) =~= kv.pairs());
        }
        Ok(plan)
    }

    /// Compute the deletes for the removed keys of one file.
    pub fn delete_plan(&self, sc: &ServiceConfig, removed: &Vec<String>) -> (r: Result<
        Vec<String>,
        Error,
    >)
        ensures
            match r {
                Ok(plan) => deletes_of(*sc, strs_view(removed@)) == Some(strs_view(plan@)),
                Err(e) => deletes_of(*sc, strs_view(removed@)) is None && e is Template,
            },
    {
        let ghost mv = strs_view(removed@);
        let mut plan: Vec<String> = Vec::new();
        let mut i: usize = 0;
        while i < removed.len()
            invariant
                i <= removed.len(),
                mv == strs_view(removed@),
                deletes_of(*sc, mv.take(i as int)) == Some(strs_view(plan@)),
            decreases removed.len() - i,
        {
            let key: &String = &removed[i];
            let ghost cur = mv.take(i + 1);
            proof {
                assert(cur.drop_last() =~= mv.take(i as int));
                assert(cur.last() == mv[i as int]);
                assert(mv[i as int] == key@);
            }
            let trimmed = trim_char(key.as_str(), ' ');
            match sc.consul_key(trimmed) {
                Err(e) => {
                    proof {
                        assert(deletes_of(*sc, cur) is None);
                        lemma_deletes_of_none(*sc, mv, i + 1);
                    }
                    return Err(e);
                },
                Ok(path) => {
                    let pn = path.as_str().unicode_len();
                    let absolute = pn > 0 && path.as_str().get_char(0) == '/';
                    if absolute {
                        proof {
                            assert(deletes_of(*sc, cur) is None);
                            lemma_deletes_of_none(*sc, mv, i + 1);
                        }
                        return Err(
                            Error::Template(String::from_str("key prefix must not start with /")),
                        );
                    }
                    plan.push(path);
                    proof {
                        assert(strs_view(plan@) =~= deletes_of(*sc, cur)->Some_0);
                    }
                },
            }
            i = i + 1;
        }
        proof {
            assert(mv.take(removed.len() as int) =~= mv);
        }
        Ok(plan)
    }

    /// Reconcile one parsed file against the remote state: compute the
    /// changed and removed keys, the statistics, and — unless this is a dry
    /// run — the puts and deletes to issue. The statistics do not depend on
    /// `dryrun`, and a dry run plans no mutation at all.
    pub fn reconcile(
        &self,
        sc: &ServiceConfig,
        kv: &KVConfig,
        snapshot: &Vec<String>,
        responses: &Vec<Option<String>>,
        dryrun: bool,
    ) -> (r: Result<FileReport, Error>)
        requires
            kv.wf(),
            responses@.len() == kv.pairs().len(),
        ensures
            match r {
                Ok(rep) => {
                    let rv = remote_view(responses@);
                    let changed = changed_of(kv.pairs(), rv);
                    let removed = missing_of(kv.pairs(), strs_view(snapshot@));
                    &&& all_decide(kv.pairs(), rv)
                    &&& rep.stats.count == kv.pairs().len()
                    &&& rep.stats.existing == snapshot@.len()
                    &&& rep.stats.changed == changed.len()
                    &&& rep.stats.removed == removed.len()
                    &&& (dryrun ==> rep.puts@.len() == 0 && rep.deletes@.len() == 0)
                    &&& (!dryrun ==> puts_of(*sc, kv.pairs(), changed) == Some(
                        pairs_view(rep.puts@),
                    ) && deletes_of(*sc, removed) == Some(strs_view(rep.deletes@)))
                },
                Err(e) => {
                    let rv = remote_view(responses@);
                    let changed = changed_of(kv.pairs(), rv);
                    let removed = missing_of(kv.pairs(), strs_view(snapshot@));
                    ||| (!all_decide(kv.pairs(), rv) && e is Generic)
                    ||| (!dryrun && all_decide(kv.pairs(), rv) && (puts_of(*sc, kv.pairs(), changed)
                        is None || deletes_of(*sc, removed) is None) && e is Template)
                },
            },
    {
        let changed = match self.changed_keys(kv, responses) {
            Ok(ks) => ks,
            Err(e) => {
                return Err(e);
            },
        };
        let removed = kv.missing_keys(snapshot);
        let stats = PublishStats {
            count: kv.len(),
            changed: changed.len(),
            existing: snapshot.len(),
            removed: removed.len(),
        };
        if dryrun {
            Ok(FileReport { stats, puts: Vec::new(), deletes: Vec::new() })
        } else {
            let puts = match self.put_plan(sc, kv, &changed) {
                Ok(p) => p,
                Err(e) => {
                    return Err(e);
                },
            };
            let deletes = match self.delete_plan(sc, &removed) {
                Ok(d) => d,
                Err(e) => {
                    return Err(e);
                },
            };
            Ok(FileReport { stats, puts, deletes })
        }
    }
}

} // verus!
