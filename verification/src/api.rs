//! Plain values and decisions for the serving layer around the archive:
//! configuration assembly, the bearer check, request and response shapes,
//! and directory-listing records. The layer itself — reading variables,
//! listening, walking directories — stays outside; it hands values in and
//! takes values back.

use vstd::prelude::*;
use vstd::string::StringExecFns;
use crate::archive::Archive;
use crate::note::Note;
use crate::video::Videos;
use crate::wire::str_to_chars;
use crate::wire::is_dec_digit_exec;
use crate::wire::num_of_dec_at;
use crate::numtext::spec_num_of;
use crate::numtext::spec_is_dec_digit;
use crate::numtext::lemma_pow10_values;
use crate::numtext::lemma_pow_mono;
use crate::numtext::lemma_num_of_lower;

verus! {

/// What can go wrong while the serving layer prepares or checks a request.
#[derive(Debug, Clone, PartialEq, Eq)]
pub enum ApiError {
    /// A required environment variable is missing, by its full name.
    EnvVarMissing(String),
    /// A required environment variable does not parse, by its full name.
    EnvVarInvalid(String),
    /// The bearer secret offered does not match the configured one.
    InvalidAdminSecret,
}

/// Configuration for the serving layer.
#[derive(Debug, Clone, PartialEq, Eq)]
pub struct Config {
    /// Host address to bind.
    pub host: String,
    /// Port number to bind.
    pub port: u32,
    /// Admin secret for extended operations.
    pub admin_secret: String,
    /// Path to the permanent manager file.
    pub manager_path: String,
}

/// The full environment-variable name for a root name.
pub fn gen_env_var_name(name: &str) -> (r: String)
    ensures
        r@ == "YARK_"@ + name@,
{
    let mut out = String::new();
    out.append("YARK_");
    out.append(name);
    proof {
        assert(out@ =~= "YARK_"@ + name@);
    }
    out
}

/// Every character is a decimal digit.
pub open spec fn all_dec_digits(s: Seq<char>) -> bool {
    forall|k: int| 0 <= k < s.len() ==> spec_is_dec_digit(#[trigger] s[k])
}

/// A port value as Rust's standard `u32` parsing reads it: an optional
/// leading plus sign, then at least one decimal digit — leading zeroes
/// allowed — naming a value that fits in 32 bits.
pub open spec fn spec_parse_port(s: Seq<char>) -> Option<u32> {
    let body = if s.len() > 0 && s[0] == '+' {
        s.drop_first()
    } else {
        s
    };
    if body.len() == 0 {
        None
    } else if all_dec_digits(body) {
        if spec_num_of(body, 10) > u32::MAX {
            None
        } else {
            Some(spec_num_of(body, 10) as u32)
        }
    } else {
        None
    }
}

/// Reads a port value from its whole text, as [`spec_parse_port`] says.
fn parse_port_text(s: &Vec<char>) -> (r: Option<u32>)
    ensures
        r == spec_parse_port(s@),
{
    proof {
        lemma_pow10_values();
    }
    let n = s.len();
    let start: usize = if n > 0 && s[0] == '+' {
        1
    } else {
        0
    };
    let ghost body = if s@.len() > 0 && s@[0] == '+' {
        s@.drop_first()
    } else {
        s@
    };
    proof {
        assert(body =~= s@.subrange(start as int, n as int));
    }
    if n == start {
        return None;
    }
    // every remaining character must be a digit
    for k in start..n
        invariant
            start < n == s@.len(),
            body == (if s@.len() > 0 && s@[0] == '+' {
                s@.drop_first()
            } else {
                s@
            }),
            body == s@.subrange(start as int, n as int),
            forall|t: int| start <= t < k ==> spec_is_dec_digit(#[trigger] s@[t]),
    {
        if !is_dec_digit_exec(s[k]) {
            proof {
                assert(body[k - start] == s@[k as int]);
                assert(!all_dec_digits(body));
                assert(spec_parse_port(s@) is None);
            }
            return None;
        }
    }
    proof {
        assert forall|t: int| 0 <= t < body.len() implies spec_is_dec_digit(
            #[trigger] body[t],
        ) by {
            assert(body[t] == s@[start + t]);
        }
        assert(all_dec_digits(body));
    }
    // skip leading zeroes; they change nothing of the value
    let mut z = start;
    while z < n && (s[z] as u32) == 48
        invariant
            start <= z <= n,
            n == s@.len(),
            body == s@.subrange(start as int, n as int),
            all_dec_digits(body),
            spec_num_of(body, 10) == spec_num_of(s@.subrange(z as int, n as int), 10),
        decreases n - z,
    {
        proof {
            let cur = s@.subrange(z as int, n as int);
            assert(cur[0] == s@[z as int]);
            assert(crate::numtext::spec_digit_val(cur[0]) == 0) by {
                crate::wire::lemma_char_range(s@[z as int]);
            }
            assert(cur.drop_first() =~= s@.subrange(z as int + 1, n as int));
            assert(spec_num_of(cur, 10) == spec_num_of(cur.drop_first(), 10));
        }
        z = z + 1;
    }
    let w = n - z;
    let ghost tail = s@.subrange(z as int, n as int);
    proof {
        assert forall|t: int| 0 <= t < tail.len() implies spec_is_dec_digit(
            #[trigger] tail[t],
        ) by {
            assert(tail[t] == s@[z + t]);
            assert(body[(z + t) - start] == s@[z + t]);
        }
        assert(forall|t: int|
            0 <= t < tail.len() ==> crate::numtext::spec_is_digit(#[trigger] tail[t], 10));
    }
    if w > 10 {
        proof {
            assert(tail[0] == s@[z as int]);
            assert(crate::numtext::spec_digit_val(tail[0]) >= 1) by {
                crate::wire::lemma_char_range(s@[z as int]);
            }
            lemma_num_of_lower(tail, 10);
            lemma_pow_mono(10, 10, (tail.len() - 1) as nat);
            assert(spec_num_of(tail, 10) > u32::MAX);
        }
        return None;
    }
    if w == 0 {
        proof {
            assert(tail =~= Seq::<char>::empty());
            assert(spec_num_of(body, 10) == 0);
        }
        return Some(0);
    }
    let num = num_of_dec_at(s, z, w);
    if num > 0xFFFF_FFFF {
        return None;
    }
    Some(num as u32)
}

impl Config {
    /// Assembles the configuration from the raw environment values a
    /// caller looked up, each `None` where its variable was absent. The
    /// first problem wins, in the order host, port, secret, manager path;
    /// only the port needs parsing.
    pub fn from_vars(
        host: Option<String>,
        port: Option<String>,
        admin_secret: Option<String>,
        manager_path: Option<String>,
    ) -> (r: Result<Config, ApiError>)
        ensures
            host is None ==> (r matches Err(ApiError::EnvVarMissing(n)) && n@
                == "YARK_HOST"@),
            host is Some && port is None ==> (r matches Err(ApiError::EnvVarMissing(n)) && n@
                == "YARK_PORT"@),
            (host is Some && port is Some && spec_parse_port(port->Some_0@) is None) ==> (r
                matches Err(ApiError::EnvVarInvalid(n)) && n@ == "YARK_PORT"@),
            (host is Some && port is Some && spec_parse_port(port->Some_0@) is Some
                && admin_secret is None) ==> (r matches Err(ApiError::EnvVarMissing(n)) && n@
                == "YARK_ADMIN_SECRET"@),
            (host is Some && port is Some && spec_parse_port(port->Some_0@) is Some
                && admin_secret is Some && manager_path is None) ==> (r matches Err(
                ApiError::EnvVarMissing(n),
            ) && n@ == "YARK_MANAGER_PATH"@),
            (host is Some && port is Some && spec_parse_port(port->Some_0@) is Some
                && admin_secret is Some && manager_path is Some) ==> (r matches Ok(c) && c.host
                == host->Some_0 && c.port == spec_parse_port(port->Some_0@)->Some_0
                && c.admin_secret == admin_secret->Some_0 && c.manager_path
                == manager_path->Some_0),
    {
        proof {
            reveal_strlit("YARK_");
            reveal_strlit("HOST");
            reveal_strlit("PORT");
            reveal_strlit("ADMIN_SECRET");
            reveal_strlit("MANAGER_PATH");
            reveal_strlit("YARK_HOST");
            reveal_strlit("YARK_PORT");
            reveal_strlit("YARK_ADMIN_SECRET");
            reveal_strlit("YARK_MANAGER_PATH");
        }
        let host = match host {
            None => {
                let n = gen_env_var_name("HOST");
                proof {
                    assert(n@ =~= "YARK_HOST"@);
                }
                return Err(ApiError::EnvVarMissing(n));
            },
            Some(h) => h,
        };
        let port_text = match port {
            None => {
                let n = gen_env_var_name("PORT");
                proof {
                    assert(n@ =~= "YARK_PORT"@);
                }
                return Err(ApiError::EnvVarMissing(n));
            },
            Some(p) => p,
        };
        let chars = str_to_chars(port_text.as_str());
        let port = match parse_port_text(&chars) {
            Some(n) => n,
            None => {
                let n = gen_env_var_name("PORT");
                proof {
                    assert(n@ =~= "YARK_PORT"@);
                }
                return Err(ApiError::EnvVarInvalid(n));
            },
        };
        let admin_secret = match admin_secret {
            None => {
                let n = gen_env_var_name("ADMIN_SECRET");
                proof {
                    assert(n@ =~= "YARK_ADMIN_SECRET"@);
                }
                return Err(ApiError::EnvVarMissing(n));
            },
            Some(a) => a,
        };
        let manager_path = match manager_path {
            None => {
                let n = gen_env_var_name("MANAGER_PATH");
                proof {
                    assert(n@ =~= "YARK_MANAGER_PATH"@);
                }
                return Err(ApiError::EnvVarMissing(n));
            },
            Some(mp) => mp,
        };
        Ok(Config { host, port, admin_secret, manager_path })
    }
}

/// Compares a request's bearer secret with the configured admin secret.
pub fn check(config: &Config, bearer: &str) -> (r: Result<(), ApiError>)
    ensures
        r is Ok <==> config.admin_secret@ == bearer@,
        r is Err ==> r == Err::<(), ApiError>(ApiError::InvalidAdminSecret),
{
    if crate::strutil::str_eq(config.admin_secret.as_str(), bearer) {
        Ok(())
    } else {
        Err(ApiError::InvalidAdminSecret)
    }
}

/// A plain response carrying one message.
pub struct MessageResponse {
    pub message: &'static str,
}

/// Which of the three partitions a listing request asks for.
#[derive(Debug, Clone, Copy, PartialEq, Eq, Structural)]
pub enum GetVideoCollectionKind {
    Videos,
    Livestreams,
    Shorts,
}

/// The query shape of a partition-listing request.
pub struct GetVideosQuerySchema {
    pub kind: GetVideoCollectionKind,
}

impl Archive {
    /// The partition a listing request asks for.
    pub fn collection(&self, kind: GetVideoCollectionKind) -> (r: &Videos)
        ensures
            kind == GetVideoCollectionKind::Videos ==> *r == self.videos,
            kind == GetVideoCollectionKind::Livestreams ==> *r == self.livestreams,
            kind == GetVideoCollectionKind::Shorts ==> *r == self.shorts,
    {
        match kind {
            GetVideoCollectionKind::Videos => &self.videos,
            GetVideoCollectionKind::Livestreams => &self.livestreams,
            GetVideoCollectionKind::Shorts => &self.shorts,
        }
    }
}

/// The body shape of a note-update request: absent fields stay untouched,
/// and the description can be set or cleared.
pub struct UpdateJsonSchema {
    pub timestamp: Option<u32>,
    pub title: Option<String>,
    pub description: Option<Option<String>>,
}

/// Applies a note update: each present field replaces the note's, each
/// absent one leaves it alone. The identifier never changes.
pub fn apply_note_update(note: &mut Note, schema: UpdateJsonSchema)
    ensures
        final(note).id == old(note).id,
        final(note).timestamp == match schema.timestamp {
            Some(t) => t,
            None => old(note).timestamp,
        },
        final(note).title == match schema.title {
            Some(t) => t,
            None => old(note).title,
        },
        final(note).description == match schema.description {
            Some(d) => d,
            None => old(note).description,
        },
{
    if let Some(t) = schema.timestamp {
        note.timestamp = t;
    }
    if let Some(t) = schema.title {
        note.title = t;
    }
    if let Some(d) = schema.description {
        note.description = d;
    }
}

/// The body shape of a listing request for the file browser.
pub struct GetJsonSchema {
    pub path: String,
}

/// A listing of one directory, as handed back by the file browser.
pub struct Directory {
    /// The directory that was listed.
    pub path: String,
    /// Its entries.
    pub files: Vec<DirectoryItem>,
}

/// One entry of a directory listing. The collaborator walking the
/// filesystem supplies what only it can see; the hidden flag follows from
/// the name alone.
pub struct DirectoryItem {
    /// Full path of the entry.
    pub path: String,
    /// Name on the end of the path.
    pub filename: String,
    /// Whether the entry is a directory.
    pub directory: bool,
    /// Whether ordinary file browsers would hide it: a name opening with
    /// a dot.
    pub hidden: bool,
    /// Whether the entry is a compatible archive directory.
    pub archive: bool,
}

impl DirectoryItem {
    /// Builds an entry, deriving the hidden flag from the name.
    pub fn new(path: String, filename: String, directory: bool, archive: bool) -> (r:
        DirectoryItem)
        ensures
            r.path == path,
            r.filename == filename,
            r.directory == directory,
            r.archive == archive,
            r.hidden == (filename@.len() > 0 && filename@[0] == '.'),
    {
        let n = filename.as_str().unicode_len();
        let hidden = n > 0 && filename.as_str().get_char(0) == '.';
        DirectoryItem { path, filename, directory, hidden, archive }
    }
}

} // verus!
