//! Where the drive keeps its files, and how paths are put together.

use vstd::prelude::*;

use crate::config::Config;
use crate::pathname::{file_name, spec_file_name};

verus! {

/// The path that `base` joined with `rel` names: an absolute `rel` replaces
/// `base`; otherwise a `/` goes between them unless `base` is empty or
/// already ends with one.
pub open spec fn joined(base: Seq<char>, rel: Seq<char>) -> Seq<char> {
    if rel.len() > 0 && rel[0] == '/' {
        rel
    } else if base.len() == 0 || base.last() == '/' {
        base + rel
    } else {
        base + seq!['/'] + rel
    }
}

/// Joins `rel` onto `base` the way a path buffer is extended on Unix.
pub fn join_path(base: &str, rel: &str) -> (res: String)
    ensures
        res@ == joined(base@, rel@),
{
    let rel_len = rel.unicode_len();
    if rel_len > 0 && rel.get_char(0) == '/' {
        return rel.to_owned();
    }
    let base_len = base.unicode_len();
    let mut res = base.to_owned();
    if base_len > 0 && base.get_char(base_len - 1) != '/' {
        let sep = "/";
        proof {
            reveal_strlit("/");
        }
        res.append(sep);
    }
    res.append(rel);
    res
}

/// The directory that stands in for a missing home directory: `/tmp`.
pub open spec fn fallback_home() -> Seq<char> {
    seq!['/', 't', 'm', 'p']
}

/// The home directory `home`, or `/tmp` if there is none.
pub open spec fn home_or_tmp(home: Option<String>) -> Seq<char> {
    match home {
        Some(h) => h@,
        None => fallback_home(),
    }
}

/// The settings directory: `.config/scrubfs` under the home directory.
pub open spec fn spec_config_dir(home: Option<String>) -> Seq<char> {
    joined(home_or_tmp(home), seq!['.', 'c', 'o', 'n', 'f', 'i', 'g', '/', 's', 'c', 'r', 'u', 'b', 'f', 's'])
}

/// The home directory `home`, or `/tmp`.
fn home_dir(home: &Option<String>) -> (r: String)
    ensures
        r@ == home_or_tmp(*home),
{
    match home {
        Some(h) => h.clone(),
        None => {
            let tmp = "/tmp";
            proof {
                reveal_strlit("/tmp");
            }
            tmp.to_owned()
        },
    }
}

/// The settings directory, given the home directory (`HOME`) if it is set.
pub fn config_dir(home: &Option<String>) -> (r: String)
    ensures
        r@ == spec_config_dir(*home),
{
    let base = home_dir(home);
    let rel = ".config/scrubfs";
    proof {
        reveal_strlit(".config/scrubfs");
    }
    join_path(base.as_str(), rel)
}

/// The settings file, `scrubfs.conf` in the settings directory.
pub fn config_file(home: &Option<String>) -> (r: String)
    ensures
        r@ == joined(spec_config_dir(*home), seq!['s', 'c', 'r', 'u', 'b', 'f', 's', '.', 'c', 'o', 'n', 'f']),
{
    let dir = config_dir(home);
    let name = "scrubfs.conf";
    proof {
        reveal_strlit("scrubfs.conf");
    }
    join_path(dir.as_str(), name)
}

/// The directory where files are copied to be stripped, `tmp` in the
/// settings directory.
pub fn config_tmp_dir(home: &Option<String>) -> (r: String)
    ensures
        r@ == joined(spec_config_dir(*home), seq!['t', 'm', 'p']),
{
    let dir = config_dir(home);
    let name = "tmp";
    proof {
        reveal_strlit("tmp");
    }
    join_path(dir.as_str(), name)
}

/// The file that holds the running drive's process id, `scrubfs.pid` in the
/// settings directory.
pub fn pid_file(home: &Option<String>) -> (r: String)
    ensures
        r@ == joined(spec_config_dir(*home), seq!['s', 'c', 'r', 'u', 'b', 'f', 's', '.', 'p', 'i', 'd']),
{
    let dir = config_dir(home);
    let name = "scrubfs.pid";
    proof {
        reveal_strlit("scrubfs.pid");
    }
    join_path(dir.as_str(), name)
}

/// Where the drive is mounted unless the settings say otherwise: `scrubfs`
/// in the home directory.
pub open spec fn spec_default_mountpoint(home: Option<String>) -> Seq<char> {
    joined(home_or_tmp(home), seq!['s', 'c', 'r', 'u', 'b', 'f', 's'])
}

/// Where the drive is mounted unless the settings say otherwise.
pub fn default_mountpoint(home: &Option<String>) -> (r: String)
    ensures
        r@ == spec_default_mountpoint(*home),
{
    let base = home_dir(home);
    let name = "scrubfs";
    proof {
        reveal_strlit("scrubfs");
    }
    join_path(base.as_str(), name)
}

/// Where the drive is mounted: the mountpoint the settings name, or else
/// the default one.
pub fn drive_mountpoint(config: &Config, home: &Option<String>) -> (r: String)
    ensures
        r@ == match config.mountpoint {
            Some(m) => m@,
            None => spec_default_mountpoint(*home),
        },
{
    match &config.mountpoint {
        Some(m) => m.clone(),
        None => default_mountpoint(home),
    }
}

/// `path` with a leading `~/` read as the home directory, when that is set.
pub open spec fn spec_expand_tilde(path: Seq<char>, home: Option<String>) -> Seq<char> {
    match home {
        Some(h) => if path.len() >= 2 && path[0] == '~' && path[1] == '/' {
            joined(h@, path.skip(2))
        } else {
            path
        },
        None => path,
    }
}

/// `path` with a leading `~/` read as the home directory, when that is set.
pub fn expand_tilde(path: &str, home: &Option<String>) -> (r: String)
    ensures
        r@ == spec_expand_tilde(path@, *home),
{
    match home {
        Some(h) => {
            let len = path.unicode_len();
            if len >= 2 && path.get_char(0) == '~' && path.get_char(1) == '/' {
                let rest = path.substring_char(2, len);
                assert(rest@ =~= path@.skip(2));
                join_path(h.as_str(), rest)
            } else {
                path.to_owned()
            }
        },
        None => path.to_owned(),
    }
}

/// The name a folder added from `source` appears under: the name given,
/// else the source directory's own name, else `folder`.
pub open spec fn spec_folder_name(name: Option<String>, source: Seq<char>) -> Seq<char> {
    match name {
        Some(n) => n@,
        None => match spec_file_name(source) {
            Some(f) => f,
            None => seq!['f', 'o', 'l', 'd', 'e', 'r'],
        },
    }
}

/// The name a folder added from `source` appears under.
pub fn folder_name(name: Option<String>, source: &str) -> (r: String)
    ensures
        r@ == spec_folder_name(name, source@),
{
    match name {
        Some(n) => n,
        None => match file_name(source) {
            Some(f) => f,
            None => {
                let fallback = "folder";
                proof {
                    reveal_strlit("folder");
                }
                fallback.to_owned()
            },
        },
    }
}

/// Where `setup` puts the drive for user `user`: `/run/media/<user>`, and
/// the `scrubfs` directory in it.
pub fn media_dirs(user: &str) -> (r: (String, String))
    ensures
        r.0@ == seq!['/', 'r', 'u', 'n', '/', 'm', 'e', 'd', 'i', 'a', '/'] + user@,
        r.1@ == joined(r.0@, seq!['s', 'c', 'r', 'u', 'b', 'f', 's']),
{
    let prefix = "/run/media/";
    let name = "scrubfs";
    proof {
        reveal_strlit("/run/media/");
        reveal_strlit("scrubfs");
    }
    let mut media = prefix.to_owned();
    media.append(user);
    let mountpoint = join_path(media.as_str(), name);
    (media, mountpoint)
}

} // verus!
