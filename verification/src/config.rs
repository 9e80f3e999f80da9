//! Installation configuration: the client's identity and the root of the
//! synchronized tree, and where the configuration record lives on disk.
use crate::session::new_uuid;
use crate::snapshot::clone_bytes;
use vstd::prelude::*;

verus! {

/// Per-installation configuration: an opaque client identifier, created
/// once, and the path of the directory being synchronized. Immutable
/// during a round.
pub struct Config {
    pub uuid: u128,
    pub sync_path: Vec<u8>,
}

impl Config {
    /// Creates the configuration for a fresh installation: a newly
    /// generated client identifier and the given sync root.
    pub fn new(sync_path: Vec<u8>) -> (r: Config)
        ensures
            r.sync_path@ == sync_path@,
    {
        Config { uuid: new_uuid(), sync_path }
    }
}

/// `s` ends with `suffix`.
pub open spec fn ends_with(s: Seq<u8>, suffix: Seq<u8>) -> bool {
    s.len() >= suffix.len() && s.skip(s.len() - suffix.len()) == suffix
}

/// The path component that names this application's configuration
/// directory, with its separator: `/harmonic`.
pub open spec fn app_dir_suffix() -> Seq<u8> {
    seq![47u8, 104u8, 97u8, 114u8, 109u8, 111u8, 110u8, 105u8, 99u8]
}

/// The tail of the configuration file's path: `/harmonic/config.toml`.
pub open spec fn config_file_suffix() -> Seq<u8> {
    app_dir_suffix() + seq![47u8, 99u8, 111u8, 110u8, 102u8, 105u8, 103u8, 46u8, 116u8, 111u8,
        109u8, 108u8]
}

/// Relies on dirs::config_dir: the user's configuration directory, if the
/// platform defines one. The value depends on the environment; nothing is
/// promised of it.
#[verifier::external_body]
fn os_config_dir() -> Option<Vec<u8>> {
    dirs::config_dir().and_then(|p| p.to_str().map(|s| s.as_bytes().to_vec()))
}

/// Appends `/harmonic` to a base path.
fn push_app_dir(path: &mut Vec<u8>)
    ensures
        final(path)@ == old(path)@ + app_dir_suffix(),
{
    path.push(47u8);
    path.push(104u8);
    path.push(97u8);
    path.push(114u8);
    path.push(109u8);
    path.push(111u8);
    path.push(110u8);
    path.push(105u8);
    path.push(99u8);
    proof {
        assert(path@ =~= old(path)@ + app_dir_suffix());
    }
}

/// Appends `/config.toml` to a base path.
fn push_config_file(path: &mut Vec<u8>)
    ensures
        final(path)@ == old(path)@ + config_file_suffix().skip(app_dir_suffix().len() as int),
{
    path.push(47u8);
    path.push(99u8);
    path.push(111u8);
    path.push(110u8);
    path.push(102u8);
    path.push(105u8);
    path.push(103u8);
    path.push(46u8);
    path.push(116u8);
    path.push(111u8);
    path.push(109u8);
    path.push(108u8);
    proof {
        assert(path@ =~= old(path)@ + config_file_suffix().skip(app_dir_suffix().len() as int));
    }
}

/// The directory that holds this application's configuration: the user's
/// configuration directory with `/harmonic` appended, or nothing where the
/// platform defines no configuration directory.
pub fn config_dir_path() -> (r: Option<Vec<u8>>)
    ensures
        r matches Some(p) ==> ends_with(p@, app_dir_suffix()),
{
    match os_config_dir() {
        None => None,
        Some(mut base) => {
            push_app_dir(&mut base);
            proof {
                assert(base@.skip(base@.len() - app_dir_suffix().len()) =~= app_dir_suffix());
            }
            Some(base)
        },
    }
}

/// The path of the persisted configuration record: the configuration
/// directory with `/config.toml` appended, or nothing where the platform
/// defines no configuration directory.
pub fn config_file_path() -> (r: Option<Vec<u8>>)
    ensures
        r matches Some(p) ==> ends_with(p@, config_file_suffix()),
{
    match config_dir_path() {
        None => None,
        Some(mut base) => {
            push_config_file(&mut base);
            proof {
                assert(base@.skip(base@.len() - config_file_suffix().len())
                    =~= config_file_suffix());
            }
            Some(base)
        },
    }
}

} // verus!
