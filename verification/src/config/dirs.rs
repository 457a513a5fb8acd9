//! Where `yank` keeps its files.
//!
//! Three roots, per the XDG base directory specification: config for what the
//! user edits, state for what the daemon owns, runtime for the control socket.
//!
//! A `--dir` override collapses all three into one directory, which keeps
//! several independent daemons (a second identity, for one) from sharing a
//! socket or a history.

use crate::files;
use crate::files::join;
use vstd::prelude::*;

verus! {

/// The directory of this program under a shared root.
pub const NAME: &'static str = "yank";

/// The base directories of the user, as the platform gives them.
#[derive(Debug)]
pub struct BaseDirs {
    pub config: Vec<u8>,
    /// Absent on platforms without the notion, where data stands in for it.
    pub state: Option<Vec<u8>>,
    pub data: Vec<u8>,
    pub runtime: Option<Vec<u8>>,
}

/// The resolved directories of one `yank` installation.
#[derive(Debug)]
pub struct Dirs {
    config: Vec<u8>,
    state: Vec<u8>,
    /// Where the control socket goes. Without it, that is the state directory.
    runtime: Option<Vec<u8>>,
    /// Whether the roots came from `--dir`, which the service installer must
    /// then bake into the service definition.
    custom: bool,
}

/// A path there may be.
pub open spec fn path_view(path: Option<Vec<u8>>) -> Option<Seq<u8>> {
    match path {
        Some(path) => Some(path@),
        None => None,
    }
}

/// The directories of an installation, for contracts.
#[verifier::ext_equal]
pub struct DirsView {
    pub config: Seq<u8>,
    pub state: Seq<u8>,
    pub runtime: Option<Seq<u8>>,
    pub custom: bool,
}

impl View for Dirs {
    type V = DirsView;

    closed spec fn view(&self) -> DirsView {
        DirsView {
            config: self.config@,
            state: self.state@,
            runtime: path_view(self.runtime),
            custom: self.custom,
        }
    }
}

/// A name below a directory.
pub open spec fn under(dir: Seq<u8>, name: Seq<char>) -> Seq<u8> {
    files::joined(dir, vstd::utf8::encode_utf8(name))
}

/// Where everything goes.
pub open spec fn resolved(override_root: Option<Seq<u8>>, base: BaseDirs) -> DirsView {
    match override_root {
        Some(root) => DirsView { config: root, state: root, runtime: None, custom: true },
        None => DirsView {
            config: under(base.config@, NAME@),
            state: under(
                match base.state {
                    Some(state) => state@,
                    None => base.data@,
                },
                NAME@,
            ),
            runtime: path_view(base.runtime),
            custom: false,
        },
    }
}

impl DirsView {
    /// Where the control socket is.
    pub open spec fn socket_file(self) -> Seq<u8> {
        match self.runtime {
            Some(runtime) => under(runtime, "yank.sock"@),
            None => under(self.state, "yank.sock"@),
        }
    }
}

fn below(dir: &Vec<u8>, name: &str) -> (path: Vec<u8>)
    ensures
        path@ == under(dir@, name@),
{
    join(dir.as_slice(), name.as_bytes())
}

impl Dirs {
    /// The XDG directories, or everything under `override_root` when given.
    pub fn new(override_root: Option<Vec<u8>>, base: BaseDirs) -> (dirs: Self)
        ensures
            dirs@ == resolved(path_view(override_root), base),
    {
        match override_root {
            Some(root) => Dirs { config: root.clone(), state: root, runtime: None, custom: true },
            None => {
                let state = match &base.state {
                    Some(state) => below(state, NAME),
                    None => below(&base.data, NAME),
                };
                Dirs {
                    config: below(&base.config, NAME),
                    state,
                    runtime: base.runtime,
                    custom: false,
                }
            },
        }
    }

    /// Whether the roots were overridden on the command line.
    pub fn is_custom(&self) -> (r: bool)
        ensures
            r == self@.custom,
    {
        self.custom
    }

    /// The root the command line reports, for messages pointing the user at
    /// files.
    pub fn config_root(&self) -> (path: &[u8])
        ensures
            path@ == self@.config,
    {
        self.config.as_slice()
    }

    /// Where what the daemon owns is.
    pub fn state_root(&self) -> (path: &[u8])
        ensures
            path@ == self@.state,
    {
        self.state.as_slice()
    }

    /// The hand-edited settings.
    pub fn settings_file(&self) -> (path: Vec<u8>)
        ensures
            path@ == under(self@.config, "config.toml"@),
    {
        below(&self.config, "config.toml")
    }

    /// The record of who installed the background service.
    pub fn service_file(&self) -> (path: Vec<u8>)
        ensures
            path@ == under(self@.config, "service.toml"@),
    {
        below(&self.config, "service.toml")
    }

    /// This machine's private identity key.
    pub fn identity_file(&self) -> (path: Vec<u8>)
        ensures
            path@ == under(self@.state, "identity.key"@),
    {
        below(&self.state, "identity.key")
    }

    /// The paired machines.
    pub fn mesh_file(&self) -> (path: Vec<u8>)
        ensures
            path@ == under(self@.state, "mesh.json"@),
    {
        below(&self.state, "mesh.json")
    }

    /// Clipboard state that is not an entry: sequence, clock, pause.
    pub fn clip_file(&self) -> (path: Vec<u8>)
        ensures
            path@ == under(self@.state, "clip.json"@),
    {
        below(&self.state, "clip.json")
    }

    /// The directory holding one file per persisted log entry.
    pub fn history_dir(&self) -> (path: Vec<u8>)
        ensures
            path@ == under(self@.state, "history"@),
    {
        below(&self.state, "history")
    }

    /// The directory copied files are spooled in.
    pub fn files_dir(&self) -> (path: Vec<u8>)
        ensures
            path@ == under(self@.state, "files"@),
    {
        below(&self.state, "files")
    }

    /// The control socket the command line dials.
    pub fn socket_file(&self) -> (path: Vec<u8>)
        ensures
            path@ == self@.socket_file(),
    {
        match &self.runtime {
            Some(runtime) => below(runtime, "yank.sock"),
            None => below(&self.state, "yank.sock"),
        }
    }
}

/// An overridden root is the root of everything: the settings, what the
/// daemon owns and its socket all lie in it.
pub proof fn an_override_collapses_the_roots(root: Seq<u8>, base: BaseDirs)
    ensures
        ({
            let dirs = resolved(Some(root), base);
            &&& dirs.config == root
            &&& dirs.state == root
            &&& dirs.socket_file() == under(root, "yank.sock"@)
        }),
{
}

proof fn lemma_under(dir: Seq<u8>, name: Seq<char>)
    requires
        dir.len() > 0,
        dir.last() != 0x2f,
        name.len() > 0,
        name[0] != '/',
    ensures
        under(dir, name) == dir + seq![0x2fu8] + vstd::utf8::encode_utf8(name),
{
    let bytes = vstd::utf8::encode_utf8(name);
    vstd::utf8::encode_utf8_first_scalar(name);
    if bytes.len() > 0 && bytes[0] == 0x2f {
        assert((0x2fu8 & 0x7fu8) == 0x2fu8) by (bit_vector);
        assert(vstd::utf8::codepoint_width_1(0x2f) == 0x2f);
        vstd::utf8::char_is_scalar(name[0]);
        vstd::utf8::char_u32_cast(name[0], 0x2f);
    }
    assert(dir.push(0x2f) + bytes =~= dir + seq![0x2fu8] + bytes);
}

/// Without an override, the configuration and the state lie under directories of
/// that name in those of the user, the data directory standing in for a state
/// directory there is none of; and the socket in the runtime directory, or with
/// the state when there is none.
pub proof fn everything_lies_with_the_user(base: BaseDirs)
    requires
        base.config@.len() > 0 && base.config@.last() != 0x2f,
        base.data@.len() > 0 && base.data@.last() != 0x2f,
        base.state matches Some(state) ==> state@.len() > 0 && state@.last() != 0x2f,
        base.runtime matches Some(runtime) ==> runtime@.len() > 0 && runtime@.last() != 0x2f,
    ensures
        ({
            let dirs = resolved(None, base);
            let name = seq![0x2fu8] + vstd::utf8::encode_utf8("yank"@);
            let socket = seq![0x2fu8] + vstd::utf8::encode_utf8("yank.sock"@);
            &&& dirs.config == base.config@ + name
            &&& base.state matches Some(state) ==> dirs.state == state@ + name
            &&& base.state is None ==> dirs.state == base.data@ + name
            &&& base.runtime matches Some(runtime) ==> dirs.socket_file() == runtime@ + socket
            &&& base.runtime is None ==> dirs.socket_file() == under(dirs.state, "yank.sock"@)
            &&& !dirs.custom
        }),
{
    reveal_strlit("yank");
    reveal_strlit("yank.sock");
    let name = vstd::utf8::encode_utf8("yank"@);
    let socket = vstd::utf8::encode_utf8("yank.sock"@);
    lemma_under(base.config@, "yank"@);
    assert(base.config@ + seq![0x2fu8] + name =~= base.config@ + (seq![0x2fu8] + name));
    if let Some(state) = base.state {
        lemma_under(state@, "yank"@);
        assert(state@ + seq![0x2fu8] + name =~= state@ + (seq![0x2fu8] + name));
    } else {
        lemma_under(base.data@, "yank"@);
        assert(base.data@ + seq![0x2fu8] + name =~= base.data@ + (seq![0x2fu8] + name));
    }
    if let Some(runtime) = base.runtime {
        lemma_under(runtime@, "yank.sock"@);
        assert(runtime@ + seq![0x2fu8] + socket =~= runtime@ + (seq![0x2fu8] + socket));
    }
}


} // verus!
