//! The graphical session's environment, as the user manager holds it.
//!
//! The daemon starts before any compositor and outlives sessions. Its own
//! environment is a snapshot taken then, so the compositor's socket has to
//! come from the manager, which compositors update as they start.

use crate::files;
use crate::files::join;
use crate::text;
use vstd::prelude::*;

verus! {

/// What the manager's variable for the display begins with.
pub const DISPLAY: &'static str = "WAYLAND_DISPLAY=";

/// The display is named relative to a runtime directory there is none of.
#[derive(Clone, Copy, Debug, PartialEq, Eq, Structural)]
pub struct NoRuntimeDir;

/// The texts of an environment.
pub open spec fn variables(environment: Seq<String>) -> Seq<Seq<char>> {
    environment.map_values(|variable: String| variable@)
}

/// The display an environment names, if any: what follows the first variable
/// for it.
pub open spec fn display_in(environment: Seq<Seq<char>>) -> Option<Seq<char>>
    decreases environment.len(),
{
    if environment.len() == 0 {
        None
    } else if DISPLAY@.is_prefix_of(environment[0]) {
        Some(environment[0].skip(DISPLAY@.len() as int))
    } else {
        display_in(environment.skip(1))
    }
}

/// The display an environment names, if any.
fn find_display(environment: &Vec<String>) -> (display: Option<String>)
    ensures
        match display {
            Some(display) => display_in(variables(environment@)) == Some(display@),
            None => display_in(variables(environment@)) is None,
        },
{
    let ghost all = variables(environment@);
    assert(all.skip(0) =~= all);
    let prefix = text::chars_of(DISPLAY);
    let mut i: usize = 0;
    while i < environment.len()
        invariant
            i <= environment.len(),
            all == variables(environment@),
            prefix@ == DISPLAY@,
            display_in(all) == display_in(all.skip(i as int)),
        decreases environment.len() - i,
    {
        assert(all.skip(i as int)[0] == environment@[i as int]@);
        if text::starts_with(environment[i].as_str(), DISPLAY) {
            let chars = text::chars_of(environment[i].as_str());
            let display = text::text_of(vstd::slice::slice_subrange(
                chars.as_slice(),
                prefix.len(),
                chars.len(),
            ));
            assert(display@ =~= environment@[i as int]@.skip(DISPLAY@.len() as int));
            return Some(display);
        }
        assert(all.skip(i as int).skip(1) =~= all.skip(i + 1));
        i += 1;
    }
    None
}

/// The compositor socket of a session, or none when the manager knows no
/// display.
pub open spec fn socket_in(environment: Seq<Seq<char>>, runtime: Option<Seq<u8>>) -> Result<
    Option<Seq<u8>>,
    NoRuntimeDir,
> {
    match display_in(environment) {
        None => Ok(None),
        Some(display) => {
            let path = vstd::utf8::encode_utf8(display);
            if path.len() > 0 && path[0] == 0x2f {
                Ok(Some(path))
            } else {
                match runtime {
                    Some(runtime) => Ok(Some(files::joined(runtime, path))),
                    None => Err(NoRuntimeDir),
                }
            }
        },
    }
}

/// The compositor socket of a session, or none when the manager knows no
/// display.
pub fn wayland_socket(environment: &Vec<String>, runtime: Option<&[u8]>) -> (socket: Result<
    Option<Vec<u8>>,
    NoRuntimeDir,
>)
    ensures
        (match socket {
            Ok(Some(path)) => Ok(Some(path@)),
            Ok(None) => Ok(None),
            Err(error) => Err(error),
        }) == socket_in(
            variables(environment@),
            match runtime {
                Some(dir) => Some(dir@),
                None => None,
            },
        ),
{
    let display = match find_display(environment) {
        Some(display) => display,
        None => {
            return Ok(None);
        },
    };
    let path = display.as_str().as_bytes();
    if path.len() > 0 && path[0] == 0x2f {
        return Ok(Some(vstd::slice::slice_to_vec(path)));
    }
    match runtime {
        Some(dir) => Ok(Some(join(dir, path))),
        None => Err(NoRuntimeDir),
    }
}

/// The display of a session is the one its environment names first, and no
/// other variable names one.
pub proof fn the_first_display_counts(
    environment: Seq<Seq<char>>,
    display: Seq<char>,
    n: int,
)
    requires
        forall|i: int|
            0 <= i < n && i < environment.len() ==> !"WAYLAND_DISPLAY="@.is_prefix_of(
                #[trigger] environment[i],
            ),
        0 <= n <= environment.len(),
    ensures
        n == environment.len() ==> display_in(environment) is None,
        n < environment.len() && environment[n] == "WAYLAND_DISPLAY="@ + display ==> display_in(
            environment,
        ) == Some(display),
    decreases environment.len(),
{
    let prefix = "WAYLAND_DISPLAY="@;
    if n == 0 {
        if environment.len() > 0 && environment[0] == prefix + display {
            let variable = environment[0];
            assert(prefix =~= variable.subrange(0, prefix.len() as int));
            assert(variable.skip(prefix.len() as int) =~= display);
        }
    } else {
        assert(!prefix.is_prefix_of(environment[0]));
        let rest = environment.skip(1);
        assert forall|i: int| 0 <= i < n - 1 && i < rest.len() implies !prefix.is_prefix_of(
            #[trigger] rest[i],
        ) by {
            assert(rest[i] == environment[i + 1]);
        }
        the_first_display_counts(rest, display, n - 1);
    }
}

/// The socket of a display lies in the runtime directory, and that of one that
/// is a path is there; without a display there is none, and without a runtime
/// directory it cannot be told.
pub proof fn the_socket_of_a_display(environment: Seq<Seq<char>>, runtime: Seq<u8>)
    requires
        runtime.len() > 0,
        runtime.last() != 0x2f,
    ensures
        display_in(environment) is None ==> socket_in(environment, Some(runtime)) == Ok::<
            Option<Seq<u8>>,
            NoRuntimeDir,
        >(None) && socket_in(environment, None) == Ok::<Option<Seq<u8>>, NoRuntimeDir>(None),
        display_in(environment) matches Some(display) ==> ({
            let path = vstd::utf8::encode_utf8(display);
            if path.len() > 0 && path[0] == 0x2f {
                &&& socket_in(environment, Some(runtime)) == Ok::<
                    Option<Seq<u8>>,
                    NoRuntimeDir,
                >(Some(path))
                &&& socket_in(environment, None) == Ok::<Option<Seq<u8>>, NoRuntimeDir>(Some(path))
            } else {
                &&& socket_in(environment, Some(runtime)) == Ok::<
                    Option<Seq<u8>>,
                    NoRuntimeDir,
                >(Some(runtime + seq![0x2fu8] + path))
                &&& socket_in(environment, None) is Err
            }
        }),
{
    if let Some(display) = display_in(environment) {
        let path = vstd::utf8::encode_utf8(display);
        assert(runtime.push(0x2f) + path =~= runtime + seq![0x2fu8] + path);
    }
}


} // verus!
