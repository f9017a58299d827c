//! Small computations behind the application's one-off commands: the
//! greeting, the statusline script location, the executable-bit test and
//! the image file filter.

use crate::strutil::push_char;
use crate::strutil::str_eq;
use vstd::prelude::*;
use vstd::string::StringExecFns;

verus! {

/// The greeting shown to a caller by name.
pub fn greet(name: &str) -> (r: String)
    ensures
        r@ == "Hello, "@ + name@ + "! You've been greeted from Rust!"@,
{
    let mut s = String::from_str("Hello, ");
    s.append(name);
    s.append("! You've been greeted from Rust!");
    s
}

/// Where the statusline script is installed under the given home
/// directory.
pub fn get_statusline_script_path(home: &str) -> (r: String)
    ensures
        r@ == home@ + "/.agent/statusline-genimage-studio.sh"@,
{
    let mut s = String::from_str(home);
    s.append("/.agent/statusline-genimage-studio.sh");
    s
}

/// True when any execute bit is set in a file mode.
pub fn mode_is_executable(mode: u32) -> (r: bool)
    ensures
        r == (mode & 0o111 != 0),
{
    mode & 0o111 != 0
}

/// An upper-case ASCII letter folded to lower case; anything else kept.
pub open spec fn ascii_lower(c: char) -> char {
    if 'A' <= c <= 'Z' {
        (((c as u8) + 32) as u8) as char
    } else {
        c
    }
}

/// A character sequence with its ASCII letters folded to lower case.
pub open spec fn ascii_lower_seq(s: Seq<char>) -> Seq<char> {
    s.map_values(|c: char| ascii_lower(c))
}

/// True when a file extension names an image the gallery shows: `png`,
/// `jpg` or `jpeg`, compared without regard to ASCII case.
pub fn is_image_extension(ext: &str) -> (r: bool)
    ensures
        r == (ascii_lower_seq(ext@) == "png"@ || ascii_lower_seq(ext@) == "jpg"@
            || ascii_lower_seq(ext@) == "jpeg"@),
{
    let n = ext.unicode_len();
    let mut lowered = String::new();
    let mut i: usize = 0;
    while i < n
        invariant
            0 <= i <= n,
            n == ext@.len(),
            lowered@.len() == i,
            forall|j: int| 0 <= j < i ==> lowered@[j] == ascii_lower_seq(ext@)[j],
        decreases n - i,
    {
        let c = ext.get_char(i);
        if 'A' <= c && c <= 'Z' {
            let b: u8 = (c as u8) + 32;
            push_char(&mut lowered, b as char);
        } else {
            push_char(&mut lowered, c);
        }
        i = i + 1;
    }
    proof {
        assert(lowered@ =~= ascii_lower_seq(ext@));
    }
    str_eq(lowered.as_str(), "png") || str_eq(lowered.as_str(), "jpg") || str_eq(
        lowered.as_str(),
        "jpeg",
    )
}

} // verus!
