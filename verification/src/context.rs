//! Context-usage tracking support: computing the per-project context file
//! path, which embeds a short hash of the project path so that concurrent
//! projects never share a file.

use crate::strutil::push_char;
use vstd::prelude::*;
use vstd::string::StrSliceExecFns;
use vstd::string::StringExecFns;
use vstd::string::StringSliceAdditionalSpecFns;

verus! {

/// The 16-byte digest the hash function yields for the given bytes: a
/// function of the input alone, the same in every process.
pub uninterp spec fn md5_digest(bytes: Seq<u8>) -> Seq<u8>;

/// Relies on md5::compute: the 16-byte digest of the input, depending on
/// the input alone.
#[verifier::external_body]
fn md5_of(data: &[u8]) -> (r: Vec<u8>)
    ensures
        r@ == md5_digest(data@),
        r@.len() == 16,
{
    md5::compute(data).0.to_vec()
}

/// The character for one hexadecimal digit, lower case.
pub open spec fn hex_digit(d: u8) -> char
    recommends
        d < 16,
{
    if d < 10 {
        (('0' as u8) + d) as char
    } else {
        (('a' as u8) + (d - 10)) as char
    }
}

/// The lower-case hexadecimal spelling of a byte sequence: two digits per
/// byte, high digit first.
pub open spec fn hex_of(bytes: Seq<u8>) -> Seq<char> {
    Seq::new(
        2 * bytes.len(),
        |i: int|
            if i % 2 == 0 {
                hex_digit(bytes[i / 2] >> 4)
            } else {
                hex_digit(bytes[i / 2] & 0xF)
            },
    )
}

/// Spell a byte sequence in lower-case hexadecimal.
pub fn hex_lower(bytes: &[u8]) -> (r: String)
    ensures
        r@ == hex_of(bytes@),
{
    let n = bytes.len();
    let mut out = String::new();
    let mut i: usize = 0;
    while i < n
        invariant
            0 <= i <= n,
            n == bytes@.len(),
            out@.len() == 2 * i,
            forall|j: int| 0 <= j < 2 * i ==> out@[j] == hex_of(bytes@)[j],
        decreases n - i,
    {
        let b = bytes[i];
        let hi: u8 = b >> 4;
        let lo: u8 = b & 0xF;
        proof {
            assert(hi < 16 && lo < 16) by (bit_vector)
                requires
                    hi == b >> 4,
                    lo == b & 0xF,
            ;
        }
        let hc: char;
        if hi < 10 {
            hc = (('0' as u8) + hi) as char;
        } else {
            hc = (('a' as u8) + (hi - 10)) as char;
        }
        let lc: char;
        if lo < 10 {
            lc = (('0' as u8) + lo) as char;
        } else {
            lc = (('a' as u8) + (lo - 10)) as char;
        }
        push_char(&mut out, hc);
        push_char(&mut out, lc);
        proof {
            assert(hc == hex_digit(hi));
            assert(lc == hex_digit(lo));
            assert(out@[2 * i as int] == hex_of(bytes@)[2 * i as int]);
            assert(out@[2 * i + 1] == hex_of(bytes@)[2 * i + 1]);
        }
        i = i + 1;
    }
    proof {
        assert(out@ =~= hex_of(bytes@));
    }
    out
}

/// The context file path for a project: a fixed directory and name stem,
/// the first eight hexadecimal digits of the hash of the project path,
/// and the JSON suffix, so each project watches its own file.
pub fn get_context_file_path(project_path: &str) -> (r: String)
    ensures
        r@ == "/tmp/genimage-studio-context-"@ + hex_of(
            md5_digest(project_path.spec_bytes()),
        ).take(8) + ".json"@,
{
    let digest = md5_of(project_path.as_bytes());
    let hex = hex_lower(digest.as_slice());
    let short = hex.as_str().substring_char(0, 8);
    proof {
        assert(short@ =~= hex_of(md5_digest(project_path.spec_bytes())).take(8));
    }
    let mut s = String::from_str("/tmp/genimage-studio-context-");
    s.append(short);
    s.append(".json");
    s
}

} // verus!
