//! First-run project setup: the selected-project state, the setup
//! completeness report, and the rewriting of the project's `.env` file
//! around its API key.  All file reading and writing stays with the
//! caller; everything here is computation on plain values.

use crate::strutil::contains_seq;
use crate::strutil::has_prefix;
use crate::strutil::push_char;
use crate::strutil::str_contains;
use crate::strutil::str_starts_with;
use vstd::prelude::*;
use vstd::string::StringExecFns;

verus! {

/// The project path the user selected for this run, if any.
pub struct ProjectPathState {
    path: Option<String>,
}

impl ProjectPathState {
    /// The stored selection.
    pub closed spec fn stored(self) -> Option<String> {
        self.path
    }

    /// No selection yet.
    pub fn new() -> (r: ProjectPathState)
        ensures
            r.stored() is None,
    {
        ProjectPathState { path: None }
    }

    /// The current selection, if one was made.
    pub fn get(&self) -> (r: Option<String>)
        ensures
            r == self.stored(),
    {
        match &self.path {
            Some(p) => Some(p.clone()),
            None => None,
        }
    }

    /// Select a project path, replacing any earlier selection.
    pub fn set(&mut self, path: String)
        ensures
            final(self).stored() == Some(path),
    {
        self.path = Some(path);
    }
}

/// What the first-run check found in the project directory.
pub struct SetupStatus {
    pub is_complete: bool,
    pub has_agent_md: bool,
    pub has_generate_script: bool,
    pub has_env_file: bool,
    pub has_api_key: bool,
    pub has_agent_config: bool,
    pub project_path: String,
}

/// Combine the individual findings into the setup report: setup is
/// complete exactly when the instructions file, the generation script, a
/// usable API key and the assistant configuration are all present.
pub fn check_setup(
    has_agent_md: bool,
    has_generate_script: bool,
    has_env_file: bool,
    has_api_key: bool,
    has_agent_config: bool,
    project_path: String,
) -> (r: SetupStatus)
    ensures
        r.is_complete == (has_agent_md && has_generate_script && has_api_key
            && has_agent_config),
        r.has_agent_md == has_agent_md,
        r.has_generate_script == has_generate_script,
        r.has_env_file == has_env_file,
        r.has_api_key == has_api_key,
        r.has_agent_config == has_agent_config,
        r.project_path == project_path,
{
    SetupStatus {
        is_complete: has_agent_md && has_generate_script && has_api_key && has_agent_config,
        has_agent_md,
        has_generate_script,
        has_env_file,
        has_api_key,
        has_agent_config,
        project_path,
    }
}

/// True when the given `.env` content holds a usable API key: the key
/// line is present and is neither the placeholder nor empty quotes.
pub fn api_key_present(content: &str) -> (r: bool)
    ensures
        r == (contains_seq(content@, "GOOGLE_API_KEY="@) && !contains_seq(
            content@,
            "GOOGLE_API_KEY=your_"@,
        ) && !contains_seq(content@, "GOOGLE_API_KEY=\"\""@) && !contains_seq(
            content@,
            "GOOGLE_API_KEY=''"@,
        )),
{
    str_contains(content, "GOOGLE_API_KEY=") && !str_contains(content, "GOOGLE_API_KEY=your_")
        && !str_contains(content, "GOOGLE_API_KEY=\"\"") && !str_contains(
        content,
        "GOOGLE_API_KEY=''",
    )
}

/// The project path to use: an explicit argument wins, then the stored
/// selection; with neither, the caller falls back to its own working
/// directory.
pub fn resolve_project_path(param: Option<String>, stored: Option<String>) -> (r: Option<
    String,
>)
    ensures
        param is Some ==> r == param,
        param is None && stored is Some ==> r == stored,
        param is None && stored is None ==> r is None,
{
    match param {
        Some(p) => Some(p),
        None => match stored {
            Some(s) => Some(s),
            None => None,
        },
    }
}

/// The standard project directory under the given home directory.
pub fn get_standard_project_path(home: &str) -> (r: String)
    ensures
        r@ == home@ + "/Documents/GenImage Studio"@,
{
    let mut s = String::from_str(home);
    s.append("/Documents/GenImage Studio");
    s
}

/// A line with its trailing carriage return removed, as line splitting
/// does before a line feed.
pub open spec fn strip_cr(l: Seq<char>) -> Seq<char> {
    if l.len() > 0 && l.last() == '\r' {
        l.drop_last()
    } else {
        l
    }
}

/// Line splitting, walking `s` from position `i` with `cur` holding the
/// current line so far: a line ends at each line feed (a carriage return
/// directly before it is dropped), and a last line without a line ending
/// still counts, while a trailing line ending adds no empty line.
pub open spec fn split_lines_from(s: Seq<char>, i: int, cur: Seq<char>) -> Seq<Seq<char>>
    decreases s.len() - i,
{
    if i < 0 || i >= s.len() {
        if cur.len() == 0 {
            Seq::empty()
        } else {
            seq![cur]
        }
    } else if s[i] == '\n' {
        seq![strip_cr(cur)] + split_lines_from(s, i + 1, Seq::empty())
    } else {
        split_lines_from(s, i + 1, cur.push(s[i]))
    }
}

/// The lines of `s`, as line iteration yields them.
pub open spec fn split_lines(s: Seq<char>) -> Seq<Seq<char>> {
    split_lines_from(s, 0, Seq::empty())
}

/// Lines joined with single line feeds, no trailing one.
pub open spec fn join_lines(ls: Seq<Seq<char>>) -> Seq<char>
    decreases ls.len(),
{
    if ls.len() == 0 {
        Seq::empty()
    } else if ls.len() == 1 {
        ls[0]
    } else {
        ls[0] + seq!['\n'] + join_lines(ls.drop_first())
    }
}

proof fn lemma_join_snoc(ls: Seq<Seq<char>>, l: Seq<char>)
    ensures
        join_lines(ls.push(l)) == if ls.len() == 0 {
            l
        } else {
            join_lines(ls) + seq!['\n'] + l
        },
    decreases ls.len(),
{
    if ls.len() == 0 {
        assert(ls.push(l).len() == 1);
        assert(ls.push(l)[0] == l);
    } else {
        assert(ls.push(l).drop_first() =~= ls.drop_first().push(l));
        lemma_join_snoc(ls.drop_first(), l);
        if ls.len() == 1 {
            assert(join_lines(ls.push(l)) =~= join_lines(ls) + seq!['\n'] + l);
        } else {
            assert(ls.push(l)[0] == ls[0]);
            assert(join_lines(ls.push(l)) =~= join_lines(ls) + seq!['\n'] + l);
        }
    }
}

/// Split a string into its lines.
fn split_lines_exec(s: &str) -> (lines: Vec<String>)
    ensures
        lines@.len() == split_lines(s@).len(),
        forall|k: int| 0 <= k < lines@.len() ==> lines@[k]@ == split_lines(s@)[k],
{
    let n = s.unicode_len();
    let mut lines: Vec<String> = Vec::new();
    let mut cur = String::new();
    let mut i: usize = 0;
    let ghost mut done: Seq<Seq<char>> = Seq::empty();
    proof {
        assert(done + split_lines_from(s@, 0, cur@) =~= split_lines(s@));
    }
    while i < n
        invariant
            0 <= i <= n,
            n == s@.len(),
            done.len() == lines@.len(),
            forall|k: int| 0 <= k < lines@.len() ==> lines@[k]@ == done[k],
            split_lines(s@) == done + split_lines_from(s@, i as int, cur@),
        decreases n - i,
    {
        let c = s.get_char(i);
        if c == '\n' {
            let ghost cur_view = cur@;
            let l = cur.unicode_len();
            let stripped: String;
            if l > 0 && cur.as_str().get_char(l - 1) == '\r' {
                stripped = String::from_str(cur.as_str().substring_char(0, l - 1));
                proof {
                    assert(stripped@ =~= strip_cr(cur_view));
                }
            } else {
                stripped = cur;
                proof {
                    assert(stripped@ =~= strip_cr(cur_view));
                }
            }
            lines.push(stripped);
            cur = String::new();
            proof {
                done = done.push(strip_cr(cur_view));
                assert(split_lines_from(s@, i as int, cur_view) == seq![strip_cr(cur_view)]
                    + split_lines_from(s@, i + 1, Seq::empty()));
                assert((done.drop_last() + (seq![strip_cr(cur_view)] + split_lines_from(
                    s@,
                    i + 1,
                    Seq::empty(),
                ))) =~= done + split_lines_from(s@, i + 1, Seq::empty()));
            }
        } else {
            push_char(&mut cur, c);
        }
        i = i + 1;
    }
    if cur.unicode_len() > 0 {
        let ghost last_view = cur@;
        proof {
            assert(split_lines_from(s@, n as int, last_view) =~= seq![last_view]);
            assert(done + seq![last_view] =~= done.push(last_view));
        }
        lines.push(cur);
        proof {
            done = done.push(last_view);
        }
    } else {
        proof {
            assert(split_lines_from(s@, n as int, cur@) =~= Seq::<Seq<char>>::empty());
            assert(done + Seq::<Seq<char>>::empty() =~= done);
        }
    }
    lines
}

/// The marker that opens an API-key line.
pub open spec fn key_marker() -> Seq<char> {
    "GOOGLE_API_KEY="@
}

/// The content of the `.env` file after saving `api_key`: when a key
/// line is already present, every line opening with the marker is
/// replaced by the new key line and the lines are rejoined; otherwise
/// the key line is appended, on a line of its own.
pub open spec fn upsert_key_content(content: Seq<char>, api_key: Seq<char>) -> Seq<char> {
    let replacement = key_marker() + api_key;
    if contains_seq(content, key_marker()) {
        join_lines(
            split_lines(content).map_values(
                |l: Seq<char>|
                    if has_prefix(l, key_marker()) {
                        replacement
                    } else {
                        l
                    },
            ),
        )
    } else {
        let base = if content.len() > 0 && content.last() != '\n' {
            content + seq!['\n']
        } else {
            content
        };
        base + key_marker() + api_key + seq!['\n']
    }
}

/// Rewrite the `.env` content around the given API key: replace the key
/// on its line when one exists, append a fresh key line otherwise.
pub fn upsert_api_key(content: &str, api_key: &str) -> (r: String)
    ensures
        r@ == upsert_key_content(content@, api_key@),
{
    let ghost replacement = key_marker() + api_key@;
    if str_contains(content, "GOOGLE_API_KEY=") {
        let lines = split_lines_exec(content);
        let ghost mapped = split_lines(content@).map_values(
            |l: Seq<char>|
                if has_prefix(l, key_marker()) {
                    replacement
                } else {
                    l
                },
        );
        let mut out = String::new();
        let mut k: usize = 0;
        proof {
            assert(mapped.take(0) =~= Seq::<Seq<char>>::empty());
        }
        while k < lines.len()
            invariant
                0 <= k <= lines@.len(),
                replacement == key_marker() + api_key@,
                lines@.len() == split_lines(content@).len(),
                forall|q: int| 0 <= q < lines@.len() ==> lines@[q]@ == split_lines(content@)[q],
                mapped == split_lines(content@).map_values(
                    |l: Seq<char>|
                        if has_prefix(l, key_marker()) {
                            replacement
                        } else {
                            l
                        },
                ),
                out@ == join_lines(mapped.take(k as int)),
            decreases lines@.len() - k,
        {
            let ghost out_before = out@;
            if k > 0 {
                push_char(&mut out, '\n');
                proof {
                    assert(out@ =~= out_before + seq!['\n']);
                }
            }
            let ghost pre = out@;
            let line_is_key = str_starts_with(lines[k].as_str(), "GOOGLE_API_KEY=");
            proof {
                assert(lines@[k as int]@ == split_lines(content@)[k as int]);
                assert(mapped[k as int] == if has_prefix(
                    split_lines(content@)[k as int],
                    key_marker(),
                ) {
                    replacement
                } else {
                    split_lines(content@)[k as int]
                });
            }
            if line_is_key {
                out.append("GOOGLE_API_KEY=");
                let ghost mid = out@;
                out.append(api_key);
                proof {
                    assert(mid == pre + "GOOGLE_API_KEY="@);
                    assert(out@ == (pre + "GOOGLE_API_KEY="@) + api_key@);
                    assert((pre + "GOOGLE_API_KEY="@) + api_key@ =~= pre + ("GOOGLE_API_KEY="@
                        + api_key@));
                    assert(mapped[k as int] == replacement);
                    assert(replacement =~= key_marker() + api_key@);
                    assert(key_marker() == "GOOGLE_API_KEY="@);
                    assert(out@ =~= pre + mapped[k as int]);
                }
            } else {
                let piece = &lines[k];
                out.append(piece.as_str());
                proof {
                    assert(mapped[k as int] == lines@[k as int]@);
                    assert(out@ =~= pre + mapped[k as int]);
                }
            }
            proof {
                lemma_join_snoc(mapped.take(k as int), mapped[k as int]);
                assert(mapped.take(k + 1) =~= mapped.take(k as int).push(mapped[k as int]));
                if k > 0 {
                    assert(mapped.take(k as int).len() == k);
                    assert(out@ =~= (join_lines(mapped.take(k as int)) + seq!['\n'])
                        + mapped[k as int]);
                    assert((join_lines(mapped.take(k as int)) + seq!['\n']) + mapped[k as int]
                        =~= join_lines(mapped.take(k as int)) + seq!['\n'] + mapped[k as int]);
                } else {
                    assert(pre =~= Seq::<char>::empty());
                    assert(out@ =~= mapped[0]);
                }
            }
            k = k + 1;
        }
        proof {
            assert(mapped.take(lines@.len() as int) =~= mapped);
        }
        out
    } else {
        let n = content.unicode_len();
        let mut out = String::from_str(content);
        if n > 0 && content.get_char(n - 1) != '\n' {
            push_char(&mut out, '\n');
        }
        out.append("GOOGLE_API_KEY=");
        out.append(api_key);
        push_char(&mut out, '\n');
        proof {
            assert(out@ =~= upsert_key_content(content@, api_key@));
        }
        out
    }
}

} // verus!
