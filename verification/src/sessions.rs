//! Session-history support: the path and string logic behind listing,
//! naming and previewing recorded assistant sessions.  Reading the
//! session files themselves is I/O and stays with the caller; everything
//! here is computation on plain values.

use crate::strutil::chars_le;
use crate::strutil::has_prefix;
use crate::strutil::lemma_chars_le_total;
use crate::strutil::lemma_chars_le_trans;
use crate::strutil::push_char;
use crate::strutil::str_eq;
use crate::strutil::str_le;
use crate::strutil::str_starts_with;
use vstd::multiset::Multiset;
use vstd::prelude::*;
use vstd::seq_lib::lemma_multiset_commutative;
use vstd::string::StringExecFns;

verus! {

/// Summary of one recorded session, as shown in the session list.
pub struct SessionInfo {
    pub id: String,
    pub project_path: String,
    pub timestamp: String,
    pub first_message: String,
    pub message_count: u32,
    pub custom_name: Option<String>,
}

/// A project path in the session store's directory naming: every path
/// separator becomes a dash, the leading one included.
pub open spec fn dash_encoded(s: Seq<char>) -> Seq<char> {
    s.map_values(|c: char| if c == '/' { '-' } else { c })
}

/// Encode a project path to the session store's format (dash-separated),
/// e.g. `/Users/a/dev/apps` becomes `-Users-a-dev-apps`.
pub fn encode_project_path(path: &str) -> (r: String)
    ensures
        r@ == dash_encoded(path@),
{
    let n = path.unicode_len();
    let mut out = String::new();
    let mut i: usize = 0;
    while i < n
        invariant
            0 <= i <= n,
            n == path@.len(),
            out@.len() == i,
            forall|j: int| 0 <= j < i ==> out@[j] == dash_encoded(path@)[j],
        decreases n - i,
    {
        let c = path.get_char(i);
        if c == '/' {
            push_char(&mut out, '-');
        } else {
            push_char(&mut out, c);
        }
        i = i + 1;
    }
    proof {
        assert(out@ =~= dash_encoded(path@));
    }
    out
}

/// The session store's root directory under the given home directory.
pub fn get_agent_projects_dir(home: &str) -> (r: String)
    ensures
        r@ == home@ + "/.agent/projects"@,
{
    let mut s = String::from_str(home);
    s.append("/.agent/projects");
    s
}

/// The directory that holds the given project's session files: the store
/// root joined with the dash-encoded project path.  Whether it exists on
/// disk is the caller's question.
pub fn find_project_dir(home: &str, project_path: &str) -> (r: String)
    ensures
        r@ == home@ + "/.agent/projects/"@ + dash_encoded(project_path@),
{
    let mut s = String::from_str(home);
    s.append("/.agent/projects/");
    let encoded = encode_project_path(project_path);
    s.append(encoded.as_str());
    s
}

/// The file that stores user-chosen session names, under the given home
/// directory.
pub fn get_session_names_file(home: &str) -> (r: String)
    ensures
        r@ == home@ + "/.agent/genimage-studio-session-names.json"@,
{
    let mut s = String::from_str(home);
    s.append("/.agent/genimage-studio-session-names.json");
    s
}

/// A preview clipped to at most one hundred characters, with an ellipsis
/// marking the cut.
pub open spec fn preview_clip(s: Seq<char>) -> Seq<char> {
    if s.len() > 100 {
        s.take(100) + "..."@
    } else {
        s
    }
}

/// Clip a preview text to at most one hundred characters, appending an
/// ellipsis when something was cut.
pub fn truncate_preview(text: &str) -> (r: String)
    ensures
        r@ == preview_clip(text@),
{
    let n = text.unicode_len();
    if n > 100 {
        let mut out = String::new();
        let mut i: usize = 0;
        while i < 100
            invariant
                0 <= i <= 100,
                100 < n == text@.len(),
                out@.len() == i,
                forall|j: int| 0 <= j < i ==> out@[j] == text@[j],
            decreases 100 - i,
        {
            push_char(&mut out, text.get_char(i));
            i = i + 1;
        }
        proof {
            assert(out@ =~= text@.take(100));
        }
        out.append("...");
        out
    } else {
        String::from_str(text)
    }
}

/// The preview a summary record contributes: its summary text, clipped,
/// when the record's type is `summary`.
pub fn preview_from_summary(entry_type: &str, summary: Option<String>) -> (r: Option<String>)
    ensures
        (r is Some) == (entry_type@ == "summary"@ && summary is Some),
        (r matches Some(p) ==> (summary matches Some(s) && p@ == preview_clip(s@))),
{
    if str_eq(entry_type, "summary") {
        match summary {
            Some(s) => Some(truncate_preview(s.as_str())),
            None => None,
        }
    } else {
        None
    }
}

/// The preview a user-message record contributes: its text, clipped, when
/// the record is a real user message — type `user`, not a meta message,
/// role `user`, with nonempty text that is not a command (command text
/// opens with `<`).
pub fn preview_from_user_message(
    entry_type: &str,
    is_meta: Option<bool>,
    role: Option<String>,
    content: Option<String>,
) -> (r: Option<String>)
    ensures
        (r is Some) == (entry_type@ == "user"@ && is_meta != Some(true) && (role matches Some(
            ro,
        ) && ro@ == "user"@) && (content matches Some(t) && t@.len() > 0 && t@[0] != '<')),
        (r matches Some(p) ==> (content matches Some(t) && p@ == preview_clip(t@))),
{
    if !str_eq(entry_type, "user") {
        return None;
    }
    match is_meta {
        Some(true) => {
            return None;
        },
        _ => {},
    }
    let role_matches = match &role {
        Some(ro) => str_eq(ro.as_str(), "user"),
        None => false,
    };
    if !role_matches {
        return None;
    }
    match content {
        Some(t) => {
            if t.unicode_len() == 0 {
                None
            } else if t.get_char(0) == '<' {
                None
            } else {
                Some(truncate_preview(t.as_str()))
            }
        },
        None => None,
    }
}

/// The count estimate used for the session list: the larger of the lines
/// actually counted and the file size divided by five hundred bytes per
/// message, reduced to the counter's width.
pub fn estimate_message_count(counted: u32, file_size: u64) -> (r: u32)
    ensures
        ({
            let est = (file_size / 500) % 0x1_0000_0000;
            r == if est > counted { est as u32 } else { counted }
        }),
{
    let est64: u64 = file_size / 500;
    let est: u32 = #[verifier::truncate] (est64 as u32);
    proof {
        assert(est == (file_size / 500) % 0x1_0000_0000) by (bit_vector)
            requires
                est64 == file_size / 500,
                est == est64 as u32,
        ;
    }
    if est > counted {
        est
    } else {
        counted
    }
}

/// `s` with every occurrence of `pat` removed, scanning left to right
/// over non-overlapping occurrences.
pub open spec fn remove_all(s: Seq<char>, pat: Seq<char>) -> Seq<char>
    recommends
        pat.len() > 0,
    decreases s.len(),
    when pat.len() > 0
{
    if s.len() == 0 {
        Seq::empty()
    } else if has_prefix(s, pat) {
        remove_all(s.skip(pat.len() as int), pat)
    } else {
        seq![s[0]] + remove_all(s.skip(1), pat)
    }
}

/// Remove every occurrence of `pat` from `s`, left to right.
pub fn remove_all_occurrences(s: &str, pat: &str) -> (r: String)
    requires
        pat@.len() > 0,
    ensures
        r@ == remove_all(s@, pat@),
{
    let n = s.unicode_len();
    let m = pat.unicode_len();
    let mut out = String::new();
    let mut i: usize = 0;
    proof {
        assert(s@.skip(0) =~= s@);
        assert(out@ + remove_all(s@, pat@) =~= remove_all(s@, pat@));
    }
    while i < n
        invariant
            0 <= i <= n,
            n == s@.len(),
            m == pat@.len(),
            m > 0,
            out@ + remove_all(s@.skip(i as int), pat@) == remove_all(s@, pat@),
        decreases n - i,
    {
        let suffix = s.substring_char(i, n);
        proof {
            assert(suffix@ =~= s@.skip(i as int));
        }
        if str_starts_with(suffix, pat) {
            proof {
                assert(s@.skip(i as int).skip(m as int) =~= s@.skip(i + m));
                assert(remove_all(s@.skip(i as int), pat@) == remove_all(s@.skip(i + m), pat@));
            }
            i = i + m;
        } else {
            let c = s.get_char(i);
            proof {
                assert(s@.skip(i as int)[0] == c);
                assert(s@.skip(i as int).len() > 0);
                assert(!has_prefix(s@.skip(i as int), pat@));
                assert(s@.skip(i as int).skip(1) =~= s@.skip(i + 1));
                assert(remove_all(s@.skip(i as int), pat@) == seq![c] + remove_all(
                    s@.skip(i + 1),
                    pat@,
                ));
                assert((out@ + seq![c]) + remove_all(s@.skip(i + 1), pat@) =~= out@ + (seq![c]
                    + remove_all(s@.skip(i + 1), pat@)));
                assert(out@.push(c) =~= out@ + seq![c]);
            }
            push_char(&mut out, c);
            i = i + 1;
        }
    }
    proof {
        assert(s@.skip(n as int).len() == 0);
        assert(remove_all(s@.skip(n as int), pat@) =~= Seq::<char>::empty());
        assert(out@ + remove_all(s@.skip(n as int), pat@) =~= out@);
    }
    out
}

/// The session id carried by a session file's name: the name with every
/// `.jsonl` removed.
pub fn session_id_from_filename(filename: &str) -> (r: String)
    ensures
        r@ == remove_all(filename@, ".jsonl"@),
{
    proof {
        reveal_strlit(".jsonl");
    }
    remove_all_occurrences(filename, ".jsonl")
}

/// One line of a session preview: the message's role and its text.
pub fn format_message(role: &str, text: &str) -> (r: String)
    ensures
        r@ == role@ + ": "@ + text@,
{
    let mut s = String::from_str(role);
    s.append(": ");
    s.append(text);
    s
}

/// Newest first: at every pair of positions, the later entry's timestamp
/// is at or before the earlier entry's.
pub open spec fn sorted_newest_first(s: Seq<SessionInfo>) -> bool {
    forall|i: int, j: int|
        0 <= i < j < s.len() ==> chars_le(#[trigger] s[j].timestamp@, #[trigger] s[i].timestamp@)
}

proof fn lemma_insert_to_multiset(s: Seq<SessionInfo>, k: int, x: SessionInfo)
    requires
        0 <= k <= s.len(),
    ensures
        s.insert(k, x).to_multiset() =~= s.to_multiset().insert(x),
{
    broadcast use vstd::seq_lib::group_to_multiset_ensures;

    let a = s.subrange(0, k);
    let b = s.subrange(k, s.len() as int);
    assert(s.insert(k, x) =~= (a + seq![x]) + b);
    lemma_multiset_commutative(a + seq![x], b);
    lemma_multiset_commutative(a, seq![x]);
    assert(seq![x] =~= Seq::<SessionInfo>::empty().push(x));
    assert(seq![x].to_multiset() =~= Multiset::<SessionInfo>::empty().insert(x));
    assert(a + b =~= s);
    lemma_multiset_commutative(a, b);
    assert((a.to_multiset().add(seq![x].to_multiset())).add(b.to_multiset())
        =~= (a.to_multiset().add(b.to_multiset())).insert(x));
}

/// Order a session list newest first by timestamp, keeping exactly the
/// same entries.
pub fn sort_sessions_newest_first(list: Vec<SessionInfo>) -> (r: Vec<SessionInfo>)
    ensures
        sorted_newest_first(r@),
        r@.to_multiset() == list@.to_multiset(),
{
    broadcast use vstd::seq_lib::group_to_multiset_ensures;

    let mut input = list;
    let ghost whole = input@;
    let mut out: Vec<SessionInfo> = Vec::new();
    proof {
        assert(out@.to_multiset().add(input@.to_multiset()) =~= input@.to_multiset());
    }
    while input.len() > 0
        invariant
            sorted_newest_first(out@),
            out@.to_multiset().add(input@.to_multiset()) == whole.to_multiset(),
        decreases input@.len(),
    {
        let ghost input_before = input@;
        let x = match input.pop() {
            Some(v) => v,
            None => {
                proof {
                    assert(false);
                }
                return out;
            },
        };
        proof {
            input@.to_multiset_ensures();
            assert(input@ =~= input_before.drop_last());
            assert(input@.push(x) =~= input_before);
            assert(input@.push(x).to_multiset() =~= input@.to_multiset().insert(x));
            assert(input@.to_multiset().insert(x) =~= input_before.to_multiset());
        }
        let mut k: usize = 0;
        while k < out.len() && !str_le(out[k].timestamp.as_str(), x.timestamp.as_str())
            invariant
                0 <= k <= out@.len(),
                forall|j: int| 0 <= j < k ==> !chars_le(#[trigger] out@[j].timestamp@, x.timestamp@),
            decreases out@.len() - k,
        {
            k = k + 1;
        }
        let ghost out_before = out@;
        let ghost kk = k as int;
        out.insert(k, x);
        proof {
            out_before.insert_ensures(kk, x);
            assert(out@ == out_before.insert(kk, x));
            lemma_insert_to_multiset(out_before, kk, x);
            assert(out@.to_multiset().add(input@.to_multiset()) =~= whole.to_multiset());
            assert forall|i: int, j: int| 0 <= i < j < out@.len() implies chars_le(
                #[trigger] out@[j].timestamp@,
                #[trigger] out@[i].timestamp@,
            ) by {
                if j < kk {
                    assert(out@[i] == out_before[i] && out@[j] == out_before[j]);
                } else if j == kk {
                    if i < kk {
                        assert(out@[i] == out_before[i]);
                        assert(!chars_le(out_before[i].timestamp@, x.timestamp@));
                        lemma_chars_le_total(out_before[i].timestamp@, x.timestamp@);
                    }
                } else {
                    assert(out@[j] == out_before[j - 1]);
                    if i < kk {
                        assert(out@[i] == out_before[i]);
                    } else if i == kk {
                        // everything at or past the insertion point was at
                        // or before x already
                        assert(kk < out_before.len() + 1);
                        assert(chars_le(out_before[kk].timestamp@, x.timestamp@));
                        if j - 1 > kk {
                            assert(chars_le(out_before[j - 1].timestamp@,
                                out_before[kk].timestamp@));
                            lemma_chars_le_trans(
                                out_before[j - 1].timestamp@,
                                out_before[kk].timestamp@,
                                x.timestamp@,
                            );
                        }
                    } else {
                        assert(out@[i] == out_before[i - 1]);
                    }
                }
            }
        }
    }
    proof {
        assert(input@.to_multiset().len() == 0);
        assert(input@.to_multiset() =~= Multiset::<SessionInfo>::empty());
        assert(out@.to_multiset() =~= whole.to_multiset());
    }
    out
}

} // verus!
