//! Verified text primitives: character-exact string equality, literal
//! substring search, token joining, and the two textual rules of the logger —
//! the denylist of near-zero-information commands and the self-invocation
//! rule that keeps the tool's own command lines out of usage analytics.

use vstd::prelude::*;
use vstd::string::StrSliceExecFns;
use vstd::string::StringExecFns;

verus! {

/// The whitespace characters recognised when left-trimming a command text
/// and when testing the word boundary after the tool's name.
pub open spec fn is_space(c: char) -> bool {
    c == ' ' || c == '\t' || c == '\n' || c == '\r'
}

/// A command text with its leading whitespace removed.
pub open spec fn trim_start_spec(s: Seq<char>) -> Seq<char>
    decreases s.len(),
{
    if s.len() > 0 && is_space(s[0]) {
        trim_start_spec(s.skip(1))
    } else {
        s
    }
}

/// The tool's own invocation name.
pub open spec fn tool_name() -> Seq<char> {
    seq!['c', 't', 'x']
}

/// Whether a command text, after left-trimming, is the tool's own name or
/// starts with that name followed by whitespace.  Such events are excluded
/// from usage analytics.
pub open spec fn is_self_invocation_spec(cmd: Seq<char>) -> bool {
    let t = trim_start_spec(cmd);
    t == tool_name() || (t.len() > 3 && t.subrange(0, 3) == tool_name() && is_space(t[3]))
}

/// Whether a command name is on the fixed denylist of commands that are
/// never captured.
pub open spec fn is_denylisted_spec(tok: Seq<char>) -> bool {
    tok == "ls"@ || tok == "clear"@ || tok == "pwd"@ || tok == "history"@ || tok == "exit"@
}

/// The needle occurs in the haystack starting exactly at position `i`.
pub open spec fn contains_at(h: Seq<char>, n: Seq<char>, i: int) -> bool {
    0 <= i && i + n.len() <= h.len() && h.subrange(i, i + n.len()) == n
}

/// Literal, case-sensitive substring containment.
pub open spec fn contains_seq(h: Seq<char>, n: Seq<char>) -> bool {
    exists|i: int| contains_at(h, n, i)
}

/// The tokens of an invocation joined by single spaces.
pub open spec fn join_spec(ts: Seq<Seq<char>>) -> Seq<char>
    decreases ts.len(),
{
    if ts.len() == 0 {
        Seq::empty()
    } else if ts.len() == 1 {
        ts[0]
    } else {
        join_spec(ts.drop_last()) + seq![' '] + ts.last()
    }
}

/// Exact character-for-character equality of two string slices.
pub fn str_eq(a: &str, b: &str) -> (r: bool)
    ensures
        r == (a@ == b@),
{
    let al = a.unicode_len();
    let bl = b.unicode_len();
    if al != bl {
        return false;
    }
    let mut i: usize = 0;
    while i < al
        invariant
            i <= al,
            al == a@.len(),
            al == b@.len(),
            forall|k: int| 0 <= k < i ==> a@[k] == b@[k],
        decreases al - i,
    {
        if a.get_char(i) != b.get_char(i) {
            return false;
        }
        i += 1;
    }
    proof {
        assert(a@ =~= b@);
    }
    true
}

/// Whether a single character is recognised as whitespace.
pub fn is_space_char(c: char) -> (r: bool)
    ensures
        r == is_space(c),
{
    c == ' ' || c == '\t' || c == '\n' || c == '\r'
}

/// Whether a command name is on the fixed denylist.
pub fn is_denylisted(tok: &str) -> (r: bool)
    ensures
        r == is_denylisted_spec(tok@),
{
    str_eq(tok, "ls") || str_eq(tok, "clear") || str_eq(tok, "pwd") || str_eq(tok, "history")
        || str_eq(tok, "exit")
}

/// The needle matches the haystack at position `i`.
fn match_at(hay: &str, needle: &str, i: usize) -> (r: bool)
    requires
        i + needle@.len() <= hay@.len(),
        hay@.len() <= usize::MAX,
    ensures
        r == contains_at(hay@, needle@, i as int),
{
    let nl = needle.unicode_len();
    let mut j: usize = 0;
    while j < nl
        invariant
            j <= nl,
            nl == needle@.len(),
            i + nl <= hay@.len(),
            hay@.len() <= usize::MAX,
            forall|k: int| 0 <= k < j ==> hay@[i + k] == needle@[k],
        decreases nl - j,
    {
        if hay.get_char(i + j) != needle.get_char(j) {
            proof {
                assert(hay@.subrange(i as int, i + nl) != needle@) by {
                    assert(hay@.subrange(i as int, i + nl)[j as int] == hay@[i + j]);
                }
            }
            return false;
        }
        j += 1;
    }
    proof {
        assert(hay@.subrange(i as int, i + nl) =~= needle@);
    }
    true
}

/// Literal, case-sensitive substring search.
pub fn str_contains(hay: &str, needle: &str) -> (r: bool)
    ensures
        r == contains_seq(hay@, needle@),
{
    let hl = hay.unicode_len();
    let nl = needle.unicode_len();
    if nl > hl {
        proof {
            assert(forall|i: int| !contains_at(hay@, needle@, i));
        }
        return false;
    }
    if nl == 0 {
        proof {
            assert(contains_at(hay@, needle@, 0)) by {
                assert(hay@.subrange(0, 0) =~= needle@);
            }
        }
        return true;
    }
    let mut i: usize = 0;
    while i <= hl - nl
        invariant
            1 <= nl <= hl,
            hl == hay@.len(),
            nl == needle@.len(),
            i <= hl - nl + 1,
            forall|k: int| 0 <= k < i ==> !contains_at(hay@, needle@, k),
        decreases hl - nl + 1 - i,
    {
        if match_at(hay, needle, i) {
            return true;
        }
        i += 1;
    }
    proof {
        assert(forall|k: int| !contains_at(hay@, needle@, k)) by {
            assert(forall|k: int| k > hl - nl ==> !contains_at(hay@, needle@, k));
        }
    }
    false
}

/// Trimming distributes over the leading run of whitespace: if the first
/// `i` characters are whitespace and the next one (if any) is not, the
/// trimmed text is the suffix starting at `i`.
proof fn lemma_trim_skip(s: Seq<char>, i: int)
    requires
        0 <= i <= s.len(),
        forall|k: int| 0 <= k < i ==> is_space(s[k]),
        i == s.len() || !is_space(s[i]),
    ensures
        trim_start_spec(s) == s.skip(i),
    decreases i,
{
    if i == 0 {
        assert(s.skip(0) =~= s);
    } else {
        assert(is_space(s[0]));
        let s1 = s.skip(1);
        assert(forall|k: int| 0 <= k < i - 1 ==> is_space(s1[k]));
        lemma_trim_skip(s1, i - 1);
        assert(s1.skip(i - 1) =~= s.skip(i));
    }
}

/// Whether a full command text is a self-invocation of the tool.
pub fn is_self_invocation(cmd: &str) -> (r: bool)
    ensures
        r == is_self_invocation_spec(cmd@),
{
    let n = cmd.unicode_len();
    let mut i: usize = 0;
    while i < n && is_space_char(cmd.get_char(i))
        invariant
            i <= n,
            n == cmd@.len(),
            forall|k: int| 0 <= k < i ==> is_space(cmd@[k]),
        decreases n - i,
    {
        i += 1;
    }
    proof {
        lemma_trim_skip(cmd@, i as int);
    }
    let ghost t = cmd@.skip(i as int);
    let m = n - i;
    if m < 3 {
        proof {
            assert(t != tool_name()) by {
                assert(t.len() < 3);
            }
        }
        false
    } else {
        let head_matches = cmd.get_char(i) == 'c' && cmd.get_char(i + 1) == 't' && cmd.get_char(
            i + 2,
        ) == 'x';
        proof {
            assert(t[0] == cmd@[i as int]);
            assert(t[1] == cmd@[i + 1]);
            assert(t[2] == cmd@[i + 2]);
        }
        if m == 3 {
            proof {
                if head_matches {
                    assert(t =~= tool_name());
                } else {
                    assert(t != tool_name());
                }
            }
            head_matches
        } else {
            let r = head_matches && is_space_char(cmd.get_char(i + 3));
            proof {
                assert(t.len() > 3);
                assert(t[3] == cmd@[i + 3]);
                if head_matches {
                    assert(t.subrange(0, 3) =~= tool_name());
                } else {
                    assert(t.subrange(0, 3) != tool_name()) by {
                        assert(t.subrange(0, 3)[0] == t[0]);
                        assert(t.subrange(0, 3)[1] == t[1]);
                        assert(t.subrange(0, 3)[2] == t[2]);
                    }
                    assert(t != tool_name()) by {
                        assert(t.len() > 3);
                    }
                }
            }
            r
        }
    }
}

/// Join invocation tokens into the full command text, separated by single
/// spaces.
pub fn join_tokens(tokens: &Vec<String>) -> (r: String)
    ensures
        r@ == join_spec(tokens.deep_view()),
{
    let ghost dv = tokens.deep_view();
    let mut r = String::new();
    let mut i: usize = 0;
    proof {
        assert(dv.len() == tokens@.len());
    }
    while i < tokens.len()
        invariant
            i <= tokens.len(),
            dv == tokens.deep_view(),
            dv.len() == tokens@.len(),
            forall|k: int| 0 <= k < dv.len() ==> dv[k] == tokens@[k]@,
            r@ == join_spec(dv.take(i as int)),
        decreases tokens.len() - i,
    {
        if i > 0 {
            r.append(" ");
        }
        r.append(tokens[i].as_str());
        proof {
            reveal_strlit(" ");
            assert(" "@ =~= seq![' ']);
            let prev = dv.take(i as int);
            let cur = dv.take(i + 1);
            assert(cur.drop_last() =~= prev);
            assert(cur.last() == dv[i as int]);
            if i == 0 {
                assert(r@ =~= join_spec(cur));
            } else {
                assert(join_spec(cur) == join_spec(prev) + seq![' '] + dv[i as int]);
                assert(r@ =~= join_spec(cur));
            }
        }
        i += 1;
    }
    proof {
        assert(dv.take(dv.len() as int) =~= dv);
    }
    r
}

} // verus!
