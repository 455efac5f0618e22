//! The ancestor chain of a mailbox path.

use vstd::prelude::*;
use vstd::string::*;

verus! {

/// The values of a sequence of strings.
pub open spec fn views(v: Seq<String>) -> Seq<Seq<char>> {
    v.map_values(|x: String| x@)
}

/// The prefixes of `s` that end just before one of its first `n` characters
/// that is a `.`, shortest first.
pub open spec fn prefixes_before_dots(s: Seq<char>, n: int) -> Seq<Seq<char>>
    decreases n,
{
    if n <= 0 {
        Seq::empty()
    } else if s[n - 1] == '.' {
        prefixes_before_dots(s, n - 1).push(s.take(n - 1))
    } else {
        prefixes_before_dots(s, n - 1)
    }
}

/// The ancestor chain of the path `s`: `s` cut after its first segment, after
/// its second, and so on, the whole path last.
pub open spec fn hierarchy(s: Seq<char>) -> Seq<Seq<char>> {
    prefixes_before_dots(s, s.len() as int).push(s)
}

/// The paths that must exist before `mailbox` can: "foo.bar.baz" gives "foo",
/// "foo.bar", "foo.bar.baz". A path without dots, the empty one included, gives
/// itself alone.
pub fn with_parents(mailbox: &str) -> (r: Vec<String>)
    ensures
        views(r@) == hierarchy(mailbox@),
{
    let n = mailbox.unicode_len();
    let mut out: Vec<String> = Vec::new();
    let mut i: usize = 0;
    while i < n
        invariant
            n == mailbox@.len(),
            i <= n,
            views(out@) == prefixes_before_dots(mailbox@, i as int),
        decreases n - i,
    {
        if mailbox.get_char(i) == '.' {
            let prefix = String::from_str(mailbox.substring_char(0, i));
            out.push(prefix);
            proof {
                assert(mailbox@.subrange(0, i as int) =~= mailbox@.take(i as int));
                assert(views(out@) =~= prefixes_before_dots(mailbox@, i as int).push(
                    mailbox@.take(i as int),
                ));
            }
        }
        i = i + 1;
    }
    out.push(String::from_str(mailbox));
    proof {
        assert(views(out@) =~= hierarchy(mailbox@));
    }
    out
}

proof fn lemma_prefixes_before_dots(s: Seq<char>, n: int)
    requires
        0 <= n <= s.len(),
    ensures
        forall|k: int|
            #![trigger prefixes_before_dots(s, n)[k]]
            0 <= k < prefixes_before_dots(s, n).len() ==> {
                let p = prefixes_before_dots(s, n)[k];
                &&& p.len() < n
                &&& p == s.take(p.len() as int)
            },
        forall|k: int, j: int|
            0 <= k < j < prefixes_before_dots(s, n).len() ==> (#[trigger] prefixes_before_dots(
                s,
                n,
            )[k]).len() < (#[trigger] prefixes_before_dots(s, n)[j]).len(),
    decreases n,
{
    if n > 0 {
        lemma_prefixes_before_dots(s, n - 1);
        let prev = prefixes_before_dots(s, n - 1);
        let cur = prefixes_before_dots(s, n);
        if s[n - 1] == '.' {
            assert(cur == prev.push(s.take(n - 1)));
            assert(s.take(n - 1).len() == n - 1);
            assert forall|k: int| 0 <= k < cur.len() implies {
                let p = #[trigger] cur[k];
                &&& p.len() < n
                &&& p == s.take(p.len() as int)
            } by {
                if k < prev.len() {
                    assert(cur[k] == prev[k]);
                }
            }
            assert forall|k: int, j: int| 0 <= k < j < cur.len() implies (#[trigger] cur[k]).len() < (
            #[trigger] cur[j]).len() by {
                assert(cur[k] == prev[k]);
                if j < prev.len() {
                    assert(cur[j] == prev[j]);
                }
            }
        } else {
            assert(cur == prev);
        }
    }
}

/// Each path of a hierarchy is a prefix of the path, each longer than the one
/// before, and the last is the path itself.
pub proof fn lemma_hierarchy_prefixes(s: Seq<char>)
    ensures
        hierarchy(s).len() >= 1,
        hierarchy(s).last() == s,
        forall|k: int|
            0 <= k < hierarchy(s).len() ==> #[trigger] hierarchy(s)[k] == s.take(
                hierarchy(s)[k].len() as int,
            ),
        forall|k: int, j: int|
            0 <= k < j < hierarchy(s).len() ==> (#[trigger] hierarchy(s)[k]).len() < (
            #[trigger] hierarchy(s)[j]).len(),
{
    lemma_prefixes_before_dots(s, s.len() as int);
    let d = prefixes_before_dots(s, s.len() as int);
    assert(s.take(s.len() as int) =~= s);
    assert forall|k: int| 0 <= k < hierarchy(s).len() implies #[trigger] hierarchy(s)[k] == s.take(
        hierarchy(s)[k].len() as int,
    ) by {
        if k < d.len() {
            assert(hierarchy(s)[k] == d[k]);
        }
    }
    assert forall|k: int, j: int| 0 <= k < j < hierarchy(s).len() implies (
    #[trigger] hierarchy(s)[k]).len() < (#[trigger] hierarchy(s)[j]).len() by {
        assert(hierarchy(s)[k] == d[k]);
        if j < d.len() {
            assert(hierarchy(s)[j] == d[j]);
        }
    }
}

} // verus!
