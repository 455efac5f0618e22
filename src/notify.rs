//! Settings, and the summary notification sent after a pass.

use vstd::prelude::*;
use vstd::string::*;
use vstd::seq_lib::{to_multiset_build, to_multiset_insert};
use crate::address::push_char;
use crate::hierarchy::views;
use crate::reconcile::contains_name;

verus! {

/// The settings of a running sorter.
#[derive(Debug)]
pub struct Config {
    pub imap: Imap,
    pub pushover: Pushover,
}

/// Where and as whom to connect to the mail server.
#[derive(Debug)]
pub struct Imap {
    pub server: String,
    pub port: u16,
    pub email: String,
    pub password: String,
}

/// Whom to notify, and which mailboxes warrant a notification that is not silent.
#[derive(Debug, Clone)]
pub struct Pushover {
    pub user: String,
    pub token: String,
    pub mailboxes: Vec<String>,
}

/// A notification to send: its text and its priority.
#[derive(Debug)]
pub struct Notification {
    pub text: String,
    pub priority: i8,
}

/// The priority of a notification about a mailbox the user follows.
pub const NORMAL_PRIORITY: i8 = 0;

/// The priority of a notification about routine sorting only.
pub const QUIET_PRIORITY: i8 = -1;

/// Whether `a` comes no later than `b` when both agree before index `i`:
/// character by character, a proper prefix first.
pub open spec fn lex_le_from(a: Seq<char>, b: Seq<char>, i: int) -> bool
    decreases a.len() - i,
{
    if i >= a.len() {
        true
    } else if i >= b.len() {
        false
    } else if (a[i] as u32) != (b[i] as u32) {
        (a[i] as u32) < (b[i] as u32)
    } else {
        lex_le_from(a, b, i + 1)
    }
}

/// Lexicographic order of names, by code point.
pub open spec fn lex_le(a: Seq<char>, b: Seq<char>) -> bool {
    lex_le_from(a, b, 0)
}

/// Each name comes no later than the next.
pub open spec fn sorted_lex(s: Seq<Seq<char>>) -> bool {
    forall|k: int| 0 <= k < s.len() - 1 ==> lex_le(#[trigger] s[k], s[k + 1])
}

/// `s` holds the names of `names`, each as often, in lexicographic order.
pub open spec fn is_sorted_form(s: Seq<Seq<char>>, names: Seq<Seq<char>>) -> bool {
    s.to_multiset() == names.to_multiset() && sorted_lex(s)
}

/// The names joined by ", ".
pub open spec fn summary_of(s: Seq<Seq<char>>) -> Seq<char>
    decreases s.len(),
{
    if s.len() == 0 {
        Seq::empty()
    } else if s.len() == 1 {
        s[0]
    } else {
        summary_of(s.drop_last()) + seq![',', ' '] + s.last()
    }
}

/// Whether some touched mailbox is one the user follows.
pub open spec fn intersects(touched: Seq<Seq<char>>, followed: Seq<Seq<char>>) -> bool {
    exists|k: int| 0 <= k < touched.len() && followed.contains(#[trigger] touched[k])
}

proof fn lemma_lex_total(a: Seq<char>, b: Seq<char>, i: int)
    requires
        0 <= i,
        !lex_le_from(a, b, i),
    ensures
        lex_le_from(b, a, i),
    decreases a.len() - i,
{
    if i < a.len() && i < b.len() && (a[i] as u32) == (b[i] as u32) {
        lemma_lex_total(a, b, i + 1);
    }
}

/// Whether `a` comes no later than `b` in lexicographic order.
pub fn lex_le_exec(a: &String, b: &String) -> (r: bool)
    ensures
        r == lex_le(a@, b@),
{
    let sa = a.as_str();
    let sb = b.as_str();
    let na = sa.unicode_len();
    let nb = sb.unicode_len();
    let mut i: usize = 0;
    while i < na && i < nb && (sa.get_char(i) as u32) == (sb.get_char(i) as u32)
        invariant
            sa@ == a@,
            sb@ == b@,
            na == a@.len(),
            nb == b@.len(),
            i <= na,
            i <= nb,
            lex_le_from(a@, b@, i as int) == lex_le(a@, b@),
        decreases na - i,
    {
        i = i + 1;
    }
    if i >= na {
        true
    } else if i >= nb {
        false
    } else {
        (sa.get_char(i) as u32) < (sb.get_char(i) as u32)
    }
}

/// The names in lexicographic order.
pub fn sorted_names(names: &Vec<String>) -> (r: Vec<String>)
    ensures
        is_sorted_form(views(r@), views(names@)),
{
    let mut out: Vec<String> = Vec::new();
    let mut i: usize = 0;
    proof {
        assert(views(out@) =~= views(names@).take(0));
    }
    while i < names.len()
        invariant
            i <= names@.len(),
            views(out@).to_multiset() == views(names@).take(i as int).to_multiset(),
            sorted_lex(views(out@)),
        decreases names@.len() - i,
    {
        let x = &names[i];
        let mut p: usize = 0;
        while p < out.len() && lex_le_exec(&out[p], x)
            invariant
                p <= out@.len(),
                forall|q: int| 0 <= q < p ==> lex_le(#[trigger] out@[q]@, x@),
            decreases out@.len() - p,
        {
            p = p + 1;
        }
        let ghost before = views(out@);
        proof {
            if p < out@.len() {
                assert(!lex_le(out@[p as int]@, x@));
                lemma_lex_total(out@[p as int]@, x@, 0);
            }
        }
        out.insert(p, x.clone());
        proof {
            let after = views(out@);
            assert(after =~= before.insert(p as int, x@));
            to_multiset_insert(before, p as int, x@);
            assert(views(names@).take(i + 1) =~= views(names@).take(i as int).push(x@));
            to_multiset_build(views(names@).take(i as int), x@);
            assert forall|k: int| 0 <= k < after.len() - 1 implies lex_le(
                #[trigger] after[k],
                after[k + 1],
            ) by {
                if k < p - 1 {
                    assert(lex_le(before[k], before[k + 1]));
                } else if k == p - 1 {
                    assert(lex_le(out@[k]@, x@));
                } else if k == p {
                } else {
                    assert(lex_le(before[k - 1], before[k]));
                }
            }
        }
        i = i + 1;
    }
    proof {
        assert(views(names@).take(names@.len() as int) =~= views(names@));
    }
    out
}

/// The names joined by ", ", in the order given.
pub fn summary(names: &Vec<String>) -> (r: String)
    ensures
        r@ == summary_of(views(names@)),
{
    let mut out = String::new();
    let mut i: usize = 0;
    while i < names.len()
        invariant
            i <= names@.len(),
            out@ == summary_of(views(names@).take(i as int)),
        decreases names@.len() - i,
    {
        proof {
            assert(views(names@).take(i + 1).drop_last() =~= views(names@).take(i as int));
        }
        if i > 0 {
            push_char(&mut out, ',');
            push_char(&mut out, ' ');
        }
        out.append(names[i].as_str());
        proof {
            if i == 0 {
                assert(out@ =~= views(names@).take(1)[0]);
            }
        }
        i = i + 1;
    }
    proof {
        assert(views(names@).take(names@.len() as int) =~= views(names@));
    }
    out
}

impl Pushover {
    pub fn new(user: String, token: String, mailboxes: Vec<String>) -> (r: Pushover)
        ensures
            r.user == user,
            r.token == token,
            r.mailboxes == mailboxes,
    {
        Pushover { user, token, mailboxes }
    }

    /// The notification for a pass that touched the mailboxes `touched`: none if
    /// it touched none; else their names in lexicographic order joined by ", ",
    /// at normal priority if one of them is followed and quietly otherwise.
    pub fn notification(&self, touched: &Vec<String>) -> (r: Option<Notification>)
        ensures
            touched@.len() == 0 <==> r is None,
            r is Some ==> exists|s: Seq<Seq<char>>| #[trigger]
                is_sorted_form(s, views(touched@)) && r->Some_0.text@ == summary_of(s),
            r is Some ==> r->Some_0.priority == if intersects(views(touched@), views(self.mailboxes@)) {
                NORMAL_PRIORITY
            } else {
                QUIET_PRIORITY
            },
    {
        if touched.len() == 0 {
            return None;
        }
        let mut followed = false;
        let mut i: usize = 0;
        while i < touched.len()
            invariant
                i <= touched@.len(),
                followed == exists|k: int|
                    0 <= k < i && views(self.mailboxes@).contains(#[trigger] views(touched@)[k]),
            decreases touched@.len() - i,
        {
            if contains_name(&self.mailboxes, &touched[i]) {
                followed = true;
                proof {
                    assert(views(self.mailboxes@).contains(views(touched@)[i as int]));
                }
            }
            i = i + 1;
        }
        let names = sorted_names(touched);
        let text = summary(&names);
        let priority = if followed { NORMAL_PRIORITY } else { QUIET_PRIORITY };
        proof {
            assert(is_sorted_form(views(names@), views(touched@)));
        }
        Some(Notification { text, priority })
    }
}

} // verus!
