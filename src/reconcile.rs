//! Planning a pass: which mailboxes to create, and which messages to move where.

use vstd::prelude::*;
use vstd::string::*;
use crate::address::push_char;
use crate::hierarchy::{hierarchy, views, with_parents};
use crate::scan::SortResult;

verus! {

/// Whether `names` holds the name `s`.
pub fn contains_name(names: &Vec<String>, s: &String) -> (r: bool)
    ensures
        r == views(names@).contains(s@),
{
    let mut i: usize = 0;
    while i < names.len()
        invariant
            i <= names@.len(),
            forall|j: int| 0 <= j < i ==> names@[j]@ != s@,
        decreases names@.len() - i,
    {
        if names[i] == *s {
            proof {
                assert(views(names@)[i as int] == s@);
            }
            return true;
        }
        i = i + 1;
    }
    proof {
        if views(names@).contains(s@) {
            let j = choose|j: int| 0 <= j < views(names@).len() && views(names@)[j] == s@;
            assert(names@[j]@ == s@);
        }
    }
    false
}

/// The mailboxes to create, in order, before mail can move to `mailbox`: none
/// if it exists, else each path of its ancestor chain that neither exists nor
/// was created earlier in the pass.
pub open spec fn to_create(mailbox: Seq<char>, existing: Seq<Seq<char>>, created: Seq<Seq<char>>) -> Seq<
    Seq<char>,
> {
    if existing.contains(mailbox) {
        Seq::empty()
    } else {
        hierarchy(mailbox).filter(|a: Seq<char>| !existing.contains(a) && !created.contains(a))
    }
}

/// The mailboxes to create before mail can move to `mailbox`, ancestors first
/// (see `to_create`). `created` holds what this pass has created already.
pub fn missing_ancestors(mailbox: &String, existing: &Vec<String>, created: &Vec<String>) -> (r: Vec<
    String,
>)
    ensures
        views(r@) == to_create(mailbox@, views(existing@), views(created@)),
{
    let mut out: Vec<String> = Vec::new();
    if contains_name(existing, mailbox) {
        proof {
            assert(views(out@) =~= Seq::<Seq<char>>::empty());
        }
        return out;
    }
    let chain = with_parents(mailbox.as_str());
    let ghost ex = views(existing@);
    let ghost cr = views(created@);
    let ghost pred = |a: Seq<char>| !ex.contains(a) && !cr.contains(a);
    let mut i: usize = 0;
    while i < chain.len()
        invariant
            i <= chain@.len(),
            views(chain@) == hierarchy(mailbox@),
            ex == views(existing@),
            cr == views(created@),
            pred == (|a: Seq<char>| !ex.contains(a) && !cr.contains(a)),
            views(out@) == views(chain@).take(i as int).filter(pred),
        decreases chain@.len() - i,
    {
        let a = &chain[i];
        let keep = !contains_name(existing, a) && !contains_name(created, a);
        proof {
            assert(views(chain@).take(i + 1) =~= views(chain@).take(i as int).push(a@));
            views(chain@).take(i as int).lemma_filter_push(a@, pred);
        }
        if keep {
            out.push(a.clone());
            proof {
                assert(views(out@) =~= views(chain@).take(i as int).filter(pred).push(a@));
            }
        }
        i = i + 1;
    }
    proof {
        assert(views(chain@).take(chain@.len() as int) =~= views(chain@));
    }
    out
}

/// The decimal digit for `d < 10`.
pub open spec fn digit(d: nat) -> char {
    ((48 + d) as u8) as char
}

/// The decimal form of `n`, without leading zeros.
pub open spec fn decimal(n: nat) -> Seq<char>
    decreases n,
{
    if n < 10 {
        seq![digit(n)]
    } else {
        decimal(n / 10).push(digit(n % 10))
    }
}

/// Identifiers in decimal, separated by commas: the form in which a set of
/// messages is named to the session.
pub open spec fn id_list(ids: Seq<u32>) -> Seq<char>
    decreases ids.len(),
{
    if ids.len() == 0 {
        Seq::empty()
    } else if ids.len() == 1 {
        decimal(ids[0] as nat)
    } else {
        id_list(ids.drop_last()) + seq![','] + decimal(ids.last() as nat)
    }
}

fn push_decimal(out: &mut String, n: u32)
    ensures
        final(out)@ == old(out)@ + decimal(n as nat),
    decreases n,
{
    if n >= 10 {
        push_decimal(out, n / 10);
    }
    let d: u8 = (n % 10) as u8;
    push_char(out, (48 + d) as char);
    proof {
        if n < 10 {
            assert(old(out)@ + decimal(n as nat) =~= old(out)@.push(digit(n as nat)));
        }
    }
}

/// The identifiers `ids` as the session takes them for a bulk move: "4,17,9".
pub fn uid_set(ids: &Vec<u32>) -> (r: String)
    ensures
        r@ == id_list(ids@),
{
    let mut out = String::new();
    let mut i: usize = 0;
    while i < ids.len()
        invariant
            i <= ids@.len(),
            out@ == id_list(ids@.take(i as int)),
        decreases ids@.len() - i,
    {
        proof {
            assert(ids@.take(i + 1).drop_last() =~= ids@.take(i as int));
        }
        if i > 0 {
            push_char(&mut out, ',');
        }
        push_decimal(&mut out, ids[i]);
        i = i + 1;
    }
    proof {
        assert(ids@.take(ids@.len() as int) =~= ids@);
    }
    out
}

/// What a pass does for one destination: create the missing mailboxes, in
/// order, then move the messages `ids` to `mailbox`.
pub struct Step {
    pub mailbox: String,
    pub create: Vec<String>,
    pub ids: String,
}

/// The mailboxes that the first `i` steps create, in order.
pub open spec fn created_upto(steps: Seq<Step>, i: int) -> Seq<Seq<char>>
    decreases i,
{
    if i <= 0 {
        Seq::empty()
    } else {
        created_upto(steps, i - 1) + views(steps[i - 1].create@)
    }
}

/// The steps of a pass over `sorted`, one per bucket and in its order, given the
/// mailboxes that `existing` names at the start of the pass. Each step creates
/// what its destination lacks and no earlier step created.
#[verifier::loop_isolation(false)]
pub fn plan_pass(sorted: &SortResult, existing: &Vec<String>) -> (r: Vec<Step>)
    ensures
        r@.len() == sorted.buckets@.len(),
        forall|i: int|
            0 <= i < r@.len() ==> {
                &&& #[trigger] r@[i].mailbox@ == sorted.buckets@[i].name()
                &&& r@[i].ids@ == id_list(sorted.buckets@[i].ids@)
                &&& views(r@[i].create@) == to_create(
                    sorted.buckets@[i].name(),
                    views(existing@),
                    created_upto(r@, i),
                )
            },
{
    let mut steps: Vec<Step> = Vec::new();
    let mut created: Vec<String> = Vec::new();
    let mut i: usize = 0;
    while i < sorted.buckets.len()
        invariant
            i <= sorted.buckets@.len(),
            steps@.len() == i,
            views(created@) == created_upto(steps@, i as int),
            forall|k: int|
                0 <= k < i ==> {
                    &&& #[trigger] steps@[k].mailbox@ == sorted.buckets@[k].name()
                    &&& steps@[k].ids@ == id_list(sorted.buckets@[k].ids@)
                    &&& views(steps@[k].create@) == to_create(
                        sorted.buckets@[k].name(),
                        views(existing@),
                        created_upto(steps@, k),
                    )
                },
        decreases sorted.buckets@.len() - i,
    {
        let bucket = &sorted.buckets[i];
        let create = missing_ancestors(&bucket.mailbox, existing, &created);
        let ghost before = created@;
        let mut j: usize = 0;
        while j < create.len()
            invariant
                j <= create@.len(),
                views(created@) == views(before) + views(create@).take(j as int),
            decreases create@.len() - j,
        {
            let ghost prev = created@;
            let c = create[j].clone();
            created.push(c);
            proof {
                assert(views(created@) =~= views(prev).push(create@[j as int]@));
                assert(views(create@).take(j + 1) =~= views(create@).take(j as int).push(
                    create@[j as int]@,
                ));
                assert(views(created@) =~= views(before) + views(create@).take(j + 1));
            }
            j = j + 1;
        }
        let ghost old_steps = steps@;
        steps.push(Step { mailbox: bucket.mailbox.clone(), create, ids: uid_set(&bucket.ids) });
        proof {
            assert(views(create@).take(create@.len() as int) =~= views(create@));
            assert forall|k: int| 0 <= k <= i implies created_upto(steps@, k) == created_upto(
                old_steps,
                k,
            ) by {
                lemma_created_upto_prefix(old_steps, steps@, k);
            }
            assert(created_upto(steps@, i + 1) == created_upto(steps@, i as int) + views(
                steps@[i as int].create@,
            ));
            assert forall|k: int| 0 <= k < i + 1 implies {
                &&& #[trigger] steps@[k].mailbox@ == sorted.buckets@[k].name()
                &&& steps@[k].ids@ == id_list(sorted.buckets@[k].ids@)
                &&& views(steps@[k].create@) == to_create(
                    sorted.buckets@[k].name(),
                    views(existing@),
                    created_upto(steps@, k),
                )
            } by {
                if k < i {
                    assert(steps@[k] == old_steps[k]);
                }
            }
        }
        i = i + 1;
    }
    steps
}

proof fn lemma_created_upto_prefix(a: Seq<Step>, b: Seq<Step>, k: int)
    requires
        0 <= k <= a.len() <= b.len(),
        forall|j: int| 0 <= j < a.len() ==> a[j] == b[j],
    ensures
        created_upto(b, k) == created_upto(a, k),
    decreases k,
{
    if k > 0 {
        lemma_created_upto_prefix(a, b, k - 1);
    }
}

/// A destination whose whole ancestor chain exists already needs no mailbox
/// created or subscribed.
pub proof fn lemma_existing_chain_needs_nothing(
    mailbox: Seq<char>,
    existing: Seq<Seq<char>>,
    created: Seq<Seq<char>>,
)
    requires
        forall|k: int|
            0 <= k < hierarchy(mailbox).len() ==> existing.contains(#[trigger] hierarchy(mailbox)[k]),
    ensures
        to_create(mailbox, existing, created).len() == 0,
{
    let h = hierarchy(mailbox);
    assert(h[h.len() - 1] == mailbox);
}

/// After the creations of a step, its destination exists; and where it did not
/// exist before, neither did any path of its ancestor chain that is now missing:
/// each one existed, was created earlier in the pass, or is created by the step.
pub proof fn lemma_chain_ready(mailbox: Seq<char>, existing: Seq<Seq<char>>, created: Seq<Seq<char>>)
    ensures
        existing.contains(mailbox) || forall|k: int|
            0 <= k < hierarchy(mailbox).len() ==> {
                let a = #[trigger] hierarchy(mailbox)[k];
                existing.contains(a) || created.contains(a) || to_create(
                    mailbox,
                    existing,
                    created,
                ).contains(a)
            },
{
    broadcast use vstd::seq_lib::group_filter_ensures;

    let pred = |a: Seq<char>| !existing.contains(a) && !created.contains(a);
    assert forall|k: int| 0 <= k < hierarchy(mailbox).len() && pred(hierarchy(mailbox)[k]) implies
        #[trigger] hierarchy(mailbox).filter(pred).contains(hierarchy(mailbox)[k]) by {
        assert(hierarchy(mailbox).contains(hierarchy(mailbox)[k]));
    }
}

} // verus!
