//! Derivation of a mailbox path from a recipient address.

use vstd::prelude::*;
use vstd::string::*;

verus! {

/// Each `.` of `s` replaced by `_`, so that it cannot start a new segment.
pub open spec fn underscored(s: Seq<char>) -> Seq<char> {
    s.map_values(|c: char| if c == '.' { '_' } else { c })
}

/// The index of the first `@` in `s` at or after `i`, or `s.len()` if there is none.
pub open spec fn first_at_from(s: Seq<char>, i: int) -> int
    decreases s.len() - i,
{
    if i >= s.len() {
        s.len() as int
    } else if s[i] == '@' {
        i
    } else {
        first_at_from(s, i + 1)
    }
}

/// The index of the first `@` in `s`, or `s.len()` if there is none.
pub open spec fn first_at(s: Seq<char>) -> int {
    first_at_from(s, 0)
}

/// What comes before the first `@` (the whole address if it has none).
pub open spec fn local_part(a: Seq<char>) -> Seq<char> {
    a.take(first_at(a))
}

/// What comes after the first `@` (empty if the address has none).
pub open spec fn domain_part(a: Seq<char>) -> Seq<char> {
    if first_at(a) < a.len() {
        a.subrange(first_at(a) + 1, a.len() as int)
    } else {
        Seq::empty()
    }
}

/// The mailbox path of an address before case folding: the domain and the local
/// part, each with its dots escaped, joined by one separator.
pub open spec fn escaped_path_of(a: Seq<char>) -> Seq<char> {
    underscored(domain_part(a)) + seq!['.'] + underscored(local_part(a))
}

/// What `str::to_lowercase` returns for a string.
pub uninterp spec fn lower_of(s: Seq<char>) -> Seq<char>;

/// Relies on `str::to_lowercase`: the lower-case form depends on the characters
/// alone.
#[verifier::external_body]
fn lowercase(s: &str) -> (r: String)
    ensures
        r@ == lower_of(s@),
{
    s.to_lowercase()
}

/// Relies on `String::push`: appends one character.
#[verifier::external_body]
pub(crate) fn push_char(s: &mut String, c: char)
    ensures
        final(s)@ == old(s)@.push(c),
{
    s.push(c)
}

proof fn lemma_first_at_from(s: Seq<char>, i: int)
    requires
        0 <= i <= s.len(),
        forall|j: int| 0 <= j < i ==> s[j] != '@',
    ensures
        first_at_from(s, i) == first_at(s),
    decreases i,
{
    if i > 0 {
        lemma_first_at_from(s, i - 1);
    }
}

proof fn lemma_first_at_bounds(s: Seq<char>, i: int)
    requires
        0 <= i <= s.len(),
    ensures
        i <= first_at_from(s, i) <= s.len(),
        forall|j: int| i <= j < first_at_from(s, i) ==> s[j] != '@',
        first_at_from(s, i) < s.len() ==> s[first_at_from(s, i)] == '@',
    decreases s.len() - i,
{
    if i < s.len() && s[i] != '@' {
        lemma_first_at_bounds(s, i + 1);
    }
}

/// Appends `s[from..to]` to `out` with each dot escaped.
fn push_escaped(out: &mut String, s: &str, from: usize, to: usize)
    requires
        from <= to <= s@.len(),
    ensures
        final(out)@ == old(out)@ + underscored(s@.subrange(from as int, to as int)),
{
    let mut i: usize = from;
    while i < to
        invariant
            from <= i <= to <= s@.len(),
            out@ == old(out)@ + underscored(s@.subrange(from as int, i as int)),
        decreases to - i,
    {
        let c = s.get_char(i);
        let e = if c == '.' { '_' } else { c };
        push_char(out, e);
        proof {
            assert(s@.subrange(from as int, i + 1) =~= s@.subrange(from as int, i as int).push(c));
            assert(underscored(s@.subrange(from as int, i + 1)) =~= underscored(
                s@.subrange(from as int, i as int),
            ).push(e));
        }
        i = i + 1;
    }
}

/// The mailbox path of `address` before case folding: the part after the first
/// `@`, a `.`, then the part before it, with the dots inside both parts
/// replaced by `_`. An address without `@` gives an empty leading segment.
pub fn escaped_path(address: &str) -> (r: String)
    ensures
        r@ == escaped_path_of(address@),
{
    let n = address.unicode_len();
    let mut k: usize = 0;
    while k < n && address.get_char(k) != '@'
        invariant
            n == address@.len(),
            k <= n,
            forall|j: int| 0 <= j < k ==> address@[j] != '@',
        decreases n - k,
    {
        k = k + 1;
    }
    proof {
        lemma_first_at_from(address@, k as int);
        lemma_first_at_bounds(address@, k as int);
    }
    let mut out = String::new();
    if k < n {
        push_escaped(&mut out, address, k + 1, n);
    }
    push_char(&mut out, '.');
    push_escaped(&mut out, address, 0, k);
    proof {
        assert(address@.take(k as int) =~= address@.subrange(0, k as int));
        if k >= n {
            assert(underscored(domain_part(address@)) =~= Seq::<char>::empty());
        }
    }
    out
}

/// The mailbox path that collects mail sent to `address`: the escaped path
/// (see `escaped_path`) in lower case.
pub fn mailbox_from(address: &str) -> (r: String)
    ensures
        r@ == lower_of(escaped_path_of(address@)),
{
    let p = escaped_path(address);
    lowercase(p.as_str())
}

/// For an address `local@domain` whose local part holds no `@`, the mailbox path
/// is the lower-case form of the domain, a dot, and the local part, each with
/// its dots replaced by `_`.
pub proof fn lemma_local_at_domain(local: Seq<char>, domain: Seq<char>)
    requires
        forall|k: int| 0 <= k < local.len() ==> local[k] != '@',
    ensures
        escaped_path_of(local + seq!['@'] + domain) == underscored(domain) + seq!['.'] + underscored(
            local,
        ),
        lower_of(escaped_path_of(local + seq!['@'] + domain)) == lower_of(
            underscored(domain) + seq!['.'] + underscored(local),
        ),
{
    let a = local + seq!['@'] + domain;
    let n = local.len() as int;
    assert(forall|k: int| 0 <= k < n ==> a[k] == local[k]);
    lemma_first_at_from(a, n);
    assert(a[n] == '@');
    assert(first_at_from(a, n) == n);
    assert(a.take(n) =~= local);
    assert(a.subrange(n + 1, a.len() as int) =~= domain);
}

/// An address without `@` has an empty domain: its path, before case folding,
/// is a `.` followed by the escaped address.
pub proof fn lemma_no_at(a: Seq<char>)
    requires
        forall|k: int| 0 <= k < a.len() ==> a[k] != '@',
    ensures
        escaped_path_of(a) == seq!['.'] + underscored(a),
{
    lemma_first_at_from(a, a.len() as int);
    assert(a.take(a.len() as int) =~= a);
    assert(underscored(Seq::<char>::empty()) =~= Seq::<char>::empty());
    assert(Seq::<char>::empty() + seq!['.'] =~= seq!['.']);
}

} // verus!
