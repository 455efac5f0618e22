//! The inbox scanner: groups the fetched messages by destination mailbox.

use vstd::prelude::*;
use vstd::string::*;
use mailparse::{addrparse, parse_headers, MailAddr, MailHeaderMap, MailParseError};
use crate::address::{escaped_path_of, lower_of, mailbox_from};

verus! {

#[verifier::external_type_specification]
#[verifier::external_body]
pub struct ExMailParseError(MailParseError);

/// One message of the watched mailbox, as the session fetched it.
pub struct FetchedMessage {
    /// The message's identifier, if the session sent one.
    pub uid: Option<u32>,
    /// The raw header block holding the recipient field, if the session sent one.
    pub header: Option<Vec<u8>>,
}

/// The messages bound for one mailbox.
pub struct Bucket {
    pub mailbox: String,
    pub ids: Vec<u32>,
}

/// The outcome of one scan: the message identifiers grouped by destination.
pub struct SortResult {
    pub buckets: Vec<Bucket>,
}

/// A failure that aborts a scan.
#[derive(Debug)]
pub enum SortError {
    /// The session returned no header block for a message.
    MissingHeader,
    /// The session returned no identifier for a message.
    MissingUid,
    /// A header block could not be parsed.
    Parse(MailParseError),
}

/// The kind of a `SortError`, for contracts.
#[derive(PartialEq, Eq, Structural, Clone, Copy, Debug)]
pub enum ErrKind {
    MissingHeader,
    MissingUid,
    Parse,
}

impl SortError {
    pub open spec fn kind(&self) -> ErrKind {
        match self {
            SortError::MissingHeader => ErrKind::MissingHeader,
            SortError::MissingUid => ErrKind::MissingUid,
            SortError::Parse(_) => ErrKind::Parse,
        }
    }
}

/// The header field that names the address a message was delivered to.
pub open spec fn recipient_field() -> Seq<char> {
    "X-Pm-Original-To"@
}

/// The value of an optional string.
pub open spec fn opt_view(o: Option<String>) -> Option<Seq<char>> {
    match o {
        Some(s) => Some(s@),
        None => None,
    }
}

/// What `mailparse::parse_headers` followed by `get_first_value(name)` gives
/// for a header block: `None` if the block does not parse, else the first value
/// of the field `name`, if there is one.
pub uninterp spec fn header_value_of(data: Seq<u8>, name: Seq<char>) -> Option<Option<Seq<char>>>;

/// Relies on `mailparse::parse_headers`, and on `MailHeaderMap::get_first_value`
/// on the headers it returns: the first value of the field `name` in a header
/// block, or the parse error.
#[verifier::external_body]
fn first_header_value(data: &[u8], name: &str) -> (r: Result<Option<String>, MailParseError>)
    ensures
        r is Ok <==> header_value_of(data@, name@) is Some,
        r is Ok ==> header_value_of(data@, name@) == Some(opt_view(r->Ok_0)),
{
    parse_headers(data).map(|(headers, _)| headers.get_first_value(name))
}

/// What `mailparse::addrparse` gives for a header value: `None` if it does not
/// parse, else one entry per address, the address itself for a single mailbox
/// and `None` for a group.
pub uninterp spec fn address_list_of(s: Seq<char>) -> Option<Seq<Option<Seq<char>>>>;

/// The values of a sequence of optional strings.
pub open spec fn opt_views(v: Seq<Option<String>>) -> Seq<Option<Seq<char>>> {
    v.map_values(|o: Option<String>| opt_view(o))
}

/// Relies on `mailparse::addrparse`: the entries of an address list, each single
/// mailbox as its `addr`, each group as `None`.
#[verifier::external_body]
fn parse_address_list(s: &str) -> (r: Option<Vec<Option<String>>>)
    ensures
        r is Some <==> address_list_of(s@) is Some,
        r is Some ==> address_list_of(s@) == Some(opt_views(r->Some_0@)),
{
    addrparse(s).ok().map(|list| list.iter().map(|a| match a {
        MailAddr::Single(info) => Some(info.addr.clone()),
        MailAddr::Group(_) => None,
    }).collect())
}

/// The mailbox for an address list given as its entries: that of the first
/// entry, if there is one and it is a single mailbox.
pub open spec fn destination_of_entries(entries: Seq<Option<Seq<char>>>) -> Option<Seq<char>> {
    if entries.len() > 0 && entries[0] is Some {
        Some(lower_of(escaped_path_of(entries[0]->Some_0)))
    } else {
        None
    }
}

/// The destination of a message whose recipient field holds `value`: the mailbox
/// of the first address, if the value parses and that address is a single
/// mailbox. Otherwise the message is left where it is.
pub open spec fn destination_of(value: Seq<char>) -> Option<Seq<char>> {
    match address_list_of(value) {
        Some(list) => destination_of_entries(list),
        None => None,
    }
}

/// The mailbox for the entries of a parsed address list (each a single
/// mailbox's address, or `None` for a group): that of the first entry if it is
/// a single mailbox, else none.
pub fn destination(entries: &Vec<Option<String>>) -> (r: Option<String>)
    ensures
        opt_view(r) == destination_of_entries(opt_views(entries@)),
{
    if entries.len() > 0 {
        if let Some(addr) = &entries[0] {
            return Some(mailbox_from(addr.as_str()));
        }
    }
    None
}

/// The failure that a single message causes, if any.
pub open spec fn message_error(m: FetchedMessage) -> Option<ErrKind> {
    match m.header {
        None => Some(ErrKind::MissingHeader),
        Some(h) => if header_value_of(h@, recipient_field()) is None {
            Some(ErrKind::Parse)
        } else if m.uid is None {
            Some(ErrKind::MissingUid)
        } else {
            None
        },
    }
}

/// Where a message without failure goes, if anywhere.
pub open spec fn message_destination(m: FetchedMessage) -> Option<Seq<char>> {
    match header_value_of(m.header->Some_0@, recipient_field()) {
        Some(Some(v)) => destination_of(v),
        _ => None,
    }
}

/// The failure of the first failing message among `ms`, if any.
pub open spec fn scan_error(ms: Seq<FetchedMessage>) -> Option<ErrKind>
    decreases ms.len(),
{
    if ms.len() == 0 {
        None
    } else if scan_error(ms.drop_last()) is Some {
        scan_error(ms.drop_last())
    } else {
        message_error(ms.last())
    }
}

/// The (destination, identifier) pairs of the messages of `ms` that have a
/// destination, in order.
pub open spec fn placements(ms: Seq<FetchedMessage>) -> Seq<(Seq<char>, u32)>
    decreases ms.len(),
{
    if ms.len() == 0 {
        Seq::empty()
    } else {
        let m = ms.last();
        match message_destination(m) {
            Some(d) => placements(ms.drop_last()).push((d, m.uid->Some_0)),
            None => placements(ms.drop_last()),
        }
    }
}

/// The destination of the first placement of `id`, if any: a message goes to
/// one mailbox only.
pub open spec fn owner(p: Seq<(Seq<char>, u32)>, id: u32) -> Option<Seq<char>>
    decreases p.len(),
{
    if p.len() == 0 {
        None
    } else if owner(p.drop_last(), id) is Some {
        owner(p.drop_last(), id)
    } else if p.last().1 == id {
        Some(p.last().0)
    } else {
        None
    }
}

impl Bucket {
    pub open spec fn name(&self) -> Seq<char> {
        self.mailbox@
    }
}

impl SortResult {
    /// Whether bucket `i` holds `id`.
    pub open spec fn holds(&self, i: int, id: u32) -> bool {
        0 <= i < self.buckets@.len() && self.buckets@[i].ids@.contains(id)
    }

    /// Whether some bucket holds `id`.
    pub open spec fn placed(&self, id: u32) -> bool {
        exists|i: int| self.holds(i, id)
    }

    /// Mailbox names are distinct, and each identifier stands once in one bucket.
    pub open spec fn wf(&self) -> bool {
        &&& forall|i: int, j: int|
            0 <= i < j < self.buckets@.len() ==> self.buckets@[i].name() != self.buckets@[j].name()
        &&& forall|i: int, j: int, id: u32|
            #![trigger self.holds(i, id), self.holds(j, id)]
            self.holds(i, id) && self.holds(j, id) ==> i == j
        &&& forall|i: int| 0 <= i < self.buckets@.len() ==> self.buckets@[i].ids@.no_duplicates()
    }

    /// The buckets are exactly the grouping of the placements `p` by destination,
    /// each identifier kept where it was placed first.
    pub open spec fn groups(&self, p: Seq<(Seq<char>, u32)>) -> bool {
        &&& forall|i: int, id: u32| #[trigger] self.holds(i, id) ==> owner(p, id) == Some(
            self.buckets@[i].name(),
        )
        &&& forall|k: int| 0 <= k < p.len() ==> #[trigger] self.placed(p[k].1)
        &&& forall|i: int| 0 <= i < self.buckets@.len() ==> self.buckets@[i].ids@.len() > 0
    }
}

proof fn lemma_owner_push(p: Seq<(Seq<char>, u32)>, d: Seq<char>, id: u32, x: u32)
    ensures
        owner(p.push((d, id)), x) == if owner(p, x) is Some {
            owner(p, x)
        } else if x == id {
            Some(d)
        } else {
            None
        },
{
    assert(p.push((d, id)).drop_last() =~= p);
}

proof fn lemma_owner_placed(p: Seq<(Seq<char>, u32)>, x: u32)
    requires
        owner(p, x) is Some,
    ensures
        exists|k: int| 0 <= k < p.len() && #[trigger] p[k].1 == x,
    decreases p.len(),
{
    if owner(p.drop_last(), x) is Some {
        lemma_owner_placed(p.drop_last(), x);
        let k = choose|k: int| 0 <= k < p.drop_last().len() && #[trigger] p.drop_last()[k].1 == x;
        assert(p[k].1 == x);
    } else {
        assert(p[p.len() - 1].1 == x);
    }
}

proof fn lemma_scan_error_prefix(ms: Seq<FetchedMessage>, i: int)
    requires
        0 <= i <= ms.len(),
        scan_error(ms.take(i)) is Some,
    ensures
        scan_error(ms) == scan_error(ms.take(i)),
    decreases ms.len() - i,
{
    if i < ms.len() {
        assert(ms.take(i + 1).drop_last() =~= ms.take(i));
        lemma_scan_error_prefix(ms, i + 1);
    } else {
        assert(ms.take(i) =~= ms);
    }
}

/// Whether `ids` holds `id`.
fn contains_id(ids: &Vec<u32>, id: u32) -> (r: bool)
    ensures
        r == ids@.contains(id),
{
    let mut i: usize = 0;
    while i < ids.len()
        invariant
            i <= ids@.len(),
            forall|j: int| 0 <= j < i ==> ids@[j] != id,
        decreases ids@.len() - i,
    {
        if ids[i] == id {
            return true;
        }
        i = i + 1;
    }
    false
}

impl SortResult {
    /// A result with no buckets.
    pub fn new() -> (r: SortResult)
        ensures
            r.buckets@.len() == 0,
            r.wf(),
    {
        SortResult { buckets: Vec::new() }
    }

    /// Records that message `id` goes to `dest`, unless it has a place already.
    #[verifier::loop_isolation(false)]
    fn place(&mut self, dest: String, id: u32, pg: Ghost<Seq<(Seq<char>, u32)>>)
        requires
            old(self).wf(),
            old(self).groups(pg@),
        ensures
            final(self).wf(),
            final(self).groups(pg@.push((dest@, id))),
    {
        let ghost p = pg@;
        let ghost q = p.push((dest@, id));
        let ghost dest_view = dest@;
        let n = self.buckets.len();
        let mut i: usize = 0;
        while i < n
            invariant
                n == self.buckets@.len(),
                i <= n,
                *self == *old(self),
                forall|a: int| 0 <= a < i ==> !self.holds(a, id),
            decreases n - i,
        {
            if contains_id(&self.buckets[i].ids, id) {
                proof {
                    assert(self.holds(i as int, id));
                    assert forall|x: u32| owner(q, x) == owner(p, x) by {
                        lemma_owner_push(p, dest@, id, x);
                    }
                    assert forall|k: int| 0 <= k < q.len() implies #[trigger] self.placed(q[k].1) by {
                        if k == p.len() {
                            assert(self.holds(i as int, q[k].1));
                        } else {
                            assert(q[k] == p[k]);
                        }
                    }
                    assert forall|a: int, x: u32| #[trigger] self.holds(a, x) implies owner(q, x)
                        == Some(self.buckets@[a].name()) by {
                        lemma_owner_push(p, dest@, id, x);
                    }
                    assert(self.groups(q));
                }
                return;
            }
            i = i + 1;
        }
        proof {
            if owner(p, id) is Some {
                lemma_owner_placed(p, id);
                let k = choose|k: int| 0 <= k < p.len() && #[trigger] p[k].1 == id;
                assert(self.placed(p[k].1));
                let a = choose|a: int| self.holds(a, p[k].1);
            }
            assert(owner(p, id) is None);
            assert forall|x: u32| x != id implies owner(q, x) == owner(p, x) by {
                lemma_owner_push(p, dest@, id, x);
            }
            lemma_owner_push(p, dest@, id, id);
        }
        let ghost old_self = *self;
        let mut j: usize = 0;
        while j < n && !(self.buckets[j].mailbox == dest)
            invariant
                n == self.buckets@.len(),
                j <= n,
                *self == old_self,
                forall|a: int| 0 <= a < j ==> self.buckets@[a].name() != dest@,
            decreases n - j,
        {
            j = j + 1;
        }
        if j < n {
            self.buckets[j].ids.push(id);
            proof {
                assert forall|a: int, x: u32| #[trigger] self.holds(a, x) implies (old_self.holds(
                    a,
                    x,
                ) || (a == j && x == id)) by {
                    if a == j && x != id {
                        assert(old_self.buckets@[a].ids@.contains(x));
                    }
                }
                assert forall|a: int, x: u32| #[trigger] old_self.holds(a, x) implies self.holds(
                    a,
                    x,
                ) by {
                    if a == j {
                        let t = choose|t: int| 0 <= t < old_self.buckets@[a].ids@.len()
                            && old_self.buckets@[a].ids@[t] == x;
                        assert(self.buckets@[a].ids@[t] == x);
                    }
                }
                assert forall|k: int| 0 <= k < q.len() implies #[trigger] self.placed(q[k].1) by {
                    if k == p.len() {
                        assert(self.buckets@[j as int].ids@.last() == id);
                        assert(self.holds(j as int, q[k].1));
                    } else {
                        assert(q[k] == p[k]);
                        assert(old_self.placed(p[k].1));
                        let a = choose|a: int| old_self.holds(a, p[k].1);
                        assert(self.holds(a, q[k].1));
                    }
                }
                assert forall|a: int, x: u32| #[trigger] self.holds(a, x) implies owner(q, x)
                    == Some(self.buckets@[a].name()) by {
                    if old_self.holds(a, x) {
                        lemma_owner_push(p, dest_view, id, x);
                    }
                }
                assert forall|a: int| 0 <= a < self.buckets@.len() implies self.buckets@[a].ids@.len() > 0 by {
                    if a < n {
                        assert(old_self.buckets@[a].ids@.len() > 0);
                    }
                }
                assert(self.groups(q));
                let before = old_self.buckets@[j as int].ids@;
                assert(!old_self.holds(j as int, id));
                assert(self.buckets@[j as int].ids@ =~= before.push(id));
                assert forall|a: int, b: int|
                    0 <= a < b < before.len() + 1 implies before.push(id)[a] != before.push(
                        id,
                    )[b] by {
                    if b == before.len() {
                        assert(before[a] != id);
                    }
                }
            }
        } else {
            let mut ids: Vec<u32> = Vec::new();
            ids.push(id);
            self.buckets.push(Bucket { mailbox: dest, ids });
            proof {
                assert forall|a: int, x: u32| #[trigger] self.holds(a, x) implies (old_self.holds(
                    a,
                    x,
                ) || (a == n && x == id)) by {
                    if a == n {
                        assert(self.buckets@[a].ids@ =~= seq![id]);
                    }
                }
                assert forall|a: int, x: u32| #[trigger] old_self.holds(a, x) implies self.holds(
                    a,
                    x,
                ) by {
                    assert(self.buckets@[a] == old_self.buckets@[a]);
                }
                assert forall|k: int| 0 <= k < q.len() implies #[trigger] self.placed(q[k].1) by {
                    if k == p.len() {
                        assert(self.buckets@[n as int].ids@ =~= seq![id]);
                        assert(self.buckets@[n as int].ids@[0] == id);
                        assert(self.holds(n as int, q[k].1));
                    } else {
                        assert(q[k] == p[k]);
                        assert(old_self.placed(p[k].1));
                        let a = choose|a: int| old_self.holds(a, p[k].1);
                        assert(self.holds(a, q[k].1));
                    }
                }
                assert(self.buckets@[n as int].ids@ =~= seq![id]);
                assert(self.buckets@[n as int].name() == dest_view);
                assert(owner(q, id) == Some(dest_view));
                assert forall|a: int, x: u32| #[trigger] self.holds(a, x) implies owner(q, x)
                    == Some(self.buckets@[a].name()) by {
                    if old_self.holds(a, x) {
                        lemma_owner_push(p, dest_view, id, x);
                    }
                }
                assert forall|a: int| 0 <= a < self.buckets@.len() implies self.buckets@[a].ids@.len() > 0 by {
                    if a < n {
                        assert(old_self.buckets@[a].ids@.len() > 0);
                    }
                }
                assert(self.groups(q));
            }
        }
    }
}

/// Groups the fetched messages by destination. Each message needs a header
/// block that parses and an identifier, else the scan fails with the first such
/// failure. A message whose recipient field is absent, does not parse as an
/// address list, or starts with a group goes nowhere.
pub fn sort_inbox(messages: &Vec<FetchedMessage>) -> (r: Result<SortResult, SortError>)
    ensures
        r is Ok <==> scan_error(messages@) is None,
        r is Ok ==> r->Ok_0.wf() && r->Ok_0.groups(placements(messages@)),
        r is Err ==> scan_error(messages@) == Some(r->Err_0.kind()),
{
    let mut sorted = SortResult::new();
    let mut i: usize = 0;
    while i < messages.len()
        invariant
            i <= messages@.len(),
            scan_error(messages@.take(i as int)) is None,
            sorted.wf(),
            sorted.groups(placements(messages@.take(i as int))),
        decreases messages@.len() - i,
    {
        let m = &messages[i];
        let ghost pre = messages@.take(i as int);
        proof {
            assert(messages@.take(i + 1).drop_last() =~= pre);
            assert(messages@.take(i + 1).last() == *m);
        }
        let header = match &m.header {
            Some(h) => h,
            None => {
                proof {
                    lemma_scan_error_prefix(messages@, i + 1);
                }
                return Err(SortError::MissingHeader);
            },
        };
        let value = match first_header_value(header.as_slice(), "X-Pm-Original-To") {
            Ok(v) => v,
            Err(e) => {
                proof {
                    lemma_scan_error_prefix(messages@, i + 1);
                }
                return Err(SortError::Parse(e));
            },
        };
        let uid = match m.uid {
            Some(u) => u,
            None => {
                proof {
                    lemma_scan_error_prefix(messages@, i + 1);
                }
                return Err(SortError::MissingUid);
            },
        };
        if let Some(v) = value {
            if let Some(list) = parse_address_list(v.as_str()) {
                if let Some(dest) = destination(&list) {
                    sorted.place(dest, uid, Ghost(placements(pre)));
                }
            }
        }
        i = i + 1;
    }
    proof {
        assert(messages@.take(messages@.len() as int) =~= messages@);
    }
    Ok(sorted)
}

impl SortResult {
    /// The names of the destination mailboxes, in bucket order.
    pub fn mailboxes(&self) -> (r: Vec<String>)
        ensures
            r@.len() == self.buckets@.len(),
            forall|i: int| 0 <= i < r@.len() ==> #[trigger] r@[i]@ == self.buckets@[i].name(),
    {
        let mut out: Vec<String> = Vec::new();
        let mut i: usize = 0;
        while i < self.buckets.len()
            invariant
                i <= self.buckets@.len(),
                out@.len() == i,
                forall|k: int| 0 <= k < i ==> #[trigger] out@[k]@ == self.buckets@[k].name(),
            decreases self.buckets@.len() - i,
        {
            out.push(self.buckets[i].mailbox.clone());
            i = i + 1;
        }
        out
    }
}

/// In every scan result, a message identifier stands in at most one bucket, and
/// there only once.
pub proof fn lemma_one_bucket_per_message(r: SortResult, id: u32, i: int, j: int)
    requires
        r.wf(),
        r.holds(i, id),
        r.holds(j, id),
    ensures
        i == j,
        r.buckets@[i].ids@.filter(|x: u32| x == id).len() == 1,
{
    let ids = r.buckets@[i].ids@;
    let k = choose|k: int| 0 <= k < ids.len() && ids[k] == id;
    lemma_single_occurrence(ids, id, k);
}

proof fn lemma_single_occurrence(s: Seq<u32>, id: u32, k: int)
    requires
        s.no_duplicates(),
        0 <= k < s.len(),
        s[k] == id,
    ensures
        s.filter(|x: u32| x == id).len() == 1,
    decreases s.len(),
{
    let f = |x: u32| x == id;
    reveal(Seq::filter);
    assert(s.drop_last().no_duplicates());
    if k == s.len() - 1 {
        assert(!s.drop_last().contains(id));
        lemma_absent_filter(s.drop_last(), id);
    } else {
        assert(s.drop_last()[k] == id);
        lemma_single_occurrence(s.drop_last(), id, k);
        assert(s.last() != id);
    }
}

proof fn lemma_absent_filter(s: Seq<u32>, id: u32)
    requires
        !s.contains(id),
    ensures
        s.filter(|x: u32| x == id).len() == 0,
    decreases s.len(),
{
    reveal(Seq::filter);
    if s.len() > 0 {
        assert(!s.drop_last().contains(id)) by {
            if s.drop_last().contains(id) {
                let k = choose|k: int| 0 <= k < s.drop_last().len() && s.drop_last()[k] == id;
                assert(s[k] == id);
            }
        }
        lemma_absent_filter(s.drop_last(), id);
        assert(s[s.len() - 1] != id);
    }
}

} // verus!
