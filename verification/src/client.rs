//! Requests by URL: the hosts a client has resolved, and the request a URL stands for.

use nagoya::reactor::Addr;
use vstd::prelude::*;
use vstd::string::StringExecFns;

use crate::call::{outcome_view, Outcome};
use crate::error::{Error, ErrorView};
use crate::number::{decimal, write_decimal};
use crate::request::{pairs_view, Request, RequestView};
use crate::response::ResponseView;
use crate::target::{lookup_view, target_from, Target, TargetView};
use crate::text::{equal_text, join3};
use crate::url::{Url, UrlView};

verus! {

/// How many seconds a request may take, connect to last byte, unless the client says otherwise. The
/// APIs this is for answer in milliseconds; a request still going after this is a dead connection.
pub const DEFAULT_TIMEOUT_SECS: u64 = 30;

/// What a resolved host is known by: whether it is reached over TLS, its name and its port.
pub type TargetKey = (bool, Seq<char>, u16);

/// What the host of a URL is known by.
pub open spec fn url_key(url: UrlView) -> TargetKey {
    (url.tls, url.host, url.port)
}

/// What a resolved host is known by.
pub open spec fn target_key(target: TargetView) -> TargetKey {
    (target.tls, target.host, target.port)
}

/// The target that a lookup of the host of `url` gives, or why there is none.
pub open spec fn target_for(url: UrlView, lookup: Result<Seq<Addr>, Seq<char>>) -> Result<
    TargetView,
    ErrorView,
> {
    target_from(url.host, url.port, url.tls, lookup)
}

/// The resolved hosts after a lookup of the host of `url`: its target is kept where it has one.
pub open spec fn recorded(
    targets: Map<TargetKey, TargetView>,
    url: UrlView,
    lookup: Result<Seq<Addr>, Seq<char>>,
) -> Map<TargetKey, TargetView> {
    match target_for(url, lookup) {
        Ok(target) => targets.insert(url_key(url), target),
        Err(_) => targets,
    }
}

/// Resolved hosts, by (TLS, host, port). Resolution blocks, so it happens once per host rather than
/// once per request.
#[derive(Debug)]
pub struct Targets {
    entries: Vec<Target>,
}

/// There is a target for `key`.
spec fn has_key(entries: Seq<Target>, key: TargetKey) -> bool {
    exists|i: int| 0 <= i < entries.len() && target_key(#[trigger] entries[i]@) == key
}

/// The index of the target for `key`.
spec fn index_of(entries: Seq<Target>, key: TargetKey) -> int {
    choose|i: int| 0 <= i < entries.len() && target_key(#[trigger] entries[i]@) == key
}

/// The targets as a map.
spec fn entries_view(entries: Seq<Target>) -> Map<TargetKey, TargetView> {
    Map::new(
        |key: TargetKey| has_key(entries, key),
        |key: TargetKey| entries[index_of(entries, key)]@,
    )
}

/// No two targets are for one key.
spec fn distinct(entries: Seq<Target>) -> bool {
    forall|i: int, j: int|
        0 <= i < j < entries.len() ==> target_key(#[trigger] entries[i]@) != target_key(
            #[trigger] entries[j]@,
        )
}

impl View for Targets {
    type V = Map<TargetKey, TargetView>;

    closed spec fn view(&self) -> Map<TargetKey, TargetView> {
        entries_view(self.entries@)
    }
}

/// Where the keys are distinct, a target for a key is the one that the map holds.
proof fn lemma_entry(entries: Seq<Target>, i: int)
    requires
        distinct(entries),
        0 <= i < entries.len(),
    ensures
        has_key(entries, target_key(entries[i]@)),
        index_of(entries, target_key(entries[i]@)) == i,
{
    let key = target_key(entries[i]@);
    assert(has_key(entries, key));
    let chosen = index_of(entries, key);
    assert(target_key(entries[chosen]@) == key);
}

/// The index of the target for the host of `url`, if there is one.
fn position(entries: &Vec<Target>, url: &Url<'_>) -> (found: Option<usize>)
    ensures
        match found {
            Some(i) => i < entries@.len() && target_key(entries@[i as int]@) == url_key(url@),
            None => !has_key(entries@, url_key(url@)),
        },
{
    let mut i: usize = 0;
    while i < entries.len()
        invariant
            i <= entries@.len(),
            forall|j: int| 0 <= j < i ==> target_key(#[trigger] entries@[j]@) != url_key(url@),
        decreases entries@.len() - i,
    {
        let target = &entries[i];
        if target.is_tls() == url.tls && target.port() == url.port && equal_text(
            target.host(),
            url.host,
        ) {
            return Some(i);
        }
        i = i + 1;
    }
    None
}

impl Targets {
    /// No host is kept twice.
    #[verifier::type_invariant]
    spec fn wf(self) -> bool {
        distinct(self.entries@)
    }

    /// No hosts.
    pub fn new() -> (targets: Self)
        ensures
            targets@ == Map::<TargetKey, TargetView>::empty(),
    {
        let targets = Targets { entries: Vec::new() };
        assert(targets@ =~= Map::empty());
        targets
    }

    /// The resolved host of `url`, if it has been kept.
    pub fn lookup(&self, url: &Url<'_>) -> (target: Option<&Target>)
        ensures
            match target {
                Some(target) => self@.contains_key(url_key(url@)) && self@[url_key(url@)] == target@
                    && target_key(target@) == url_key(url@) && target@.tls == url.tls
                    && target@.host == url.host@ && target@.port == url.port,
                None => !self@.contains_key(url_key(url@)),
            },
    {
        proof {
            use_type_invariant(self);
        }
        match position(&self.entries, url) {
            Some(i) => {
                proof {
                    lemma_entry(self.entries@, i as int);
                }
                Some(&self.entries[i])
            },
            None => None,
        }
    }

    /// Takes what a lookup of the host of `url` gave: its target, which is kept, or why there is
    /// none.
    pub fn record(&mut self, url: &Url<'_>, lookup: Result<Vec<Addr>, String>) -> (target: Result<
        Target,
        Error,
    >)
        ensures
            match target {
                Ok(target) => target_for(url@, lookup_view(lookup)) == Ok::<TargetView, ErrorView>(
                    target@,
                ),
                Err(error) => target_for(url@, lookup_view(lookup)) == Err::<TargetView, ErrorView>(
                    error@,
                ),
            },
            target matches Ok(target) ==> target@.tls == url.tls && target@.host == url.host@
                && target@.port == url.port,
            final(self)@ == recorded(old(self)@, url@, lookup_view(lookup)),
    {
        match Target::resolved(url.host, url.port, url.tls, lookup) {
            Ok(target) => {
                self.keep(url, target.clone());
                Ok(target)
            },
            Err(error) => Err(error),
        }
    }

    /// Keeps the resolved host of `url`.
    fn keep(&mut self, url: &Url<'_>, target: Target)
        requires
            target_key(target@) == url_key(url@),
        ensures
            final(self)@ == old(self)@.insert(url_key(url@), target@),
    {
        proof {
            use_type_invariant(&*self);
        }
        let mut entries: Vec<Target> = Vec::new();
        std::mem::swap(&mut self.entries, &mut entries);
        let ghost before = entries@;
        match position(&entries, url) {
            Some(i) => {
                entries.set(i, target);
                proof {
                    lemma_kept(before, entries@, i as int);
                }
            },
            None => {
                entries.push(target);
                proof {
                    lemma_kept(before, entries@, before.len() as int);
                }
            },
        }
        self.entries = entries;
    }
}

/// A target put in the place of the one for its key, or at the end, is all that changes.
proof fn lemma_kept(before: Seq<Target>, after: Seq<Target>, at: int)
    requires
        distinct(before),
        0 <= at <= before.len(),
        at < before.len() ==> target_key(before[at]@) == target_key(after[at]@) && after.len()
            == before.len(),
        at == before.len() ==> !has_key(before, target_key(after[at]@)) && after.len()
            == before.len() + 1,
        forall|i: int| 0 <= i < before.len() && i != at ==> after[i] == #[trigger] before[i],
    ensures
        distinct(after),
        entries_view(after) == entries_view(before).insert(target_key(after[at]@), after[at]@),
{
    let key = target_key(after[at]@);
    assert forall|i: int, j: int| 0 <= i < j < after.len() implies target_key(
        #[trigger] after[i]@,
    ) != target_key(#[trigger] after[j]@) by {
        if at == before.len() {
            assert(target_key(before[i]@) != key);
            if j < at {
                assert(target_key(before[j]@) != target_key(before[i]@));
            }
        } else {
            assert(target_key(before[i]@) != target_key(before[j]@));
        }
    }
    lemma_entry(after, at);
    assert forall|k: TargetKey| k != key implies has_key(before, k) == has_key(after, k) && (has_key(
        before,
        k,
    ) ==> before[index_of(before, k)] == after[index_of(after, k)]) by {
        if has_key(before, k) {
            let i = index_of(before, k);
            assert(target_key(before[i]@) == k);
            assert(after[i] == before[i]);
            lemma_entry(after, i);
        }
        if has_key(after, k) {
            let i = index_of(after, k);
            assert(target_key(after[i]@) == k);
            assert(after[i] == before[i]);
            lemma_entry(before, i);
        }
    }
    assert(entries_view(after) =~= entries_view(before).insert(key, after[at]@));
}

/// The body of a request as characters and bytes.
pub open spec fn body_parts(body: Option<(&str, &[u8])>) -> Option<(Seq<char>, Seq<u8>)> {
    match body {
        Some((content_type, body)) => Some((content_type@, body@)),
        None => None,
    }
}

/// The request that sends `method` to `url` with `headers` and an optional `(content type, body)`.
pub fn request_for<'a>(
    method: &'a str,
    url: &Url<'a>,
    headers: &[(&'a str, &'a str)],
    body: Option<(&'a str, &'a [u8])>,
) -> (request: Request<'a>)
    ensures
        request@ == (RequestView {
            method: method@,
            path: url@.path_and_query,
            headers: pairs_view(headers@),
            body: body_parts(body),
        }),
{
    let mut request = Request::new(method, url.path_and_query);
    let mut i: usize = 0;
    assert(pairs_view(headers@.take(0)) =~= Seq::empty());
    while i < headers.len()
        invariant
            i <= headers@.len(),
            request@ == (RequestView {
                method: method@,
                path: url@.path_and_query,
                headers: pairs_view(headers@.take(i as int)),
                body: None,
            }),
        decreases headers@.len() - i,
    {
        let (name, value) = headers[i];
        request = request.header(name, value);
        assert(pairs_view(headers@.take(i + 1)) =~= pairs_view(headers@.take(i as int)).push(
            (name@, value@),
        ));
        i = i + 1;
    }
    assert(headers@.take(i as int) =~= headers@);
    if let Some((content_type, body)) = body {
        request = request.body(content_type, body);
    }
    request
}

/// The error of a request to `host` that did not finish within `seconds`.
pub open spec fn late(host: Seq<char>, seconds: u64) -> ErrorView {
    ErrorView::Timeout(host + " did not answer within "@ + decimal(seconds as nat) + "s"@)
}

/// What a request to `host` came to: its outcome, or `None` where `seconds` passed before it.
pub fn conclude(host: &str, seconds: u64, finished: Option<Outcome>) -> (outcome: Outcome)
    ensures
        match finished {
            Some(finished) => outcome == finished,
            None => outcome_view(outcome) == Err::<ResponseView, ErrorView>(late(host@, seconds)),
        },
{
    match finished {
        Some(finished) => finished,
        None => Err(timed_out(host, seconds)),
    }
}

/// The error of a request to `host` that did not finish within `seconds`.
pub fn timed_out(host: &str, seconds: u64) -> (error: Error)
    ensures
        error@ == late(host@, seconds),
{
    let seconds = write_decimal(seconds);
    let mut detail = join3(host, " did not answer within ", seconds.as_str());
    detail.append("s");
    Error::Timeout(detail)
}

} // verus!
