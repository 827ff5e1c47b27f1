//! What holds of the hosts that a client has resolved.

use nagoya::reactor::Addr;
use vstd::prelude::*;

use crate::client::{late, recorded, target_for, target_key, url_key, TargetKey};
use crate::laws::call::lemma_no_path_without_slash;
use crate::laws::url::law_url_says_what_it_has;
use crate::number::lemma_decimal_holds_digits;
use crate::sequence::occurs;
use crate::target::TargetView;
use crate::url::{url_in, UrlView};

verus! {

/// What a lookup gave for the host of a URL.
pub type Record = (UrlView, Result<Seq<Addr>, Seq<char>>);

/// The resolved hosts after a row of lookups.
pub open spec fn after_records(
    targets: Map<TargetKey, TargetView>,
    records: Seq<Record>,
) -> Map<TargetKey, TargetView>
    decreases records.len(),
{
    if records.len() == 0 {
        targets
    } else {
        after_records(recorded(targets, records[0].0, records[0].1), records.drop_first())
    }
}

/// A lookup that gives a target is the last one its host needs: the target is found from then on,
/// whatever is looked up later, and it is the same target until a lookup of that host gives another.
pub proof fn law_host_is_resolved_once(
    targets: Map<TargetKey, TargetView>,
    url: UrlView,
    lookup: Result<Seq<Addr>, Seq<char>>,
    later: Seq<Record>,
)
    requires
        target_for(url, lookup) is Ok,
    ensures
        recorded(targets, url, lookup)[url_key(url)] == target_for(url, lookup)->Ok_0,
        after_records(recorded(targets, url, lookup), later).contains_key(url_key(url)),
        (forall|i: int|
            0 <= i < later.len() ==> url_key((#[trigger] later[i]).0) != url_key(url) || target_for(
                later[i].0,
                later[i].1,
            ) is Err) ==> after_records(recorded(targets, url, lookup), later)[url_key(url)]
            == target_for(url, lookup)->Ok_0,
{
    let kept = recorded(targets, url, lookup);
    lemma_kept_for_good(kept, url_key(url), later);
    if forall|i: int|
        0 <= i < later.len() ==> url_key((#[trigger] later[i]).0) != url_key(url) || target_for(
            later[i].0,
            later[i].1,
        ) is Err {
        lemma_kept_as_it_is(kept, url_key(url), later);
    }
}

/// A host that has been kept is kept as it is, where no later lookup gives another target for it.
proof fn lemma_kept_as_it_is(
    targets: Map<TargetKey, TargetView>,
    key: TargetKey,
    later: Seq<Record>,
)
    requires
        targets.contains_key(key),
        forall|i: int|
            0 <= i < later.len() ==> url_key((#[trigger] later[i]).0) != key || target_for(
                later[i].0,
                later[i].1,
            ) is Err,
    ensures
        after_records(targets, later)[key] == targets[key],
    decreases later.len(),
{
    if later.len() > 0 {
        let (url, lookup) = later[0];
        assert(url_key(later[0].0) != key || target_for(later[0].0, later[0].1) is Err);
        if url_key(url) != key {
            law_lookup_leaves_others(targets, url, lookup, key);
        }
        assert forall|i: int| 0 <= i < later.drop_first().len() implies url_key(
            (#[trigger] later.drop_first()[i]).0,
        ) != key || target_for(later.drop_first()[i].0, later.drop_first()[i].1) is Err by {
            assert(later.drop_first()[i] == later[i + 1]);
        }
        lemma_kept_as_it_is(recorded(targets, url, lookup), key, later.drop_first());
    }
}

/// A host that has been kept is never dropped.
proof fn lemma_kept_for_good(
    targets: Map<TargetKey, TargetView>,
    key: TargetKey,
    later: Seq<Record>,
)
    requires
        targets.contains_key(key),
    ensures
        after_records(targets, later).contains_key(key),
    decreases later.len(),
{
    if later.len() > 0 {
        lemma_kept_for_good(
            recorded(targets, later[0].0, later[0].1),
            key,
            later.drop_first(),
        );
    }
}

/// Two URLs have one host exactly where they agree on TLS, on the host and on the port, and a target is
/// that of a URL exactly where it agrees with it on those.
pub proof fn law_hosts_are_told_apart(first: UrlView, second: UrlView, target: TargetView)
    ensures
        url_key(first) == url_key(second) <==> first.tls == second.tls && first.host == second.host
            && first.port == second.port,
        target_key(target) == url_key(first) <==> target.tls == first.tls && target.host
            == first.host && target.port == first.port,
{
}

/// What a lookup gave for a URL is found, with just the addresses that it gave, for every URL with the
/// same TLS, host and port; for a URL that differs in one of them is found what was found before. A
/// lookup that gave no address changes nothing.
pub proof fn law_record_is_found_for_its_host_alone(
    targets: Map<TargetKey, TargetView>,
    url: UrlView,
    addrs: Seq<Addr>,
    detail: Seq<char>,
    other: UrlView,
)
    ensures
        addrs.len() > 0 ==> {
            let after = recorded(targets, url, Ok(addrs));
            if other.tls == url.tls && other.host == url.host && other.port == url.port {
                &&& after.contains_key(url_key(other))
                &&& after[url_key(other)] == (TargetView {
                    host: url.host,
                    port: url.port,
                    addrs,
                    tls: url.tls,
                })
            } else {
                &&& after.contains_key(url_key(other)) == targets.contains_key(url_key(other))
                &&& targets.contains_key(url_key(other)) ==> after[url_key(other)]
                    == targets[url_key(other)]
            }
        },
        recorded(targets, url, Ok(Seq::empty())) == targets,
        recorded(targets, url, Err(detail)) == targets,
{
    law_hosts_are_told_apart(url, other, TargetView {
        host: url.host,
        port: url.port,
        addrs,
        tls: url.tls,
    });
}

/// A lookup concerns its own host alone: what is kept for every other one stays as it is.
pub proof fn law_lookup_leaves_others(
    targets: Map<TargetKey, TargetView>,
    url: UrlView,
    lookup: Result<Seq<Addr>, Seq<char>>,
    other: TargetKey,
)
    requires
        other != url_key(url),
    ensures
        recorded(targets, url, lookup).contains_key(other) == targets.contains_key(other),
        targets.contains_key(other) ==> recorded(targets, url, lookup)[other] == targets[other],
{
}

/// Every target that is kept is kept as what it is, and has an address.
pub open spec fn all_kept_as_themselves(targets: Map<TargetKey, TargetView>) -> bool {
    forall|key: TargetKey| #[trigger]
        targets.contains_key(key) ==> target_key(targets[key]) == key && targets[key].addrs.len() > 0
}

/// A target is found under its own scheme, host and port, and no other: no lookup changes that.
pub proof fn law_targets_are_kept_as_themselves(
    targets: Map<TargetKey, TargetView>,
    url: UrlView,
    lookup: Result<Seq<Addr>, Seq<char>>,
)
    requires
        all_kept_as_themselves(targets),
    ensures
        all_kept_as_themselves(Map::empty()),
        all_kept_as_themselves(recorded(targets, url, lookup)),
{
}

/// Neither the error of a host that could not be resolved nor that of one that did not answer in time
/// carries the path of the URL, unless the system put a slash into the detail of a failed lookup.
pub proof fn law_client_errors_hide_path(
    text: Seq<char>,
    lookup: Result<Seq<Addr>, Seq<char>>,
    seconds: u64,
)
    requires
        lookup matches Err(detail) ==> !detail.contains('/'),
    ensures
        url_in(text) matches Ok(url) ==> {
            &&& !occurs(late(url.host, seconds).message(), url.path_and_query)
            &&& target_for(url, lookup) matches Err(error) ==> !occurs(
                error.message(),
                url.path_and_query,
            )
        },
{
    law_url_says_what_it_has(text);
    if let Ok(url) = url_in(text) {
        reveal_strlit("timed out: ");
        reveal_strlit(" did not answer within ");
        reveal_strlit("s");
        reveal_strlit("DNS resolution failed: ");
        reveal_strlit(" has no addresses");
        lemma_decimal_holds_digits(seconds as nat, '/');
        lemma_no_path_without_slash(late(url.host, seconds).message(), url.path_and_query);
        if let Err(error) = target_for(url, lookup) {
            lemma_no_path_without_slash(error.message(), url.path_and_query);
        }
    }
}

} // verus!
