//! What holds of every run of the engine.

use vstd::prelude::*;
use crate::engine::{is_trail, links_to, outbound, reachable, verdict, Engine, Fetched};
use crate::report::{keeps_verdicts, Report};

verus! {

/// Every page checked so far gave what the fetcher `site` gives for it.
pub open spec fn observes(visited: Map<Seq<char>, Fetched>, site: spec_fn(Seq<char>) -> Fetched) -> bool {
    forall|u: Seq<char>| #[trigger] visited.contains_key(u) ==> visited[u] == site(u)
}

/// A non-empty chain of addresses in which each page, as `site` serves it,
/// links to the next.
pub open spec fn is_route(site: spec_fn(Seq<char>) -> Fetched, path: Seq<Seq<char>>) -> bool {
    &&& path.len() > 0
    &&& forall|i: int|
        0 <= i < path.len() - 1 ==> outbound(site(#[trigger] path[i]), path[i]).contains(path[i + 1])
}

/// Closure: when a run over `site` is over, its report holds every address
/// that a chain of links leads to from the root, and holds none twice.
pub proof fn lemma_closure_complete(
    engine: Engine,
    site: spec_fn(Seq<char>) -> Fetched,
    path: Seq<Seq<char>>,
)
    requires
        engine.wf(),
        engine.finished(),
        observes(engine.visited(), site),
        is_route(site, path),
        path[0] == engine.root(),
    ensures
        engine.records().contains(path.last()),
        engine.records().keys().no_duplicates(),
    decreases path.len(),
{
    let records = engine.records();
    assert(records.keys().len() > 0);
    if path.len() > 1 {
        let shorter = path.drop_last();
        let page = shorter.last();
        assert forall|i: int| 0 <= i < shorter.len() - 1 implies outbound(
            site(#[trigger] shorter[i]),
            shorter[i],
        ).contains(shorter[i + 1]) by {
            assert(shorter[i] == path[i]);
            assert(shorter[i + 1] == path[i + 1]);
        }
        lemma_closure_complete(engine, site, shorter);
        assert(records.contains(page));
        assert(!engine.queue().contains(page));
        assert(engine.visited().contains_key(page));
        assert(page == path[path.len() - 2]);
        assert(links_to(engine.visited(), page, path.last()));
    }
}

/// Nothing else is held: at every moment of a run, each address of the report
/// is the end of a chain of links that starts at the root.
pub proof fn lemma_only_reachable(engine: Engine, url: Seq<char>)
    requires
        engine.wf(),
        engine.records().contains(url),
    ensures
        reachable(engine.visited(), engine.root(), url),
{
}

/// Reference accuracy: the pages recorded as referring to an address without
/// a `Valid` verdict are exactly the pages that were checked and were found
/// to link to it.
pub proof fn lemma_references_accurate(engine: Engine, url: Seq<char>)
    requires
        engine.wf(),
        engine.records().contains(url),
        !(engine.records().status(url) is Valid),
    ensures
        engine.records().references(url).to_set() == Set::new(
            |p: Seq<char>| links_to(engine.visited(), p, url),
        ),
{
    let refs = engine.records().references(url);
    let pages = Set::new(|p: Seq<char>| links_to(engine.visited(), p, url));
    assert forall|p: Seq<char>| refs.to_set().contains(p) <==> pages.contains(p) by {
        assert(refs.to_set().contains(p) <==> refs.contains(p));
    }
    assert(refs.to_set() =~= pages);
}

/// Every page is checked once: the address that is next in turn has not been
/// checked before and has no verdict yet.
pub proof fn lemma_checked_once(engine: Engine)
    requires
        engine.wf(),
        !engine.finished(),
    ensures
        !engine.visited().contains_key(engine.queue()[0]),
        engine.records().contains(engine.queue()[0]) ==> engine.records().status(
            engine.queue()[0],
        ) is InProgress,
{
    let next = engine.queue()[0];
    assert(engine.queue().contains(next));
    if engine.visited().contains_key(next) {
        assert(engine.records().contains(next));
    }
}

/// Finality over any number of steps: verdicts that stand through one
/// stretch of a run and through the next stand through both.
pub proof fn lemma_verdicts_stand(first: Report, second: Report, third: Report)
    requires
        keeps_verdicts(first, second),
        keeps_verdicts(second, third),
    ensures
        keeps_verdicts(first, third),
{
    assert forall|u: Seq<char>| #[trigger]
        first.contains(u) && first.status(u).is_terminal() implies third.contains(u)
        && third.status(u) == first.status(u) by {
        assert(second.contains(u));
    }
}

/// After the last step no held address is left `InProgress`: each has the
/// verdict that fetching it led to.
pub proof fn lemma_all_judged(engine: Engine, url: Seq<char>)
    requires
        engine.wf(),
        engine.finished(),
        engine.records().contains(url),
    ensures
        engine.visited().contains_key(url),
        engine.records().status(url) == verdict(engine.visited()[url]),
{
    assert(!engine.queue().contains(url));
}

/// Two runs from one root over one deterministic site, both over, hold the
/// same addresses with the same verdicts.
pub proof fn lemma_runs_agree(
    one: Engine,
    other: Engine,
    site: spec_fn(Seq<char>) -> Fetched,
    url: Seq<char>,
)
    requires
        one.wf(),
        other.wf(),
        one.finished(),
        other.finished(),
        one.root() == other.root(),
        observes(one.visited(), site),
        observes(other.visited(), site),
    ensures
        one.records().contains(url) == other.records().contains(url),
        one.records().contains(url) ==> one.records().status(url) == other.records().status(url),
{
    if one.records().contains(url) {
        lemma_held_by(one, other, site, url);
    }
    if other.records().contains(url) {
        lemma_held_by(other, one, site, url);
    }
    if one.records().contains(url) {
        lemma_all_judged(one, url);
        lemma_all_judged(other, url);
    }
}

proof fn lemma_held_by(
    one: Engine,
    other: Engine,
    site: spec_fn(Seq<char>) -> Fetched,
    url: Seq<char>,
)
    requires
        one.wf(),
        other.wf(),
        other.finished(),
        one.root() == other.root(),
        observes(one.visited(), site),
        observes(other.visited(), site),
        one.records().contains(url),
    ensures
        other.records().contains(url),
{
    assert(reachable(one.visited(), one.root(), url));
    let path = choose|path: Seq<Seq<char>>| #[trigger]
        is_trail(one.visited(), path) && path[0] == one.root() && path.last() == url;
    assert forall|i: int| 0 <= i < path.len() - 1 implies outbound(
        site(#[trigger] path[i]),
        path[i],
    ).contains(path[i + 1]) by {
        assert(links_to(one.visited(), path[i], path[i + 1]));
    }
    lemma_closure_complete(other, site, path);
}

} // verus!
