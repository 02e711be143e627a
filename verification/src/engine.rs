//! The crawl engine: a breadth-first traversal in waves, driven from outside
//! one fetched page at a time.

use vstd::prelude::*;
use crate::extract::{extract_links, links, Tag};
use crate::fetch::FetchError;
use crate::normalize::{normalize_url, normalized, Url};
use crate::report::{
    addresses, check_error, keeps_verdicts, same_elsewhere, CheckError, PageStatus, Report,
};

verus! {

/// What a fetcher and tokenizer hand over for one page: its tags, or why it
/// could not be retrieved.
pub type Fetched = Result<Vec<Tag>, FetchError>;

/// The hrefs that resolve against `base`, each resolved, in order.
pub open spec fn resolved(hrefs: Seq<Seq<char>>, base: Seq<char>) -> Seq<Seq<char>>
    decreases hrefs.len(),
{
    if hrefs.len() == 0 {
        Seq::empty()
    } else {
        let before = resolved(hrefs.drop_last(), base);
        match normalized(hrefs.last(), base) {
            Some(u) => before.push(u),
            None => before,
        }
    }
}

/// The addresses that the page at `base` links to: none where it could not
/// be retrieved.
pub open spec fn outbound(fetched: Fetched, base: Seq<char>) -> Seq<Seq<char>> {
    match fetched {
        Ok(tags) => resolved(links(tags@), base),
        Err(_) => Seq::empty(),
    }
}

/// The verdict on a page, given what came of fetching it.
pub open spec fn verdict(fetched: Fetched) -> PageStatus {
    match fetched {
        Ok(_) => PageStatus::Valid,
        Err(e) => PageStatus::Invalid(check_error(e)),
    }
}

/// How often `v` occurs in `links`.
pub open spec fn occurrences(links: Seq<Seq<char>>, v: Seq<char>) -> nat
    decreases links.len(),
{
    if links.len() == 0 {
        0
    } else {
        occurrences(links.drop_last(), v) + if links.last() == v {
            1nat
        } else {
            0nat
        }
    }
}

/// `n` times the page `p`.
pub open spec fn repeated(p: Seq<char>, n: nat) -> Seq<Seq<char>> {
    Seq::new(n, |i: int| p)
}

/// `known`, followed by each of `links` that was not yet known when its turn
/// came.
pub open spec fn discovered(known: Seq<Seq<char>>, links: Seq<Seq<char>>) -> Seq<Seq<char>>
    decreases links.len(),
{
    if links.len() == 0 {
        known
    } else {
        let before = discovered(known, links.drop_last());
        if before.contains(links.last()) {
            before
        } else {
            before.push(links.last())
        }
    }
}

/// The check of one page, given what came of fetching it: the addresses it
/// links to, or the fetcher's failure as the page's error. Hrefs that do not
/// resolve are dropped.
pub fn check(this: &Url, fetched: Fetched) -> (r: Result<Vec<Url>, CheckError>)
    ensures
        match r {
            Ok(urls) => fetched is Ok && addresses(urls@) == outbound(fetched, this@),
            Err(e) => fetched is Err && e == check_error(fetched->Err_0),
        },
{
    let tags = match fetched {
        Ok(tags) => tags,
        Err(e) => {
            return Err(CheckError::from_error(e));
        },
    };
    let mut hrefs: Vec<String> = Vec::new();
    extract_links(&tags, &mut hrefs);
    assert(crate::extract::texts(hrefs@) =~= links(tags@));
    let ghost raw = crate::extract::texts(hrefs@);
    let mut urls: Vec<Url> = Vec::new();
    let n: usize = hrefs.len();
    let mut i: usize = 0;
    assert(raw.take(0) =~= Seq::<Seq<char>>::empty());
    while i < n
        invariant
            i <= n,
            n == hrefs@.len(),
            raw == crate::extract::texts(hrefs@),
            addresses(urls@) =~= resolved(raw.take(i as int), this@),
        decreases n - i,
    {
        assert(raw.take(i + 1).drop_last() =~= raw.take(i as int));
        assert(raw.take(i + 1).last() == hrefs@[i as int]@);
        let ghost before = urls@;
        match normalize_url(hrefs[i].as_str(), this) {
            Ok(u) => {
                urls.push(u);
                assert(addresses(urls@) =~= addresses(before).push(u@));
            },
            Err(_) => {},
        }
        assert(resolved(raw.take(i + 1), this@) == match normalized(hrefs@[i as int]@, this@) {
            Some(u) => resolved(raw.take(i as int), this@).push(u),
            None => resolved(raw.take(i as int), this@),
        });
        i += 1;
    }
    assert(raw.take(n as int) =~= raw);
    Ok(urls)
}

/// `v` occurs in `links` exactly when it occurs there at least once.
pub proof fn lemma_occurrences(links: Seq<Seq<char>>, v: Seq<char>)
    ensures
        links.contains(v) <==> occurrences(links, v) > 0,
    decreases links.len(),
{
    if links.len() > 0 {
        lemma_occurrences(links.drop_last(), v);
        if links.drop_last().contains(v) {
            let j = choose|j: int| 0 <= j < links.drop_last().len() && links.drop_last()[j] == v;
            assert(links[j] == v);
        }
        if links.contains(v) && links.last() != v {
            let j = choose|j: int| 0 <= j < links.len() && links[j] == v;
            assert(links.drop_last()[j] == v);
        }
    }
}

/// What following the links `links` of page `page` does to a report.
pub open spec fn linked(before: Report, after: Report, page: Seq<char>, links: Seq<Seq<char>>) -> bool {
    &&& after.keys() == discovered(before.keys(), links)
    &&& before.keys().len() <= after.keys().len()
    &&& after.keys().subrange(0, before.keys().len() as int) == before.keys()
    &&& forall|v: Seq<char>| #[trigger]
        after.contains(v) <==> before.contains(v) || links.contains(v)
    &&& forall|v: Seq<char>|
        after.contains(v) ==> #[trigger] after.status(v) == if before.contains(v) {
            before.status(v)
        } else {
            PageStatus::InProgress
        }
    &&& forall|v: Seq<char>|
        after.contains(v) ==> #[trigger] after.references(v) == if !before.contains(v) {
            repeated(page, occurrences(links, v))
        } else if before.status(v) is Valid {
            before.references(v)
        } else {
            before.references(v) + repeated(page, occurrences(links, v))
        }
}

/// Records one link from page `from` to `to`: an address not yet held is
/// entered as `InProgress` with `from` as its first reference and queued; one
/// that is held and not `Valid` gets `from` as a further reference.
pub fn note_link(report: &mut Report, upcoming: &mut Vec<Url>, from: &Url, to: &Url)
    requires
        old(report).wf(),
    ensures
        final(report).wf(),
        final(report).contains(to@),
        final(report).keys() == if old(report).contains(to@) {
            old(report).keys()
        } else {
            old(report).keys().push(to@)
        },
        addresses(final(upcoming)@) == if old(report).contains(to@) {
            addresses(old(upcoming)@)
        } else {
            addresses(old(upcoming)@).push(to@)
        },
        final(report).status(to@) == if old(report).contains(to@) {
            old(report).status(to@)
        } else {
            PageStatus::InProgress
        },
        final(report).references(to@) == if !old(report).contains(to@) {
            seq![from@]
        } else if old(report).status(to@) is Valid {
            old(report).references(to@)
        } else {
            old(report).references(to@).push(from@)
        },
        same_elsewhere(*old(report), *final(report), to@),
        keeps_verdicts(*old(report), *final(report)),
{
    if report.insert_if_absent(to.clone(), from.clone()) {
        let ghost queued = upcoming@;
        upcoming.push(to.clone());
        assert(addresses(upcoming@) =~= addresses(queued).push(to@));
    } else {
        report.append_reference(to, from.clone());
    }
}

/// Records every link of page `from`, in order.
pub fn note_links(report: &mut Report, upcoming: &mut Vec<Url>, from: &Url, targets: &Vec<Url>)
    requires
        old(report).wf(),
    ensures
        final(report).wf(),
        linked(*old(report), *final(report), from@, addresses(targets@)),
        addresses(final(upcoming)@) == addresses(old(upcoming)@) + final(report).keys().subrange(
            old(report).keys().len() as int,
            final(report).keys().len() as int,
        ),
        keeps_verdicts(*old(report), *final(report)),
{
    let ghost start = *report;
    let ghost queued = addresses(upcoming@);
    let ghost all = addresses(targets@);
    let n: usize = targets.len();
    let mut i: usize = 0;
    proof {
        assert(all.take(0) =~= Seq::<Seq<char>>::empty());
        assert(start.keys().subrange(0, start.keys().len() as int) =~= start.keys());
        assert(start.keys().subrange(start.keys().len() as int, start.keys().len() as int)
            =~= Seq::<Seq<char>>::empty());
        assert(addresses(upcoming@) =~= queued + Seq::<Seq<char>>::empty());
        assert forall|v: Seq<char>| start.contains(v) implies #[trigger] start.references(v)
            == if start.status(v) is Valid {
            start.references(v)
        } else {
            start.references(v) + repeated(from@, occurrences(all.take(0), v))
        } by {
            assert(start.references(v) + repeated(from@, 0) =~= start.references(v));
        }
    }
    while i < n
        invariant
            i <= n,
            n == targets@.len(),
            all == addresses(targets@),
            report.wf(),
            start.wf(),
            linked(start, *report, from@, all.take(i as int)),
            addresses(upcoming@) == queued + report.keys().subrange(
                start.keys().len() as int,
                report.keys().len() as int,
            ),
            keeps_verdicts(start, *report),
        decreases n - i,
    {
        let ghost prev = *report;
        let ghost to = all[i as int];
        let ghost seen = all.take(i as int);
        let ghost next = all.take(i + 1);
        note_link(report, upcoming, from, &targets[i]);
        proof {
            assert(next.drop_last() =~= seen);
            assert(next.last() == to);
            assert(discovered(start.keys(), next) == report.keys());
            assert(report.keys().subrange(0, start.keys().len() as int) =~= start.keys());
            assert(addresses(upcoming@) =~= queued + report.keys().subrange(
                start.keys().len() as int,
                report.keys().len() as int,
            ));
            lemma_occurrences(seen, to);
            assert forall|v: Seq<char>| #[trigger]
                report.contains(v) <==> start.contains(v) || next.contains(v) by {
                assert(next =~= seen.push(to));
                if seen.contains(v) {
                    let j = choose|j: int| 0 <= j < seen.len() && seen[j] == v;
                    assert(next[j] == v);
                }
                if next.contains(v) && v != to {
                    let j = choose|j: int| 0 <= j < next.len() && next[j] == v;
                    assert(seen[j] == v);
                }
                assert(next[i as int] == to);
                if prev.contains(v) {
                    assert(report.contains(v)) by {
                        if v != to {
                        } else {
                            let j = choose|j: int| 0 <= j < prev.keys().len() && prev.keys()[j] == v;
                            assert(report.keys()[j] == v);
                        }
                    }
                }
                if report.contains(v) && v != to {
                    let j = choose|j: int| 0 <= j < report.keys().len() && report.keys()[j] == v;
                    assert(prev.keys()[j] == v);
                }
            }
            assert forall|v: Seq<char>| report.contains(v) implies #[trigger] report.status(v)
                == if start.contains(v) {
                start.status(v)
            } else {
                PageStatus::InProgress
            } by {
                if v != to {
                    assert(prev.contains(v));
                }
            }
            assert forall|v: Seq<char>| report.contains(v) implies #[trigger] report.references(v)
                == if !start.contains(v) {
                repeated(from@, occurrences(next, v))
            } else if start.status(v) is Valid {
                start.references(v)
            } else {
                start.references(v) + repeated(from@, occurrences(next, v))
            } by {
                let k = occurrences(seen, v);
                if v != to {
                    assert(prev.contains(v));
                    assert(occurrences(next, v) == k);
                } else {
                    assert(occurrences(next, v) == k + 1);
                    assert(repeated(from@, k).push(from@) =~= repeated(from@, k + 1));
                    assert(seq![from@] =~= repeated(from@, 1));
                    if prev.contains(v) && start.contains(v) {
                        assert((start.references(v) + repeated(from@, k)).push(from@)
                            =~= start.references(v) + repeated(from@, k + 1));
                    }
                }
            }
        }
        i += 1;
    }
    assert(all.take(n as int) =~= all);
}

/// Page `page` was checked and was found to link to `target`.
pub open spec fn links_to(visited: Map<Seq<char>, Fetched>, page: Seq<char>, target: Seq<char>) -> bool {
    visited.contains_key(page) && outbound(visited[page], page).contains(target)
}

/// A non-empty chain of addresses, each checked and linking to the next.
pub open spec fn is_trail(visited: Map<Seq<char>, Fetched>, path: Seq<Seq<char>>) -> bool {
    &&& path.len() > 0
    &&& forall|i: int| 0 <= i < path.len() - 1 ==> links_to(visited, #[trigger] path[i], path[i + 1])
}

/// `target` is the end of a trail that starts at `root`.
pub open spec fn reachable(visited: Map<Seq<char>, Fetched>, root: Seq<char>, target: Seq<char>) -> bool {
    exists|path: Seq<Seq<char>>| #[trigger]
        is_trail(visited, path) && path[0] == root && path.last() == target
}

/// What holds between the report, the queue of addresses still to check and
/// the record of the pages checked so far, at every moment of a run from
/// `root`.
pub open spec fn coherent(
    root: Seq<char>,
    records: Report,
    queue: Seq<Seq<char>>,
    visited: Map<Seq<char>, Fetched>,
) -> bool {
    &&& records.wf()
    &&& queue.no_duplicates()
    &&& records.keys().len() == 0 ==> queue == seq![root]
    &&& records.keys().len() > 0 ==> records.contains(root)
    &&& forall|u: Seq<char>| #[trigger]
        queue.contains(u) && records.keys().len() > 0 ==> records.contains(u) && records.status(
            u,
        ) is InProgress
    &&& forall|u: Seq<char>| #[trigger]
        records.contains(u) ==> if records.status(u) is InProgress {
            queue.contains(u)
        } else {
            visited.contains_key(u)
        }
    &&& forall|u: Seq<char>| #[trigger]
        visited.contains_key(u) ==> records.contains(u) && records.status(u) == verdict(visited[u])
    &&& forall|p: Seq<char>, v: Seq<char>| #[trigger] links_to(visited, p, v) ==> records.contains(v)
    &&& forall|u: Seq<char>, p: Seq<char>|
        records.contains(u) && !(records.status(u) is Valid) ==> (#[trigger] records.references(
            u,
        ).contains(p) <==> links_to(visited, p, u))
    &&& forall|u: Seq<char>|
        records.contains(u) && records.status(u) is Valid ==> (#[trigger] records.references(
            u,
        )).len() == 0
    &&& forall|u: Seq<char>| #[trigger] records.contains(u) ==> reachable(visited, root, u)
}

/// What recording the verdict on the page at the head of the queue does to
/// the report.
pub open spec fn judged(before: Report, after: Report, page: Seq<char>, status: PageStatus) -> bool {
    &&& after.wf()
    &&& after.contains(page)
    &&& after.keys() == if before.contains(page) {
        before.keys()
    } else {
        before.keys().push(page)
    }
    &&& after.status(page) == status
    &&& after.references(page) == if !before.contains(page) || status is Valid {
        Seq::<Seq<char>>::empty()
    } else {
        before.references(page)
    }
    &&& same_elsewhere(before, after, page)
}

proof fn lemma_concat_contains(a: Seq<Seq<char>>, b: Seq<Seq<char>>, v: Seq<char>)
    ensures
        (a + b).contains(v) <==> a.contains(v) || b.contains(v),
{
    if a.contains(v) {
        let j = choose|j: int| 0 <= j < a.len() && a[j] == v;
        assert((a + b)[j] == v);
    }
    if b.contains(v) {
        let j = choose|j: int| 0 <= j < b.len() && b[j] == v;
        assert((a + b)[a.len() + j] == v);
    }
    if (a + b).contains(v) {
        let j = choose|j: int| 0 <= j < (a + b).len() && (a + b)[j] == v;
        if j < a.len() {
            assert(a[j] == v);
        } else {
            assert(b[j - a.len()] == v);
        }
    }
}

proof fn lemma_rest_contains(q: Seq<Seq<char>>, v: Seq<char>)
    requires
        q.no_duplicates(),
        q.len() > 0,
    ensures
        q.drop_first().contains(v) <==> q.contains(v) && v != q[0],
        q.drop_first().no_duplicates(),
{
    let rest = q.drop_first();
    if rest.contains(v) {
        let j = choose|j: int| 0 <= j < rest.len() && rest[j] == v;
        assert(q[j + 1] == v);
    }
    if q.contains(v) && v != q[0] {
        let j = choose|j: int| 0 <= j < q.len() && q[j] == v;
        assert(rest[j - 1] == v);
    }
}

proof fn lemma_fresh_contains(keys: Seq<Seq<char>>, m: int, v: Seq<char>)
    requires
        keys.no_duplicates(),
        0 <= m <= keys.len(),
    ensures
        keys.subrange(m, keys.len() as int).contains(v) <==> keys.contains(v) && !keys.subrange(
            0,
            m,
        ).contains(v),
        keys.subrange(m, keys.len() as int).no_duplicates(),
{
    let fresh = keys.subrange(m, keys.len() as int);
    let known = keys.subrange(0, m);
    if fresh.contains(v) {
        let j = choose|j: int| 0 <= j < fresh.len() && fresh[j] == v;
        assert(keys[m + j] == v);
        if known.contains(v) {
            let k = choose|k: int| 0 <= k < known.len() && known[k] == v;
            assert(keys[k] == v);
        }
    }
    if keys.contains(v) && !known.contains(v) {
        let j = choose|j: int| 0 <= j < keys.len() && keys[j] == v;
        if j < m {
            assert(known[j] == v);
        }
        assert(fresh[j - m] == v);
    }
}

proof fn lemma_concat_distinct(a: Seq<Seq<char>>, b: Seq<Seq<char>>)
    requires
        a.no_duplicates(),
        b.no_duplicates(),
        forall|v: Seq<char>| #[trigger] a.contains(v) ==> !b.contains(v),
    ensures
        (a + b).no_duplicates(),
{
    assert forall|i: int, j: int| 0 <= i < (a + b).len() && 0 <= j < (a + b).len() && i != j implies (
    a + b)[i] != (a + b)[j] by {
        if i < a.len() && j >= a.len() {
            assert(a.contains(a[i]));
            assert(b[j - a.len()] == (a + b)[j]);
            assert(b.contains(b[j - a.len()]));
        }
        if j < a.len() && i >= a.len() {
            assert(a.contains(a[j]));
            assert(b[i - a.len()] == (a + b)[i]);
            assert(b.contains(b[i - a.len()]));
        }
    }
}

proof fn lemma_repeated_contains(p: Seq<char>, n: nat, q: Seq<char>)
    ensures
        repeated(p, n).contains(q) <==> n > 0 && q == p,
{
    if n > 0 {
        assert(repeated(p, n)[0] == p);
    }
}

/// A trail stays a trail when one more page is checked.
proof fn lemma_trail_stays(
    visited: Map<Seq<char>, Fetched>,
    page: Seq<char>,
    fetched: Fetched,
    path: Seq<Seq<char>>,
)
    requires
        is_trail(visited, path),
        !visited.contains_key(page),
    ensures
        is_trail(visited.insert(page, fetched), path),
{
    let after = visited.insert(page, fetched);
    assert forall|i: int| 0 <= i < path.len() - 1 implies links_to(
        after,
        #[trigger] path[i],
        path[i + 1],
    ) by {
        assert(links_to(visited, path[i], path[i + 1]));
    }
}

/// A trail can be prolonged by a link of its last page.
proof fn lemma_trail_grows(visited: Map<Seq<char>, Fetched>, path: Seq<Seq<char>>, target: Seq<char>)
    requires
        is_trail(visited, path),
        links_to(visited, path.last(), target),
    ensures
        is_trail(visited, path.push(target)),
{
    let longer = path.push(target);
    assert forall|i: int| 0 <= i < longer.len() - 1 implies links_to(
        visited,
        #[trigger] longer[i],
        longer[i + 1],
    ) by {
        if i < path.len() - 1 {
            assert(links_to(visited, path[i], path[i + 1]));
        }
    }
}

/// Checking the page at the head of the queue keeps the run coherent.
proof fn lemma_step(
    root: Seq<char>,
    r0: Report,
    r1: Report,
    r2: Report,
    q0: Seq<Seq<char>>,
    v0: Map<Seq<char>, Fetched>,
    fetched: Fetched,
)
    requires
        coherent(root, r0, q0, v0),
        q0.len() > 0,
        judged(r0, r1, q0[0], verdict(fetched)),
        r2.wf(),
        linked(r1, r2, q0[0], outbound(fetched, q0[0])),
    ensures
        coherent(
            root,
            r2,
            q0.drop_first() + r2.keys().subrange(r1.keys().len() as int, r2.keys().len() as int),
            v0.insert(q0[0], fetched),
        ),
{
    let p = q0[0];
    let found = outbound(fetched, p);
    let fresh = r2.keys().subrange(r1.keys().len() as int, r2.keys().len() as int);
    let q1 = q0.drop_first() + fresh;
    let v1 = v0.insert(p, fetched);
    assert(q0.contains(p));
    assert(!v0.contains_key(p)) by {
        if v0.contains_key(p) {
            assert(r0.contains(p));
        }
    }
    assert(r1.keys().len() > 0);
    assert(r0.keys().len() == 0 ==> q0.drop_first() =~= Seq::<Seq<char>>::empty());
    assert forall|v: Seq<char>| r1.contains(v) implies r0.contains(v) || v == p by {
        let j = choose|j: int| 0 <= j < r1.keys().len() && r1.keys()[j] == v;
        if j < r0.keys().len() {
            assert(r0.keys()[j] == v);
        }
    }
    assert forall|v: Seq<char>| #[trigger]
        q1.contains(v) <==> (q0.contains(v) && v != p) || (r2.contains(v) && !r1.contains(v)) by {
        lemma_concat_contains(q0.drop_first(), fresh, v);
        lemma_rest_contains(q0, v);
        lemma_fresh_contains(r2.keys(), r1.keys().len() as int, v);
    }
    assert(q1.no_duplicates()) by {
        lemma_rest_contains(q0, p);
        lemma_fresh_contains(r2.keys(), r1.keys().len() as int, p);
        assert forall|v: Seq<char>| #[trigger] q0.drop_first().contains(v) implies !fresh.contains(
            v,
        ) by {
            lemma_rest_contains(q0, v);
            lemma_fresh_contains(r2.keys(), r1.keys().len() as int, v);
            assert(q0.contains(v));
            assert(r0.contains(v));
            assert(r1.contains(v));
        }
        lemma_concat_distinct(q0.drop_first(), fresh);
    }
    assert(r2.contains(root)) by {
        if r0.keys().len() == 0 {
            assert(q0[0] == root);
            assert(r1.contains(root));
        } else {
            assert(r0.contains(root));
            assert(r1.contains(root));
        }
        assert(r2.contains(root));
    }
    assert forall|u: Seq<char>| #[trigger] q1.contains(u) implies r2.contains(u) && r2.status(
        u,
    ) is InProgress by {
        if q0.contains(u) && u != p {
            assert(r0.contains(u));
            assert(r1.contains(u));
            assert(r2.contains(u));
        }
    }
    assert forall|u: Seq<char>| #[trigger] r2.contains(u) implies if r2.status(u) is InProgress {
        q1.contains(u)
    } else {
        v1.contains_key(u)
    } by {
        if r1.contains(u) && u != p {
            assert(r0.contains(u));
        }
    }
    assert forall|u: Seq<char>| #[trigger] v1.contains_key(u) implies r2.contains(u) && r2.status(u)
        == verdict(v1[u]) by {
        if u != p {
            assert(v0.contains_key(u));
            assert(r0.contains(u));
        }
        assert(r1.contains(u));
        assert(r2.contains(u));
    }
    assert forall|a: Seq<char>, v: Seq<char>| #[trigger] links_to(v1, a, v) implies r2.contains(v) by {
        if a != p {
            assert(links_to(v0, a, v));
            assert(r0.contains(v));
            assert(r1.contains(v));
        }
        assert(r2.contains(v));
    }
    assert forall|u: Seq<char>, a: Seq<char>|
        r2.contains(u) && !(r2.status(u) is Valid) implies (#[trigger] r2.references(u).contains(a)
        <==> links_to(v1, a, u)) by {
        let k = occurrences(found, u);
        lemma_occurrences(found, u);
        lemma_repeated_contains(p, k, a);
        if a != p {
            assert(links_to(v1, a, u) == links_to(v0, a, u));
        } else {
            assert(links_to(v1, a, u) == found.contains(u));
            assert(!links_to(v0, a, u));
        }
        if !r1.contains(u) {
            assert(!r0.contains(u));
            assert(!links_to(v0, a, u));
        } else if u == p {
            assert(fetched is Err);
            assert(found.len() == 0);
            assert(k == 0);
            assert(r1.references(u) + repeated(p, 0) =~= r1.references(u));
            if r0.contains(p) {
                assert(r0.references(p).contains(a) <==> links_to(v0, a, p));
            } else {
                assert(!links_to(v0, a, p));
            }
        } else {
            assert(r0.contains(u));
            assert(r0.references(u).contains(a) <==> links_to(v0, a, u));
            lemma_concat_contains(r0.references(u), repeated(p, k), a);
        }
    }
    assert forall|u: Seq<char>| r2.contains(u) && r2.status(u) is Valid implies (
    #[trigger] r2.references(u)).len() == 0 by {
        if r1.contains(u) && u != p {
            assert(r0.contains(u));
        }
    }
    assert forall|u: Seq<char>| #[trigger] r2.contains(u) implies reachable(v1, root, u) by {
        let start: Seq<Seq<char>> = if r0.contains(p) {
            choose|path: Seq<Seq<char>>| #[trigger]
                is_trail(v0, path) && path[0] == root && path.last() == p
        } else {
            seq![root]
        };
        if r0.contains(p) {
            assert(reachable(v0, root, p));
        } else {
            assert(r0.keys().len() == 0) by {
                if r0.keys().len() > 0 {
                    assert(r0.contains(p));
                }
            }
            assert(p == root);
        }
        assert(is_trail(v0, start) && start[0] == root && start.last() == p);
        lemma_trail_stays(v0, p, fetched, start);
        if u == p {
            assert(is_trail(v1, start) && start[0] == root && start.last() == u);
        } else if r0.contains(u) {
            assert(reachable(v0, root, u));
            let path = choose|path: Seq<Seq<char>>| #[trigger]
                is_trail(v0, path) && path[0] == root && path.last() == u;
            lemma_trail_stays(v0, p, fetched, path);
            assert(is_trail(v1, path) && path[0] == root && path.last() == u);
        } else {
            assert(!r1.contains(u));
            assert(found.contains(u));
            assert(links_to(v1, p, u));
            lemma_trail_grows(v1, start, u);
            let path = start.push(u);
            assert(is_trail(v1, path) && path[0] == root && path.last() == u);
        }
    }
}

/// What checking `page`, with `fetched` as what came of fetching it, does to
/// a report in which `page` has no verdict yet.
pub open spec fn advanced(before: Report, after: Report, page: Seq<char>, fetched: Fetched) -> bool {
    let found = outbound(fetched, page);
    let known = if before.contains(page) {
        before.keys()
    } else {
        before.keys().push(page)
    };
    &&& after.keys() == discovered(known, found)
    &&& known.len() <= after.keys().len()
    &&& after.contains(page)
    &&& after.status(page) == verdict(fetched)
    &&& after.references(page) == if !before.contains(page) || fetched is Ok {
        Seq::<Seq<char>>::empty()
    } else {
        before.references(page)
    }
    &&& forall|v: Seq<char>|
        after.contains(v) && v != page ==> #[trigger] after.status(v) == if before.contains(v) {
            before.status(v)
        } else {
            PageStatus::InProgress
        }
    &&& forall|v: Seq<char>|
        after.contains(v) && v != page ==> #[trigger] after.references(v) == if !before.contains(v) {
            repeated(page, occurrences(found, v))
        } else if before.status(v) is Valid {
            before.references(v)
        } else {
            before.references(v) + repeated(page, occurrences(found, v))
        }
}

/// The addresses entered by a step that took the report from `before` to
/// `after` while checking `page`, in the order in which they were found.
pub open spec fn newly_found(before: Report, after: Report, page: Seq<char>) -> Seq<Seq<char>> {
    let known = if before.contains(page) {
        before.keys().len()
    } else {
        before.keys().len() + 1
    };
    after.keys().subrange(known as int, after.keys().len() as int)
}

/// The state of one run: the report so far and the two waves of addresses
/// still to check.
pub struct Engine {
    root: Url,
    report: Report,
    current: Vec<Url>,
    cursor: usize,
    upcoming: Vec<Url>,
    visited: Ghost<Map<Seq<char>, Fetched>>,
}

impl Engine {
    /// The address the run started from.
    pub closed spec fn root(&self) -> Seq<char> {
        self.root@
    }

    /// The report so far.
    pub closed spec fn records(&self) -> Report {
        self.report
    }

    /// What came of fetching each page checked so far.
    pub closed spec fn visited(&self) -> Map<Seq<char>, Fetched> {
        self.visited@
    }

    /// What is left of the wave being checked, next address first.
    pub closed spec fn current_wave(&self) -> Seq<Seq<char>> {
        addresses(self.current@.subrange(self.cursor as int, self.current@.len() as int))
    }

    /// The wave discovered while the current one is checked.
    pub closed spec fn next_wave(&self) -> Seq<Seq<char>> {
        addresses(self.upcoming@)
    }

    /// Every address still to check, in the order of checking.
    pub open spec fn queue(&self) -> Seq<Seq<char>> {
        self.current_wave() + self.next_wave()
    }

    /// The run is over: nothing is left to check.
    pub open spec fn finished(&self) -> bool {
        self.queue().len() == 0
    }

    /// The current wave is empty only when the run is over.
    pub closed spec fn shaped(&self) -> bool {
        &&& self.cursor <= self.current@.len()
        &&& self.cursor == self.current@.len() ==> self.upcoming@.len() == 0
    }

    pub open spec fn wf(&self) -> bool {
        &&& self.shaped()
        &&& coherent(self.root(), self.records(), self.queue(), self.visited())
    }

    /// A run that has `root` to check and nothing else, with an empty report.
    pub fn new(root: Url) -> (r: Engine)
        ensures
            r.wf(),
            r.root() == root@,
            r.records().keys() == Seq::<Seq<char>>::empty(),
            r.current_wave() == seq![root@],
            r.next_wave() == Seq::<Seq<char>>::empty(),
            r.visited() == Map::<Seq<char>, Fetched>::empty(),
    {
        let mut current: Vec<Url> = Vec::new();
        current.push(root.clone());
        let r = Engine {
            root,
            report: Report::new(),
            current,
            cursor: 0,
            upcoming: Vec::new(),
            visited: Ghost(Map::empty()),
        };
        proof {
            assert(r.current@.subrange(0, 1) =~= r.current@);
            assert(r.current_wave() =~= seq![root@]);
            assert(r.next_wave() =~= Seq::<Seq<char>>::empty());
            assert(r.queue() =~= seq![root@]);
        }
        r
    }

    /// The address to fetch next, or `None` when the run is over.
    pub fn pending(&self) -> (r: Option<&Url>)
        requires
            self.wf(),
        ensures
            match r {
                Some(u) => self.current_wave().len() > 0 && u@ == self.current_wave()[0],
                None => self.finished(),
            },
    {
        if self.cursor < self.current.len() {
            Some(&self.current[self.cursor])
        } else {
            None
        }
    }

    /// How many addresses of the current wave are still to check.
    pub fn current_wave_len(&self) -> (n: usize)
        requires
            self.wf(),
        ensures
            n == self.current_wave().len(),
    {
        self.current.len() - self.cursor
    }

    /// How many addresses the next wave holds so far.
    pub fn next_wave_len(&self) -> (n: usize)
        ensures
            n == self.next_wave().len(),
    {
        self.upcoming.len()
    }

    /// The report so far.
    pub fn report(&self) -> (r: &Report)
        ensures
            *r == self.records(),
    {
        &self.report
    }

    /// Ends the run and hands out its report.
    pub fn into_report(self) -> (r: Report)
        ensures
            r == self.records(),
    {
        self.report
    }

    /// Checks the pending address, given what came of fetching it: records
    /// its verdict, follows its links, and moves on to the next address, or
    /// to the next wave when this was the last of the current one.
    pub fn advance(&mut self, fetched: Fetched)
        requires
            old(self).wf(),
            !old(self).finished(),
        ensures
            final(self).wf(),
            final(self).root() == old(self).root(),
            final(self).visited() == old(self).visited().insert(old(self).queue()[0], fetched),
            old(self).current_wave().len() > 0,
            advanced(
                old(self).records(),
                final(self).records(),
                old(self).current_wave()[0],
                fetched,
            ),
            keeps_verdicts(old(self).records(), final(self).records()),
            final(self).queue() == old(self).queue().drop_first() + newly_found(
                old(self).records(),
                final(self).records(),
                old(self).current_wave()[0],
            ),
            final(self).current_wave() == if old(self).current_wave().len() == 1 {
                final(self).queue()
            } else {
                old(self).current_wave().drop_first()
            },
    {
        let ghost before = *self;
        let ghost r0 = self.report;
        let ghost q0 = self.queue();
        let ghost v0 = self.visited@;
        let ghost outcome = fetched;
        assert(self.cursor < self.current@.len()) by {
            if self.cursor == self.current@.len() {
                assert(self.queue() =~= Seq::<Seq<char>>::empty());
            }
        }
        let url = self.current[self.cursor].clone();
        let ghost p = url@;
        assert(self.current_wave()[0] == p);
        assert(q0[0] == p);
        assert(q0.contains(p));
        assert(r0.contains(p) ==> r0.status(p) is InProgress);
        let (status, targets) = match check(&url, fetched) {
            Ok(urls) => (PageStatus::Valid, urls),
            Err(e) => (PageStatus::Invalid(e), Vec::new()),
        };
        assert(status == verdict(outcome));
        assert(addresses(targets@) =~= outbound(outcome, p));
        self.report.set_terminal(url.clone(), status);
        let ghost r1 = self.report;
        assert(judged(r0, r1, p, verdict(outcome)));
        let ghost queued = addresses(self.upcoming@);
        note_links(&mut self.report, &mut self.upcoming, &url, &targets);
        let ghost r2 = self.report;
        let ghost fresh = r2.keys().subrange(r1.keys().len() as int, r2.keys().len() as int);
        let wave_len: usize = self.current.len();
        self.cursor = self.cursor + 1;
        self.visited = Ghost(v0.insert(p, outcome));
        proof {
            assert(addresses(
                self.current@.subrange(self.cursor as int, self.current@.len() as int),
            ) =~= before.current_wave().drop_first());
            assert(q0.drop_first() + fresh =~= (before.current_wave().drop_first() + queued)
                + fresh);
            assert(self.queue() =~= q0.drop_first() + fresh);
            assert(fresh == newly_found(r0, r2, p));
            lemma_step(before.root(), r0, r1, r2, q0, v0, outcome);
            assert(advanced(r0, r2, p, outcome)) by {
                assert(r2.contains(p));
                assert forall|v: Seq<char>| r2.contains(v) && v != p implies #[trigger] r2.status(v)
                    == if r0.contains(v) {
                    r0.status(v)
                } else {
                    PageStatus::InProgress
                } by {
                    lemma_known(r0, r1, p, v);
                }
                assert forall|v: Seq<char>|
                    r2.contains(v) && v != p implies #[trigger] r2.references(v) == if !r0.contains(
                    v,
                ) {
                    repeated(p, occurrences(outbound(outcome, p), v))
                } else if r0.status(v) is Valid {
                    r0.references(v)
                } else {
                    r0.references(v) + repeated(p, occurrences(outbound(outcome, p), v))
                } by {
                    lemma_known(r0, r1, p, v);
                }
                if !(outcome is Ok) {
                    assert(r1.references(p) + repeated(p, 0) =~= r1.references(p));
                }
            }
            assert forall|u: Seq<char>| #[trigger]
                r0.contains(u) && r0.status(u).is_terminal() implies r2.contains(u) && r2.status(u)
                == r0.status(u) by {
                lemma_known(r0, r1, p, u);
                assert(r1.contains(u));
                assert(r2.contains(u));
            }
        }
        if self.cursor == wave_len {
            let mut wave: Vec<Url> = Vec::new();
            core::mem::swap(&mut self.upcoming, &mut wave);
            self.current = wave;
            self.cursor = 0;
            proof {
                assert(self.current@.subrange(0, self.current@.len() as int) =~= self.current@);
                assert(before.current_wave().len() == 1);
                assert(self.queue() =~= q0.drop_first() + fresh);
                assert(self.current_wave() =~= self.queue());
            }
        }
    }
}

proof fn lemma_known(r0: Report, r1: Report, p: Seq<char>, v: Seq<char>)
    requires
        r1.keys() == if r0.contains(p) {
            r0.keys()
        } else {
            r0.keys().push(p)
        },
        same_elsewhere(r0, r1, p),
        v != p,
    ensures
        r1.contains(v) == r0.contains(v),
        r0.contains(v) ==> r1.status(v) == r0.status(v) && r1.references(v) == r0.references(v),
{
    if r1.contains(v) {
        let j = choose|j: int| 0 <= j < r1.keys().len() && r1.keys()[j] == v;
        if j < r0.keys().len() {
            assert(r0.keys()[j] == v);
        }
    }
    if r0.contains(v) {
        assert(r1.contains(v));
    }
}

} // verus!
