use vstd::prelude::*;
use crate::engine::{dequeues, enqueues, holds_url, new_links, CrawlEngine, EngineState};
use crate::fetch::{fetch_from_table, spec_fetch_body, spec_fetch_ok, spec_lookup, table_wf, PageResponse};
use crate::page::{get_web_page_info, spec_page_links, title_text_of, trim_of, WebPageInfo};
use crate::urls::url_of;

verus! {

/// Whether processing `u` against the table succeeds outright: the fetch
/// passes every check and the document has a title.
pub open spec fn page_ok(table: Seq<(String, PageResponse)>, u: Seq<char>) -> bool {
    spec_fetch_ok(table, u) && title_text_of(spec_fetch_body(table, u)) is Some
}

/// The links a successfully processed page contributes to the crawl.
pub open spec fn links_of(table: Seq<(String, PageResponse)>, u: Seq<char>) -> Seq<Seq<char>> {
    spec_page_links(spec_fetch_body(table, u))
}

/// What one element produced by a crawl over `table` says: fetching `u`
/// against the table succeeded, the document has a title, and `page` holds
/// that title trimmed together with the document's valid links in order.
pub open spec fn spec_crawl_yield(
    table: Seq<(String, PageResponse)>,
    u: Seq<char>,
    page: WebPageInfo,
) -> bool {
    &&& page_ok(table, u)
    &&& page.title@ == trim_of(title_text_of(spec_fetch_body(table, u))->0)
    &&& page.links.deep_view() == links_of(table, u)
}

/// Whether `u` lies at most `n` successful-link steps from `s0`: the seed
/// itself at zero steps, and otherwise a link of some successfully processed
/// page that lies one step closer.
pub open spec fn reaches(
    table: Seq<(String, PageResponse)>,
    s0: Seq<char>,
    u: Seq<char>,
    n: nat,
) -> bool
    decreases n,
{
    if n == 0 {
        u == s0
    } else {
        exists|v: Seq<char>|
            reaches(table, s0, v, (n - 1) as nat) && page_ok(table, v) && #[trigger] links_of(
                table,
                v,
            ).contains(u)
    }
}

/// Whether `u` is reachable from the seed `s0` through successfully
/// processed pages: the pages a crawl can ever discover.
pub open spec fn spec_reachable(
    table: Seq<(String, PageResponse)>,
    s0: Seq<char>,
    u: Seq<char>,
) -> bool {
    exists|n: nat| reaches(table, s0, u, n)
}

/// A link of a reachable, successfully processed page is reachable.
pub proof fn lemma_reachable_step(
    table: Seq<(String, PageResponse)>,
    s0: Seq<char>,
    v: Seq<char>,
    u: Seq<char>,
)
    requires
        spec_reachable(table, s0, v),
        page_ok(table, v),
        links_of(table, v).contains(u),
    ensures
        spec_reachable(table, s0, u),
{
    let n = choose|n: nat| reaches(table, s0, v, n);
    assert(reaches(table, s0, v, ((n + 1) - 1) as nat));
    assert(reaches(table, s0, u, n + 1));
}

/// Every crawl state keeps to the reachable URLs: whatever stands in the
/// frontier or in the visited set can be reached from the seed.
pub open spec fn state_sound(
    table: Seq<(String, PageResponse)>,
    s0: Seq<char>,
    st: EngineState,
) -> bool {
    (forall|i: int|
        0 <= i < st.frontier.len() ==> spec_reachable(table, s0, #[trigger] st.frontier[i]))
        && (forall|u: Seq<char>| #[trigger]
        st.visited.contains(u) ==> spec_reachable(table, s0, u))
}

/// The crawl never loses a discovery: each link of a visited page that was
/// processed successfully is itself visited or still waiting in the
/// frontier.
pub open spec fn state_closed(table: Seq<(String, PageResponse)>, st: EngineState) -> bool {
    forall|u: Seq<char>, l: Seq<char>|
        st.visited.contains(u) && page_ok(table, u) && #[trigger] links_of(table, u).contains(l)
            ==> st.visited.contains(l) || st.frontier.contains(l)
}

/// Once the frontier is exhausted, the visited set covers everything
/// reachable: no page a crawl could ever discover was left out.
pub proof fn lemma_exhausted_covers_reachable(
    table: Seq<(String, PageResponse)>,
    s0: Seq<char>,
    st: EngineState,
    u: Seq<char>,
    n: nat,
)
    requires
        state_closed(table, st),
        st.frontier.len() == 0,
        st.visited.contains(s0),
        reaches(table, s0, u, n),
    ensures
        st.visited.contains(u),
    decreases n,
{
    if n > 0 {
        let v = choose|v: Seq<char>|
            reaches(table, s0, v, (n - 1) as nat) && page_ok(table, v) && #[trigger] links_of(
                table,
                v,
            ).contains(u);
        lemma_exhausted_covers_reachable(table, s0, st, v, (n - 1) as nat);
    }
}

/// The crawl never loses a discovery, short of one page: like
/// `state_closed`, but with nothing said of the links of `u` — the state in
/// the middle of a visit, after `u` was dequeued and before its links were
/// enqueued.
pub open spec fn state_closed_except(
    table: Seq<(String, PageResponse)>,
    st: EngineState,
    u: Seq<char>,
) -> bool {
    forall|w: Seq<char>, l: Seq<char>|
        st.visited.contains(w) && w != u && page_ok(table, w) && #[trigger] links_of(
            table,
            w,
        ).contains(l) ==> st.visited.contains(l) || st.frontier.contains(l)
}

/// What one dequeue does to the crawl's global picture: every URL the state
/// held is still held, soundness is kept, the closure can lack at most the
/// dequeued page, and the visited set gains exactly that page.
pub proof fn lemma_dequeue_preserves(
    table: Seq<(String, PageResponse)>,
    pre: EngineState,
    post: EngineState,
    u: Seq<char>,
)
    requires
        dequeues(pre, post, u),
    ensures
        forall|s: Seq<char>| #[trigger] holds_url(pre, s) ==> holds_url(post, s),
        forall|s0: Seq<char>| #[trigger]
            state_sound(table, s0, pre) ==> state_sound(table, s0, post),
        state_closed(table, pre) ==> state_closed_except(table, post, u),
        forall|w: Seq<char>| #[trigger] post.visited.contains(w) ==> pre.visited.contains(w) || w == u,
        post.visited.contains(u),
        pre.visited.subset_of(post.visited),
{
    let k = choose|k: int|
        #![auto]
        0 <= k < pre.frontier.len() && pre.frontier[k] == u && (forall|i: int|
            0 <= i < k ==> pre.visited.contains(#[trigger] pre.frontier[i]))
            && !pre.visited.contains(u) && post.frontier == pre.frontier.skip(k + 1)
            && post.visited == pre.visited.insert(u);
    assert forall|s: Seq<char>| #[trigger] holds_url(pre, s) implies holds_url(post, s) by {
        if pre.frontier.contains(s) && !pre.visited.contains(s) {
            let i = choose|i: int| 0 <= i < pre.frontier.len() && pre.frontier[i] == s;
            if i < k {
                assert(pre.visited.contains(pre.frontier[i]));
            } else if i > k {
                assert(post.frontier[i - (k + 1)] == s);
                assert(post.frontier.contains(s));
            }
        }
    }
    assert forall|s0: Seq<char>| #[trigger]
        state_sound(table, s0, pre) implies state_sound(table, s0, post) by {
        assert forall|i: int|
            0 <= i < post.frontier.len() implies spec_reachable(
            table,
            s0,
            #[trigger] post.frontier[i],
        ) by {
            assert(post.frontier[i] == pre.frontier[k + 1 + i]);
        }
        assert(pre.frontier[k] == u);
        assert(spec_reachable(table, s0, u));
        assert forall|w: Seq<char>| #[trigger]
            post.visited.contains(w) implies spec_reachable(table, s0, w) by {
            if w != u {
                assert(pre.visited.contains(w));
            }
        }
    }
    if state_closed(table, pre) {
        assert forall|w: Seq<char>, l: Seq<char>|
            post.visited.contains(w) && w != u && page_ok(table, w) && #[trigger] links_of(
            table,
            w,
        ).contains(l) implies post.visited.contains(l) || post.frontier.contains(l) by {
            assert(pre.visited.contains(w));
            assert(pre.visited.contains(l) || pre.frontier.contains(l));
            assert(holds_url(pre, l));
            assert(holds_url(post, l));
        }
    }
}

/// What enqueuing the links of the just-visited page `u` restores: every URL
/// still held, soundness kept — the new frontier entries are links of the
/// reachable page `u` — and the closure whole again.
pub proof fn lemma_enqueue_preserves(
    table: Seq<(String, PageResponse)>,
    pre: EngineState,
    post: EngineState,
    u: Seq<char>,
)
    requires
        enqueues(pre, post, links_of(table, u)),
        pre.visited.contains(u),
        page_ok(table, u),
    ensures
        forall|s: Seq<char>| #[trigger] holds_url(pre, s) ==> holds_url(post, s),
        forall|s0: Seq<char>| #[trigger]
            state_sound(table, s0, pre) ==> state_sound(table, s0, post),
        state_closed_except(table, pre, u) ==> state_closed(table, post),
{
    let links = links_of(table, u);
    let fresh = crate::engine::new_links(links, pre.visited);
    crate::engine::lemma_new_links_mem(links, pre.visited);
    assert forall|s: Seq<char>| #[trigger] holds_url(pre, s) implies holds_url(post, s) by {
        if pre.frontier.contains(s) {
            let i = choose|i: int| 0 <= i < pre.frontier.len() && pre.frontier[i] == s;
            assert(post.frontier[i] == s);
            assert(post.frontier.contains(s));
        }
    }
    assert forall|s0: Seq<char>| #[trigger]
        state_sound(table, s0, pre) implies state_sound(table, s0, post) by {
        assert forall|i: int|
            0 <= i < post.frontier.len() implies spec_reachable(
            table,
            s0,
            #[trigger] post.frontier[i],
        ) by {
            if i < pre.frontier.len() {
                assert(post.frontier[i] == pre.frontier[i]);
            } else {
                let l = post.frontier[i];
                assert(l == fresh[i - pre.frontier.len()]);
                assert(fresh.contains(l));
                assert(links.contains(l));
                lemma_reachable_step(table, s0, u, l);
            }
        }
    }
    if state_closed_except(table, pre, u) {
        assert forall|w: Seq<char>, l: Seq<char>|
            post.visited.contains(w) && page_ok(table, w) && #[trigger] links_of(
            table,
            w,
        ).contains(l) implies post.visited.contains(l) || post.frontier.contains(l) by {
            if w == u {
                if !pre.visited.contains(l) {
                    let i = choose|i: int| 0 <= i < links.len() && links[i] == l;
                    assert(fresh.contains(links[i]));
                    let j = choose|j: int| 0 <= j < fresh.len() && fresh[j] == l;
                    assert(post.frontier[pre.frontier.len() + j] == l);
                    assert(post.frontier.contains(l));
                }
            } else {
                assert(pre.visited.contains(l) || pre.frontier.contains(l));
                assert(holds_url(pre, l));
                assert(holds_url(post, l));
            }
        }
    }
}

/// How many table entries hold a URL not yet visited. It bounds the number
/// of pages a crawl can still yield, and shrinks as the visited set grows:
/// the measure by which every crawl over a finite table terminates.
pub open spec fn unvisited_count(
    table: Seq<(String, PageResponse)>,
    visited: Set<Seq<char>>,
) -> nat
    decreases table.len(),
{
    if table.len() == 0 {
        0
    } else {
        (if visited.contains(table[0].0@) {
            0nat
        } else {
            1nat
        }) + unvisited_count(table.skip(1), visited)
    }
}

/// Growing the visited set never grows the count of unvisited entries.
pub proof fn lemma_unvisited_count_monotone(
    table: Seq<(String, PageResponse)>,
    v1: Set<Seq<char>>,
    v2: Set<Seq<char>>,
)
    requires
        v1.subset_of(v2),
    ensures
        unvisited_count(table, v2) <= unvisited_count(table, v1),
    decreases table.len(),
{
    if table.len() > 0 {
        lemma_unvisited_count_monotone(table.skip(1), v1, v2);
    }
}

/// Visiting a URL the table holds strictly shrinks the count of unvisited
/// entries.
pub proof fn lemma_unvisited_count_insert(
    table: Seq<(String, PageResponse)>,
    visited: Set<Seq<char>>,
    u: Seq<char>,
)
    requires
        spec_lookup(table, u) is Some,
        !visited.contains(u),
    ensures
        unvisited_count(table, visited.insert(u)) < unvisited_count(table, visited),
    decreases table.len(),
{
    assert(visited.subset_of(visited.insert(u)));
    if table[0].0@ == u {
        lemma_unvisited_count_monotone(table.skip(1), visited, visited.insert(u));
    } else {
        lemma_unvisited_count_insert(table.skip(1), visited, u);
    }
}

/// The URLs a crawl yields from a given frontier and visited set, written
/// as the engine's strict FIFO policy in one function: the front of the
/// frontier is popped; an entry already visited is dropped; an unvisited one
/// is marked visited and — when its page fetches and extracts — yielded,
/// with its not-yet-visited links appended at the back in page order. This
/// sequence is the exact breadth-first yield order of a crawl.
pub open spec fn spec_crawl_order(
    table: Seq<(String, PageResponse)>,
    frontier: Seq<Seq<char>>,
    visited: Set<Seq<char>>,
) -> Seq<Seq<char>>
    decreases unvisited_count(table, visited), frontier.len(),
    via spec_crawl_order_decreases
{
    if frontier.len() == 0 {
        Seq::empty()
    } else {
        let u = frontier.first();
        let rest = frontier.drop_first();
        if visited.contains(u) {
            spec_crawl_order(table, rest, visited)
        } else if page_ok(table, u) {
            seq![u] + spec_crawl_order(
                table,
                rest + new_links(links_of(table, u), visited.insert(u)),
                visited.insert(u),
            )
        } else {
            spec_crawl_order(table, rest, visited.insert(u))
        }
    }
}

#[via_fn]
proof fn spec_crawl_order_decreases(
    table: Seq<(String, PageResponse)>,
    frontier: Seq<Seq<char>>,
    visited: Set<Seq<char>>,
) {
    if frontier.len() > 0 {
        let u = frontier.first();
        if !visited.contains(u) {
            if page_ok(table, u) {
                lemma_unvisited_count_insert(table, visited, u);
            } else {
                assert(visited.subset_of(visited.insert(u)));
                lemma_unvisited_count_monotone(table, visited, visited.insert(u));
            }
        }
    }
}

/// Entries at the front of the frontier that were already visited change
/// nothing of what the crawl still yields: they are dropped one by one.
proof fn lemma_crawl_order_skip(
    table: Seq<(String, PageResponse)>,
    frontier: Seq<Seq<char>>,
    visited: Set<Seq<char>>,
    k: int,
)
    requires
        0 <= k <= frontier.len(),
        forall|i: int| 0 <= i < k ==> visited.contains(#[trigger] frontier[i]),
    ensures
        spec_crawl_order(table, frontier, visited) == spec_crawl_order(
            table,
            frontier.skip(k),
            visited,
        ),
    decreases k,
{
    if k == 0 {
        assert(frontier.skip(0) =~= frontier);
    } else {
        let rest = frontier.drop_first();
        assert(visited.contains(frontier.first()));
        assert(spec_crawl_order(table, frontier, visited) == spec_crawl_order(
            table,
            rest,
            visited,
        ));
        assert forall|i: int| 0 <= i < k - 1 implies visited.contains(#[trigger] rest[i]) by {
            assert(rest[i] == frontier[i + 1]);
        }
        lemma_crawl_order_skip(table, rest, visited, k - 1);
        assert(rest.skip(k - 1) =~= frontier.skip(k));
    }
}

/// A frontier whose every entry was already visited yields nothing more.
proof fn lemma_crawl_order_exhausted(
    table: Seq<(String, PageResponse)>,
    frontier: Seq<Seq<char>>,
    visited: Set<Seq<char>>,
)
    requires
        forall|i: int| 0 <= i < frontier.len() ==> visited.contains(#[trigger] frontier[i]),
    ensures
        spec_crawl_order(table, frontier, visited) == Seq::<Seq<char>>::empty(),
{
    lemma_crawl_order_skip(table, frontier, visited, frontier.len() as int);
    assert(frontier.skip(frontier.len() as int).len() == 0);
}

/// What one dequeue means for the yield order: a page that fails changes
/// nothing of what the crawl still yields, and a page that succeeds is
/// exactly its head, the rest to come from the frontier with that page's
/// fresh links at the back.
proof fn lemma_crawl_order_dequeue(
    table: Seq<(String, PageResponse)>,
    pre: EngineState,
    post: EngineState,
    u: Seq<char>,
)
    requires
        dequeues(pre, post, u),
    ensures
        !page_ok(table, u) ==> spec_crawl_order(table, post.frontier, post.visited)
            == spec_crawl_order(table, pre.frontier, pre.visited),
        page_ok(table, u) ==> spec_crawl_order(table, pre.frontier, pre.visited) == seq![u]
            + spec_crawl_order(
            table,
            post.frontier + new_links(links_of(table, u), post.visited),
            post.visited,
        ),
{
    let k = choose|k: int|
        #![auto]
        0 <= k < pre.frontier.len() && pre.frontier[k] == u && (forall|i: int|
            0 <= i < k ==> pre.visited.contains(#[trigger] pre.frontier[i]))
            && !pre.visited.contains(u) && post.frontier == pre.frontier.skip(k + 1)
            && post.visited == pre.visited.insert(u);
    lemma_crawl_order_skip(table, pre.frontier, pre.visited, k);
    let tail = pre.frontier.skip(k);
    assert(tail[0] == pre.frontier[k]);
    assert(tail.first() == u);
    assert(tail.drop_first() =~= pre.frontier.skip(k + 1));
    assert(tail.drop_first() == post.frontier);
}

/// A pull-based generator over the results of one crawl, driven by a table
/// of canned responses: each call of `next` resumes the crawl where it
/// stopped, performs fetch and extract attempts until one page succeeds or
/// the frontier runs out, and suspends again. Per-page failures are absorbed:
/// they skip the page and never reach the caller.
pub struct GenIter {
    engine: CrawlEngine,
    pages: Vec<(String, PageResponse)>,
}

impl GenIter {
    /// The crawl state this generator has reached.
    pub closed spec fn engine_state(&self) -> EngineState {
        self.engine@
    }

    /// The response table this generator draws from.
    pub closed spec fn table(&self) -> Seq<(String, PageResponse)> {
        self.pages@
    }

    /// Starts a crawl from one seed value over a table of canned responses.
    /// A seed that does not parse as a URL leaves the frontier empty, so the
    /// sequence ends at once, with nothing fetched and no error.
    pub fn new(seed: &str, pages: Vec<(String, PageResponse)>) -> (it: Self)
        ensures
            it.table() == pages@,
            it.engine_state().visited == Set::<Seq<char>>::empty(),
            it.engine_state().frontier == match url_of(seed@) {
                Some(u) => seq![u],
                None => Seq::<Seq<char>>::empty(),
            },
    {
        GenIter { engine: CrawlEngine::new(seed), pages }
    }

    /// Produces the next successfully processed page, or `None` when the
    /// crawl is exhausted. The produced URL is exactly the head of the
    /// crawl's remaining FIFO yield order (`spec_crawl_order`); it was never
    /// produced before — it enters the visited set at this moment — and its
    /// page information is exactly what fetching and extracting it against
    /// the table gives. Exhaustion is idempotent: once the frontier is empty
    /// the state never changes again and every further call reports `None`.
    pub fn next(&mut self) -> (r: Option<(String, WebPageInfo)>)
        requires
            table_wf(old(self).table()),
        ensures
            final(self).table() == old(self).table(),
            old(self).engine_state().visited.subset_of(final(self).engine_state().visited),
            r matches Some(item) ==> !old(self).engine_state().visited.contains(item.0@)
                && final(self).engine_state().visited.contains(item.0@) && spec_crawl_yield(
                old(self).table(),
                item.0@,
                item.1,
            ),
            r is None ==> final(self).engine_state().frontier.len() == 0,
            old(self).engine_state().frontier.len() == 0 ==> r is None
                && final(self).engine_state() == old(self).engine_state(),
            forall|s: Seq<char>| #[trigger]
                holds_url(old(self).engine_state(), s) ==> holds_url(
                    final(self).engine_state(),
                    s,
                ),
            forall|s0: Seq<char>| #[trigger]
                state_sound(old(self).table(), s0, old(self).engine_state()) ==> state_sound(
                    old(self).table(),
                    s0,
                    final(self).engine_state(),
                ),
            state_closed(old(self).table(), old(self).engine_state()) ==> state_closed(
                old(self).table(),
                final(self).engine_state(),
            ),
            forall|w: Seq<char>| #[trigger]
                final(self).engine_state().visited.contains(w) ==> old(
                    self,
                ).engine_state().visited.contains(w) || !page_ok(old(self).table(), w) || (
                r matches Some(item) && w == item.0@),
            r matches Some(item) ==> spec_crawl_order(
                old(self).table(),
                old(self).engine_state().frontier,
                old(self).engine_state().visited,
            ) == seq![item.0@] + spec_crawl_order(
                old(self).table(),
                final(self).engine_state().frontier,
                final(self).engine_state().visited,
            ),
            r is None ==> spec_crawl_order(
                old(self).table(),
                old(self).engine_state().frontier,
                old(self).engine_state().visited,
            ) == Seq::<Seq<char>>::empty(),
    {
        let ghost orig = self.engine_state();
        let ghost table0 = self.pages@;
        loop
            invariant
                self.pages@ == table0,
                table0 == old(self).table(),
                table_wf(table0),
                orig == old(self).engine_state(),
                orig.visited.subset_of(self.engine@.visited),
                self.engine@.frontier.len() <= orig.frontier.len(),
                orig.frontier.len() == 0 ==> self.engine@ == orig,
                forall|s: Seq<char>| #[trigger]
                    holds_url(orig, s) ==> holds_url(self.engine@, s),
                forall|s0: Seq<char>| #[trigger]
                    state_sound(table0, s0, orig) ==> state_sound(table0, s0, self.engine@),
                state_closed(table0, orig) ==> state_closed(table0, self.engine@),
                forall|w: Seq<char>| #[trigger]
                    self.engine@.visited.contains(w) ==> orig.visited.contains(w) || !page_ok(
                        table0,
                        w,
                    ),
                spec_crawl_order(table0, self.engine@.frontier, self.engine@.visited)
                    == spec_crawl_order(table0, orig.frontier, orig.visited),
            decreases self.engine@.frontier.len(),
        {
            let ghost pre = self.engine@;
            match self.engine.begin_visit() {
                None => {
                    proof {
                        lemma_crawl_order_exhausted(table0, pre.frontier, pre.visited);
                    }
                    return None;
                },
                Some(u) => {
                    proof {
                        lemma_dequeue_preserves(table0, pre, self.engine@, u@);
                        lemma_crawl_order_dequeue(table0, pre, self.engine@, u@);
                    }
                    let ghost mid = self.engine@;
                    match fetch_from_table(&self.pages, &u) {
                        Ok(body) => {
                            match get_web_page_info(body.as_str()) {
                                Ok(page) => {
                                    proof {
                                        assert(page_ok(table0, u@));
                                        assert(page.links.deep_view() == links_of(table0, u@));
                                    }
                                    self.engine.enqueue_links(&page);
                                    proof {
                                        assert(self.engine@.frontier == mid.frontier + new_links(
                                            links_of(table0, u@),
                                            mid.visited,
                                        ));
                                        assert(spec_crawl_order(table0, pre.frontier, pre.visited)
                                            == seq![u@] + spec_crawl_order(
                                            table0,
                                            self.engine@.frontier,
                                            self.engine@.visited,
                                        ));
                                        lemma_enqueue_preserves(table0, mid, self.engine@, u@);
                                        assert forall|s0: Seq<char>| #[trigger]
                                            state_sound(table0, s0, orig) implies state_sound(
                                            table0,
                                            s0,
                                            self.engine@,
                                        ) by {
                                            assert(state_sound(table0, s0, pre));
                                            assert(state_sound(table0, s0, mid));
                                        }
                                    }
                                    return Some((u, page));
                                },
                                Err(_) => {
                                    proof {
                                        assert(!page_ok(table0, u@));
                                    }
                                },
                            }
                        },
                        Err(_) => {
                            proof {
                                assert(!page_ok(table0, u@));
                            }
                        },
                    }
                    proof {
                        assert forall|s0: Seq<char>| #[trigger]
                            state_sound(table0, s0, orig) implies state_sound(
                            table0,
                            s0,
                            self.engine@,
                        ) by {
                            assert(state_sound(table0, s0, pre));
                        }
                        if state_closed(table0, orig) {
                            assert(state_closed(table0, pre));
                            assert(state_closed_except(table0, self.engine@, u@));
                            assert(state_closed(table0, self.engine@));
                        }
                    }
                },
            }
        }
    }
}

/// The URLs of a crawl's output, in output order.
pub open spec fn crawled_urls(r: Seq<(String, WebPageInfo)>) -> Seq<Seq<char>> {
    r.map_values(|e: (String, WebPageInfo)| e.0@)
}

/// The frontier a crawl starts from: the parsed seed, or nothing at all
/// when the seed does not parse.
pub open spec fn seed_frontier(seed: Seq<char>) -> Seq<Seq<char>> {
    match url_of(seed) {
        Some(u) => seq![u],
        None => Seq::<Seq<char>>::empty(),
    }
}

/// Runs one crawl to exhaustion over a table of canned responses and
/// collects its elements, in exactly the breadth-first FIFO order that
/// `spec_crawl_order` spells out from the seed. Every element is a
/// successfully fetched and extracted page of the table, no URL appears
/// twice, and a seed that does not parse yields nothing. That the loop provably terminates on every
/// table, cyclic link graphs included, is the engine's cycle safety: only
/// pages never visited before can be produced, and the table offers finitely
/// many.
pub fn crawl_all(seed: &str, pages: Vec<(String, PageResponse)>) -> (r: Vec<
    (String, WebPageInfo),
>)
    requires
        table_wf(pages@),
    ensures
        forall|i: int|
            0 <= i < r@.len() ==> spec_crawl_yield(pages@, #[trigger] r@[i].0@, r@[i].1),
        forall|i: int, j: int| 0 <= i < j < r@.len() ==> r@[i].0@ != r@[j].0@,
        url_of(seed@) is None ==> r@.len() == 0,
        url_of(seed@) matches Some(s0) ==> (forall|i: int|
            0 <= i < r@.len() ==> spec_reachable(pages@, s0, #[trigger] r@[i].0@)),
        url_of(seed@) matches Some(s0) ==> (forall|u: Seq<char>|
            spec_reachable(pages@, s0, u) && #[trigger] page_ok(pages@, u) ==> exists|i: int|
                0 <= i < r@.len() && #[trigger] r@[i].0@ == u),
        crawled_urls(r@) == spec_crawl_order(
            pages@,
            seed_frontier(seed@),
            Set::<Seq<char>>::empty(),
        ),
{
    let ghost table0 = pages@;
    let mut it = GenIter::new(seed, pages);
    let mut out: Vec<(String, WebPageInfo)> = Vec::new();
    proof {
        if url_of(seed@) is Some {
            let s0 = url_of(seed@)->0;
            assert(reaches(table0, s0, s0, 0));
            assert(it.engine_state().frontier[0] == s0);
            assert(it.engine_state().frontier.contains(s0));
            assert(state_sound(table0, s0, it.engine_state()));
        }
        assert(it.engine_state().frontier == seed_frontier(seed@));
        assert(crawled_urls(out@) =~= Seq::<Seq<char>>::empty());
        assert(Seq::<Seq<char>>::empty() + spec_crawl_order(
            table0,
            seed_frontier(seed@),
            Set::<Seq<char>>::empty(),
        ) =~= spec_crawl_order(table0, seed_frontier(seed@), Set::<Seq<char>>::empty()));
    }
    loop
        invariant
            table0 == pages@,
            table_wf(table0),
            it.table() == table0,
            forall|i: int|
                0 <= i < out@.len() ==> spec_crawl_yield(table0, #[trigger] out@[i].0@, out@[i].1),
            forall|i: int|
                0 <= i < out@.len() ==> it.engine_state().visited.contains(#[trigger] out@[i].0@),
            forall|i: int, j: int| 0 <= i < j < out@.len() ==> out@[i].0@ != out@[j].0@,
            url_of(seed@) is None ==> out@.len() == 0 && it.engine_state().frontier.len() == 0,
            url_of(seed@) matches Some(s0) ==> state_sound(table0, s0, it.engine_state()),
            url_of(seed@) matches Some(s0) ==> holds_url(it.engine_state(), s0),
            state_closed(table0, it.engine_state()),
            forall|w: Seq<char>| #[trigger]
                it.engine_state().visited.contains(w) && page_ok(table0, w) ==> exists|i: int|
                    0 <= i < out@.len() && #[trigger] out@[i].0@ == w,
            crawled_urls(out@) + spec_crawl_order(
                table0,
                it.engine_state().frontier,
                it.engine_state().visited,
            ) == spec_crawl_order(table0, seed_frontier(seed@), Set::<Seq<char>>::empty()),
        decreases unvisited_count(table0, it.engine_state().visited),
    {
        let ghost pre = it.engine_state();
        let ghost out0 = out@;
        match it.next() {
            None => {
                proof {
                    assert(crawled_urls(out@) + Seq::<Seq<char>>::empty() =~= crawled_urls(out@));
                    if url_of(seed@) is Some {
                        let s0 = url_of(seed@)->0;
                        let st = it.engine_state();
                        assert(st.visited.contains(s0));
                        assert forall|u: Seq<char>|
                            spec_reachable(table0, s0, u) && #[trigger] page_ok(
                            table0,
                            u,
                        ) implies exists|i: int|
                            0 <= i < out@.len() && #[trigger] out@[i].0@ == u by {
                            let n = choose|n: nat| reaches(table0, s0, u, n);
                            lemma_exhausted_covers_reachable(table0, s0, st, u, n);
                        }
                        assert forall|i: int| 0 <= i < out@.len() implies spec_reachable(
                            table0,
                            s0,
                            #[trigger] out@[i].0@,
                        ) by {
                            assert(st.visited.contains(out@[i].0@));
                        }
                    }
                }
                return out;
            },
            Some(item) => {
                proof {
                    assert(spec_fetch_ok(table0, item.0@));
                    lemma_unvisited_count_insert(table0, pre.visited, item.0@);
                    assert(pre.visited.insert(item.0@).subset_of(it.engine_state().visited));
                    lemma_unvisited_count_monotone(
                        table0,
                        pre.visited.insert(item.0@),
                        it.engine_state().visited,
                    );
                    if url_of(seed@) is Some {
                        let s0 = url_of(seed@)->0;
                        assert(state_sound(table0, s0, pre));
                        assert(holds_url(pre, s0));
                    }
                }
                out.push(item);
                proof {
                    assert(crawled_urls(out@) =~= crawled_urls(out0).push(item.0@));
                    assert(crawled_urls(out0).push(item.0@) + spec_crawl_order(
                        table0,
                        it.engine_state().frontier,
                        it.engine_state().visited,
                    ) =~= crawled_urls(out0) + (seq![item.0@] + spec_crawl_order(
                        table0,
                        it.engine_state().frontier,
                        it.engine_state().visited,
                    )));
                    assert forall|w: Seq<char>| #[trigger]
                        it.engine_state().visited.contains(w) && page_ok(
                        table0,
                        w,
                    ) implies exists|i: int| 0 <= i < out@.len() && #[trigger] out@[i].0@ == w by {
                        if w == item.0@ {
                            assert(out@[out0.len() as int].0@ == w);
                        } else if pre.visited.contains(w) {
                            let i = choose|i: int| 0 <= i < out0.len() && #[trigger] out0[i].0@ == w;
                            assert(out@[i].0@ == w);
                        }
                    }
                }
            },
        }
    }
}

} // verus!

